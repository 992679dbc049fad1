//! One evaluation round.
//!
//! Every stale cell gets a write-once slot. Literal cells resolve at once;
//! script cells run as Lua coroutines that the scheduler resumes one step
//! at a time. A script's request for a peer cell adds the dependency edge,
//! runs the cycle check, and either answers from a slot or the committed
//! store, or suspends the asking task and starts the peer's own task. A
//! step budget guards against scripts that never finish; cells cut off by
//! it still receive a value, so every slot is written.

use vstd::prelude::*;
use vstd::string::StrSliceExecFns;
use vstd::string::StringExecFns;

use crate::graph::DepGraph;
use crate::map::AddrMap;
use crate::map::AddrSet;
use crate::pos::CellPos;
use crate::script;
use crate::script::ResumeArg;
use crate::script::ScriptVal;
use crate::script::Step;
use crate::slice::SlicePos;
use crate::value::ErrKind;
use crate::value::TableError;
use crate::value::TableValue;
use crate::value::ValueView;

verus! {

/// Resume steps one round may spend before it cuts the remaining scripts
/// off. The engine has no cancellation, so this budget is the documented
/// guard against scripts that never finish.
pub const EVAL_FUEL: u64 = 200_000;

/// How one cell's source is treated.
pub enum CellPlan {
    /// Shown as text, as written (after an optional leading escape).
    Literal(String),
    /// The text after the leading `=`, to run as a script.
    Script(String),
}

/// Spec-level counterpart of `CellPlan`.
pub enum PlanView {
    Literal(Seq<char>),
    Script(Seq<char>),
}

/// A leading `=` makes a script; a leading backslash is stripped and the
/// rest is literal text; anything else is literal text as written.
pub open spec fn plan_of(s: Seq<char>) -> PlanView {
    if s.len() > 0 && s[0] == '=' {
        PlanView::Script(s.drop_first())
    } else if s.len() > 0 && s[0] == '\\' {
        PlanView::Literal(s.drop_first())
    } else {
        PlanView::Literal(s)
    }
}

/// Classifies one cell source.
pub fn cell_plan(s: &str) -> (r: CellPlan)
    ensures
        match r {
            CellPlan::Literal(t) => plan_of(s@) == PlanView::Literal(t@),
            CellPlan::Script(t) => plan_of(s@) == PlanView::Script(t@),
        },
{
    let n: usize = s.unicode_len();
    if n == 0 {
        return CellPlan::Literal(s.to_owned());
    }
    let c: char = s.get_char(0);
    if c == '=' {
        let rest: &str = s.substring_char(1, n);
        proof {
            assert(rest@ =~= s@.drop_first());
        }
        CellPlan::Script(rest.to_owned())
    } else if c == '\\' {
        let rest: &str = s.substring_char(1, n);
        proof {
            assert(rest@ =~= s@.drop_first());
        }
        CellPlan::Literal(rest.to_owned())
    } else {
        CellPlan::Literal(s.to_owned())
    }
}

/// Saturating signed addition.
pub open spec fn sat_add(a: int, b: int) -> int {
    if a + b > i64::MAX {
        i64::MAX as int
    } else if a + b < i64::MIN {
        i64::MIN as int
    } else {
        a + b
    }
}

/// Adds without overflow, clamping at the ends of the `i64` range.
pub fn sat_add_i64(a: i64, b: i64) -> (r: i64)
    ensures
        r as int == sat_add(a as int, b as int),
{
    if b >= 0 {
        if a > i64::MAX - b {
            i64::MAX
        } else {
            a + b
        }
    } else {
        if a < i64::MIN - b {
            i64::MIN
        } else {
            a + b
        }
    }
}

/// The absolute cell a `REL(dx, dy)` names from `pos`, if it is a real
/// address: negative coordinates or coordinates beyond the bound name no
/// cell.
pub fn rel_target(pos: &CellPos, dx: i64, dy: i64) -> (r: Option<CellPos>)
    requires
        pos.wf(),
    ensures
        pos.x + dx < 0 || pos.y + dy < 0 || pos.x + dx >= crate::pos::COORD_BOUND || pos.y + dy
            >= crate::pos::COORD_BOUND ==> r is None,
        0 <= pos.x + dx < crate::pos::COORD_BOUND && 0 <= pos.y + dy < crate::pos::COORD_BOUND
            ==> (r matches Some(p) && p.x == pos.x + dx && p.y == pos.y + dy && p.wf()),
    {
    let tx: i128 = pos.x as i128 + dx as i128;
    let ty: i128 = pos.y as i128 + dy as i128;
    if tx < 0 || ty < 0 || tx >= 0x4000_0000i128 || ty >= 0x4000_0000i128 {
        None
    } else {
        Some(CellPos { x: tx as usize, y: ty as usize })
    }
}

/// What the engine does with a value handed back to a script: empty cells
/// read as nil, text and numbers as themselves; a script error is rethrown
/// inside the asking script, a cycle error fails the asking cell outright,
/// and any other error reads as its message text.
pub enum Answer {
    Resume(ResumeArg),
    Fail(TableError),
}

pub fn answer_of(v: &TableValue) -> (r: Answer)
    ensures
        v@ matches ValueView::Empty ==> r matches Answer::Resume(a) && a == ResumeArg::Nil,
        v@ matches ValueView::Text(t) ==> r matches Answer::Resume(ResumeArg::Text(s)) && s@ == t,
        v@ matches ValueView::Number(n) ==> r matches Answer::Resume(ResumeArg::Int(i)) && i as int
            == n,
        v@ matches ValueView::Error(ErrKind::Script, m) ==> r matches Answer::Resume(
            ResumeArg::Raise(s),
        ) && s@ == m,
        v@ matches ValueView::Error(ErrKind::Cycle, m) ==> r matches Answer::Fail(e) && e.kind
            == ErrKind::Cycle && e.message@ == m,
        v@ matches ValueView::Error(ErrKind::Other, m) ==> r matches Answer::Resume(
            ResumeArg::Text(s),
        ) && s@ == m,
{
    match v {
        TableValue::Empty => Answer::Resume(ResumeArg::Nil),
        TableValue::Text(s) => Answer::Resume(ResumeArg::Text(s.clone())),
        TableValue::Number(n) => Answer::Resume(ResumeArg::Int(*n)),
        TableValue::Error(e) => match e.kind {
            ErrKind::Script => Answer::Resume(ResumeArg::Raise(e.message.clone())),
            ErrKind::Cycle => Answer::Fail(e.dup()),
            ErrKind::Other => Answer::Resume(ResumeArg::Text(e.message.clone())),
        },
    }
}

/// What the engine does when a waiting cell's peer value arrives: if the
/// graph meanwhile closed a cycle reachable from the waiting cell, the
/// cell commits a cycle error; a cycle error from the peer is committed
/// alike; otherwise the value is answered into the script as `answer_of`
/// says.
pub enum Settled {
    /// Resume the waiting script with this answer.
    Resume(ResumeArg),
    /// End the waiting cell with this committed value.
    Commit(TableValue),
}

pub fn settle_lookup(getter: u64, pos: &CellPos, v: &TableValue, graph: &DepGraph) -> (r: Settled)
    requires
        graph.wf(),
        pos.wf(),
    ensures
        crate::graph::has_reachable_cycle(graph.dep_map(), getter) ==> (r matches Settled::Commit(
            e,
        ) && (e@ matches ValueView::Error(k2, _) && k2 == ErrKind::Cycle)),
        !crate::graph::has_reachable_cycle(graph.dep_map(), getter) ==> {
            &&& v@ matches ValueView::Empty ==> r == Settled::Resume(ResumeArg::Nil)
            &&& v@ matches ValueView::Text(t) ==> (r matches Settled::Resume(ResumeArg::Text(s))
                && s@ == t)
            &&& v@ matches ValueView::Number(n) ==> (r matches Settled::Resume(ResumeArg::Int(i))
                && i as int == n)
            &&& v@ matches ValueView::Error(ErrKind::Script, m) ==> (r matches Settled::Resume(
                ResumeArg::Raise(s),
            ) && s@ == m)
            &&& v@ matches ValueView::Error(ErrKind::Cycle, m) ==> (r matches Settled::Commit(e)
                && e@ == ValueView::Error(ErrKind::Cycle, m))
            &&& v@ matches ValueView::Error(ErrKind::Other, m) ==> (r matches Settled::Resume(
                ResumeArg::Text(s),
            ) && s@ == m)
        },
{
    if graph.has_cycle_from(getter) {
        Settled::Commit(cycle_message(pos))
    } else {
        match answer_of(v) {
            Answer::Resume(a) => Settled::Resume(a),
            Answer::Fail(e) => Settled::Commit(TableValue::Error(e)),
        }
    }
}

/// The value a finished chunk stands for.
pub fn value_of_script(sv: ScriptVal) -> (r: TableValue)
    ensures
        sv matches ScriptVal::Nil ==> r@ == ValueView::Empty,
        sv matches ScriptVal::Int(i) ==> r@ == ValueView::Number(i as int),
        sv matches ScriptVal::Str(s) ==> r@ == ValueView::Text(s@),
{
    match sv {
        ScriptVal::Nil => TableValue::Empty,
        ScriptVal::Bool(b) => {
            if b {
                TableValue::from_stringable("true")
            } else {
                TableValue::from_stringable("false")
            }
        },
        ScriptVal::Int(i) => TableValue::Number(i),
        ScriptVal::Str(s) => TableValue::Text(s),
    }
}

/// What one cell contributes to a running range sum.
pub enum SumStep {
    /// The sum so far after this cell.
    Add(i64),
    /// An error value in the range: the sum stops and returns it.
    Halt(TableError),
}

/// The range-sum rule for one cell: numbers are added (saturating), text
/// and empty cells change nothing, and the first error value ends the sum
/// and becomes its outcome.
pub fn sum_fold(v: &TableValue, acc: i64) -> (r: SumStep)
    ensures
        v@ matches ValueView::Error(k, m) ==> (r matches SumStep::Halt(e) && e.kind == k
            && e.message@ == m),
        v@ matches ValueView::Number(n) ==> (r matches SumStep::Add(t) && t as int == sat_add(
            acc as int,
            n,
        )),
        v@ matches ValueView::Text(_) ==> r == SumStep::Add(acc),
        v@ matches ValueView::Empty ==> r == SumStep::Add(acc),
{
    match v {
        TableValue::Error(e) => SumStep::Halt(e.dup()),
        TableValue::Number(n) => SumStep::Add(sat_add_i64(acc, *n)),
        TableValue::Text(_) => SumStep::Add(acc),
        TableValue::Empty => SumStep::Add(acc),
    }
}

/// Every written slot of a literal cell holds exactly that cell's text.
/// The scheduler keeps this true: only script cells are ever written with
/// anything else.
pub open spec fn literal_slots_ok(src: AddrMap<String>, slots: AddrMap<TableValue>) -> bool {
    forall|k: u64|
        #![trigger slots@[k]]
        slots@.dom().contains(k) && src@.dom().contains(k) ==> (plan_of(src@[k]@) matches
            PlanView::Literal(t) ==> slots@[k]@ == ValueView::Text(t))
}

/// The value a lookup in the round resolves for cell key `k`: a written
/// slot first, then the committed store; a stale cell without a slot has
/// no value yet; any other cell reads as empty.
pub open spec fn round_cell_view(
    vals: AddrMap<TableValue>,
    slots: AddrMap<TableValue>,
    pending: AddrSet,
    k: u64,
) -> Option<ValueView> {
    if slots@.dom().contains(k) {
        Some(slots@[k]@)
    } else if pending@.contains(k) {
        None
    } else if vals@.dom().contains(k) {
        Some(vals@[k]@)
    } else {
        Some(ValueView::Empty)
    }
}

/// How a range sum comes out against the current slots and store.
pub enum SumOutcome {
    /// Every remaining cell resolved; this is the saturating total.
    Value(int),
    /// The first error met, in row order; the sum returns it.
    Fault(ErrKind, Seq<char>),
    /// The first cell, in row order, that still needs its own evaluation.
    Needs(u64),
}

/// Folds the rest of a range, rows outer and columns inner, from row
/// offset `dy` and column offset `dx` with running total `acc`: numbers
/// are added saturating, text and empty cells are skipped, the first error
/// ends the sum with it, and the first unresolved stale cell suspends it.
pub open spec fn range_sum_from(
    vals: AddrMap<TableValue>,
    slots: AddrMap<TableValue>,
    pending: AddrSet,
    range: SlicePos,
    dy: int,
    dx: int,
    acc: int,
) -> SumOutcome
    decreases range.end.y - range.start.y - dy, range.end.x - range.start.x - dx,
{
    let h = range.end.y - range.start.y;
    let w = range.end.x - range.start.x;
    if dy < 0 || dx < 0 || dy >= h || w <= 0 {
        SumOutcome::Value(acc)
    } else if dx >= w {
        range_sum_from(vals, slots, pending, range, dy + 1, 0, acc)
    } else {
        let k = (CellPos {
            x: (range.start.x + dx) as usize,
            y: (range.start.y + dy) as usize,
        }).spec_key();
        match round_cell_view(vals, slots, pending, k) {
            None => SumOutcome::Needs(k),
            Some(v) => match v {
                ValueView::Error(kk, m) => SumOutcome::Fault(kk, m),
                ValueView::Number(n) => range_sum_from(
                    vals,
                    slots,
                    pending,
                    range,
                    dy,
                    dx + 1,
                    sat_add(acc, n),
                ),
                _ => range_sum_from(vals, slots, pending, range, dy, dx + 1, acc),
            },
        }
    }
}

/// What resolving a requested cell found.
pub enum Fetch {
    /// The value is at hand.
    Val(TableValue),
    /// The cell is stale and unevaluated: a task must run first.
    Spawn,
    /// Asking for it closes a dependency cycle.
    Cycle,
}

/// Records the edge `getter -> target`, runs the cycle check, and looks
/// the target's value up: a fresh slot first, then the committed store;
/// a cell with neither a slot, a pending task nor a committed value is
/// empty.
pub fn fetch_target(
    getter: u64,
    target: u64,
    graph: &mut DepGraph,
    vals: &AddrMap<TableValue>,
    slots: &AddrMap<TableValue>,
    pending: &AddrSet,
) -> (r: Fetch)
    requires
        old(graph).wf(),
        vals.wf(),
        slots.wf(),
        pending.wf(),
    ensures
        final(graph).wf(),
        final(graph).dep_set(getter) == old(graph).dep_set(getter).insert(target),
        forall|x: u64| x != getter ==> #[trigger] final(graph).dep_set(x) == old(graph).dep_set(x),
        (r matches Fetch::Cycle) == crate::graph::has_reachable_cycle(final(graph).dep_map(), getter),
        !(r matches Fetch::Cycle) && slots@.dom().contains(target) ==> (r matches Fetch::Val(v)
            && v@ == slots@[target]@),
        !(r matches Fetch::Cycle) && !slots@.dom().contains(target) && pending@.contains(target)
            ==> r matches Fetch::Spawn,
        !(r matches Fetch::Cycle) && !slots@.dom().contains(target) && !pending@.contains(target)
            && vals@.dom().contains(target) ==> (r matches Fetch::Val(v) && v@ == vals@[target]@),
        !(r matches Fetch::Cycle) && !slots@.dom().contains(target) && !pending@.contains(target)
            && !vals@.dom().contains(target) ==> (r matches Fetch::Val(v) && v@
            == ValueView::Empty),
{
    graph.add_edge(getter, target);
    if graph.has_cycle_from(getter) {
        return Fetch::Cycle;
    }
    match slots.get(target) {
        Some(v) => Fetch::Val(v.dup()),
        None => {
            if pending.contains(target) {
                Fetch::Spawn
            } else {
                match vals.get(target) {
                    Some(v) => Fetch::Val(v.dup()),
                    None => Fetch::Val(TableValue::Empty),
                }
            }
        },
    }
}

/// Looking up a name or relative position from a script: answer at once,
/// fail the script call, or fetch a real cell.
enum LookupPlan {
    Immediate(ResumeArg),
    FailScript(String),
    Target(CellPos),
}

/// What a bare identifier resolves to: a cell address is fetched; a range
/// text stands for itself (so `SUM` can receive it); anything else is nil.
fn plan_name_lookup(nm: String) -> (r: LookupPlan)
    ensures
        r matches LookupPlan::Target(p) ==> p.wf(),
        crate::pos::addr_shape(nm@) && crate::pos::addr_col(nm@) < crate::pos::COORD_BOUND
            && crate::pos::addr_row(nm@) < crate::pos::COORD_BOUND ==> (r matches LookupPlan::Target(
            p,
        ) && p.x == crate::pos::addr_col(nm@) && p.y == crate::pos::addr_row(nm@)),
        !crate::pos::addr_shape(nm@) && crate::slice::slice_shape(nm@) && crate::slice::from_ok(
            nm@,
        ) ==> (r matches LookupPlan::Immediate(ResumeArg::Text(s)) && s@ == nm@),
        !crate::pos::addr_shape(nm@) && !crate::slice::slice_shape(nm@) ==> r
            == LookupPlan::Immediate(ResumeArg::Nil),
    {
    match CellPos::from_str(nm.as_str()) {
        Ok(p) => LookupPlan::Target(p),
        Err(_) => match SlicePos::from_str(nm.as_str()) {
            Ok(_) => LookupPlan::Immediate(ResumeArg::Text(nm)),
            Err(_) => LookupPlan::Immediate(ResumeArg::Nil),
        },
    }
}

/// What `REL(dx, dy)` from `pos` resolves to: out-of-table offsets
/// (negative ones in particular) read as nil; non-numeric arguments fail
/// the script call.
fn plan_rel_lookup(pos: &CellPos, b1: &ScriptVal, b2: &ScriptVal) -> (r: LookupPlan)
    requires
        pos.wf(),
    ensures
        r matches LookupPlan::Target(p) ==> p.wf(),
        (*b1) matches ScriptVal::Int(dx) ==> ((*b2) matches ScriptVal::Int(dy) ==> ((pos.x + dx
            < 0 || pos.y + dy < 0 || pos.x + dx >= crate::pos::COORD_BOUND || pos.y + dy
            >= crate::pos::COORD_BOUND) ==> r == LookupPlan::Immediate(ResumeArg::Nil))),
        (*b1) matches ScriptVal::Int(dx) ==> ((*b2) matches ScriptVal::Int(dy) ==> ((0 <= pos.x
            + dx < crate::pos::COORD_BOUND && 0 <= pos.y + dy < crate::pos::COORD_BOUND) ==> (
        r matches LookupPlan::Target(p) && p.x == pos.x + dx && p.y == pos.y + dy))),
        !((*b1) matches ScriptVal::Int(_)) || !((*b2) matches ScriptVal::Int(_)) ==> r matches
            LookupPlan::FailScript(_),
{
    let dx: i64 = match b1 {
        ScriptVal::Int(i) => *i,
        _ => {
            return LookupPlan::FailScript(String::from_str("REL needs two numbers"));
        },
    };
    let dy: i64 = match b2 {
        ScriptVal::Int(i) => *i,
        _ => {
            return LookupPlan::FailScript(String::from_str("REL needs two numbers"));
        },
    };
    match rel_target(pos, dx, dy) {
        Some(p) => LookupPlan::Target(p),
        None => LookupPlan::Immediate(ResumeArg::Nil),
    }
}

/// A suspended cell script and what it waits for.
enum TaskState {
    /// Ready to be resumed with this answer.
    Ready(ResumeArg),
    /// Waiting for another cell's slot, to answer a lookup.
    AwaitGet { target: u64 },
    /// Waiting for another cell's slot in the middle of a range sum.
    AwaitSum { range: SlicePos, dy: usize, dx: usize, acc: i64 },
}

/// One running cell script.
struct RoundTask {
    key: u64,
    pos: CellPos,
    lua: mlua::Lua,
    thread: mlua::Thread,
    state: TaskState,
}

/// How starting a cell went.
enum Started {
    /// The cell's value went straight into its slot.
    Wrote,
    /// A script task was created and must be scheduled.
    Spawned(RoundTask),
}

/// Resolves a literal cell into its slot at once, or builds the Lua task
/// for a script cell. The chunk handed to the interpreter is the source
/// after the `=`, prefixed with `return `; if that does not compile (the
/// script is a statement, not an expression), the bare source is compiled
/// instead. A script that fails to compile either way, or an interpreter
/// that fails to start, also writes the slot (an error value), so
/// `Spawned` is the only case that leaves the slot unwritten.
fn start_cell(key: u64, src: &AddrMap<String>, slots: &mut AddrMap<TableValue>) -> (r: Started)
    requires
        src.wf(),
        old(slots).wf(),
        src@.dom().contains(key),
        !old(slots)@.dom().contains(key),
        key < crate::engine::KEY_BOUND,
    ensures
        final(slots).wf(),
        match r {
            Started::Wrote => final(slots)@.dom() == old(slots)@.dom().insert(key)
                && final(slots)@.remove(key) == old(slots)@.remove(key),
            Started::Spawned(t) => final(slots)@ == old(slots)@ && t.key == key && t.pos.wf()
                && t.pos.spec_key() == key && (t.state matches TaskState::Ready(a) && a
                == ResumeArg::Start),
        },
        plan_of(src@[key]@) matches PlanView::Literal(t) ==> r matches Started::Wrote
            && final(slots)@[key]@ matches ValueView::Text(u) && u == t,
        r matches Started::Spawned(t2) ==> plan_of(src@[key]@) matches PlanView::Script(_),
        literal_slots_ok(*src, *old(slots)) ==> literal_slots_ok(*src, *final(slots)),
{
    let pos: CellPos = CellPos::from_key(key);
    let text: &String = match src.get(key) {
        Some(s) => s,
        None => vstd::pervasive::unreached(),
    };
    match cell_plan(text.as_str()) {
        CellPlan::Literal(t) => {
            slots.insert(key, TableValue::Text(t));
            proof {
                assert(final(slots)@.dom() =~= old(slots)@.dom().insert(key));
            }
            Started::Wrote
        },
        CellPlan::Script(body) => {
            let lua: mlua::Lua = match script::lua_new(script::SCRIPT_PRELUDE) {
                Some(l) => l,
                None => {
                    slots.insert(
                        key,
                        TableValue::other_error(String::from_str("script host failed to start")),
                    );
                    proof {
                        assert(final(slots)@.dom() =~= old(slots)@.dom().insert(key));
                    }
                    return Started::Wrote;
                },
            };
            let mut chunk: String = String::from_str("return ");
            chunk.append(body.as_str());
            let thread: mlua::Thread = match script::lua_spawn(&lua, chunk.as_str()) {
                Ok(t) => t,
                Err(_) => {
                    match script::lua_spawn(&lua, body.as_str()) {
                        Ok(t) => t,
                        Err(e) => {
                            slots.insert(key, TableValue::lua_error(e));
                            proof {
                                assert(final(slots)@.dom() =~= old(slots)@.dom().insert(key));
                            }
                            return Started::Wrote;
                        },
                    }
                },
            };
            Started::Spawned(
                RoundTask { key, pos, lua, thread, state: TaskState::Ready(ResumeArg::Start) },
            )
        },
    }
}

/// A cycle report naming the cell that closed it.
fn cycle_message(pos: &CellPos) -> (r: TableValue)
    requires
        pos.wf(),
    ensures
        r@ matches ValueView::Error(k, _) && k == ErrKind::Cycle,
{
    let mut m: String = crate::value::EvalationError::DependencyCycle.describe();
    m.append(" at ");
    let a: String = pos.render();
    m.append(a.as_str());
    TableValue::cycle_error(m)
}

/// What the scheduler keeps true of its task stack: distinct pending
/// unwritten cells, each with a sound suspension state.
spec fn state_wf(s: TaskState) -> bool {
    match s {
        TaskState::AwaitSum { range, dy, dx, acc } => {
            &&& range.start.x <= range.end.x <= crate::pos::COORD_BOUND
            &&& range.start.y <= range.end.y <= crate::pos::COORD_BOUND
            &&& dx <= range.end.x - range.start.x
            &&& dy <= range.end.y - range.start.y
        },
        _ => true,
    }
}

spec fn tasks_ok(
    stack: Seq<RoundTask>,
    slots: AddrMap<TableValue>,
    pending: AddrSet,
    src: AddrMap<String>,
) -> bool {
    &&& forall|i: int, j: int|
        0 <= i < j < stack.len() ==> (#[trigger] stack[i]).key != (#[trigger] stack[j]).key
    &&& forall|i: int|
        0 <= i < stack.len() ==> pending@.contains((#[trigger] stack[i]).key)
            && !slots@.dom().contains(stack[i].key) && stack[i].pos.wf()
            && stack[i].pos.spec_key() == stack[i].key && state_wf(stack[i].state)
            && src@.dom().contains(stack[i].key) && (plan_of(src@[stack[i].key]@) matches
            PlanView::Script(_))
}

/// Whether a cell already has a running task.
fn stack_has_key(stack: &Vec<RoundTask>, k: u64) -> (r: bool)
    ensures
        r == exists|i: int| 0 <= i < stack@.len() && (#[trigger] stack@[i]).key == k,
{
    let n: usize = stack.len();
    let mut i: usize = 0;
    while i < n
        invariant
            n == stack@.len(),
            i <= n,
            forall|j: int| 0 <= j < i ==> (#[trigger] stack@[j]).key != k,
        ensures
            i <= n,
            forall|j: int| 0 <= j < i ==> (#[trigger] stack@[j]).key != k,
            i < n ==> stack@[i as int].key == k,
        decreases n - i,
    {
        if stack[i].key == k {
            break ;
        }
        i = i + 1;
    }
    i < n
}

/// Continues a suspended range sum from cell (`dx0`, `dy0`): fetches each
/// remaining cell of the range in row order, adds the numbers (saturating),
/// skips text and empty cells, and short-circuits on the first error. The
/// task either finishes into its slot or goes back on the stack, suspended
/// again or ready with the sum. The outcome follows `range_sum_from` over
/// the entry state, except that a lookup that closes a dependency cycle
/// ends the cell with a cycle error instead.
fn advance_sum(
    key: u64,
    pos: CellPos,
    lua: mlua::Lua,
    thread: mlua::Thread,
    range: SlicePos,
    dy0: usize,
    dx0: usize,
    acc0: i64,
    graph: &mut DepGraph,
    vals: &AddrMap<TableValue>,
    slots: &mut AddrMap<TableValue>,
    pending: &AddrSet,
    src: &AddrMap<String>,
    stack: &mut Vec<RoundTask>,
)
    requires
        old(graph).wf(),
        old(slots).wf(),
        vals.wf(),
        pending.wf(),
        src.wf(),
        pending@.subset_of(src@.dom()),
        forall|k: u64| #[trigger] pending@.contains(k) ==> k < crate::engine::KEY_BOUND,
        old(slots)@.dom().subset_of(pending@),
        tasks_ok(old(stack)@, *old(slots), *pending, *src),
        pending@.contains(key),
        !old(slots)@.dom().contains(key),
        pos.wf(),
        pos.spec_key() == key,
        src@.dom().contains(key),
        plan_of(src@[key]@) matches PlanView::Script(_),
        literal_slots_ok(*src, *old(slots)),
        !(exists|i: int| 0 <= i < old(stack)@.len() && (#[trigger] old(stack)@[i]).key == key),
        range.start.x <= range.end.x <= crate::pos::COORD_BOUND,
        range.start.y <= range.end.y <= crate::pos::COORD_BOUND,
        dx0 <= range.end.x - range.start.x,
        dy0 <= range.end.y - range.start.y,
    ensures
        final(graph).wf(),
        final(slots).wf(),
        old(slots)@.dom().subset_of(final(slots)@.dom()),
        forall|k: u64| #[trigger]
            old(slots)@.dom().contains(k) ==> final(slots)@[k] == old(slots)@[k],
        final(slots)@.dom().subset_of(pending@),
        tasks_ok(final(stack)@, *final(slots), *pending, *src),
        final(stack)@.len() >= old(stack)@.len(),
        forall|i: int| 0 <= i < old(stack)@.len() ==> final(stack)@[i] == old(stack)@[i],
        final(slots)@.dom().contains(key) || (final(stack)@.len() > old(stack)@.len()
            && final(stack)@[old(stack)@.len() as int].key == key),
        final(stack)@.len() > old(stack)@.len() ==> final(stack)@[old(stack)@.len() as int].key
            == key,
        forall|x: u64|
            #[trigger] final(graph).dep_set(x) != old(graph).dep_set(x) ==> x == key,
        (dy0 == range.end.y - range.start.y || range.end.x - range.start.x == 0) && acc0 == 0
            ==> (final(stack)@.len() > old(stack)@.len() && (final(stack)@[old(stack)@.len() as int].state
            matches TaskState::Ready(a) && a == ResumeArg::Int(0))),
        literal_slots_ok(*src, *final(slots)),
        ({
            let o = range_sum_from(
                *vals,
                *old(slots),
                *pending,
                range,
                dy0 as int,
                dx0 as int,
                acc0 as int,
            );
            ||| (final(slots)@.dom().contains(key) && (final(slots)@[key]@ matches
            ValueView::Error(k2, _) && k2 == ErrKind::Cycle))
            ||| (o matches SumOutcome::Fault(k2, m) && final(slots)@.dom().contains(key)
                && final(slots)@[key]@ == ValueView::Error(k2, m))
            ||| (o matches SumOutcome::Value(n) && final(stack)@.len() > old(stack)@.len() && (
            final(stack)@[old(stack)@.len() as int].state matches TaskState::Ready(aa)
                && aa matches ResumeArg::Int(i) && i as int == n))
            ||| (o matches SumOutcome::Needs(c) && final(stack)@.len() > old(stack)@.len() && (
            final(stack)@[old(stack)@.len() as int].state matches TaskState::AwaitSum { .. }))
        }),
{
    let w: usize = range.end.x - range.start.x;
    let h: usize = range.end.y - range.start.y;
    let mut cy: usize = dy0;
    let mut cx: usize = dx0;
    let mut total: i64 = acc0;
    let ghost stack0 = stack@;
    let ghost slots1 = *old(slots);
    while cy < h
        invariant
            w == range.end.x - range.start.x,
            h == range.end.y - range.start.y,
            range.start.x <= range.end.x <= crate::pos::COORD_BOUND,
            range.start.y <= range.end.y <= crate::pos::COORD_BOUND,
            dy0 <= cy <= h,
            cx <= w,
            graph.wf(),
            slots1 == *old(slots),
            stack0 == old(stack)@,
            *slots == slots1,
            slots.wf(),
            stack@ == stack0,
            tasks_ok(stack@, *slots, *pending, *src),
            vals.wf(),
            pending.wf(),
            src.wf(),
            pending@.subset_of(src@.dom()),
            forall|k: u64| #[trigger] pending@.contains(k) ==> k < crate::engine::KEY_BOUND,
            slots@.dom().subset_of(pending@),
            pending@.contains(key),
            !slots@.dom().contains(key),
            pos.wf(),
            pos.spec_key() == key,
            src@.dom().contains(key),
            plan_of(src@[key]@) matches PlanView::Script(_),
            !(exists|i: int| 0 <= i < stack@.len() && (#[trigger] stack@[i]).key == key),
            forall|x: u64|
                #[trigger] graph.dep_set(x) != old(graph).dep_set(x) ==> x == key,
            (dy0 == h || w == 0) ==> total == acc0,
            literal_slots_ok(*src, *slots),
            range_sum_from(*vals, slots1, *pending, range, dy0 as int, dx0 as int, acc0 as int)
                == range_sum_from(*vals, slots1, *pending, range, cy as int, cx as int, total as int),
        decreases h - cy, w - cx,
    {
        if cx >= w {
            proof {
                assert(range_sum_from(
                    *vals,
                    slots1,
                    *pending,
                    range,
                    cy as int,
                    cx as int,
                    total as int,
                ) == range_sum_from(
                    *vals,
                    slots1,
                    *pending,
                    range,
                    cy + 1 as int,
                    0,
                    total as int,
                ));
            }
            cx = 0;
            cy = cy + 1;
        } else {
            let cp = CellPos { x: range.start.x + cx, y: range.start.y + cy };
            let tk: u64 = cp.key();
            proof {
                crate::pos::lemma_key_in_range(cp);
                assert(cp == (CellPos {
                    x: (range.start.x + cx as int) as usize,
                    y: (range.start.y + cy as int) as usize,
                }));
            }
            match fetch_target(key, tk, graph, vals, slots, pending) {
                Fetch::Cycle => {
                    slots.insert(key, cycle_message(&pos));
                    proof {
                        lemma_tasks_ok_insert(stack@, slots1, *slots, *pending, *src, key);
                        assert(slots@.remove(key) =~= slots1@.remove(key));
                        lemma_lit_preserved(*src, slots1, *slots, key);
                    }
                    return ;
                },
                Fetch::Val(v) => {
                    proof {
                        assert(round_cell_view(*vals, slots1, *pending, tk) == Some(v@));
                    }
                    match sum_fold(&v, total) {
                        SumStep::Halt(e) => {
                            proof {
                                assert(range_sum_from(
                                    *vals,
                                    slots1,
                                    *pending,
                                    range,
                                    cy as int,
                                    cx as int,
                                    total as int,
                                ) matches SumOutcome::Fault(k2, m) && e.kind == k2 && e.message@
                                    == m);
                            }
                            slots.insert(key, TableValue::Error(e));
                            proof {
                                lemma_tasks_ok_insert(stack@, slots1, *slots, *pending, *src, key);
                                assert(slots@.remove(key) =~= slots1@.remove(key));
                                lemma_lit_preserved(*src, slots1, *slots, key);
                            }
                            return ;
                        },
                        SumStep::Add(t) => {
                            proof {
                                assert(range_sum_from(
                                    *vals,
                                    slots1,
                                    *pending,
                                    range,
                                    cy as int,
                                    cx as int,
                                    total as int,
                                ) == range_sum_from(
                                    *vals,
                                    slots1,
                                    *pending,
                                    range,
                                    cy as int,
                                    cx + 1 as int,
                                    t as int,
                                ));
                            }
                            total = t;
                            cx = cx + 1;
                        },
                    }
                },
                Fetch::Spawn => {
                    proof {
                        assert(round_cell_view(*vals, slots1, *pending, tk) is None);
                        assert(range_sum_from(
                            *vals,
                            slots1,
                            *pending,
                            range,
                            cy as int,
                            cx as int,
                            total as int,
                        ) == SumOutcome::Needs(tk));
                    }
                    if stack_has_key(stack, tk) || tk == key {
                        slots.insert(key, cycle_message(&pos));
                        proof {
                            lemma_tasks_ok_insert(stack@, slots1, *slots, *pending, *src, key);
                            assert(slots@.remove(key) =~= slots1@.remove(key));
                            lemma_lit_preserved(*src, slots1, *slots, key);
                        }
                        return ;
                    }
                    stack.push(
                        RoundTask {
                            key,
                            pos,
                            lua,
                            thread,
                            state: TaskState::AwaitSum { range, dy: cy, dx: cx, acc: total },
                        },
                    );
                    proof {
                        assert forall|i: int, j: int|
                            0 <= i < j < stack@.len() implies (#[trigger] stack@[i]).key != (
                        #[trigger] stack@[j]).key by {
                            if j == stack@.len() - 1 {
                                assert(stack@[i] == stack0[i]);
                            }
                        }
                        assert forall|i: int| 0 <= i < stack@.len() implies pending@.contains(
                            (#[trigger] stack@[i]).key,
                        ) && !slots@.dom().contains(stack@[i].key) && stack@[i].pos.wf()
                            && stack@[i].pos.spec_key() == stack@[i].key && state_wf(
                            stack@[i].state,
                        ) && src@.dom().contains(stack@[i].key) && (plan_of(
                            src@[stack@[i].key]@,
                        ) matches PlanView::Script(_)) by {
                            if i < stack@.len() - 1 {
                                assert(stack@[i] == stack0[i]);
                            }
                        }
                        assert(tasks_ok(stack@, *slots, *pending, *src));
                    }
                    match start_cell(tk, src, slots) {
                        Started::Wrote => {
                            proof {
                                lemma_tasks_ok_insert(stack@, slots1, *slots, *pending, *src, tk);
                                assert forall|k: u64| #[trigger]
                                    slots1@.dom().contains(k) implies slots@[k] == slots1@[k] by {
                                    assert(k != tk);
                                    assert(slots@.remove(tk)[k] == slots1@.remove(tk)[k]);
                                }
                            }
                        },
                        Started::Spawned(c) => {
                            stack.push(c);
                            proof {
                                let ghost st1 = stack@.drop_last();
                                assert forall|i: int, j: int|
                                    0 <= i < j < stack@.len() implies (#[trigger] stack@[i]).key
                                    != (#[trigger] stack@[j]).key by {
                                    if j == stack@.len() - 1 {
                                        if i < stack@.len() - 2 {
                                            assert(stack@[i] == stack0[i]);
                                        }
                                    } else {
                                        assert(stack@[i] == st1[i] && stack@[j] == st1[j]);
                                    }
                                }
                            }
                        },
                    }
                    return ;
                },
            }
        }
    }
    stack.push(RoundTask { key, pos, lua, thread, state: TaskState::Ready(ResumeArg::Int(total)) });
    proof {
        assert forall|i: int, j: int|
            0 <= i < j < stack@.len() implies (#[trigger] stack@[i]).key != (
        #[trigger] stack@[j]).key by {
            if j == stack@.len() - 1 {
                assert(stack@[i] == stack0[i]);
            }
        }
    }
}

/// Evaluates the stale cell `a` to completion: its slot, and possibly the
/// slots of other stale cells it drew in, are written when this returns.
/// Dependency edges grow only at stale cells; sources and committed values
/// are only read.
pub(crate) fn run_cell(
    a: u64,
    src: &AddrMap<String>,
    vals: &AddrMap<TableValue>,
    graph: &mut DepGraph,
    slots: &mut AddrMap<TableValue>,
    pending: &AddrSet,
)
    requires
        old(graph).wf(),
        old(slots).wf(),
        vals.wf(),
        pending.wf(),
        src.wf(),
        pending@.subset_of(src@.dom()),
        forall|k: u64| #[trigger] pending@.contains(k) ==> k < crate::engine::KEY_BOUND,
        old(slots)@.dom().subset_of(pending@),
        pending@.contains(a),
        literal_slots_ok(*src, *old(slots)),
    ensures
        final(graph).wf(),
        final(slots).wf(),
        old(slots)@.dom().subset_of(final(slots)@.dom()),
        forall|k: u64| #[trigger]
            old(slots)@.dom().contains(k) ==> final(slots)@[k] == old(slots)@[k],
        final(slots)@.dom().subset_of(pending@),
        final(slots)@.dom().contains(a),
        literal_slots_ok(*src, *final(slots)),
        forall|x: u64|
            #[trigger] final(graph).dep_set(x) != old(graph).dep_set(x) ==> pending@.contains(x),
{
    if slots.contains_key(a) {
        return ;
    }
    let mut stack: Vec<RoundTask> = Vec::new();
    match start_cell(a, src, slots) {
        Started::Wrote => {
            proof {
                assert forall|k: u64| #[trigger] old(slots)@.dom().contains(k) implies slots@[k]
                    == old(slots)@[k] by {
                    assert(k != a);
                    assert(slots@.remove(a)[k] == old(slots)@.remove(a)[k]);
                }
            }
            return ;
        },
        Started::Spawned(t) => {
            stack.push(t);
        },
    }
    let ghost g1 = *graph;
    let ghost base = *slots;
    let mut fuel: u64 = EVAL_FUEL;
    while stack.len() > 0 && fuel > 0
        invariant
            graph.wf(),
            slots.wf(),
            vals.wf(),
            pending.wf(),
            src.wf(),
            pending@.subset_of(src@.dom()),
            forall|k: u64| #[trigger] pending@.contains(k) ==> k < crate::engine::KEY_BOUND,
            slots@.dom().subset_of(pending@),
            base@.dom().subset_of(slots@.dom()),
            forall|k: u64| #[trigger] base@.dom().contains(k) ==> slots@[k] == base@[k],
            tasks_ok(stack@, *slots, *pending, *src),
            literal_slots_ok(*src, *slots),
            stack@.len() > 0 ==> stack@[0].key == a,
            stack@.len() == 0 ==> slots@.dom().contains(a),
            forall|x: u64|
                #[trigger] graph.dep_set(x) != g1.dep_set(x) ==> pending@.contains(x),
        decreases fuel,
    {
        fuel = fuel - 1;
        let ghost stprev = stack@;
        let t: RoundTask = match stack.pop() {
            Some(t) => t,
            None => vstd::pervasive::unreached(),
        };
        let RoundTask { key, pos, lua, thread, state } = t;
        let ghost slx = *slots;
        let ghost stpop = stack@;
        proof {
            assert(stprev[stprev.len() - 1].key == key);
            assert(src@.dom().contains(key));
            assert(plan_of(src@[key]@) matches PlanView::Script(_));
            assert(stack@.len() == 0 ==> key == a);
            assert(!(exists|i: int|
                0 <= i < stack@.len() && (#[trigger] stack@[i]).key == key)) by {
                if exists|i: int| 0 <= i < stack@.len() && (#[trigger] stack@[i]).key == key {
                    let i = choose|i: int|
                        0 <= i < stack@.len() && (#[trigger] stack@[i]).key == key;
                    assert(stprev[i].key == stprev[stprev.len() - 1].key);
                }
            }
        }
        match state {
            TaskState::Ready(arg) => {
                match script::lua_resume(&thread, arg) {
                    Step::Done(sv) => {
                        slots.insert(key, value_of_script(sv));
                        proof {
                            lemma_tasks_ok_insert(stack@, slx, *slots, *pending, *src, key);
                            assert(slots@.remove(key) =~= slx@.remove(key));
                            lemma_lit_preserved(*src, slx, *slots, key);
                        }
                    },
                    Step::Failed(m) => {
                        slots.insert(key, TableValue::lua_error(m));
                        proof {
                            lemma_tasks_ok_insert(stack@, slx, *slots, *pending, *src, key);
                            assert(slots@.remove(key) =~= slx@.remove(key));
                            lemma_lit_preserved(*src, slx, *slots, key);
                        }
                    },
                    Step::Yielded(op, b1, b2) => {
                        let opnum: i64 = match &op {
                            ScriptVal::Int(i) => *i,
                            _ => 0,
                        };
                        if opnum == 4 {
                            let rx: i64 = pos.x as i64;
                            let ry: i64 = pos.y as i64;
                            push_back(
                                &mut stack,
                                RoundTask {
                                    key,
                                    pos,
                                    lua,
                                    thread,
                                    state: TaskState::Ready(ResumeArg::Pair(rx, ry)),
                                },
                                Ghost(*slots),
                                Ghost(*pending),
                                Ghost(*src),
                            );
                        } else if opnum == 2 {
                            let rtext: Option<SlicePos> = match &b1 {
                                ScriptVal::Str(rt) => match SlicePos::from_str(rt.as_str()) {
                                    Ok(range) => Some(range),
                                    Err(_) => None,
                                },
                                _ => None,
                            };
                            match rtext {
                                Some(range) => {
                                    push_back(
                                        &mut stack,
                                        RoundTask {
                                            key,
                                            pos,
                                            lua,
                                            thread,
                                            state: TaskState::AwaitSum {
                                                range,
                                                dy: 0,
                                                dx: 0,
                                                acc: 0,
                                            },
                                        },
                                        Ghost(*slots),
                                        Ghost(*pending),
                                        Ghost(*src),
                                    );
                                },
                                None => {
                                    slots.insert(
                                        key,
                                        TableValue::lua_error(
                                            String::from_str("SUM needs a cell range"),
                                        ),
                                    );
                                    proof {
                                        lemma_tasks_ok_insert(stack@, slx, *slots, *pending, *src, key);
                                        assert(slots@.remove(key) =~= slx@.remove(key));
                                        lemma_lit_preserved(*src, slx, *slots, key);
                                    }
                                },
                            }
                        } else if opnum == 1 || opnum == 3 {
                            let plan: LookupPlan = if opnum == 1 {
                                match b1 {
                                    ScriptVal::Str(nm) => plan_name_lookup(nm),
                                    _ => LookupPlan::Immediate(ResumeArg::Nil),
                                }
                            } else {
                                plan_rel_lookup(&pos, &b1, &b2)
                            };
                            match plan {
                                LookupPlan::Immediate(arg) => {
                                    push_back(
                                        &mut stack,
                                        RoundTask {
                                            key,
                                            pos,
                                            lua,
                                            thread,
                                            state: TaskState::Ready(arg),
                                        },
                                        Ghost(*slots),
                                        Ghost(*pending),
                                        Ghost(*src),
                                    );
                                },
                                LookupPlan::FailScript(m) => {
                                    slots.insert(key, TableValue::lua_error(m));
                                    proof {
                                        lemma_tasks_ok_insert(stack@, slx, *slots, *pending, *src, key);
                                        assert(slots@.remove(key) =~= slx@.remove(key));
                                        lemma_lit_preserved(*src, slx, *slots, key);
                                    }
                                },
                                LookupPlan::Target(p) => {
                                    let tk: u64 = p.key();
                                    match fetch_target(key, tk, graph, vals, slots, pending) {
                                        Fetch::Cycle => {
                                            slots.insert(key, cycle_message(&pos));
                                            proof {
                                                lemma_tasks_ok_insert(
                                                    stack@,
                                                    slx,
                                                    *slots,
                                                    *pending,
                                                    *src,
                                                    key,
                                                    );
                                            }
                                        },
                                        Fetch::Val(v) => {
                                            match answer_of(&v) {
                                                Answer::Resume(arg) => {
                                                    push_back(
                                                        &mut stack,
                                                        RoundTask {
                                                            key,
                                                            pos,
                                                            lua,
                                                            thread,
                                                            state: TaskState::Ready(arg),
                                                        },
                                                        Ghost(*slots),
                                                        Ghost(*pending),
                                                        Ghost(*src),
                                                    );
                                                },
                                                Answer::Fail(e) => {
                                                    slots.insert(key, TableValue::Error(e));
                                                    proof {
                                                        lemma_tasks_ok_insert(
                                                            stack@,
                                                            slx,
                                                            *slots,
                                                            *pending,
                                                            *src,
                                                            key,
                                                            );
                                                    }
                                                },
                                            }
                                        },
                                        Fetch::Spawn => {
                                            if stack_has_key(&stack, tk) || tk == key {
                                                slots.insert(key, cycle_message(&pos));
                                                proof {
                                                    lemma_tasks_ok_insert(
                                                        stack@,
                                                        slx,
                                                        *slots,
                                                        *pending,
                                                        *src,
                                                        key,
                                                        );
                                                }
                                            } else {
                                                let ghost stpar = stack@;
                                                push_back(
                                                    &mut stack,
                                                    RoundTask {
                                                        key,
                                                        pos,
                                                        lua,
                                                        thread,
                                                        state: TaskState::AwaitGet { target: tk },
                                                    },
                                                    Ghost(*slots),
                                                    Ghost(*pending),
                                                    Ghost(*src),
                                                );
                                                match start_cell(tk, src, slots) {
                                                    Started::Wrote => {
                                                        proof {
                                                            lemma_tasks_ok_insert(
                                                                stack@,
                                                                slx,
                                                                *slots,
                                                                *pending,
                                                                *src,
                                                                tk,
                                                                );
                                                            assert forall|k: u64| #[trigger]
                                                                slx@.dom().contains(k) implies
                                                                slots@[k] == slx@[k] by {
                                                                assert(k != tk);
                                                                assert(slots@.remove(tk)[k]
                                                                    == slx@.remove(tk)[k]);
                                                            }
                                                        }
                                                    },
                                                    Started::Spawned(c) => {
                                                        push_back(
                                                            &mut stack,
                                                            c,
                                                            Ghost(*slots),
                                                            Ghost(*pending),
                                                            Ghost(*src),
                                                        );
                                                    },
                                                }
                                            }
                                        },
                                    }
                                },
                            }
                        } else {
                            slots.insert(
                                key,
                                TableValue::lua_error(
                                    String::from_str("unknown request from a cell script"),
                                ),
                            );
                            proof {
                                lemma_tasks_ok_insert(stack@, slx, *slots, *pending, *src, key);
                                assert(slots@.remove(key) =~= slx@.remove(key));
                                lemma_lit_preserved(*src, slx, *slots, key);
                            }
                        }
                    },
                }
            },
            TaskState::AwaitGet { target } => {
                let got: Option<TableValue> = match slots.get(target) {
                    Some(v) => Some(v.dup()),
                    None => None,
                };
                match got {
                    None => {
                        // the peer task was cut off without writing; fail alike
                        slots.insert(
                            key,
                            TableValue::other_error(
                                String::from_str("a consulted cell produced no value"),
                            ),
                        );
                        proof {
                            lemma_tasks_ok_insert(stack@, slx, *slots, *pending, *src, key);
                            assert(slots@.remove(key) =~= slx@.remove(key));
                            lemma_lit_preserved(*src, slx, *slots, key);
                        }
                    },
                    Some(v) => {
                        // the graph can hold new edges added since the request
                        match settle_lookup(key, &pos, &v, graph) {
                            Settled::Resume(arg) => {
                                push_back(
                                    &mut stack,
                                    RoundTask {
                                        key,
                                        pos,
                                        lua,
                                        thread,
                                        state: TaskState::Ready(arg),
                                    },
                                    Ghost(*slots),
                                    Ghost(*pending),
                                    Ghost(*src),
                                );
                            },
                            Settled::Commit(tv) => {
                                slots.insert(key, tv);
                                proof {
                                    lemma_tasks_ok_insert(stack@, slx, *slots, *pending, *src, key);
                                    assert(slots@.remove(key) =~= slx@.remove(key));
                                    lemma_lit_preserved(*src, slx, *slots, key);
                                }
                            },
                        }
                    },
                }
            },
            TaskState::AwaitSum { range, dy, dx, acc } => {
                advance_sum(
                    key,
                    pos,
                    lua,
                    thread,
                    range,
                    dy,
                    dx,
                    acc,
                    graph,
                    vals,
                    slots,
                    pending,
                    src,
                    &mut stack,
                );
                proof {
                    if stack@.len() > 0 {
                        if stpop.len() > 0 {
                            assert(stack@[0] == stpop[0]);
                            assert(stpop[0] == stprev[0]);
                        } else {
                            assert(stack@[0].key == key);
                        }
                    }
                }
            },
        }
    }
    // fuel ran out: cut the remaining scripts off, with a value each
    while stack.len() > 0
        invariant
            slots.wf(),
            pending.wf(),
            src.wf(),
            slots@.dom().subset_of(pending@),
            base@.dom().subset_of(slots@.dom()),
            forall|k: u64| #[trigger] base@.dom().contains(k) ==> slots@[k] == base@[k],
            tasks_ok(stack@, *slots, *pending, *src),
            literal_slots_ok(*src, *slots),
            stack@.len() > 0 ==> stack@[0].key == a,
            stack@.len() == 0 ==> slots@.dom().contains(a),
        decreases stack@.len(),
    {
        let ghost stprev = stack@;
        let t: RoundTask = match stack.pop() {
            Some(t) => t,
            None => vstd::pervasive::unreached(),
        };
        proof {
            assert(stprev[stprev.len() - 1].key == t.key);
            assert(stack@.len() == 0 ==> t.key == a);
            assert(!(exists|i: int|
                0 <= i < stack@.len() && (#[trigger] stack@[i]).key == t.key)) by {
                if exists|i: int| 0 <= i < stack@.len() && (#[trigger] stack@[i]).key == t.key {
                    let i = choose|i: int|
                        0 <= i < stack@.len() && (#[trigger] stack@[i]).key == t.key;
                    assert(stprev[i].key == stprev[stprev.len() - 1].key);
                }
            }
        }
        let ghost slx = *slots;
        slots.insert(
            t.key,
            TableValue::other_error(String::from_str("evaluation step budget exhausted")),
        );
        proof {
            lemma_tasks_ok_insert(stack@, slx, *slots, *pending, *src, t.key);
            assert(slots@.remove(t.key) =~= slx@.remove(t.key));
            lemma_lit_preserved(*src, slx, *slots, t.key);
        }
    }
}

/// Puts a task back on the stack; its cell must still be unwritten and
/// freshly absent from the stack.
fn push_back(
    stack: &mut Vec<RoundTask>,
    t: RoundTask,
    Ghost(slots): Ghost<AddrMap<TableValue>>,
    Ghost(pending): Ghost<AddrSet>,
    Ghost(src): Ghost<AddrMap<String>>,
)
    requires
        tasks_ok(old(stack)@, slots, pending, src),
        pending@.contains(t.key),
        !slots@.dom().contains(t.key),
        t.pos.wf(),
        t.pos.spec_key() == t.key,
        state_wf(t.state),
        src@.dom().contains(t.key),
        plan_of(src@[t.key]@) matches PlanView::Script(_),
        !(exists|i: int| 0 <= i < old(stack)@.len() && (#[trigger] old(stack)@[i]).key == t.key),
    ensures
        final(stack)@ == old(stack)@.push(t),
        tasks_ok(final(stack)@, slots, pending, src),
{
    let ghost st0 = stack@;
    stack.push(t);
    proof {
        assert forall|i: int, j: int|
            0 <= i < j < stack@.len() implies (#[trigger] stack@[i]).key != (
        #[trigger] stack@[j]).key by {
            if j == stack@.len() - 1 {
                assert(stack@[i] == st0[i]);
            }
        }
    }
}

/// Pushing a fresh slot keeps every running task's cell unwritten, as long
/// as the written cell has no task.
proof fn lemma_tasks_ok_insert(
    stack: Seq<RoundTask>,
    pre: AddrMap<TableValue>,
    post: AddrMap<TableValue>,
    pending: AddrSet,
    src: AddrMap<String>,
    k: u64,
)
    requires
        tasks_ok(stack, pre, pending, src),
        !(exists|i: int| 0 <= i < stack.len() && (#[trigger] stack[i]).key == k),
        post@.dom() == pre@.dom().insert(k) || post@.dom() == pre@.dom(),
    ensures
        tasks_ok(stack, post, pending, src),
{
    assert forall|i: int| 0 <= i < stack.len() implies pending@.contains(
        (#[trigger] stack[i]).key,
    ) && !post@.dom().contains(stack[i].key) && stack[i].pos.wf() && stack[i].pos.spec_key()
        == stack[i].key && state_wf(stack[i].state) && src@.dom().contains(stack[i].key) && (
    plan_of(src@[stack[i].key]@) matches PlanView::Script(_)) by {
        assert(stack[i].key != k);
        assert(!pre@.dom().contains(stack[i].key));
    }
}

/// Writing a slot keeps the literal-cell slot discipline, as long as the
/// written cell is a script cell or received exactly its literal text.
proof fn lemma_lit_preserved(
    src: AddrMap<String>,
    pre: AddrMap<TableValue>,
    post: AddrMap<TableValue>,
    k: u64,
)
    requires
        literal_slots_ok(src, pre),
        post@.dom() == pre@.dom().insert(k) || post@.dom() == pre@.dom(),
        post@.remove(k) == pre@.remove(k),
        src@.dom().contains(k) ==> (plan_of(src@[k]@) matches PlanView::Literal(t) ==> (
        post@.dom().contains(k) ==> post@[k]@ == ValueView::Text(t))),
    ensures
        literal_slots_ok(src, post),
{
    assert forall|k2: u64|
        #![trigger post@[k2]]
        post@.dom().contains(k2) && src@.dom().contains(k2) implies (plan_of(src@[k2]@) matches
        PlanView::Literal(t) ==> post@[k2]@ == ValueView::Text(t)) by {
        if k2 != k {
            assert(post@.remove(k).dom().contains(k2));
            assert(post@.remove(k)[k2] == post@[k2]);
            assert(pre@.remove(k).dom().contains(k2));
            assert(pre@.dom().contains(k2));
            assert(pre@.remove(k)[k2] == pre@[k2]);
            assert(post@[k2] == pre@[k2]);
        }
    }
}

} // verus!
