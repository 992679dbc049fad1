//! The engine around one spreadsheet: sources, cached values, the
//! dependency graph and the set of stale cells.
//!
//! Between public calls the engine keeps these in step: every stale cell
//! has a source, no stale cell has a cached value or outgoing edges, every
//! sourced cell is cached or stale, and the graph's two tables are inverse
//! to each other.

use vstd::prelude::*;

use crate::graph;
use crate::graph::DepGraph;
use crate::map::AddrMap;
use crate::map::AddrSet;
use crate::pos::lemma_key_in_range;
use crate::pos::CellPos;
use crate::round::literal_slots_ok;
use crate::round::plan_of;
use crate::round::PlanView;
use crate::value::TableValue;
use crate::value::ValueView;

verus! {

/// Exclusive bound on packed cell keys.
pub const KEY_BOUND: u64 = 0x1000_0000_0000_0000;

/// The persisted state: each sourced cell's text, keyed by packed address.
pub type SourceTable = AddrMap<String>;

/// Abstract state of the engine. `dep` and `req` are total: cells without
/// edges map to the empty set.
#[verifier::ext_equal]
pub ghost struct EngView {
    pub src: Map<u64, Seq<char>>,
    pub vals: Map<u64, ValueView>,
    pub invalid: Set<u64>,
    pub dep: Map<u64, Set<u64>>,
    pub req: Map<u64, Set<u64>>,
}

/// One inverse-dependency step at the view level.
pub open spec fn req_step(v: EngView, a: u64, b: u64) -> bool {
    v.req[a].contains(b)
}

/// A nonempty walk along inverse-dependency edges.
pub open spec fn req_path(v: EngView, p: Seq<u64>) -> bool {
    p.len() >= 1 && forall|i: int| 0 <= i < p.len() - 1 ==> req_step(v, #[trigger] p[i], p[i + 1])
}

/// `b` consults `a` directly or through other cells (or `b == a`).
pub open spec fn req_reaches(v: EngView, a: u64, b: u64) -> bool {
    exists|p: Seq<u64>| req_path(v, p) && p.first() == a && p.last() == b
}

/// The cells an edit of `k` makes stale: nothing if `k` is already stale,
/// else everything that reaches back to `k` along `req` edges.
pub open spec fn invalidated_set(v: EngView, k: u64) -> Set<u64> {
    if v.invalid.contains(k) {
        Set::empty()
    } else {
        Set::new(|b: u64| req_reaches(v, k, b))
    }
}

/// Full description of what `set_source` does to the abstract state.
pub open spec fn set_source_post(pre: EngView, post: EngView, k: u64, s: Option<Seq<char>>) -> bool {
    let n = invalidated_set(pre, k);
    &&& post.src == (match s {
        Some(t) => pre.src.insert(k, t),
        None => pre.src.remove(k),
    })
    &&& post.vals == pre.vals.remove_keys(n)
    &&& post.invalid == (match s {
        Some(_) => pre.invalid + n,
        None => (pre.invalid + n).remove(k),
    })
    &&& post.dep == Map::new(
        |x: u64| true,
        |x: u64|
            if n.contains(x) {
                Set::<u64>::empty()
            } else {
                pre.dep[x]
            },
    )
    &&& post.req == Map::new(|y: u64| true, |y: u64| pre.req[y] - n)
}

/// Editing the same cell twice with the same text is the same as editing
/// it once: the second edit finds the cell already stale and changes
/// nothing further.
pub proof fn lemma_set_source_idempotent(
    s0: EngView,
    s1: EngView,
    s2: EngView,
    k: u64,
    t: Seq<char>,
)
    requires
        set_source_post(s0, s1, k, Some(t)),
        set_source_post(s1, s2, k, Some(t)),
    ensures
        s2 == s1,
{
    assert(s1.invalid.contains(k)) by {
        if !s0.invalid.contains(k) {
            let p = seq![k];
            assert(req_path(s0, p) && p.first() == k && p.last() == k);
            assert(req_reaches(s0, k, k));
            assert(invalidated_set(s0, k).contains(k));
        }
    }
    assert(invalidated_set(s1, k) =~= Set::<u64>::empty());
    assert(s2.src =~= s1.src);
    assert(s2.vals =~= s1.vals.remove_keys(Set::empty()));
    assert(s2.vals =~= s1.vals);
    assert(s2.invalid =~= s1.invalid);
    assert(s2.dep =~~= s1.dep) by {
        assert forall|x: u64| #[trigger] s2.dep[x] =~= s1.dep[x] by {}
        assert(s2.dep =~= Map::new(|x: u64| true, |x: u64| s1.dep[x]));
        assert forall|x: u64| s1.dep.dom().contains(x) implies x == x by {}
        assert(s2.dep.dom() =~= s1.dep.dom());
    }
    assert(s2.req =~~= s1.req) by {
        assert forall|y: u64| #[trigger] s2.req[y] =~= s1.req[y] by {
            assert(s2.req[y] =~= s1.req[y] - Set::empty());
        }
        assert(s2.req.dom() =~= s1.req.dom());
    }
    assert(s2 =~~= s1);
}

/// The reactive spreadsheet engine.
pub struct EvaluatorTable {
    src: AddrMap<String>,
    vals: AddrMap<TableValue>,
    graph: DepGraph,
    invalid: AddrSet,
}

impl EvaluatorTable {
    /// Abstract state.
    pub closed spec fn view(self) -> EngView {
        EngView {
            src: self.src@.map_values(|s: String| s@),
            vals: self.vals@.map_values(|v: TableValue| v@),
            invalid: self.invalid@,
            dep: Map::new(|x: u64| true, |x: u64| self.graph.dep_set(x)),
            req: Map::new(|y: u64| true, |y: u64| self.graph.req_set(y)),
        }
    }

    /// The engine's internal consistency, kept between public calls.
    pub closed spec fn wf(self) -> bool {
        &&& self.src.wf()
        &&& self.vals.wf()
        &&& self.invalid.wf()
        &&& self.graph.wf()
        &&& forall|k: u64| #[trigger] self.invalid@.contains(k) ==> self.src@.dom().contains(k)
        &&& forall|k: u64| #[trigger] self.vals@.dom().contains(k) ==> !self.invalid@.contains(k)
        &&& forall|k: u64| #[trigger] self.vals@.dom().contains(k) ==> self.src@.dom().contains(k)
        &&& forall|k: u64| #[trigger]
            self.src@.dom().contains(k) ==> self.vals@.dom().contains(k)
                || self.invalid@.contains(k)
        &&& forall|k: u64| #[trigger]
            self.invalid@.contains(k) ==> self.graph.dep_set(k) == Set::<u64>::empty()
        &&& forall|k: u64| #[trigger]
            self.graph.dep_set(k) != Set::<u64>::empty() ==> self.src@.dom().contains(k)
        &&& forall|k: u64| #[trigger] self.src@.dom().contains(k) ==> k < KEY_BOUND
    }

    /// What well-formedness guarantees, stated over the abstract state.
    /// The second line is the graph's inverse-consistency law: `a` is
    /// required by `b` exactly when `b` depends on `a`.
    pub proof fn lemma_invariants(self)
        requires
            self.wf(),
        ensures
            forall|k: u64| #[trigger] self@.invalid.contains(k) ==> self@.src.dom().contains(k),
            forall|a: u64, b: u64| #[trigger]
                self@.req[b].contains(a) <==> #[trigger] self@.dep[a].contains(b),
            forall|k: u64| #[trigger] self@.vals.dom().contains(k) ==> !self@.invalid.contains(k),
            forall|k: u64| #[trigger]
                self@.src.dom().contains(k) ==> self@.vals.dom().contains(k)
                    || self@.invalid.contains(k),
            forall|k: u64| #[trigger]
                self@.invalid.contains(k) ==> self@.dep[k] == Set::<u64>::empty(),
    {
        assert forall|a: u64, b: u64| #[trigger]
            self@.req[b].contains(a) <==> #[trigger] self@.dep[a].contains(b) by {
            assert(self@.req[b] == self.graph.req_set(b));
            assert(self@.dep[a] == self.graph.dep_set(a));
            assert(self.graph.dep_edge(a, b) <==> self.graph.req_edge(b, a));
            if self.graph.dep_map().dom().contains(a) {
            } else {
                assert(self.graph.dep_set(a) =~= Set::<u64>::empty());
            }
            if self.graph.req_map().dom().contains(b) {
            } else {
                assert(self.graph.req_set(b) =~= Set::<u64>::empty());
            }
        }
    }

    /// An engine with the given sources; every sourced cell starts stale.
    pub fn new(source: SourceTable) -> (r: EvaluatorTable)
        requires
            source.wf(),
            forall|k: u64| #[trigger] source@.dom().contains(k) ==> k < KEY_BOUND,
        ensures
            r.wf(),
            r@.src == source@.map_values(|s: String| s@),
            r@.vals == Map::<u64, ValueView>::empty(),
            r@.invalid == source@.dom(),
            forall|x: u64| #[trigger] r@.dep[x] == Set::<u64>::empty(),
            forall|y: u64| #[trigger] r@.req[y] == Set::<u64>::empty(),
    {
        let keys: Vec<u64> = source.keys_vec();
        let mut invalid = AddrSet::new();
        let n: usize = keys.len();
        let mut i: usize = 0;
        while i < n
            invariant
                n == keys@.len(),
                i <= n,
                invalid.wf(),
                source.wf(),
                keys@ == source.key_seq(),
                forall|j: int| 0 <= j < i ==> invalid@.contains(#[trigger] keys@[j]),
                forall|k: u64| #[trigger]
                    invalid@.contains(k) ==> exists|j: int| 0 <= j < i && keys@[j] == k,
            decreases n - i,
        {
            invalid.insert(keys[i]);
            proof {
                assert forall|k: u64| #[trigger] invalid@.contains(k) implies exists|j: int|
                    0 <= j < i + 1 && keys@[j] == k by {
                    if k != keys@[i as int] {
                        let j = choose|j: int| 0 <= j < i && keys@[j] == k;
                        assert(0 <= j < i + 1 && keys@[j] == k);
                    } else {
                        assert(keys@[i as int] == k);
                    }
                }
            }
            i = i + 1;
        }
        let r = EvaluatorTable { src: source, vals: AddrMap::new(), graph: DepGraph::new(), invalid };
        proof {
            source.lemma_dom();
            assert(r.invalid@ =~= source@.dom());
            assert(r@.vals =~= Map::<u64, ValueView>::empty());
            assert forall|x: u64| #[trigger] r@.dep[x] == Set::<u64>::empty() by {
                assert(r.graph.dep_set(x) == Set::<u64>::empty());
            }
            assert forall|y: u64| #[trigger] r@.req[y] == Set::<u64>::empty() by {
                assert(r.graph.req_set(y) == Set::<u64>::empty());
            }
            assert(r@.invalid =~= source@.dom());
        }
        r
    }

    /// The cells an edit of `k` will mark stale, over the stored graph.
    pub closed spec fn stale_set(self, k: u64) -> Set<u64> {
        if self.invalid@.contains(k) {
            Set::empty()
        } else {
            Set::new(|b: u64| graph::reach(self.graph.req_map(), k, b))
        }
    }

    /// Stored-graph reachability agrees with view-level reachability.
    proof fn lemma_stale_set_is_invalidated_set(self, k: u64)
        ensures
            self.stale_set(k) == invalidated_set(self@, k),
    {
        let m0 = self.graph.req_map();
        assert forall|a: u64, c: u64| #[trigger]
            req_step(self@, a, c) <==> graph::adj(m0, a, c) by {
            assert(self@.req[a] == self.graph.req_set(a));
            if !m0.dom().contains(a) {
                assert(self.graph.req_set(a) =~= Set::<u64>::empty());
            }
        }
        assert forall|b: u64| #[trigger]
            req_reaches(self@, k, b) <==> graph::reach(m0, k, b) by {
            if req_reaches(self@, k, b) {
                let p = choose|p: Seq<u64>|
                    req_path(self@, p) && p.first() == k && p.last() == b;
                assert(graph::is_path(m0, p));
                assert(graph::reach(m0, k, b));
            }
            if graph::reach(m0, k, b) {
                let p = choose|p: Seq<u64>|
                    graph::is_path(m0, p) && p.first() == k && p.last() == b;
                assert forall|i: int| 0 <= i < p.len() - 1 implies req_step(
                    self@,
                    #[trigger] p[i],
                    p[i + 1],
                ) by {
                    assert(graph::adj(m0, p[i], p[i + 1]));
                }
                assert(req_path(self@, p));
                assert(req_reaches(self@, k, b));
            }
        }
        assert(self.stale_set(k) =~= invalidated_set(self@, k));
    }

    /// Every cell the cascade reaches, other than the edited one, consults
    /// something and is therefore sourced.
    proof fn lemma_stale_sourced(self, k: u64, b: u64)
        requires
            self.wf(),
            self.stale_set(k).contains(b),
            b != k,
        ensures
            self.src@.dom().contains(b),
    {
        let m0 = self.graph.req_map();
        assert(graph::reach(m0, k, b));
        let p = choose|p: Seq<u64>| graph::is_path(m0, p) && p.first() == k && p.last() == b;
        assert(p.len() >= 2);
        let x = p[p.len() - 2];
        assert(graph::adj(m0, x, b));
        assert(self.graph.req_edge(x, b));
        assert(self.graph.dep_edge(b, x));
        assert(self.graph.dep_set(b).contains(x));
        assert(self.graph.dep_set(b) != Set::<u64>::empty());
    }

    /// Marks `k` and, transitively, everything that consulted it as stale:
    /// drops their cached values and their outgoing edges.
    fn invalidate_cell(&mut self, k: u64)
        requires
            old(self).wf(),
        ensures
            ({
                let n = old(self).stale_set(k);
                &&& final(self).src == old(self).src
                &&& final(self).invalid@ == old(self).invalid@ + n
                &&& final(self).vals@ == old(self).vals@.remove_keys(n)
                &&& forall|x: u64|
                    n.contains(x) ==> #[trigger] final(self).graph.dep_set(x) == Set::<
                        u64,
                    >::empty()
                &&& forall|x: u64|
                    !n.contains(x) ==> #[trigger] final(self).graph.dep_set(x) == old(
                        self,
                    ).graph.dep_set(x)
                &&& forall|y: u64| #[trigger]
                    final(self).graph.req_set(y) == old(self).graph.req_set(y) - n
                &&& final(self).vals.wf()
                &&& final(self).invalid.wf()
                &&& final(self).graph.wf()
            }),
    {
        let ghost g0 = *old(self);
        let ghost m0 = old(self).graph.req_map();
        if self.invalid.contains(k) {
            proof {
                let n = g0.stale_set(k);
                assert(n =~= Set::<u64>::empty());
                assert(self.invalid@ =~= g0.invalid@ + n);
                assert(self.vals@ =~= g0.vals@.remove_keys(n));
                assert forall|y: u64| #[trigger] self.graph.req_set(y) == g0.graph.req_set(y)
                    - n by {
                    assert(self.graph.req_set(y) =~= g0.graph.req_set(y) - n);
                }
            }
            return ;
        }
        let mut work: Vec<u64> = Vec::new();
        work.push(k);
        proof {
            graph::lemma_reach_self(m0, k);
            self.invalid.lemma_finite();
            self.invalid.lemma_len_bound();
            assert(work@[0] == k);
            assert(work@.contains(k));
            assert(self.invalid@ - g0.invalid@ =~= Set::<u64>::empty());
            assert(self.vals@ =~= g0.vals@.remove_keys(self.invalid@ - g0.invalid@));
            assert forall|y: u64| #[trigger] self.graph.req_set(y) == g0.graph.req_set(y) - (
            self.invalid@ - g0.invalid@) by {
                assert(self.graph.req_set(y) =~= g0.graph.req_set(y) - (self.invalid@
                    - g0.invalid@));
            }
        }
        while work.len() > 0
            invariant
                self.src == g0.src,
                self.src.wf(),
                self.vals.wf(),
                self.invalid.wf(),
                self.graph.wf(),
                g0.wf(),
                m0 == g0.graph.req_map(),
                !g0.invalid@.contains(k),
                self.invalid.key_seq().len() <= usize::MAX,
                g0.invalid@.subset_of(self.invalid@),
                self.vals@ == g0.vals@.remove_keys(self.invalid@ - g0.invalid@),
                forall|x: u64|
                    (self.invalid@ - g0.invalid@).contains(x) ==> #[trigger] self.graph.dep_set(x)
                        == Set::<u64>::empty(),
                forall|x: u64|
                    !(self.invalid@ - g0.invalid@).contains(x) ==> #[trigger] self.graph.dep_set(x)
                        == g0.graph.dep_set(x),
                forall|y: u64| #[trigger]
                    self.graph.req_set(y) == g0.graph.req_set(y) - (self.invalid@ - g0.invalid@),
                forall|x: u64|
                    (self.invalid@ - g0.invalid@).contains(x) ==> graph::reach(m0, k, x),
                forall|j: int|
                    0 <= j < work@.len() ==> graph::reach(m0, k, #[trigger] work@[j])
                        && !g0.invalid@.contains(work@[j]),
                forall|x: u64, y: u64|
                    #![trigger (self.invalid@ - g0.invalid@).contains(x), graph::adj(m0, x, y)]
                    (self.invalid@ - g0.invalid@).contains(x) && graph::adj(m0, x, y) ==> (
                    self.invalid@ - g0.invalid@).contains(y) || work@.contains(y),
                (self.invalid@ - g0.invalid@).contains(k) || work@.contains(k),
            decreases usize::MAX - self.invalid.key_seq().len(), work@.len(),
        {
            let ghost pre = *self;
            let ghost work0 = work@;
            let x: u64 = match work.pop() {
                Some(v) => v,
                None => vstd::pervasive::unreached(),
            };
            proof {
                assert(work0[work0.len() - 1] == x);
                assert(graph::reach(m0, k, x));
            }
            if !self.invalid.contains(x) {
                proof {
                    self.invalid.lemma_finite();
                }
                self.invalid.insert(x);
                self.vals.remove(x);
                self.graph.drop_outgoing(x);
                let ghost done = self.invalid@ - g0.invalid@;
                proof {
                    self.invalid.lemma_finite();
                    self.invalid.lemma_len_bound();
                    assert(self.invalid@ =~= pre.invalid@.insert(x));
                    assert(self.invalid.key_seq().len() == pre.invalid.key_seq().len() + 1) by {
                        broadcast use vstd::set::group_set_axioms;

                        pre.invalid.lemma_finite();
                    }
                    assert(done =~= (pre.invalid@ - g0.invalid@).insert(x));
                    assert(self.vals@ =~= g0.vals@.remove_keys(done));
                    assert forall|y: u64| #[trigger] self.graph.req_set(y) == g0.graph.req_set(y)
                        - done by {
                        assert(self.graph.req_set(y) =~= pre.graph.req_set(y).remove(x));
                        assert(pre.graph.req_set(y) == g0.graph.req_set(y) - (pre.invalid@
                            - g0.invalid@));
                        assert(self.graph.req_set(y) =~= g0.graph.req_set(y) - done);
                    }
                    assert forall|z: u64| !done.contains(z) implies #[trigger] self.graph.dep_set(
                        z,
                    ) == g0.graph.dep_set(z) by {
                        assert(z != x);
                        assert(self.graph.dep_set(z) == pre.graph.dep_set(z));
                    }
                }
                let preds: Vec<u64> = self.graph.predecessors(x);
                let m: usize = preds.len();
                let mut pi: usize = 0;
                proof {
                    assert(work@ =~= work0.drop_last() + preds@.subrange(0, 0));
                    assert forall|j: int|
                        0 <= j < preds@.len() implies graph::adj(
                        m0,
                        x,
                        #[trigger] preds@[j],
                    ) && !g0.invalid@.contains(preds@[j]) by {
                        assert(self.graph.req_set(x).contains(preds@[j]));
                        assert(g0.graph.req_set(x).contains(preds@[j]));
                        assert(graph::adj(m0, x, preds@[j]));
                        // a consulting cell has outgoing edges and so a source
                        assert(g0.graph.req_edge(x, preds@[j]));
                        assert(g0.graph.dep_edge(preds@[j], x));
                        assert(g0.graph.dep_set(preds@[j]).contains(x));
                        assert(g0.graph.dep_set(preds@[j]) != Set::<u64>::empty());
                        if g0.invalid@.contains(preds@[j]) {
                            assert(g0.graph.dep_set(preds@[j]) == Set::<u64>::empty());
                        }
                    }
                }
                while pi < m
                    invariant
                        m == preds@.len(),
                        pi <= m,
                        self.graph.wf(),
                        m0 == g0.graph.req_map(),
                        forall|j: int|
                            0 <= j < preds@.len() ==> graph::adj(m0, x, #[trigger] preds@[j])
                                && !g0.invalid@.contains(preds@[j]),
                        graph::reach(m0, k, x),
                        work@ == work0.drop_last() + preds@.subrange(0, pi as int),
                    decreases m - pi,
                {
                    let p: u64 = preds[pi];
                    work.push(p);
                    proof {
                        assert(work@ =~= work0.drop_last() + preds@.subrange(0, pi + 1 as int));
                    }
                    pi = pi + 1;
                }
                proof {
                    let done = self.invalid@ - g0.invalid@;
                    assert forall|j: int|
                        0 <= j < work@.len() implies graph::reach(m0, k, #[trigger] work@[j])
                        && !g0.invalid@.contains(work@[j]) by {
                        if j < work0.len() - 1 {
                            assert(work@[j] == work0[j]);
                        } else {
                            let jj = j - (work0.len() - 1);
                            assert(work@[j] == preds@[jj]);
                            graph::lemma_reach_step(m0, k, x, preds@[jj]);
                        }
                    }
                    assert forall|z: u64, y: u64|
                        #![trigger done.contains(z), graph::adj(m0, z, y)]
                        done.contains(z) && graph::adj(m0, z, y) implies done.contains(y)
                        || work@.contains(y) by {
                        if z == x {
                            // fresh: its pending consumers were just pushed
                            assert(g0.graph.req_set(x).contains(y));
                            if !done.contains(y) {
                                assert((g0.graph.req_set(x) - (self.invalid@
                                    - g0.invalid@)).contains(y));
                                assert(self.graph.req_set(x).contains(y));
                                let j = choose|j: int|
                                    0 <= j < preds@.len() && preds@[j] == y;
                                assert(work@[work0.len() - 1 + j] == y);
                            }
                        } else {
                            assert((pre.invalid@ - g0.invalid@).contains(z));
                            assert((pre.invalid@ - g0.invalid@).contains(y) || work0.contains(y));
                            if !done.contains(y) {
                                assert(work0.contains(y));
                                let j = choose|j: int| 0 <= j < work0.len() && work0[j] == y;
                                if j < work0.len() - 1 {
                                    assert(work@[j] == y);
                                } else {
                                    assert(y == x);
                                    assert(done.contains(x));
                                }
                            }
                        }
                    }
                    if !done.contains(k) && !work@.contains(k) {
                        assert((pre.invalid@ - g0.invalid@).contains(k) || work0.contains(k));
                        if work0.contains(k) {
                            let j = choose|j: int| 0 <= j < work0.len() && work0[j] == k;
                            if j < work0.len() - 1 {
                                assert(work@[j] == k);
                            } else {
                                assert(k == x);
                            }
                        }
                        assert(false);
                    }
                }
            } else {
                proof {
                    // already marked in this cascade: nothing to do
                    assert(!g0.invalid@.contains(x));
                    assert((self.invalid@ - g0.invalid@).contains(x));
                    let done = self.invalid@ - g0.invalid@;
                    assert forall|j: int|
                        0 <= j < work@.len() implies graph::reach(m0, k, #[trigger] work@[j])
                        && !g0.invalid@.contains(work@[j]) by {
                        assert(work@[j] == work0[j]);
                    }
                    assert forall|z: u64, y: u64|
                        #![trigger done.contains(z), graph::adj(m0, z, y)]
                        done.contains(z) && graph::adj(m0, z, y) implies done.contains(y)
                        || work@.contains(y) by {
                        assert(done.contains(y) || work0.contains(y));
                        if !done.contains(y) {
                            let j = choose|j: int| 0 <= j < work0.len() && work0[j] == y;
                            if j < work0.len() - 1 {
                                assert(work@[j] == y);
                            } else {
                                assert(y == x);
                                assert(done.contains(x));
                            }
                        }
                    }
                    if !done.contains(k) && !work@.contains(k) {
                        if work0.contains(k) {
                            let j = choose|j: int| 0 <= j < work0.len() && work0[j] == k;
                            if j < work0.len() - 1 {
                                assert(work@[j] == k);
                            } else {
                                assert(k == x);
                            }
                        }
                        assert(false);
                    }
                }
            }
        }
        proof {
            let n = g0.stale_set(k);
            let done = self.invalid@ - g0.invalid@;
            assert(done.contains(k));
            assert forall|u: u64, v: u64| done.contains(u) && graph::adj(m0, u, v) implies
                done.contains(v) by {}
            assert forall|b: u64| #[trigger] n.contains(b) implies done.contains(b) by {
                assert(graph::reach(m0, k, b));
                graph::lemma_reach_in_closed_set(m0, done, k, b);
            }
            assert(n =~= done);
            assert(self.invalid@ =~= g0.invalid@ + n);
        }
    }

    /// Stores or clears the text of one cell and marks everything that
    /// consulted it, transitively, as stale. The edited cell's cached
    /// value is gone until the next evaluation round; clearing a cell
    /// also takes it out of the stale set, since a cell without source
    /// needs no recomputation.
    pub fn set_source(&mut self, pos: CellPos, src: Option<String>)
        requires
            old(self).wf(),
            pos.wf(),
        ensures
            final(self).wf(),
            set_source_post(
                old(self)@,
                final(self)@,
                pos.spec_key(),
                match src {
                    Some(s) => Some(s@),
                    None => None,
                },
            ),
            !final(self)@.vals.dom().contains(pos.spec_key()),
            final(self)@.invalid.contains(pos.spec_key()) == src is Some,
            final(self)@.src.dom().contains(pos.spec_key()) == src is Some,
    {
        let ghost g0 = *old(self);
        let ghost kk = pos.spec_key();
        let k: u64 = pos.key();
        self.invalidate_cell(k);
        let ghost g1 = *self;
        proof {
            g0.lemma_stale_set_is_invalidated_set(k);
        }
        match &src {
            Some(_) => (),
            None => {
                self.invalid.remove(k);
            },
        }
        match src {
            Some(s) => {
                self.src.insert(k, s);
            },
            None => {
                self.src.remove(k);
            },
        }
        proof {
            let n = g0.stale_set(k);
            lemma_key_in_range(pos);
            // the edited cell is in the stale closure unless already stale
            if !g0.invalid@.contains(k) {
                graph::lemma_reach_self(g0.graph.req_map(), k);
                assert(n.contains(k));
            }
            assert forall|b: u64| n.contains(b) && b != k implies g0.src@.dom().contains(b) by {
                g0.lemma_stale_sourced(k, b);
            }
            if g0.invalid@.contains(k) {
                assert(self.invalid@.contains(k) == g0.invalid@.contains(k) || true);
            }
            // view-level description
            assert(self@.src =~= (match src {
                Some(s) => g0@.src.insert(kk, s@),
                None => g0@.src.remove(kk),
            }));
            assert(self@.vals =~= g0@.vals.remove_keys(n));
            assert(self@.invalid =~= (match src {
                Some(_) => g0@.invalid + n,
                None => (g0@.invalid + n).remove(kk),
            }));
            assert(self@.dep =~~= Map::new(
                |x: u64| true,
                |x: u64|
                    if n.contains(x) {
                        Set::<u64>::empty()
                    } else {
                        g0@.dep[x]
                    },
            ));
            assert(self@.req =~~= Map::new(|y: u64| true, |y: u64| g0@.req[y] - n)) by {
                assert forall|y: u64| #[trigger] self.graph.req_set(y) =~= g0@.req[y] - n by {
                    assert(g0@.req[y] == g0.graph.req_set(y));
                }
                assert(self@.req.dom() =~= Map::new(
                    |y: u64| true,
                    |y: u64| g0@.req[y] - n,
                ).dom());
            }
            // the invariants hold again
            assert forall|q: u64| #[trigger] self.invalid@.contains(q) implies
                self.src@.dom().contains(q) by {
                if g0.invalid@.contains(q) {
                } else {
                    assert(n.contains(q));
                    if q != k {
                        g0.lemma_stale_sourced(k, q);
                    }
                }
            }
            assert forall|q: u64| #[trigger] self.vals@.dom().contains(q) implies
                !self.invalid@.contains(q) && self.src@.dom().contains(q) by {
                assert(g0.vals@.dom().contains(q));
                assert(!n.contains(q));
                assert(!g0.invalid@.contains(q));
                assert(g0.src@.dom().contains(q));
                if q == k {
                    assert(!g0.invalid@.contains(k));
                    assert(n.contains(k));
                    assert(false);
                }
            }
            assert forall|q: u64| #[trigger] self.src@.dom().contains(q) implies
                self.vals@.dom().contains(q) || self.invalid@.contains(q) by {
                if q != k {
                    assert(g0.src@.dom().contains(q));
                    if g0.vals@.dom().contains(q) && !n.contains(q) {
                        assert(self.vals@.dom().contains(q));
                    }
                }
            }
            assert forall|q: u64| #[trigger] self.invalid@.contains(q) implies
                self.graph.dep_set(q) == Set::<u64>::empty() by {
                if !n.contains(q) {
                    assert(g0.invalid@.contains(q));
                    assert(self.graph.dep_set(q) == g0.graph.dep_set(q));
                }
            }
            assert forall|q: u64|
                #[trigger] self.graph.dep_set(q) != Set::<u64>::empty() implies
                self.src@.dom().contains(q) by {
                assert(!n.contains(q));
                assert(self.graph.dep_set(q) == g0.graph.dep_set(q));
                assert(g0.src@.dom().contains(q));
                if q == k {
                    if !g0.invalid@.contains(k) {
                        assert(n.contains(k));
                        assert(false);
                    } else {
                        assert(g0.graph.dep_set(k) == Set::<u64>::empty());
                        assert(false);
                    }
                }
            }
        }
    }

    /// An engine over no cells at all.
    pub fn empty() -> (r: EvaluatorTable)
        ensures
            r.wf(),
            r@.src == Map::<u64, Seq<char>>::empty(),
            r@.vals == Map::<u64, ValueView>::empty(),
            r@.invalid == Set::<u64>::empty(),
    {
        let r = EvaluatorTable::new(AddrMap::new());
        proof {
            assert(r@.src =~= Map::<u64, Seq<char>>::empty());
            assert(r@.invalid =~= Set::<u64>::empty());
        }
        r
    }

    /// The text stored at an address, if any.
    pub fn get_source(&self, pos: &CellPos) -> (r: Option<&String>)
        requires
            self.wf(),
            pos.wf(),
        ensures
            match r {
                Some(s) => self@.src.dom().contains(pos.spec_key()) && self@.src[pos.spec_key()]
                    == s@,
                None => !self@.src.dom().contains(pos.spec_key()),
            },
    {
        let r = self.src.get(pos.key());
        proof {
            assert(self@.src.dom() =~= self.src@.dom());
        }
        r
    }

    /// Whether the cell's value is stale and awaits the next evaluation.
    pub fn is_invalid(&self, pos: &CellPos) -> (r: bool)
        requires
            self.wf(),
            pos.wf(),
        ensures
            r == self@.invalid.contains(pos.spec_key()),
    {
        self.invalid.contains(pos.key())
    }

    /// The cached value of a cell. May only be asked when no cell is
    /// stale, that is, right after an evaluation round.
    pub fn value_of(&self, pos: &CellPos) -> (r: Option<&TableValue>)
        requires
            self.wf(),
            pos.wf(),
            self@.invalid == Set::<u64>::empty(),
        ensures
            match r {
                Some(v) => self@.vals.dom().contains(pos.spec_key()) && self@.vals[pos.spec_key()]
                    == v@,
                None => !self@.vals.dom().contains(pos.spec_key()),
            },
    {
        let r = self.vals.get(pos.key());
        proof {
            assert(self@.vals.dom() =~= self.vals@.dom());
        }
        r
    }

    /// One evaluation round: computes a value for every stale cell (its
    /// script consulting peers as needed), commits the results, and clears
    /// the stale set. Afterwards every sourced cell has a value. A round
    /// over an empty stale set changes nothing at all.
    pub fn evaluate(&mut self)
        requires
            old(self).wf(),
        ensures
            final(self).wf(),
            final(self)@.invalid == Set::<u64>::empty(),
            final(self)@.src == old(self)@.src,
            final(self)@.vals.dom() == old(self)@.vals.dom() + old(self)@.invalid,
            forall|k: u64| #[trigger]
                old(self)@.vals.dom().contains(k) ==> final(self)@.vals[k] == old(self)@.vals[k],
            forall|k: u64| #[trigger]
                final(self)@.src.dom().contains(k) ==> final(self)@.vals.dom().contains(k),
            forall|k: u64|
                #![trigger plan_of(old(self)@.src[k])]
                old(self)@.invalid.contains(k) ==> (plan_of(old(self)@.src[k]) matches
                    PlanView::Literal(t) ==> final(self)@.vals.dom().contains(k)
                    && final(self)@.vals[k] == ValueView::Text(t)),
            old(self)@.invalid == Set::<u64>::empty() ==> final(self)@ == old(self)@,
    {
        let ghost g0 = *old(self);
        let pending_vec: Vec<u64> = self.invalid.to_vec();
        let n: usize = pending_vec.len();
        let mut slots: AddrMap<TableValue> = AddrMap::new();
        let mut i: usize = 0;
        proof {
            self.invalid.lemma_dom();
            assert(literal_slots_ok(self.src, slots));
        }
        while i < n
            invariant
                g0 == *old(self),
                n == pending_vec@.len(),
                i <= n,
                *self == (EvaluatorTable {
                    graph: self.graph,
                    ..g0
                }),
                g0.wf(),
                pending_vec@ == g0.invalid.key_seq(),
                forall|j: int|
                    0 <= j < n ==> g0.invalid@.contains(#[trigger] pending_vec@[j]),
                self.graph.wf(),
                slots.wf(),
                slots@.dom().subset_of(g0.invalid@),
                forall|j: int| 0 <= j < i ==> slots@.dom().contains(#[trigger] pending_vec@[j]),
                literal_slots_ok(g0.src, slots),
                forall|x: u64|
                    #[trigger] self.graph.dep_set(x) != g0.graph.dep_set(x)
                        ==> g0.invalid@.contains(x),
                n == 0 ==> self.graph == g0.graph,
            decreases n - i,
        {
            let a: u64 = pending_vec[i];
            proof {
                g0.invalid.lemma_dom();
                assert(g0.invalid@.contains(a));
                assert(g0.invalid@.subset_of(g0.src@.dom())) by {
                    assert forall|k: u64| g0.invalid@.contains(k) implies g0.src@.dom().contains(
                        k,
                    ) by {}
                }
                assert forall|k: u64| #[trigger] g0.invalid@.contains(k) implies k < KEY_BOUND by {
                    assert(g0.src@.dom().contains(k));
                }
            }
            crate::round::run_cell(a, &self.src, &self.vals, &mut self.graph, &mut slots, &self.invalid);
            i = i + 1;
        }
        // commit: move every slot into the store and clear the stale set
        let ghost slots_all = slots;
        let mut i2: usize = 0;
        proof {
            g0.invalid.lemma_dom();
            assert forall|k: u64| #[trigger] g0.invalid@.contains(k) implies slots@.dom().contains(
                k,
            ) by {
                let j = choose|j: int|
                    0 <= j < g0.invalid.key_seq().len() && g0.invalid.key_seq()[j] == k;
                assert(pending_vec@[j] == k);
            }
            assert(slots@.dom() =~= g0.invalid@);
        }
        while i2 < n
            invariant
                g0 == *old(self),
                n == pending_vec@.len(),
                i2 <= n,
                *self == (EvaluatorTable {
                    graph: self.graph,
                    vals: self.vals,
                    ..g0
                }),
                g0.wf(),
                pending_vec@ == g0.invalid.key_seq(),
                crate::map::sorted_keys(pending_vec@),
                slots_all@.dom() == g0.invalid@,
                slots.wf(),
                self.vals.wf(),
                self.graph.wf(),
                slots@ == slots_all@.remove_keys(pending_vec@.subrange(0, i2 as int).to_set()),
                self.vals@.dom() == g0.vals@.dom() + pending_vec@.subrange(0, i2 as int).to_set(),
                forall|k: u64| #[trigger]
                    g0.vals@.dom().contains(k) ==> self.vals@.dom().contains(k) && self.vals@[k]
                        == g0.vals@[k],
                forall|j: int|
                    0 <= j < i2 ==> self.vals@.dom().contains(#[trigger] pending_vec@[j])
                        && self.vals@[pending_vec@[j]] == slots_all@[pending_vec@[j]],
                forall|x: u64|
                    #[trigger] self.graph.dep_set(x) != g0.graph.dep_set(x)
                        ==> g0.invalid@.contains(x),
                n == 0 ==> self.graph == g0.graph,
            decreases n - i2,
        {
            let a: u64 = pending_vec[i2];
            proof {
                g0.invalid.lemma_dom();
                assert(g0.invalid@.contains(a));
                assert(!pending_vec@.subrange(0, i2 as int).to_set().contains(a)) by {
                    vstd::seq_lib::seq_to_set_is_finite(pending_vec@.subrange(0, i2 as int));
                    if pending_vec@.subrange(0, i2 as int).to_set().contains(a) {
                        let j = choose|j: int|
                            0 <= j < i2 && pending_vec@.subrange(0, i2 as int)[j] == a;
                        assert(pending_vec@[j] == pending_vec@[i2 as int]);
                    }
                }
                assert(slots@.dom().contains(a));
            }
            let v: TableValue = match slots.remove(a) {
                Some(v) => v,
                None => vstd::pervasive::unreached(),
            };
            proof {
                assert(v == slots_all@[a]);
            }
            let ghost pre_vals = self.vals@;
            self.vals.insert(a, v);
            proof {
                assert forall|j: int| 0 <= j < i2 + 1 implies self.vals@.dom().contains(
                    #[trigger] pending_vec@[j],
                ) && self.vals@[pending_vec@[j]] == slots_all@[pending_vec@[j]] by {
                    if j < i2 {
                        assert(pending_vec@[j] < pending_vec@[i2 as int]);
                        assert(pending_vec@[j] != a);
                    }
                }
            }
            proof {
                assert(pending_vec@.subrange(0, i2 + 1 as int).drop_last() =~= pending_vec@.subrange(
                    0,
                    i2 as int,
                ));
                assert(pending_vec@.subrange(0, i2 + 1 as int).to_set()
                    =~= pending_vec@.subrange(0, i2 as int).to_set().insert(a)) by {
                    assert forall|k: u64|
                        pending_vec@.subrange(0, i2 + 1 as int).to_set().contains(k) implies
                        pending_vec@.subrange(0, i2 as int).to_set().insert(a).contains(k) by {
                        let j = choose|j: int|
                            0 <= j < i2 + 1 && #[trigger] pending_vec@.subrange(
                                0,
                                i2 + 1 as int,
                            )[j] == k;
                        if j < i2 {
                            assert(pending_vec@.subrange(0, i2 as int)[j] == k);
                        } else {
                            assert(pending_vec@[i2 as int] == k);
                        }
                    }
                    assert forall|k: u64|
                        pending_vec@.subrange(0, i2 as int).to_set().insert(a).contains(
                            k,
                        ) implies pending_vec@.subrange(0, i2 + 1 as int).to_set().contains(k) by {
                        if k == a {
                            assert(pending_vec@.subrange(0, i2 + 1 as int)[i2 as int] == k);
                        } else {
                            let j = choose|j: int|
                                0 <= j < i2 && #[trigger] pending_vec@.subrange(0, i2 as int)[j]
                                    == k;
                            assert(pending_vec@.subrange(0, i2 + 1 as int)[j] == k);
                        }
                    }
                }
                assert(slots@ =~= slots_all@.remove_keys(
                    pending_vec@.subrange(0, i2 + 1 as int).to_set(),
                ));
                assert(self.vals@.dom() =~= g0.vals@.dom() + pending_vec@.subrange(
                    0,
                    i2 + 1 as int,
                ).to_set());
                assert forall|k: u64| #[trigger] g0.vals@.dom().contains(k) implies
                    self.vals@.dom().contains(k) && self.vals@[k] == g0.vals@[k] by {
                    if k == a {
                        assert(g0.invalid@.contains(a));
                        assert(!g0.vals@.dom().contains(a));
                    }
                }
            }
            i2 = i2 + 1;
        }
        self.invalid = AddrSet::new();
        proof {
            g0.invalid.lemma_dom();
            assert(pending_vec@.subrange(0, n as int) =~= pending_vec@);
            assert(pending_vec@.to_set() =~= g0.invalid@) by {
                assert forall|k: u64| #[trigger] g0.invalid@.contains(k) implies
                    pending_vec@.to_set().contains(k) by {
                    let j = choose|j: int|
                        0 <= j < g0.invalid.key_seq().len() && g0.invalid.key_seq()[j] == k;
                    assert(pending_vec@[j] == k);
                }
            }
            assert(self.vals@.dom() =~= g0.vals@.dom() + g0.invalid@);
            // abstract-state bookkeeping
            assert(self@.src =~= g0@.src);
            assert(self@.invalid =~= Set::<u64>::empty());
            assert(self@.vals.dom() =~= g0@.vals.dom() + g0@.invalid) by {
                assert(self@.vals.dom() =~= self.vals@.dom());
                assert(g0@.vals.dom() =~= g0.vals@.dom());
            }
            assert forall|k: u64| #[trigger] g0@.vals.dom().contains(k) implies self@.vals[k]
                == g0@.vals[k] by {
                assert(g0.vals@.dom().contains(k));
                assert(self.vals@[k] == g0.vals@[k]);
            }
            // the engine is consistent again
            assert forall|q: u64| #[trigger] self.src@.dom().contains(q) implies
                self.vals@.dom().contains(q) by {
                if !g0.vals@.dom().contains(q) {
                    assert(g0.invalid@.contains(q));
                }
            }
            assert forall|q: u64| #[trigger] self.vals@.dom().contains(q) implies
                self.src@.dom().contains(q) by {
                if !g0.vals@.dom().contains(q) {
                    assert(g0.invalid@.contains(q));
                }
            }
            assert forall|q: u64|
                #[trigger] self.graph.dep_set(q) != Set::<u64>::empty() implies
                self.src@.dom().contains(q) by {
                if self.graph.dep_set(q) == g0.graph.dep_set(q) {
                } else {
                    assert(g0.invalid@.contains(q));
                }
            }
            // every stale literal cell now caches exactly its text
            assert forall|k: u64|
                #![trigger plan_of(g0@.src[k])]
                g0@.invalid.contains(k) implies (plan_of(g0@.src[k]) matches PlanView::Literal(t)
                ==> self@.vals.dom().contains(k) && self@.vals[k] == ValueView::Text(t)) by {
                assert(g0.invalid@.contains(k));
                assert(g0.src@.dom().contains(k));
                assert(g0@.src[k] == g0.src@[k]@);
                let j = choose|j: int|
                    0 <= j < g0.invalid.key_seq().len() && g0.invalid.key_seq()[j] == k;
                assert(pending_vec@[j] == k);
                assert(self.vals@.dom().contains(k));
                assert(self.vals@[k] == slots_all@[k]);
                assert(slots_all@.dom().contains(k));
                assert(literal_slots_ok(g0.src, slots_all));
                assert(slots_all@[k] == slots_all@[k]);
                assert(self@.vals[k] == self.vals@[k]@);
            }
            // a round over an empty stale set changes nothing
            if g0.invalid@ == Set::<u64>::empty() {
                assert(n == 0) by {
                    g0.invalid.lemma_finite();
                    if g0.invalid.key_seq().len() > 0 {
                        assert(g0.invalid@.contains(g0.invalid.key_seq()[0]));
                    }
                }
                assert(self.vals@ =~= g0.vals@);
                assert(self@.vals =~= g0@.vals);
                assert(self@.invalid =~= g0@.invalid);
                assert(self.graph == g0.graph);
                assert(self@.dep =~~= g0@.dep) by {
                    assert forall|x: u64| #[trigger] self@.dep[x] == g0@.dep[x] by {
                        assert(self.graph.dep_set(x) == g0.graph.dep_set(x));
                    }
                    assert(self@.dep.dom() =~= g0@.dep.dom());
                }
                assert(self@.req =~~= g0@.req) by {
                    assert forall|y: u64| #[trigger] self@.req[y] == g0@.req[y] by {
                        assert(self.graph.req_set(y) == g0.graph.req_set(y));
                    }
                    assert(self@.req.dom() =~= g0@.req.dom());
                }
                assert(self@ =~~= g0@);
            }
        }
    }

    /// The cells this cell consulted during its last evaluation.
    pub fn depends_on(&self, pos: &CellPos) -> (r: Vec<u64>)
        requires
            self.wf(),
            pos.wf(),
        ensures
            forall|j: int| 0 <= j < r@.len() ==> self@.dep[pos.spec_key()].contains(#[trigger] r@[j]),
            forall|b: u64| #[trigger] self@.dep[pos.spec_key()].contains(b) ==> r@.contains(b),
    {
        let r = self.graph.successors(pos.key());
        proof {
            assert(self@.dep[pos.spec_key()] == self.graph.dep_set(pos.spec_key()));
        }
        r
    }

    /// The cells that consulted this cell during their last evaluation.
    pub fn required_by(&self, pos: &CellPos) -> (r: Vec<u64>)
        requires
            self.wf(),
            pos.wf(),
        ensures
            forall|j: int| 0 <= j < r@.len() ==> self@.req[pos.spec_key()].contains(#[trigger] r@[j]),
            forall|b: u64| #[trigger] self@.req[pos.spec_key()].contains(b) ==> r@.contains(b),
    {
        let r = self.graph.predecessors(pos.key());
        proof {
            assert(self@.req[pos.spec_key()] == self.graph.req_set(pos.spec_key()));
        }
        r
    }

    /// Every sourced cell, in address order, with its text.
    pub fn iter_sources(&self) -> (r: Vec<(CellPos, String)>)
        requires
            self.wf(),
        ensures
            r@.len() == self@.src.dom().len(),
            forall|j: int|
                0 <= j < r@.len() ==> (#[trigger] r@[j].0).wf() && self@.src.dom().contains(
                    r@[j].0.spec_key(),
                ) && self@.src[r@[j].0.spec_key()] == r@[j].1@,
            forall|k: u64| #[trigger]
                self@.src.dom().contains(k) ==> exists|j: int|
                    0 <= j < r@.len() && (#[trigger] r@[j]).0.spec_key() == k,
    {
        let n: usize = self.src.len();
        let mut out: Vec<(CellPos, String)> = Vec::new();
        let mut i: usize = 0;
        proof {
            self.src.lemma_no_dup();
            self.src.lemma_dom();
            assert(self@.src.dom() =~= self.src@.dom());
        }
        while i < n
            invariant
                n == self.src.key_seq().len(),
                i <= n,
                self.wf(),
                out@.len() == i,
                forall|j: int|
                    0 <= j < i ==> (#[trigger] out@[j].0).wf() && out@[j].0.spec_key()
                        == self.src.key_seq()[j] && self@.src.dom().contains(out@[j].0.spec_key())
                        && self@.src[out@[j].0.spec_key()] == out@[j].1@,
            decreases n - i,
        {
            let k: u64 = self.src.key_at(i);
            proof {
                assert(self.src@.dom().contains(k));
                assert(self@.src.dom() =~= self.src@.dom());
                assert(k < KEY_BOUND);
            }
            let p: CellPos = CellPos::from_key(k);
            let s: &String = match self.src.get(k) {
                Some(s) => s,
                None => vstd::pervasive::unreached(),
            };
            out.push((p, s.clone()));
            i = i + 1;
        }
        proof {
            self.src.lemma_no_dup();
            assert(self@.src.dom().len() == self.src@.dom().len());
            assert forall|k: u64| #[trigger] self@.src.dom().contains(k) implies exists|j: int|
                0 <= j < out@.len() && (#[trigger] out@[j]).0.spec_key() == k by {
                assert(self.src@.dom().contains(k));
                self.src.lemma_dom();
                let j = choose|j: int|
                    0 <= j < self.src.key_seq().len() && self.src.key_seq()[j] == k;
                assert(out@[j].0.spec_key() == k);
            }
        }
        out
    }
}

impl Default for EvaluatorTable {
    /// Same as `empty`.
    fn default() -> (r: EvaluatorTable)
        ensures
            r.wf(),
            r@.src == Map::<u64, Seq<char>>::empty(),
            r@.invalid == Set::<u64>::empty(),
    {
        EvaluatorTable::empty()
    }
}

} // verus!
