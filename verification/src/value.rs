//! Computed cell values.
//!
//! A cell evaluates to nothing, text, an integer number, or an error.
//! Errors are values of the computation, not control flow: they carry a
//! kind (script failure, reference cycle, or anything else) and a message,
//! and they flow to downstream cells.

use vstd::prelude::*;
use vstd::string::StrSliceExecFns;
use vstd::string::StringExecFns;

use crate::ext::push_char;
use crate::pos::row_chars;

verus! {

/// Which failure a cell error reports.
#[derive(Clone, Copy, Debug, PartialEq, Eq, Structural)]
pub enum ErrKind {
    Script,
    Cycle,
    Other,
}

/// An evaluation failure stored as a cell value.
#[derive(Debug)]
pub struct TableError {
    pub kind: ErrKind,
    pub message: String,
}

/// Abstract value of a `TableValue`.
pub enum ValueView {
    Empty,
    Text(Seq<char>),
    Number(int),
    Error(ErrKind, Seq<char>),
}

/// The value a cell evaluated to.
#[derive(Debug)]
pub enum TableValue {
    Empty,
    Text(String),
    Number(i64),
    Error(TableError),
}

impl View for TableValue {
    type V = ValueView;

    open spec fn view(&self) -> ValueView {
        match self {
            TableValue::Empty => ValueView::Empty,
            TableValue::Text(s) => ValueView::Text(s@),
            TableValue::Number(n) => ValueView::Number(*n as int),
            TableValue::Error(e) => ValueView::Error(e.kind, e.message@),
        }
    }
}

/// The one failure the evaluation round reports apart from script errors:
/// a dependency cycle was found while resolving a cell reference.
#[derive(Clone, Copy, Debug, PartialEq, Eq, Structural)]
pub enum EvalationError {
    DependencyCycle,
}

impl EvalationError {
    /// The failure's display text.
    pub fn describe(&self) -> (r: String)
        ensures
            self matches EvalationError::DependencyCycle ==> r@ == "Dependency cycle detected"@,
    {
        match self {
            EvalationError::DependencyCycle => String::from_str("Dependency cycle detected"),
        }
    }
}

/// Decimal text of an integer, shortest form, `-` sign for negatives.
pub open spec fn dec_repr(n: int) -> Seq<char> {
    if n == 0 {
        seq!['0']
    } else if n > 0 {
        row_chars(n)
    } else {
        seq!['-'] + row_chars(-n)
    }
}

/// Text a value renders to: nothing, the text itself, the decimal number,
/// or `#ERR: ` followed by the error message.
pub open spec fn render_spec(v: ValueView) -> Seq<char> {
    match v {
        ValueView::Empty => Seq::empty(),
        ValueView::Text(s) => s,
        ValueView::Number(n) => dec_repr(n),
        ValueView::Error(_, m) => seq!['#', 'E', 'R', 'R', ':', ' '] + m,
    }
}

/// Length of the first line of `s`: the index of the first newline, or the
/// whole length if there is none.
pub open spec fn first_line_len(s: Seq<char>) -> int
    decreases s.len(),
{
    if s.len() == 0 {
        0
    } else if s[0] == '\n' {
        0
    } else {
        1 + first_line_len(s.drop_first())
    }
}

/// `n` spaces.
pub open spec fn spaces(n: int) -> Seq<char>
    decreases n,
{
    if n <= 0 {
        Seq::empty()
    } else {
        spaces(n - 1).push(' ')
    }
}

/// The first line of `s`, right-padded with spaces or cut to exactly `n`
/// characters.
pub open spec fn fitted(s: Seq<char>, n: int) -> Seq<char> {
    let line = s.take(first_line_len(s));
    if line.len() >= n {
        line.take(n)
    } else {
        line + spaces(n - line.len())
    }
}

proof fn lemma_spaces_len(n: int)
    ensures
        spaces(n).len() == if n <= 0 {
            0int
        } else {
            n
        },
        forall|j: int| 0 <= j < spaces(n).len() ==> spaces(n)[j] == ' ',
    decreases n,
{
    if n > 0 {
        lemma_spaces_len(n - 1);
    }
}

fn push_dec_digits(out: &mut String, m: u64)
    ensures
        final(out)@ == old(out)@ + row_chars(m as int),
    decreases m,
{
    if m > 0 {
        push_dec_digits(out, m / 10);
        let d: u64 = m % 10;
        push_char(out, (48u8 + d as u8) as char);
        assert(final(out)@ =~= old(out)@ + row_chars(m as int));
    } else {
        assert(old(out)@ + row_chars(0) =~= old(out)@);
    }
}

/// Appends the decimal form of `n` to `out`.
pub fn push_dec(out: &mut String, n: i64)
    ensures
        final(out)@ == old(out)@ + dec_repr(n as int),
{
    if n == 0 {
        push_char(out, '0');
        assert(final(out)@ =~= old(out)@ + dec_repr(0));
    } else if n > 0 {
        push_dec_digits(out, n as u64);
    } else {
        push_char(out, '-');
        let m: u64 = (-(n as i128)) as u64;
        push_dec_digits(out, m);
        assert(final(out)@ =~= old(out)@ + dec_repr(n as int));
    }
}

impl TableError {
    /// Copy with the same kind and message.
    pub fn dup(&self) -> (r: TableError)
        ensures
            r.kind == self.kind,
            r.message@ == self.message@,
    {
        TableError { kind: self.kind, message: self.message.clone() }
    }
}

impl TableValue {
    /// Wraps any foreign failure message as an error value.
    pub fn other_error(message: String) -> (r: TableValue)
        ensures
            r@ == ValueView::Error(ErrKind::Other, message@),
    {
        TableValue::Error(TableError { kind: ErrKind::Other, message })
    }

    /// Wraps a script failure message as an error value.
    pub fn lua_error(message: String) -> (r: TableValue)
        ensures
            r@ == ValueView::Error(ErrKind::Script, message@),
    {
        TableValue::Error(TableError { kind: ErrKind::Script, message })
    }

    /// Wraps a cycle report as an error value.
    pub fn cycle_error(message: String) -> (r: TableValue)
        ensures
            r@ == ValueView::Error(ErrKind::Cycle, message@),
    {
        TableValue::Error(TableError { kind: ErrKind::Cycle, message })
    }

    /// Text value.
    pub fn from_stringable(s: &str) -> (r: TableValue)
        ensures
            r@ == ValueView::Text(s@),
    {
        TableValue::Text(s.to_owned())
    }

    /// Number value.
    pub fn from_number(n: i64) -> (r: TableValue)
        ensures
            r@ == ValueView::Number(n as int),
    {
        TableValue::Number(n)
    }

    pub fn is_err(&self) -> (r: bool)
        ensures
            r <==> self@ matches ValueView::Error(_, _),
    {
        match self {
            TableValue::Error(_) => true,
            _ => false,
        }
    }

    /// Copy with the same abstract value.
    pub fn dup(&self) -> (r: TableValue)
        ensures
            r@ == self@,
    {
        match self {
            TableValue::Empty => TableValue::Empty,
            TableValue::Text(s) => TableValue::Text(s.clone()),
            TableValue::Number(n) => TableValue::Number(*n),
            TableValue::Error(e) => TableValue::Error(e.dup()),
        }
    }

    /// The text this value displays as.
    pub fn render(&self) -> (r: String)
        ensures
            r@ == render_spec(self@),
    {
        match self {
            TableValue::Empty => {
                let r = String::new();
                proof {
                    assert(r@ =~= render_spec(self@));
                }
                r
            },
            TableValue::Text(s) => s.clone(),
            TableValue::Number(n) => {
                let mut r = String::new();
                push_dec(&mut r, *n);
                proof {
                    assert(r@ =~= render_spec(self@));
                }
                r
            },
            TableValue::Error(e) => {
                let mut r = String::new();
                push_char(&mut r, '#');
                push_char(&mut r, 'E');
                push_char(&mut r, 'R');
                push_char(&mut r, 'R');
                push_char(&mut r, ':');
                push_char(&mut r, ' ');
                r.append(e.message.as_str());
                proof {
                    assert(r@ =~= render_spec(self@));
                }
                r
            },
        }
    }

    /// The first line of the rendered value, padded or cut to exactly
    /// `length` characters.
    pub fn format_to_length(&self, length: usize) -> (r: String)
        ensures
            r@ == fitted(render_spec(self@), length as int),
    {
        let full = self.render();
        let n: usize = full.as_str().unicode_len();
        let mut out = String::new();
        let mut i: usize = 0;
        while i < n && i < length
            invariant_except_break
                n == full@.len(),
                i <= n,
                i <= length,
                forall|j: int| 0 <= j < i ==> full@[j] != '\n',
                out@ == full@.subrange(0, i as int),
            ensures
                n == full@.len(),
                i <= n,
                i <= length,
                forall|j: int| 0 <= j < i ==> full@[j] != '\n',
                out@ == full@.subrange(0, i as int),
                i == n || i == length || full@[i as int] == '\n',
            decreases n - i,
        {
            let c: char = full.as_str().get_char(i);
            if c == '\n' {
                break ;
            }
            push_char(&mut out, c);
            proof {
                assert(out@ =~= full@.subrange(0, i + 1 as int));
            }
            i = i + 1;
        }
        let ghost cut = i as int;
        while i < length
            invariant
                i <= length,
                out@ == full@.subrange(0, cut) + spaces(i - cut),
                cut <= i,
            decreases length - i,
        {
            push_char(&mut out, ' ');
            proof {
                assert(out@ =~= full@.subrange(0, cut) + spaces(i + 1 - cut));
            }
            i = i + 1;
        }
        proof {
            lemma_first_line_scan(full@, cut, length as int);
            lemma_first_line_bounds(full@);
            lemma_spaces_len(length as int - cut);
            let f = first_line_len(full@);
            if f >= length as int {
                assert(out@ =~= fitted(full@, length as int));
            } else {
                assert(full@.take(f).len() == f);
                assert(out@ =~= full@.take(f) + spaces(length as int - f));
                assert(out@ =~= fitted(full@, length as int));
            }
        }
        out
    }
}

/// Relates the scan that stopped at `cut` to `first_line_len`: the cut is
/// either the first newline or limited by the requested width.
proof fn lemma_first_line_scan(s: Seq<char>, cut: int, width: int)
    requires
        0 <= cut <= s.len(),
        cut <= width,
        forall|j: int| 0 <= j < cut ==> s[j] != '\n',
        cut == s.len() || cut == width || s[cut] == '\n',
    ensures
        cut == if first_line_len(s) >= width {
            width
        } else {
            first_line_len(s)
        },
        s.take(cut) == if first_line_len(s) >= width {
            s.take(first_line_len(s)).take(width)
        } else {
            s.take(first_line_len(s))
        },
{
    lemma_first_line_bounds(s);
    if cut < s.len() && s[cut] == '\n' && cut < width {
        lemma_first_line_at(s, cut);
    } else if cut == s.len() && cut < width {
        assert(first_line_len(s) == s.len()) by {
            lemma_first_line_all(s);
        }
    } else {
        // cut == width
        if first_line_len(s) < width {
            let f = first_line_len(s);
            lemma_first_line_newline(s);
            assert(f < cut ==> s[f] == '\n');
        }
    }
    if first_line_len(s) >= width {
        assert(s.take(cut) =~= s.take(first_line_len(s)).take(width));
    } else {
        assert(s.take(cut) =~= s.take(first_line_len(s)));
    }
}

proof fn lemma_first_line_bounds(s: Seq<char>)
    ensures
        0 <= first_line_len(s) <= s.len(),
        forall|j: int| 0 <= j < first_line_len(s) ==> s[j] != '\n',
    decreases s.len(),
{
    if s.len() > 0 && s[0] != '\n' {
        lemma_first_line_bounds(s.drop_first());
        assert forall|j: int| 0 <= j < first_line_len(s) implies s[j] != '\n' by {
            if j > 0 {
                assert(s.drop_first()[j - 1] != '\n');
            }
        }
    }
}

proof fn lemma_first_line_at(s: Seq<char>, i: int)
    requires
        0 <= i < s.len(),
        s[i] == '\n',
        forall|j: int| 0 <= j < i ==> s[j] != '\n',
    ensures
        first_line_len(s) == i,
    decreases s.len(),
{
    if i > 0 {
        assert forall|j: int| 0 <= j < i - 1 implies s.drop_first()[j] != '\n' by {
            assert(s[j + 1] != '\n');
        }
        lemma_first_line_at(s.drop_first(), i - 1);
    }
}

proof fn lemma_first_line_all(s: Seq<char>)
    requires
        forall|j: int| 0 <= j < s.len() ==> s[j] != '\n',
    ensures
        first_line_len(s) == s.len(),
    decreases s.len(),
{
    if s.len() > 0 {
        assert forall|j: int| 0 <= j < s.drop_first().len() implies s.drop_first()[j] != '\n' by {
            assert(s[j + 1] != '\n');
        }
        lemma_first_line_all(s.drop_first());
    }
}

proof fn lemma_first_line_newline(s: Seq<char>)
    ensures
        first_line_len(s) < s.len() ==> s[first_line_len(s)] == '\n',
    decreases s.len(),
{
    lemma_first_line_bounds(s);
    if s.len() > 0 && s[0] != '\n' {
        lemma_first_line_bounds(s.drop_first());
        lemma_first_line_newline(s.drop_first());
    }
}

} // verus!
