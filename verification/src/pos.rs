//! Cell coordinates and their textual form.
//!
//! An address is written as one or more ASCII letters (a base-26 column
//! number, `A` = 0) followed by one or more decimal digits (the row).
//! The letter prefix is read in plain base 26, so `A0` and `AA0` both
//! name column 0; rendering always produces the shortest form.

use vstd::prelude::*;
use vstd::string::StrSliceExecFns;

use crate::ext::push_char;

verus! {

/// Exclusive bound on column and row numbers, so that a coordinate pair
/// fits losslessly into one `u64` key.
pub const COORD_BOUND: usize = 0x4000_0000;

/// Column and row of one spreadsheet cell. `x` is the column, `y` the row.
#[derive(Clone, Copy, Debug, PartialEq, Eq, Hash, Structural)]
pub struct CellPos {
    pub x: usize,
    pub y: usize,
}

/// Why an address string was rejected.
#[derive(Clone, Copy, Debug, PartialEq, Eq, Structural)]
pub enum CellPosParseError {
    /// The string is not letters-then-digits.
    InvalidDigit,
    /// The column or row number does not fit the coordinate bound.
    OutOfRange,
}

pub open spec fn is_letter(c: char) -> bool {
    ('A' <= c && c <= 'Z') || ('a' <= c && c <= 'z')
}

pub open spec fn is_digit(c: char) -> bool {
    '0' <= c && c <= '9'
}

/// Base-26 value of one letter: `A` and `a` are 0, `Z` and `z` are 25.
pub open spec fn letter_val(c: char) -> int {
    if 'a' <= c && c <= 'z' {
        c as int - 'a' as int
    } else {
        c as int - 'A' as int
    }
}

pub open spec fn digit_val(c: char) -> int {
    c as int - '0' as int
}

/// Value of a letter sequence read in base 26.
pub open spec fn letters_val(s: Seq<char>) -> int
    decreases s.len(),
{
    if s.len() == 0 {
        0
    } else {
        letters_val(s.drop_last()) * 26 + letter_val(s.last())
    }
}

/// Value of a digit sequence read in base 10.
pub open spec fn digits_val(s: Seq<char>) -> int
    decreases s.len(),
{
    if s.len() == 0 {
        0
    } else {
        digits_val(s.drop_last()) * 10 + digit_val(s.last())
    }
}

/// `k` splits `s` into a nonempty letter prefix and a nonempty digit suffix.
pub open spec fn shape_at(s: Seq<char>, k: int) -> bool {
    &&& 1 <= k < s.len()
    &&& forall|j: int| 0 <= j < k ==> is_letter(#[trigger] s[j])
    &&& forall|j: int| k <= j < s.len() ==> is_digit(#[trigger] s[j])
}

/// The string has the address shape `[A-Za-z]+[0-9]+`.
pub open spec fn addr_shape(s: Seq<char>) -> bool {
    exists|k: int| shape_at(s, k)
}

/// Where the letter prefix of a well-shaped address ends.
pub open spec fn addr_split(s: Seq<char>) -> int {
    choose|k: int| shape_at(s, k)
}

/// Column number encoded by a well-shaped address string.
pub open spec fn addr_col(s: Seq<char>) -> int {
    letters_val(s.subrange(0, addr_split(s)))
}

/// Row number encoded by a well-shaped address string.
pub open spec fn addr_row(s: Seq<char>) -> int {
    digits_val(s.subrange(addr_split(s), s.len() as int))
}

pub proof fn lemma_shape_at_unique(s: Seq<char>, k1: int, k2: int)
    requires
        shape_at(s, k1),
        shape_at(s, k2),
    ensures
        k1 == k2,
{
    if k1 < k2 {
        assert(is_digit(s[k1]));
        assert(is_letter(s[k1]));
    }
    if k2 < k1 {
        assert(is_digit(s[k2]));
        assert(is_letter(s[k2]));
    }
}

impl CellPos {
    /// Both coordinates are below the bound.
    pub open spec fn wf(self) -> bool {
        self.x < COORD_BOUND && self.y < COORD_BOUND
    }

    /// The coordinate pair packed into one integer key.
    pub open spec fn spec_key(self) -> u64 {
        (self.x * 0x4000_0000 + self.y) as u64
    }

    pub fn new(x: usize, y: usize) -> (r: CellPos)
        ensures
            r.x == x,
            r.y == y,
    {
        CellPos { x, y }
    }

    /// Packs the coordinates into one `u64`; distinct well-formed
    /// positions give distinct keys.
    pub fn key(&self) -> (r: u64)
        requires
            self.wf(),
        ensures
            r == self.spec_key(),
            r < 0x1000_0000_0000_0000u64,
    {
        proof {
            lemma_key_in_range(*self);
        }
        (self.x as u64) * 0x4000_0000u64 + (self.y as u64)
    }

    /// Inverse of `key`.
    pub fn from_key(k: u64) -> (r: CellPos)
        requires
            k < 0x1000_0000_0000_0000u64,
        ensures
            r.wf(),
            r.spec_key() == k,
    {
        let x: u64 = k / 0x4000_0000u64;
        let y: u64 = k % 0x4000_0000u64;
        CellPos { x: x as usize, y: y as usize }
    }
}

/// Letter standing for base-26 digit `d` (0 is `A`).
pub open spec fn letter_char(d: int) -> char {
    (('A' as int) + d) as char
}

/// Decimal digit character for `d`.
pub open spec fn digit_char(d: int) -> char {
    (('0' as int) + d) as char
}

/// Shortest base-26 letter run for a positive column number.
pub open spec fn col_chars(x: int) -> Seq<char>
    decreases x,
{
    if x <= 0 {
        Seq::empty()
    } else {
        col_chars(x / 26).push(letter_char(x % 26))
    }
}

/// Canonical letter prefix of a column number.
pub open spec fn col_repr(x: int) -> Seq<char> {
    if x == 0 {
        seq!['A']
    } else {
        col_chars(x)
    }
}

/// Shortest decimal digit run for a positive row number.
pub open spec fn row_chars(y: int) -> Seq<char>
    decreases y,
{
    if y <= 0 {
        Seq::empty()
    } else {
        row_chars(y / 10).push(digit_char(y % 10))
    }
}

/// Canonical digit suffix of a row number.
pub open spec fn row_repr(y: int) -> Seq<char> {
    if y == 0 {
        seq!['0']
    } else {
        row_chars(y)
    }
}

/// Canonical text of an address.
pub open spec fn addr_repr(p: CellPos) -> Seq<char> {
    col_repr(p.x as int) + row_repr(p.y as int)
}

/// For a well-formed position the packed key never truncates.
pub proof fn lemma_key_in_range(a: CellPos)
    requires
        a.wf(),
    ensures
        a.spec_key() == a.x * 0x4000_0000 + a.y,
        a.spec_key() < 0x1000_0000_0000_0000u64,
{
    assert(a.x * 0x4000_0000 + a.y < 0x1000_0000_0000_0000) by (nonlinear_arith)
        requires
            a.x < 0x4000_0000 && a.y < 0x4000_0000,
    ;
}

pub proof fn lemma_key_injective(a: CellPos, b: CellPos)
    requires
        a.wf(),
        b.wf(),
        a.spec_key() == b.spec_key(),
    ensures
        a == b,
{
    lemma_key_in_range(a);
    lemma_key_in_range(b);
    assert(a.x == b.x && a.y == b.y) by (nonlinear_arith)
        requires
            a.x * 0x4000_0000 + a.y == b.x * 0x4000_0000 + b.y,
            a.x < 0x4000_0000 && a.y < 0x4000_0000,
            b.x < 0x4000_0000 && b.y < 0x4000_0000,
    ;
}

fn letter_of(d: usize) -> (r: char)
    requires
        d < 26,
    ensures
        r == letter_char(d as int),
{
    (65u8 + d as u8) as char
}

fn digit_of(d: usize) -> (r: char)
    requires
        d < 10,
    ensures
        r == digit_char(d as int),
{
    (48u8 + d as u8) as char
}

fn push_col_chars(out: &mut String, x: usize)
    ensures
        final(out)@ == old(out)@ + col_chars(x as int),
    decreases x,
{
    if x > 0 {
        push_col_chars(out, x / 26);
        push_char(out, letter_of(x % 26));
        assert(final(out)@ =~= old(out)@ + col_chars(x as int));
    } else {
        assert(old(out)@ + col_chars(0) =~= old(out)@);
    }
}

fn push_row_chars(out: &mut String, y: usize)
    ensures
        final(out)@ == old(out)@ + row_chars(y as int),
    decreases y,
{
    if y > 0 {
        push_row_chars(out, y / 10);
        push_char(out, digit_of(y % 10));
        assert(final(out)@ =~= old(out)@ + row_chars(y as int));
    } else {
        assert(old(out)@ + row_chars(0) =~= old(out)@);
    }
}

impl CellPos {
    /// Canonical text of this address, e.g. `B12`.
    pub fn render(&self) -> (r: String)
        ensures
            r@ == addr_repr(*self),
    {
        let mut out = String::new();
        if self.x == 0 {
            push_char(&mut out, 'A');
        } else {
            push_col_chars(&mut out, self.x);
        }
        if self.y == 0 {
            push_char(&mut out, '0');
        } else {
            push_row_chars(&mut out, self.y);
        }
        proof {
            assert(out@ =~= addr_repr(*self));
        }
        out
    }

    /// Reads an address written as letters then digits; rejects anything
    /// else, and rejects coordinates at or beyond the bound.
    pub fn from_str(s: &str) -> (r: Result<CellPos, CellPosParseError>)
        ensures
            r matches Ok(p) ==> addr_shape(s@) && p.wf() && p.x == addr_col(s@) && p.y == addr_row(
                s@,
            ),
            addr_shape(s@) && addr_col(s@) < COORD_BOUND && addr_row(s@) < COORD_BOUND ==> r is Ok,
            addr_shape(s@) && !(addr_col(s@) < COORD_BOUND && addr_row(s@) < COORD_BOUND) ==> r
                == Err::<CellPos, CellPosParseError>(CellPosParseError::OutOfRange),
            !addr_shape(s@) ==> r == Err::<CellPos, CellPosParseError>(
                CellPosParseError::InvalidDigit,
            ),
    {
        let n: usize = s.unicode_len();
        let mut i: usize = 0;
        let mut x: u64 = 0;
        let mut xov: bool = false;
        while i < n
            invariant_except_break
            // fixed context
                n == s@.len(),
                i <= n,
                forall|j: int| 0 <= j < i ==> is_letter(#[trigger] s@[j]),
                xov <==> letters_val(s@.subrange(0, i as int)) >= COORD_BOUND,
                !xov ==> x == letters_val(s@.subrange(0, i as int)) && x < COORD_BOUND,
            ensures
                n == s@.len(),
                i <= n,
                forall|j: int| 0 <= j < i ==> is_letter(#[trigger] s@[j]),
                xov <==> letters_val(s@.subrange(0, i as int)) >= COORD_BOUND,
                !xov ==> x == letters_val(s@.subrange(0, i as int)) && x < COORD_BOUND,
                i == n || !is_letter(s@[i as int]),
            decreases n - i,
        {
            let c: char = s.get_char(i);
            if !(('A' <= c && c <= 'Z') || ('a' <= c && c <= 'z')) {
                break ;
            }
            let cu: u32 = c as u32;
            let v: u64 = if cu >= 97 {
                (cu - 97) as u64
            } else {
                (cu - 65) as u64
            };
            proof {
                assert(s@.subrange(0, i + 1 as int).drop_last() =~= s@.subrange(0, i as int));
                assert(s@.subrange(0, i + 1 as int).last() == s@[i as int]);
            }
            if xov {
                proof {
                    let pre = s@.subrange(0, i as int);
                    assert(letters_val(pre) * 26 + letter_val(c) >= letters_val(pre));
                }
            } else {
                x = x * 26 + v;
                if x >= 0x4000_0000u64 {
                    xov = true;
                }
            }
            i = i + 1;
        }
        let split: usize = i;
        if split == 0 {
            proof {
                if addr_shape(s@) {
                    let k = choose|k: int| shape_at(s@, k);
                    assert(is_letter(s@[0]));
                }
            }
            return Err(CellPosParseError::InvalidDigit);
        }
        let mut y: u64 = 0;
        let mut yov: bool = false;
        while i < n
            invariant_except_break
                n == s@.len(),
                split <= i <= n,
                forall|j: int| split <= j < i ==> is_digit(#[trigger] s@[j]),
                yov <==> digits_val(s@.subrange(split as int, i as int)) >= COORD_BOUND,
                !yov ==> y == digits_val(s@.subrange(split as int, i as int)) && y < COORD_BOUND,
            ensures
                n == s@.len(),
                split <= i <= n,
                forall|j: int| split <= j < i ==> is_digit(#[trigger] s@[j]),
                yov <==> digits_val(s@.subrange(split as int, i as int)) >= COORD_BOUND,
                !yov ==> y == digits_val(s@.subrange(split as int, i as int)) && y < COORD_BOUND,
                i == n || !is_digit(s@[i as int]),
            decreases n - i,
        {
            let c: char = s.get_char(i);
            if !('0' <= c && c <= '9') {
                break ;
            }
            let cu: u32 = c as u32;
            let v: u64 = (cu - 48) as u64;
            proof {
                assert(s@.subrange(split as int, i + 1 as int).drop_last() =~= s@.subrange(
                    split as int,
                    i as int,
                ));
                assert(s@.subrange(split as int, i + 1 as int).last() == s@[i as int]);
            }
            if yov {
                proof {
                    let pre = s@.subrange(split as int, i as int);
                    assert(digits_val(pre) * 10 + digit_val(c) >= digits_val(pre));
                }
            } else {
                y = y * 10 + v;
                if y >= 0x4000_0000u64 {
                    yov = true;
                }
            }
            i = i + 1;
        }
        proof {
            if addr_shape(s@) {
                let k = choose|k: int| shape_at(s@, k);
                if k < split {
                    assert(is_letter(s@[k]) && is_digit(s@[k]));
                }
                if k > split {
                    assert(split < s@.len());
                    assert(is_letter(s@[split as int]));
                }
                assert(k == split);
            }
        }
        if i == split {
            // no digits follow the letters
            proof {
                if addr_shape(s@) {
                    let k = choose|k: int| shape_at(s@, k);
                    assert(is_digit(s@[k]));
                }
            }
            return Err(CellPosParseError::InvalidDigit);
        }
        if i < n {
            // trailing characters after the digits
            proof {
                if addr_shape(s@) {
                    let k = choose|k: int| shape_at(s@, k);
                    assert(is_digit(s@[i as int]));
                }
            }
            return Err(CellPosParseError::InvalidDigit);
        }
        proof {
            assert(shape_at(s@, split as int));
            lemma_shape_at_unique(s@, addr_split(s@), split as int);
        }
        if xov || yov {
            return Err(CellPosParseError::OutOfRange);
        }
        Ok(CellPos { x: x as usize, y: y as usize })
    }
}

/// Every letter run rendered by `col_chars` is made of letters and reads
/// back, in base 26, as the number it was made from.
pub proof fn lemma_col_chars_val(x: int)
    requires
        x >= 0,
    ensures
        letters_val(col_chars(x)) == x,
        forall|j: int| 0 <= j < col_chars(x).len() ==> is_letter(#[trigger] col_chars(x)[j]),
        x > 0 ==> col_chars(x).len() >= 1,
    decreases x,
{
    if x > 0 {
        lemma_col_chars_val(x / 26);
        let t = col_chars(x / 26);
        let c = letter_char(x % 26);
        assert(col_chars(x) == t.push(c));
        assert(col_chars(x).drop_last() =~= t);
        assert(is_letter(c));
        assert(letter_val(c) == x % 26);
        assert(letters_val(col_chars(x)) == (x / 26) * 26 + x % 26);
    } else {
        assert(col_chars(0) =~= Seq::<char>::empty());
    }
}

/// Counterpart of `lemma_col_chars_val` for the decimal digit run.
pub proof fn lemma_row_chars_val(y: int)
    requires
        y >= 0,
    ensures
        digits_val(row_chars(y)) == y,
        forall|j: int| 0 <= j < row_chars(y).len() ==> is_digit(#[trigger] row_chars(y)[j]),
        y > 0 ==> row_chars(y).len() >= 1,
    decreases y,
{
    if y > 0 {
        lemma_row_chars_val(y / 10);
        let t = row_chars(y / 10);
        let c = digit_char(y % 10);
        assert(row_chars(y) == t.push(c));
        assert(row_chars(y).drop_last() =~= t);
        assert(is_digit(c));
        assert(digit_val(c) == y % 10);
        assert(digits_val(row_chars(y)) == (y / 10) * 10 + y % 10);
    } else {
        assert(row_chars(0) =~= Seq::<char>::empty());
    }
}

/// Rendering an address and parsing the text again gives back the same
/// coordinates: `parse(render(p)) == p` for every well-formed `p`.
pub proof fn lemma_render_parses_back(p: CellPos)
    requires
        p.wf(),
    ensures
        addr_shape(addr_repr(p)),
        addr_col(addr_repr(p)) == p.x,
        addr_row(addr_repr(p)) == p.y,
{
    let cs = col_repr(p.x as int);
    let rs = row_repr(p.y as int);
    let s = addr_repr(p);
    lemma_col_chars_val(p.x as int);
    lemma_row_chars_val(p.y as int);
    if p.x == 0 {
        assert(cs =~= seq!['A']);
        assert(is_letter('A'));
        assert(letters_val(cs) == letters_val(cs.drop_last()) * 26 + letter_val('A'));
        assert(cs.drop_last() =~= Seq::<char>::empty());
        assert(letters_val(cs) == 0);
    }
    if p.y == 0 {
        assert(rs =~= seq!['0']);
        assert(is_digit('0'));
        assert(digits_val(rs) == digits_val(rs.drop_last()) * 10 + digit_val('0'));
        assert(rs.drop_last() =~= Seq::<char>::empty());
        assert(digits_val(rs) == 0);
    }
    let k = cs.len() as int;
    assert forall|j: int| 0 <= j < k implies is_letter(#[trigger] s[j]) by {
        assert(s[j] == cs[j]);
    }
    assert forall|j: int| k <= j < s.len() implies is_digit(#[trigger] s[j]) by {
        assert(s[j] == rs[j - k]);
    }
    assert(shape_at(s, k));
    lemma_shape_at_unique(s, addr_split(s), k);
    assert(s.subrange(0, k) =~= cs);
    assert(s.subrange(k, s.len() as int) =~= rs);
}

/// Rendering is canonical: a parsed string renders to text that parses to
/// the same coordinates, and rendering that text again changes nothing.
pub proof fn lemma_canonical_idempotent(p: CellPos)
    requires
        p.wf(),
    ensures
        addr_repr(
            CellPos {
                x: addr_col(addr_repr(p)) as usize,
                y: addr_row(addr_repr(p)) as usize,
            },
        ) == addr_repr(p),
{
    lemma_render_parses_back(p);
}

} // verus!
