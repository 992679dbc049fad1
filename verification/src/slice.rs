//! Rectangular cell ranges.
//!
//! A range holds a start and an end position; the end is exclusive in both
//! dimensions, and both coordinates of the start never exceed the end's.
//! The textual form is two addresses joined by `_`, both inclusive; the
//! parser normalizes their order and widens the end by one.

use vstd::prelude::*;
use vstd::string::StrSliceExecFns;

use crate::pos::addr_col;
use crate::pos::addr_row;
use crate::pos::addr_shape;
use crate::pos::CellPos;
use crate::pos::COORD_BOUND;

verus! {

/// A rectangle of cells: `start` inclusive, `end` exclusive.
#[derive(Clone, Copy, Debug, PartialEq, Eq, Structural)]
pub struct SlicePos {
    pub start: CellPos,
    pub end: CellPos,
}

/// The given text is not a range.
#[derive(Clone, Copy, Debug, PartialEq, Eq, Structural)]
pub struct SlicePosParseError;

/// `u` is the position of the only underscore in `s`.
pub open spec fn underscore_at(s: Seq<char>, u: int) -> bool {
    &&& 0 <= u < s.len()
    &&& s[u] == '_'
    &&& forall|j: int| 0 <= j < s.len() && j != u ==> s[j] != '_'
}

/// The text is two well-shaped addresses joined by one underscore.
pub open spec fn slice_shape(s: Seq<char>) -> bool {
    exists|u: int|
        underscore_at(s, u) && addr_shape(s.subrange(0, u)) && addr_shape(
            s.subrange(u + 1, s.len() as int),
        )
}

/// Position of the only underscore of a range-shaped text.
pub open spec fn underscore_pos(s: Seq<char>) -> int {
    choose|u: int| underscore_at(s, u)
}

/// The address before the underscore.
pub open spec fn slice_left(s: Seq<char>) -> Seq<char> {
    s.subrange(0, underscore_pos(s))
}

/// The address after the underscore.
pub open spec fn slice_right(s: Seq<char>) -> Seq<char> {
    s.subrange(underscore_pos(s) + 1, s.len() as int)
}

pub proof fn lemma_underscore_unique(s: Seq<char>, u1: int, u2: int)
    requires
        underscore_at(s, u1),
        underscore_at(s, u2),
    ensures
        u1 == u2,
{
    if u1 != u2 {
        assert(s[u2] != '_');
    }
}

/// The range text names coordinates the parser accepts.
pub open spec fn from_ok(s: Seq<char>) -> bool {
    &&& slice_shape(s)
    &&& addr_col(slice_left(s)) < COORD_BOUND
    &&& addr_row(slice_left(s)) < COORD_BOUND
    &&& addr_col(slice_right(s)) < COORD_BOUND
    &&& addr_row(slice_right(s)) < COORD_BOUND
}

/// The smaller of two coordinates.
pub open spec fn min_c(a: int, b: int) -> int {
    if a <= b {
        a
    } else {
        b
    }
}

/// The larger of two coordinates.
pub open spec fn max_c(a: int, b: int) -> int {
    if a <= b {
        b
    } else {
        a
    }
}

impl SlicePos {
    pub open spec fn wf(self) -> bool {
        &&& self.start.x <= self.end.x <= COORD_BOUND
        &&& self.start.y <= self.end.y <= COORD_BOUND
        &&& self.start.wf() || (self.start.x == self.end.x && self.start.y == self.end.y)
    }

    /// Builds a range from two corners, swapping coordinates so that the
    /// start is the upper-left one.
    pub fn new(start: CellPos, end: CellPos) -> (r: SlicePos)
        ensures
            r.start.x == if start.x <= end.x {
                start.x
            } else {
                end.x
            },
            r.end.x == if start.x <= end.x {
                end.x
            } else {
                start.x
            },
            r.start.y == if start.y <= end.y {
                start.y
            } else {
                end.y
            },
            r.end.y == if start.y <= end.y {
                end.y
            } else {
                start.y
            },
            r.start.x <= r.end.x && r.start.y <= r.end.y,
    {
        let sx: usize = if start.x <= end.x {
            start.x
        } else {
            end.x
        };
        let ex: usize = if start.x <= end.x {
            end.x
        } else {
            start.x
        };
        let sy: usize = if start.y <= end.y {
            start.y
        } else {
            end.y
        };
        let ey: usize = if start.y <= end.y {
            end.y
        } else {
            start.y
        };
        SlicePos { start: CellPos { x: sx, y: sy }, end: CellPos { x: ex, y: ey } }
    }

    /// Whether a relative shift lands inside the range (spec form).
    pub open spec fn is_valid_shift_spec(self, shift: CellPos) -> bool {
        shift.x < self.end.x - self.start.x && shift.y < self.end.y - self.start.y
    }

    /// The absolute position a relative shift names.
    pub open spec fn shifted(self, shift: CellPos) -> CellPos {
        CellPos { x: (self.start.x + shift.x) as usize, y: (self.start.y + shift.y) as usize }
    }

    /// Whether an absolute position falls inside the range.
    pub fn is_inside(&self, pos: CellPos) -> (r: bool)
        ensures
            r == (pos.x >= self.start.x && pos.y >= self.start.y && pos.x < self.end.x && pos.y
                < self.end.y),
    {
        pos.x >= self.start.x && pos.y >= self.start.y && pos.x < self.end.x && pos.y < self.end.y
    }

    /// Whether a relative shift lands inside the range.
    pub fn is_valid_shift(&self, shift: CellPos) -> (r: bool)
        requires
            self.start.x <= self.end.x <= COORD_BOUND,
            self.start.y <= self.end.y <= COORD_BOUND,
        ensures
            r == (shift.x < self.end.x - self.start.x && shift.y < self.end.y - self.start.y),
    {
        shift.x < self.end.x - self.start.x && shift.y < self.end.y - self.start.y
    }

    /// Translates a relative shift to the absolute position, if inside.
    pub fn shift_to_pos(&self, shift: CellPos) -> (r: Option<CellPos>)
        requires
            self.start.x <= self.end.x <= COORD_BOUND,
            self.start.y <= self.end.y <= COORD_BOUND,
        ensures
            shift.x < self.end.x - self.start.x && shift.y < self.end.y - self.start.y ==> r
                == Some(
                CellPos {
                    x: (self.start.x + shift.x) as usize,
                    y: (self.start.y + shift.y) as usize,
                },
            ),
            !(shift.x < self.end.x - self.start.x && shift.y < self.end.y - self.start.y) ==> r
                is None,
            r matches Some(p) ==> p.wf() && self.start.x <= p.x < self.end.x && self.start.y <= p.y
                < self.end.y,
    {
        if self.is_valid_shift(shift) {
            Some(CellPos { x: self.start.x + shift.x, y: self.start.y + shift.y })
        } else {
            None
        }
    }

    /// How many columns the range spans.
    pub fn columns(&self) -> (r: usize)
        requires
            self.start.x <= self.end.x,
        ensures
            r == self.end.x - self.start.x,
    {
        self.end.x - self.start.x
    }

    /// How many rows the range spans.
    pub fn rows(&self) -> (r: usize)
        requires
            self.start.y <= self.end.y,
        ensures
            r == self.end.y - self.start.y,
    {
        self.end.y - self.start.y
    }

    /// Reads `addr_addr`, normalizes corner order, and makes the end
    /// exclusive by widening it one column and one row.
    pub fn from_str(s: &str) -> (r: Result<SlicePos, SlicePosParseError>)
        ensures
            r matches Ok(sp) ==> slice_shape(s@) && sp.wf() && sp.start.x == min_c(
                addr_col(slice_left(s@)),
                addr_col(slice_right(s@)),
            ) && sp.end.x == max_c(addr_col(slice_left(s@)), addr_col(slice_right(s@))) + 1
                && sp.start.y == min_c(addr_row(slice_left(s@)), addr_row(slice_right(s@)))
                && sp.end.y == max_c(addr_row(slice_left(s@)), addr_row(slice_right(s@))) + 1,
            slice_shape(s@) && addr_col(slice_left(s@)) < COORD_BOUND && addr_row(slice_left(s@))
                < COORD_BOUND && addr_col(slice_right(s@)) < COORD_BOUND && addr_row(
                slice_right(s@),
            ) < COORD_BOUND ==> r is Ok,
            !slice_shape(s@) ==> r is Err,
    {
        let n: usize = s.unicode_len();
        let mut u: usize = 0;
        let mut found: bool = false;
        let mut i: usize = 0;
        while i < n
            invariant
                n == s@.len(),
                i <= n,
                found ==> u < i && s@[u as int] == '_' && forall|j: int|
                    0 <= j < i && j != u ==> s@[j] != '_',
                !found ==> forall|j: int| 0 <= j < i ==> s@[j] != '_',
            ensures
                i == n,
                found ==> u < n && s@[u as int] == '_' && forall|j: int|
                    0 <= j < n && j != u ==> s@[j] != '_',
                !found ==> forall|j: int| 0 <= j < n ==> s@[j] != '_',
            decreases n - i,
        {
            let c: char = s.get_char(i);
            if c == '_' {
                if found {
                    // a second underscore: not a range
                    proof {
                        if slice_shape(s@) {
                            let uu = choose|uu: int| underscore_at(s@, uu);
                            assert(s@[u as int] == '_' && s@[i as int] == '_');
                            assert(u as int == uu || s@[u as int] != '_');
                            assert(i as int == uu || s@[i as int] != '_');
                        }
                    }
                    return Err(SlicePosParseError);
                }
                u = i;
                found = true;
            }
            i = i + 1;
        }
        if !found {
            proof {
                if slice_shape(s@) {
                    let uu = choose|uu: int| underscore_at(s@, uu);
                    assert(s@[uu] == '_');
                }
            }
            return Err(SlicePosParseError);
        }
        proof {
            assert(underscore_at(s@, u as int));
            if slice_shape(s@) {
                let uu = choose|uu: int| underscore_at(s@, uu);
                lemma_underscore_unique(s@, uu, u as int);
                lemma_underscore_unique(s@, underscore_pos(s@), u as int);
            }
        }
        let left: &str = s.substring_char(0, u);
        let right: &str = s.substring_char(u + 1, n);
        proof {
            if slice_shape(s@) {
                lemma_underscore_unique(s@, underscore_pos(s@), u as int);
                assert(left@ == slice_left(s@));
                assert(right@ == slice_right(s@));
            }
        }
        let p1: CellPos = match CellPos::from_str(left) {
            Ok(p) => p,
            Err(_) => {
                proof {
                    if slice_shape(s@) && addr_col(slice_left(s@)) < COORD_BOUND && addr_row(
                        slice_left(s@),
                    ) < COORD_BOUND {
                        assert(addr_shape(left@));
                        assert(false);
                    }
                }
                return Err(SlicePosParseError);
            },
        };
        let p2: CellPos = match CellPos::from_str(right) {
            Ok(p) => p,
            Err(_) => {
                proof {
                    if slice_shape(s@) && addr_col(slice_right(s@)) < COORD_BOUND && addr_row(
                        slice_right(s@),
                    ) < COORD_BOUND {
                        assert(addr_shape(right@));
                        assert(false);
                    }
                }
                return Err(SlicePosParseError);
            },
        };
        let lo = SlicePos::new(p1, p2);
        let r = SlicePos { start: lo.start, end: CellPos { x: lo.end.x + 1, y: lo.end.y + 1 } };
        proof {
            assert(slice_shape(s@));
            lemma_underscore_unique(s@, underscore_pos(s@), u as int);
            assert(left@ == slice_left(s@));
            assert(right@ == slice_right(s@));
        }
        Ok(r)
    }
}


} // verus!
