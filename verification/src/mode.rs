//! Editor modes and their one-letter names.

use vstd::prelude::*;
use vstd::string::StrSliceExecFns;

verus! {

/// The editor's input modes.
#[derive(Clone, Copy, Debug, PartialEq, Eq, Structural)]
pub enum Mode {
    Normal,
    Insert,
    Cell,
}

impl Mode {
    /// Whether keys type text in this mode.
    pub fn is_text(&self) -> (r: bool)
        ensures
            r == (*self == Mode::Insert),
    {
        match self {
            Mode::Insert => true,
            _ => false,
        }
    }
}

/// A letter that names no mode.
#[derive(Clone, Copy, Debug, PartialEq, Eq, Structural)]
pub enum ModeParseError {
    InvalidChar(char),
}

/// The mode a letter stands for: `n`, `i` or `c`.
pub open spec fn mode_of(c: char) -> Option<Mode> {
    if c == 'n' {
        Some(Mode::Normal)
    } else if c == 'i' {
        Some(Mode::Insert)
    } else if c == 'c' {
        Some(Mode::Cell)
    } else {
        None
    }
}

/// Reads a run of mode letters; fails on the first letter that names no
/// mode, reporting that letter.
pub fn parse_modes(s: &str) -> (r: Result<Vec<Mode>, ModeParseError>)
    ensures
        r matches Ok(v) ==> v@.len() == s@.len() && (forall|i: int|
            0 <= i < s@.len() ==> mode_of(s@[i]) == Some(v@[i])),
        (forall|i: int| 0 <= i < s@.len() ==> (#[trigger] mode_of(s@[i])) is Some) ==> r is Ok,
        r matches Err(ModeParseError::InvalidChar(c)) ==> mode_of(c) is None && (exists|i: int|
            0 <= i < s@.len() && s@[i] == c && (forall|j: int|
                0 <= j < i ==> (#[trigger] mode_of(s@[j])) is Some)),
{
    let n: usize = s.unicode_len();
    let mut out: Vec<Mode> = Vec::new();
    let mut i: usize = 0;
    while i < n
        invariant
            n == s@.len(),
            i <= n,
            out@.len() == i,
            forall|j: int| 0 <= j < i ==> mode_of(s@[j]) == Some(out@[j]),
        decreases n - i,
    {
        let c: char = s.get_char(i);
        let m: Mode = if c == 'n' {
            Mode::Normal
        } else if c == 'i' {
            Mode::Insert
        } else if c == 'c' {
            Mode::Cell
        } else {
            proof {
                assert(s@[i as int] == c);
                assert forall|j: int| 0 <= j < i implies (#[trigger] mode_of(s@[j])) is Some by {}
            }
            return Err(ModeParseError::InvalidChar(c));
        };
        out.push(m);
        i = i + 1;
    }
    Ok(out)
}

} // verus!
