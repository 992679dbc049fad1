//! Key-binding support types: formatted key text and the ways a key
//! sequence can fail to match or parse.

use vstd::prelude::*;

verus! {

/// The text of one key, either plain (`a`) or needing angle-bracket
/// escaping when displayed (`C-x`, `lt`).
#[derive(Debug)]
pub enum KeyString {
    Plain(String),
    Escape(String),
}

impl KeyString {
    /// The carried text, either way.
    pub fn into_inner(self) -> (r: String)
        ensures
            self matches KeyString::Plain(s) ==> r == s,
            self matches KeyString::Escape(s) ==> r == s,
    {
        match self {
            KeyString::Plain(s) => s,
            KeyString::Escape(s) => s,
        }
    }

    /// Borrowed view of the carried text, either way.
    pub fn inner_str(&self) -> (r: &str)
        ensures
            self matches KeyString::Plain(s) ==> r@ == s@,
            self matches KeyString::Escape(s) ==> r@ == s@,
    {
        match self {
            KeyString::Plain(s) => s.as_str(),
            KeyString::Escape(s) => s.as_str(),
        }
    }
}

/// The event was not a key event.
#[derive(Clone, Copy, Debug, PartialEq, Eq, Structural)]
pub struct EventToKeyConversionError;

/// Why a key sequence did not select a binding.
#[derive(Debug)]
pub enum SequenceMatchError {
    /// Too short so far; the hint shows what could still follow.
    CanBeContined { hint: String },
    /// No continuation can make it match.
    CannotBeContined,
}

impl SequenceMatchError {
    /// Whether more keys could still produce a match.
    pub fn can_be_continued(&self) -> (r: bool)
        ensures
            r == (self matches SequenceMatchError::CanBeContined { .. }),
    {
        match self {
            SequenceMatchError::CanBeContined { .. } => true,
            SequenceMatchError::CannotBeContined => false,
        }
    }
}

/// Reading a key sequence from text never fails today; the type stands
/// ready for stricter sequence grammars.
#[derive(Clone, Copy, Debug, PartialEq, Eq, Structural)]
pub struct SequenceParseError;

/// Why one binding rejected a sequence.
#[derive(Clone, Copy, Debug, PartialEq, Eq, Structural)]
pub enum SequenceBindingError {
    NotEnoghKeys,
    MismatchedKey,
}

/// Why a binding definition did not parse.
#[derive(Clone, Copy, Debug, PartialEq, Eq, Structural)]
pub enum BindingParseError {
    KeySequenceParseError(SequenceParseError),
    ModeParseError(crate::mode::ModeParseError),
}

} // verus!
