//! Typed lexing failures. Malformed input under an already-selected grammar
//! rule is surfaced as a value carrying the error kind and the position at
//! which it was found, never as an abort.

use vstd::prelude::*;
use crate::token::TokenPosition;

verus! {

/// The malformed-input conditions the scanner and the block tree builder
/// can report.
#[derive(Debug, Clone, Copy, PartialEq, Eq, Structural)]
pub enum LexErrorKind {
    /// A normalized integer magnitude exceeds the representable range.
    NumericOverflow,
    /// A second decimal point inside a float literal.
    MalformedNumber,
    /// A string, char or raw string literal reaches end of input before its
    /// closing delimiter.
    UnterminatedLiteral,
    /// An escape sequence using a character outside the recognized escape set.
    InvalidEscape,
    /// A char literal whose decoded content is not exactly one character.
    InvalidCharLiteral,
    /// No matcher in the chain accepts the current position and the stream is
    /// not at end.
    UnrecognizedCharacter,
    /// Indentation mixes tabs and spaces and cannot be compared consistently.
    MalformedIndentation,
}

/// A lexing failure: its kind and the span at which it was detected.
#[derive(Debug, Clone, Copy, PartialEq, Eq, Structural)]
pub struct LexError {
    pub kind: LexErrorKind,
    pub position: TokenPosition,
}

impl LexError {
    pub fn new(kind: LexErrorKind, position: TokenPosition) -> (r: LexError)
        ensures
            r == (LexError { kind, position }),
    {
        LexError { kind, position }
    }
}

} // verus!
