//! The typed error channel of the reader.

use vstd::prelude::*;
use crate::token::Token;

verus! {

/// A fatal reader error. Every error is terminal for the call that produced
/// it: there is no resynchronization or retry, and the first error aborts
/// the whole scan or parse.
///
/// Each variant carries an `Error`-kind token marking where the failure was
/// observed, except `InvalidNumber`, which carries the offending `Number`
/// token itself.
#[derive(Debug, Clone, Copy, PartialEq, Eq, Structural)]
pub enum ReaderError {
    /// The cursor advanced past the available input unexpectedly.
    /// Defensive; no scanning path raises it.
    NoNextCharacter(Token),
    /// A character no scanning rule recognizes.
    UnknownCharacter(Token),
    /// A comment-start character reached token dispatch. Defensive;
    /// whitespace skipping consumes comments before dispatch.
    UnexpectedCharacter(Token),
    /// A numeric literal whose digits do not convert to a number.
    InvalidNumber(Token),
    /// End of input was reached before the closing quote of a string.
    UnterminatedString(Token),
}

} // verus!
