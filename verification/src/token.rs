//! Token model: a tagged token kind together with the span of source text it
//! covers and the line it starts on.

use vstd::prelude::*;

verus! {

/// The kind of a lexical token.
///
/// Single-character punctuation, the fixed keyword set, the two literal
/// forms, identifiers, and the end-of-input and error markers.
#[derive(Debug, Clone, Copy, PartialEq, Eq, Structural)]
pub enum TokenType {
    // Single character tokens
    LeftParen,
    RightParen,
    LeftBrace,
    RightBrace,
    LeftBracket,
    RightBracket,
    Comma,
    Dot,
    Minus,
    Plus,
    Semicolon,
    Star,
    Equal,
    Tilde,
    AtSign,
    Backtick,
    SingleQuote,
    Slash,
    // Keywords
    Let,
    Fn,
    Quote,
    Quasiquote,
    Unquote,
    UnquoteSplicing,
    // Literals
    Number,
    String,
    // Other
    Identifier,
    EOF,
    Error,
}

/// One token: its kind, the character span `[start, end)` it covers in the
/// source, and the line it lies on. Lines start at 1 and grow by one for
/// each newline consumed before the token.
///
/// Tokens carry no decoded value; callers re-slice the source by span to
/// recover literal text. For a `String` token the span covers the text
/// between the delimiting quotes, so the slice is already the decoded text.
#[derive(Debug, Clone, Copy, PartialEq, Eq, Structural)]
pub struct Token {
    pub token_type: TokenType,
    pub start: usize,
    pub end: usize,
    pub line: usize,
}

impl Token {
    /// A span never runs backwards, and it lies within a source of length `n`.
    pub open spec fn span_wf(self, n: nat) -> bool {
        self.start <= self.end <= n
    }
}

} // verus!
