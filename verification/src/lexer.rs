//! The lexer: scans source text, one character at a time, into tokens.
//!
//! Whitespace and line comments (`;` to end of line) separate tokens and
//! produce none. Scanning is described by spec functions over the character
//! sequence; each executable method returns exactly what its spec function
//! says.

use vstd::prelude::*;
use crate::chars::{
    char_is_alphabetic, char_is_alphanumeric, char_is_ascii_digit, char_is_whitespace,
    is_alphabetic, is_alphanumeric, is_ascii_digit, is_whitespace, slice_to_string, str_to_chars,
};
use crate::error::ReaderError;
use crate::token::{Token, TokenType};

verus! {

/// A scanning position: the next character to look at and the current line.
pub struct Cursor {
    pub i: int,
    pub line: int,
}

/// Whether position `i` is at the end of the input: past the last character,
/// or at a NUL character, which the lexer treats as an end marker.
pub open spec fn at_end(s: Seq<char>, i: int) -> bool {
    i >= s.len() || s[i] == '\0'
}

/// How much consuming `c` adds to the line counter: one for a newline,
/// nothing otherwise.
pub open spec fn line_inc(c: char) -> int {
    if c == '\n' {
        1
    } else {
        0
    }
}

/// Consuming one character: the position moves one ahead and the line grows
/// on a newline. Past the end nothing moves.
pub open spec fn spec_advance(s: Seq<char>, p: Cursor) -> Cursor {
    if 0 <= p.i < s.len() {
        Cursor { i: p.i + 1, line: p.line + line_inc(s[p.i]) }
    } else {
        p
    }
}

/// The character at position `i`, if any.
pub open spec fn spec_peek(s: Seq<char>, i: int) -> Option<char> {
    if 0 <= i < s.len() {
        Some(s[i])
    } else {
        None
    }
}

/// Where a comment beginning at `p` ends: just past the newline that closes
/// it, or at the end of input.
pub open spec fn spec_skip_comment(s: Seq<char>, p: Cursor) -> Cursor
    decreases s.len() - p.i,
{
    if p.i < 0 || p.i >= s.len() {
        p
    } else if s[p.i] == '\n' {
        Cursor { i: p.i + 1, line: p.line + 1 }
    } else {
        spec_skip_comment(s, Cursor { i: p.i + 1, line: p.line })
    }
}

/// Where scanning resumes after whitespace and comments: the first position
/// at or after `p` holding neither whitespace nor a comment.
pub open spec fn spec_skip_ws(s: Seq<char>, p: Cursor) -> Cursor
    decreases s.len() - p.i,
    via spec_skip_ws_dec
{
    if p.i < 0 || p.i >= s.len() {
        p
    } else if is_whitespace(s[p.i]) {
        spec_skip_ws(s, Cursor { i: p.i + 1, line: p.line + line_inc(s[p.i]) })
    } else if s[p.i] == ';' {
        spec_skip_ws(s, spec_skip_comment(s, p))
    } else {
        p
    }
}

#[via_fn]
proof fn spec_skip_ws_dec(s: Seq<char>, p: Cursor) {
    if 0 <= p.i && p.i < s.len() && !is_whitespace(s[p.i]) && s[p.i] == ';' {
        lemma_skip_comment_bounds(s, p);
    }
}

/// A comment consumes at least its first character, stays within the input,
/// and adds at most one line per character consumed.
pub proof fn lemma_skip_comment_bounds(s: Seq<char>, p: Cursor)
    requires
        0 <= p.i < s.len(),
    ensures
        p.i < spec_skip_comment(s, p).i <= s.len(),
        spec_skip_comment(s, p).line - p.line <= spec_skip_comment(s, p).i - p.i,
        p.line <= spec_skip_comment(s, p).line,
    decreases s.len() - p.i,
{
    if s[p.i] != '\n' {
        if p.i + 1 < s.len() {
            lemma_skip_comment_bounds(s, Cursor { i: p.i + 1, line: p.line });
        } else {
            assert(spec_skip_comment(s, Cursor { i: p.i + 1, line: p.line }) == Cursor {
                i: p.i + 1,
                line: p.line,
            });
        }
    }
}

/// Skipping whitespace never goes backwards, stays within the input, adds at
/// most one line per character consumed, and stops at a character that is
/// neither whitespace nor a comment start.
pub proof fn lemma_skip_ws_bounds(s: Seq<char>, p: Cursor)
    requires
        0 <= p.i <= s.len(),
    ensures
        p.i <= spec_skip_ws(s, p).i <= s.len(),
        spec_skip_ws(s, p).line - p.line <= spec_skip_ws(s, p).i - p.i,
        p.line <= spec_skip_ws(s, p).line,
        spec_skip_ws(s, p).i < s.len() ==> !is_whitespace(s[spec_skip_ws(s, p).i])
            && s[spec_skip_ws(s, p).i] != ';',
    decreases s.len() - p.i,
{
    if p.i < s.len() {
        if is_whitespace(s[p.i]) {
            lemma_skip_ws_bounds(s, Cursor { i: p.i + 1, line: p.line + line_inc(s[p.i]) });
        } else if s[p.i] == ';' {
            lemma_skip_comment_bounds(s, p);
            lemma_skip_ws_bounds(s, spec_skip_comment(s, p));
        }
    }
}

/// The outcome of scanning a string literal's body.
pub enum StringScan {
    /// The closing quote stands at position `close` and the line there is
    /// `line`.
    Closed { close: int, line: int },
    /// Input ended at position `at` (line `line`) before a closing quote.
    Unterminated { at: int, line: int },
}

/// Scanning a string literal's body from `p` (just past the opening quote):
/// a backslash consumes the character after it, so an escaped quote does not
/// close the literal; an unescaped quote closes it; end of input or a NUL
/// character before that is a failure.
pub open spec fn spec_scan_string(s: Seq<char>, p: Cursor) -> StringScan
    decreases s.len() - p.i,
{
    if p.i < 0 || p.i >= s.len() {
        StringScan::Unterminated { at: p.i, line: p.line }
    } else if s[p.i] == '\0' {
        StringScan::Unterminated { at: p.i, line: p.line }
    } else if s[p.i] == '\\' {
        if p.i + 1 >= s.len() {
            StringScan::Unterminated { at: p.i + 1, line: p.line }
        } else {
            spec_scan_string(s, Cursor { i: p.i + 2, line: p.line + line_inc(s[p.i + 1]) })
        }
    } else if s[p.i] == '"' {
        StringScan::Closed { close: p.i, line: p.line }
    } else {
        spec_scan_string(s, Cursor { i: p.i + 1, line: p.line + line_inc(s[p.i]) })
    }
}

/// String scanning never goes backwards; a closing quote lies within the
/// input; the line grows by at most one per character consumed.
pub proof fn lemma_scan_string_bounds(s: Seq<char>, p: Cursor)
    requires
        0 <= p.i <= s.len(),
    ensures
        match spec_scan_string(s, p) {
            StringScan::Closed { close, line } => {
                &&& p.i <= close < s.len()
                &&& s[close] == '"'
                &&& line - p.line <= close - p.i
                &&& p.line <= line
            },
            StringScan::Unterminated { at, line } => {
                &&& p.i <= at <= s.len()
                &&& line - p.line <= at - p.i
                &&& p.line <= line
            },
        },
    decreases s.len() - p.i,
{
    if p.i < s.len() && s[p.i] != '\0' {
        if s[p.i] == '\\' {
            if p.i + 1 < s.len() {
                lemma_scan_string_bounds(
                    s,
                    Cursor { i: p.i + 2, line: p.line + line_inc(s[p.i + 1]) },
                );
            }
        } else if s[p.i] != '"' {
            lemma_scan_string_bounds(s, Cursor { i: p.i + 1, line: p.line + line_inc(s[p.i]) });
        }
    }
}

/// The end of the maximal run of ASCII digits beginning at `i`.
pub open spec fn spec_run_digits(s: Seq<char>, i: int) -> int
    decreases s.len() - i,
{
    if 0 <= i < s.len() && is_ascii_digit(s[i]) {
        spec_run_digits(s, i + 1)
    } else {
        i
    }
}

/// The end of the maximal run of alphanumeric characters beginning at `i`.
pub open spec fn spec_run_alnum(s: Seq<char>, i: int) -> int
    decreases s.len() - i,
{
    if 0 <= i < s.len() && is_alphanumeric(s[i]) {
        spec_run_alnum(s, i + 1)
    } else {
        i
    }
}

/// A digit run never goes backwards and stays within the input.
pub proof fn lemma_run_digits_bounds(s: Seq<char>, i: int)
    ensures
        i <= spec_run_digits(s, i),
        i <= s.len() ==> spec_run_digits(s, i) <= s.len(),
    decreases s.len() - i,
{
    if 0 <= i < s.len() && is_ascii_digit(s[i]) {
        lemma_run_digits_bounds(s, i + 1);
    }
}

/// An alphanumeric run never goes backwards and stays within the input.
pub proof fn lemma_run_alnum_bounds(s: Seq<char>, i: int)
    ensures
        i <= spec_run_alnum(s, i),
        i <= s.len() ==> spec_run_alnum(s, i) <= s.len(),
    decreases s.len() - i,
{
    if 0 <= i < s.len() && is_alphanumeric(s[i]) {
        lemma_run_alnum_bounds(s, i + 1);
    }
}

/// The token kind of an alphanumeric run: one of the fixed keywords if the
/// text matches it exactly, an identifier otherwise.
pub open spec fn keyword_kind(t: Seq<char>) -> TokenType {
    if t == "let"@ {
        TokenType::Let
    } else if t == "fn"@ {
        TokenType::Fn
    } else if t == "quote"@ {
        TokenType::Quote
    } else if t == "quasiquote"@ {
        TokenType::Quasiquote
    } else if t == "unquote"@ {
        TokenType::Unquote
    } else if t == "unquote-splicing"@ {
        TokenType::UnquoteSplicing
    } else {
        TokenType::Identifier
    }
}

/// A token built from spec-level positions.
pub open spec fn mk_token(kind: TokenType, start: int, end: int, line: int) -> Token {
    Token { token_type: kind, start: start as usize, end: end as usize, line: line as usize }
}

/// What one step of the lexer produces: the token or error, and the
/// position, line and token start after the step.
pub struct LexStep {
    pub res: Result<Token, ReaderError>,
    pub i: int,
    pub line: int,
    pub start: int,
}

/// The kind of a single-character token, if `c` is one.
pub open spec fn single_kind(c: char) -> Option<TokenType> {
    if c == '(' {
        Some(TokenType::LeftParen)
    } else if c == ')' {
        Some(TokenType::RightParen)
    } else if c == '{' {
        Some(TokenType::LeftBrace)
    } else if c == '}' {
        Some(TokenType::RightBrace)
    } else if c == '[' {
        Some(TokenType::LeftBracket)
    } else if c == ']' {
        Some(TokenType::RightBracket)
    } else if c == ',' {
        Some(TokenType::Comma)
    } else if c == '.' {
        Some(TokenType::Dot)
    } else if c == '-' {
        Some(TokenType::Minus)
    } else if c == '+' {
        Some(TokenType::Plus)
    } else if c == '\'' {
        Some(TokenType::SingleQuote)
    } else if c == '*' {
        Some(TokenType::Star)
    } else if c == '=' {
        Some(TokenType::Equal)
    } else if c == '@' {
        Some(TokenType::AtSign)
    } else {
        None
    }
}

/// One full step of the lexer from `p`: skip whitespace and comments, then
/// produce the next token or error, with the state after it.
///
/// At the end of input the step yields an `EOF` token with an empty span and
/// moves nothing.
pub open spec fn spec_next(s: Seq<char>, p: Cursor) -> LexStep {
    if at_end(s, p.i) {
        LexStep {
            res: Ok(mk_token(TokenType::EOF, p.i, p.i, p.line)),
            i: p.i,
            line: p.line,
            start: p.i,
        }
    } else {
        let q = spec_skip_ws(s, p);
        if q.i >= s.len() {
            LexStep {
                res: Ok(mk_token(TokenType::EOF, q.i, q.i, q.line)),
                i: q.i,
                line: q.line,
                start: q.i,
            }
        } else {
            let c = s[q.i];
            match single_kind(c) {
                Some(kind) => LexStep {
                    res: Ok(mk_token(kind, q.i, q.i + 1, q.line)),
                    i: q.i + 1,
                    line: q.line,
                    start: q.i,
                },
                None => {
                    if c == '"' {
                        match spec_scan_string(s, Cursor { i: q.i + 1, line: q.line }) {
                            StringScan::Closed { close, line } => LexStep {
                                res: Ok(mk_token(TokenType::String, q.i + 1, close, line)),
                                i: close + 1,
                                line: line,
                                start: q.i,
                            },
                            StringScan::Unterminated { at, line } => LexStep {
                                res: Err(
                                    ReaderError::UnterminatedString(
                                        mk_token(TokenType::Error, q.i, at, line),
                                    ),
                                ),
                                i: at,
                                line: line,
                                start: q.i,
                            },
                        }
                    } else if c == ';' {
                        LexStep {
                            res: Err(
                                ReaderError::UnexpectedCharacter(
                                    mk_token(TokenType::Error, q.i, q.i + 1, q.line),
                                ),
                            ),
                            i: q.i + 1,
                            line: q.line,
                            start: q.i,
                        }
                    } else if is_ascii_digit(c) {
                        let e = spec_run_digits(s, q.i + 1);
                        LexStep {
                            res: Ok(mk_token(TokenType::Number, q.i, e, q.line)),
                            i: e,
                            line: q.line,
                            start: q.i,
                        }
                    } else if is_alphabetic(c) {
                        let e = spec_run_alnum(s, q.i + 1);
                        LexStep {
                            res: Ok(mk_token(keyword_kind(s.subrange(q.i, e)), q.i, e, q.line)),
                            i: e,
                            line: q.line,
                            start: q.i,
                        }
                    } else {
                        LexStep {
                            res: Err(
                                ReaderError::UnknownCharacter(
                                    mk_token(TokenType::Error, q.i, q.i + 1, q.line),
                                ),
                            ),
                            i: q.i + 1,
                            line: q.line,
                            start: q.i,
                        }
                    }
                },
            }
        }
    }
}

/// A step that yields anything but `EOF` moves strictly forward and stays
/// within the input; the line grows by at most one per character consumed.
pub proof fn lemma_spec_next_advances(s: Seq<char>, p: Cursor)
    ensures
        ({
            let st = spec_next(s, p);
            &&& (match st.res {
                Ok(t) => t.token_type != TokenType::EOF ==> p.i < st.i <= s.len(),
                Err(_) => p.i < st.i <= s.len(),
            })
            &&& p.i <= st.i
            &&& (0 <= p.i ==> st.line - p.line <= st.i - p.i && p.line <= st.line)
        }),
{
    let st = spec_next(s, p);
    if !at_end(s, p.i) {
        if p.i < 0 {
            // Whitespace skipping leaves a negative position alone, and
            // every dispatch case then moves at least one ahead.
            let q = spec_skip_ws(s, p);
            assert(q == p);
            if q.i < s.len() {
                let c = s[q.i];
                if single_kind(c) is None && c != ';' {
                    if c == '"' {
                        if q.i + 1 >= 0 {
                            lemma_scan_string_bounds(s, Cursor { i: q.i + 1, line: q.line });
                        }
                    } else if is_ascii_digit(c) {
                        lemma_run_digits_bounds(s, q.i + 1);
                    } else if is_alphabetic(c) {
                        lemma_run_alnum_bounds(s, q.i + 1);
                    }
                }
            }
        } else {
            lemma_skip_ws_bounds(s, p);
            let q = spec_skip_ws(s, p);
            if q.i < s.len() {
                let c = s[q.i];
                if single_kind(c) is None && c != ';' {
                    if c == '"' {
                        lemma_scan_string_bounds(s, Cursor { i: q.i + 1, line: q.line });
                    } else if is_ascii_digit(c) {
                        lemma_run_digits_bounds(s, q.i + 1);
                    } else if is_alphabetic(c) {
                        lemma_run_alnum_bounds(s, q.i + 1);
                    }
                }
            }
        }
    }
}

/// The token stream from `p` to the end of input: tokens in order, ending
/// with the `EOF` token, or the first error. No token follows an error.
pub open spec fn spec_tokens_from(s: Seq<char>, p: Cursor) -> Result<Seq<Token>, ReaderError>
    decreases s.len() - p.i,
    via spec_tokens_from_dec
{
    let st = spec_next(s, p);
    match st.res {
        Err(e) => Err(e),
        Ok(t) => {
            if t.token_type == TokenType::EOF {
                Ok(seq![t])
            } else {
                match spec_tokens_from(s, Cursor { i: st.i, line: st.line }) {
                    Err(e) => Err(e),
                    Ok(rest) => Ok(seq![t] + rest),
                }
            }
        },
    }
}

#[via_fn]
proof fn spec_tokens_from_dec(s: Seq<char>, p: Cursor) {
    lemma_spec_next_advances(s, p);
}

/// The whole token stream of a source text, from its beginning at line 1.
pub open spec fn spec_tokenize(s: Seq<char>) -> Result<Seq<Token>, ReaderError> {
    spec_tokens_from(s, Cursor { i: 0, line: 1 })
}

/// Whether the executable result matches the spec-level token stream.
pub open spec fn lex_result_matches(
    expected: Result<Seq<Token>, ReaderError>,
    got: Result<Vec<Token>, ReaderError>,
) -> bool {
    match (expected, got) {
        (Ok(ts), Ok(v)) => v@ == ts,
        (Err(e), Err(e2)) => e == e2,
        _ => false,
    }
}

/// The scanning state: the source characters, the start of the token being
/// scanned, the cursor, and the current line.
pub struct Lexer {
    pub input: Vec<char>,
    pub start: usize,
    pub current: usize,
    pub line: usize,
}

impl Lexer {
    /// The lexer's well-formedness: positions within the input, lines
    /// counted from 1, never more lines than characters consumed plus one.
    pub open spec fn wf(self) -> bool {
        &&& self.start <= self.current <= self.input@.len()
        &&& self.input@.len() < usize::MAX
        &&& 1 <= self.line <= self.current + 1
    }

    /// The cursor at the lexer's current position.
    pub open spec fn cursor(self) -> Cursor {
        Cursor { i: self.current as int, line: self.line as int }
    }

    /// Constructs a new lexer at the start of `input`.
    pub fn new(input: &str) -> (r: Lexer)
        requires
            input@.len() < usize::MAX,
        ensures
            r.wf(),
            r.input@ == input@,
            r.start == 0,
            r.current == 0,
            r.line == 1,
    {
        Lexer { input: str_to_chars(input), start: 0, current: 0, line: 1 }
    }

    /// Returns the next character without moving the cursor.
    pub fn peek(&self) -> (r: Option<char>)
        ensures
            r == spec_peek(self.input@, self.current as int),
    {
        if self.current < self.input.len() {
            Some(self.input[self.current])
        } else {
            None
        }
    }

    /// Returns the character after the next one without moving the cursor.
    pub fn peek_next(&self) -> (r: Option<char>)
        requires
            self.wf(),
        ensures
            r == spec_peek(self.input@, self.current + 1),
    {
        if self.current + 1 < self.input.len() {
            Some(self.input[self.current + 1])
        } else {
            None
        }
    }

    /// Advances the cursor by one character, counting a newline once.
    pub fn advance(&mut self)
        requires
            old(self).wf(),
        ensures
            final(self).wf(),
            final(self).input@ == old(self).input@,
            final(self).start == old(self).start,
            final(self).cursor() == spec_advance(old(self).input@, old(self).cursor()),
    {
        if self.current < self.input.len() {
            let c = self.input[self.current];
            if c == '\n' {
                self.line = self.line + 1;
            }
            self.current = self.current + 1;
        }
    }

    /// Returns the next character and moves the cursor past it.
    pub fn next_char(&mut self) -> (r: Option<char>)
        requires
            old(self).wf(),
        ensures
            final(self).wf(),
            final(self).input@ == old(self).input@,
            final(self).start == old(self).start,
            r == spec_peek(old(self).input@, old(self).current as int),
            final(self).cursor() == spec_advance(old(self).input@, old(self).cursor()),
    {
        let c = self.peek();
        self.advance();
        c
    }

    /// Whether the end of the input has been reached: no character is left,
    /// or a NUL character stands at the cursor.
    pub fn is_at_end(&self) -> (r: bool)
        ensures
            r == at_end(self.input@, self.current as int),
    {
        if self.current >= self.input.len() {
            true
        } else {
            self.input[self.current] == '\0'
        }
    }

    /// Skips the remainder of a comment: everything up to and including the
    /// next newline.
    pub fn skip_comment(&mut self)
        requires
            old(self).wf(),
        ensures
            final(self).wf(),
            final(self).input@ == old(self).input@,
            final(self).start == old(self).start,
            final(self).cursor() == spec_skip_comment(old(self).input@, old(self).cursor()),
    {
        loop
            invariant
                self.wf(),
                self.input@ == old(self).input@,
                self.start == old(self).start,
                spec_skip_comment(self.input@, self.cursor()) == spec_skip_comment(
                    self.input@,
                    old(self).cursor(),
                ),
            decreases self.input@.len() - self.current,
        {
            match self.peek() {
                None => {
                    return ;
                },
                Some(c) => {
                    if c == '\n' {
                        self.advance();
                        return ;
                    }
                    self.advance();
                },
            }
        }
    }

    /// Skips whitespace and comments, and marks the start of the next token
    /// at the position where scanning stopped.
    pub fn skip_whitespace(&mut self)
        requires
            old(self).wf(),
        ensures
            final(self).wf(),
            final(self).input@ == old(self).input@,
            final(self).cursor() == spec_skip_ws(old(self).input@, old(self).cursor()),
            final(self).start == final(self).current,
    {
        loop
            invariant
                self.wf(),
                self.input@ == old(self).input@,
                spec_skip_ws(self.input@, self.cursor()) == spec_skip_ws(
                    self.input@,
                    old(self).cursor(),
                ),
            ensures
                self.wf(),
                self.input@ == old(self).input@,
                self.cursor() == spec_skip_ws(self.input@, old(self).cursor()),
            decreases self.input@.len() - self.current,
        {
            match self.peek() {
                None => {
                    break ;
                },
                Some(c) => {
                    if char_is_whitespace(c) {
                        self.advance();
                    } else if c == ';' {
                        proof {
                            lemma_skip_comment_bounds(self.input@, self.cursor());
                        }
                        self.skip_comment();
                    } else {
                        break ;
                    }
                },
            }
        }
        self.start = self.current;
    }

    /// Creates a token of the given kind spanning the current token text.
    pub fn create_token(&self, token_type: TokenType) -> (r: Token)
        ensures
            r == (Token {
                token_type,
                start: self.start,
                end: self.current,
                line: self.line,
            }),
    {
        Token { token_type, start: self.start, end: self.current, line: self.line }
    }

    /// Creates an `Error`-kind token spanning the current token text.
    pub fn create_error(&self) -> (r: Token)
        ensures
            r == (Token {
                token_type: TokenType::Error,
                start: self.start,
                end: self.current,
                line: self.line,
            }),
    {
        Token { token_type: TokenType::Error, start: self.start, end: self.current, line: self.line }
    }

    /// Creates a token of the given kind at the current position, for
    /// identifiers and keywords.
    pub fn create_symbol(&self, token_type: TokenType) -> (r: Token)
        ensures
            r == (Token {
                token_type,
                start: self.start,
                end: self.current,
                line: self.line,
            }),
    {
        Token { token_type, start: self.start, end: self.current, line: self.line }
    }

    /// Scans the body of a string literal, the opening quote already
    /// consumed. On success the token's span holds the text between the
    /// quotes; reaching end of input first is an `UnterminatedString` error.
    pub fn create_string(&mut self) -> (r: Result<Token, ReaderError>)
        requires
            old(self).wf(),
        ensures
            final(self).wf(),
            final(self).input@ == old(self).input@,
            final(self).start == old(self).start,
            ({
                let scan = spec_scan_string(old(self).input@, old(self).cursor());
                match scan {
                    StringScan::Closed { close, line } => {
                        &&& r == Ok::<Token, ReaderError>(
                            mk_token(TokenType::String, old(self).start + 1, close, line),
                        )
                        &&& final(self).current == close + 1
                        &&& final(self).line == line
                    },
                    StringScan::Unterminated { at, line } => {
                        &&& r == Err::<Token, ReaderError>(
                            ReaderError::UnterminatedString(
                                mk_token(TokenType::Error, old(self).start as int, at, line),
                            ),
                        )
                        &&& final(self).current == at
                        &&& final(self).line == line
                    },
                }
            }),
    {
        loop
            invariant
                self.wf(),
                self.input@ == old(self).input@,
                self.start == old(self).start,
                spec_scan_string(self.input@, self.cursor()) == spec_scan_string(
                    self.input@,
                    old(self).cursor(),
                ),
            ensures
                self.wf(),
                self.input@ == old(self).input@,
                self.start == old(self).start,
                self.current < self.input@.len(),
                self.input@[self.current as int] == '"',
                spec_scan_string(self.input@, old(self).cursor()) == (StringScan::Closed {
                    close: self.current as int,
                    line: self.line as int,
                }),
            decreases self.input@.len() - self.current,
        {
            match self.peek() {
                None => {
                    return Err(ReaderError::UnterminatedString(self.create_error()));
                },
                Some(c) => {
                    if self.is_at_end() {
                        return Err(ReaderError::UnterminatedString(self.create_error()));
                    }
                    if c == '\\' {
                        self.advance();
                        let after = self.peek();
                        if after.is_some() {
                            self.advance();
                        }
                    } else if c == '"' {
                        break ;
                    } else {
                        self.advance();
                    }
                },
            }
        }
        // The closing quote
        self.advance();
        Ok(Token {
            token_type: TokenType::String,
            start: self.start + 1,
            end: self.current - 1,
            line: self.line,
        })
    }

    /// Scans the remainder of an alphanumeric run, the first character
    /// already consumed, and classifies the whole run: an exact match
    /// against the fixed keyword set yields that keyword, anything else an
    /// identifier.
    pub fn indentifier_or_keyword(&mut self) -> (r: Result<Token, ReaderError>)
        requires
            old(self).wf(),
        ensures
            final(self).wf(),
            final(self).input@ == old(self).input@,
            final(self).start == old(self).start,
            final(self).line == old(self).line,
            final(self).current == spec_run_alnum(old(self).input@, old(self).current as int),
            r == Ok::<Token, ReaderError>(
                mk_token(
                    keyword_kind(
                        old(self).input@.subrange(
                            old(self).start as int,
                            spec_run_alnum(old(self).input@, old(self).current as int),
                        ),
                    ),
                    old(self).start as int,
                    spec_run_alnum(old(self).input@, old(self).current as int),
                    old(self).line as int,
                ),
            ),
    {
        loop
            invariant
                self.wf(),
                self.input@ == old(self).input@,
                self.start == old(self).start,
                self.line == old(self).line,
                spec_run_alnum(self.input@, self.cursor().i) == spec_run_alnum(
                    self.input@,
                    old(self).current as int,
                ),
            ensures
                self.wf(),
                self.input@ == old(self).input@,
                self.start == old(self).start,
                self.line == old(self).line,
                self.current as int == spec_run_alnum(self.input@, old(self).current as int),
            decreases self.input@.len() - self.current,
        {
            match self.peek() {
                None => {
                    break ;
                },
                Some(c) => {
                    if !char_is_alphanumeric(c) {
                        break ;
                    }
                    proof {
                        assert(c != '\n');
                    }
                    self.advance();
                },
            }
        }
        let text = slice_to_string(&self.input, self.start, self.current);
        let kind = if text == "let".to_owned() {
            TokenType::Let
        } else if text == "fn".to_owned() {
            TokenType::Fn
        } else if text == "quote".to_owned() {
            TokenType::Quote
        } else if text == "quasiquote".to_owned() {
            TokenType::Quasiquote
        } else if text == "unquote".to_owned() {
            TokenType::Unquote
        } else if text == "unquote-splicing".to_owned() {
            TokenType::UnquoteSplicing
        } else {
            TokenType::Identifier
        };
        Ok(self.create_symbol(kind))
    }

    /// Scans the remainder of a number: the maximal run of ASCII digits, the
    /// first digit already consumed.
    pub fn number(&mut self) -> (r: Token)
        requires
            old(self).wf(),
        ensures
            final(self).wf(),
            final(self).input@ == old(self).input@,
            final(self).start == old(self).start,
            final(self).line == old(self).line,
            final(self).current == spec_run_digits(old(self).input@, old(self).current as int),
            r == mk_token(
                TokenType::Number,
                old(self).start as int,
                spec_run_digits(old(self).input@, old(self).current as int),
                old(self).line as int,
            ),
    {
        loop
            invariant
                self.wf(),
                self.input@ == old(self).input@,
                self.start == old(self).start,
                self.line == old(self).line,
                spec_run_digits(self.input@, self.cursor().i) == spec_run_digits(
                    self.input@,
                    old(self).current as int,
                ),
            ensures
                self.wf(),
                self.input@ == old(self).input@,
                self.start == old(self).start,
                self.line == old(self).line,
                self.current as int == spec_run_digits(self.input@, old(self).current as int),
            decreases self.input@.len() - self.current,
        {
            match self.peek() {
                None => {
                    break ;
                },
                Some(c) => {
                    if !char_is_ascii_digit(c) {
                        break ;
                    }
                    proof {
                        assert(c != '\n');
                    }
                    self.advance();
                },
            }
        }
        self.create_token(TokenType::Number)
    }

    /// Returns the next token, skipping whitespace and comments first. At
    /// the end of input it returns an `EOF` token and stays there.
    pub fn next(&mut self) -> (r: Result<Token, ReaderError>)
        requires
            old(self).wf(),
        ensures
            final(self).wf(),
            final(self).input@ == old(self).input@,
            ({
                let st = spec_next(old(self).input@, old(self).cursor());
                &&& r == st.res
                &&& final(self).current == st.i
                &&& final(self).line == st.line
                &&& final(self).start == st.start
            }),
    {
        if self.is_at_end() {
            self.start = self.current;
            return Ok(self.create_token(TokenType::EOF));
        }
        self.skip_whitespace();
        proof {
            lemma_skip_ws_bounds(self.input@, old(self).cursor());
        }
        match self.next_char() {
            None => Ok(self.create_token(TokenType::EOF)),
            Some(c) => match c {
                '(' => Ok(self.create_token(TokenType::LeftParen)),
                ')' => Ok(self.create_token(TokenType::RightParen)),
                '{' => Ok(self.create_token(TokenType::LeftBrace)),
                '}' => Ok(self.create_token(TokenType::RightBrace)),
                '[' => Ok(self.create_token(TokenType::LeftBracket)),
                ']' => Ok(self.create_token(TokenType::RightBracket)),
                ',' => Ok(self.create_token(TokenType::Comma)),
                '.' => Ok(self.create_token(TokenType::Dot)),
                '-' => Ok(self.create_token(TokenType::Minus)),
                '+' => Ok(self.create_token(TokenType::Plus)),
                '\'' => Ok(self.create_token(TokenType::SingleQuote)),
                '*' => Ok(self.create_token(TokenType::Star)),
                '=' => Ok(self.create_token(TokenType::Equal)),
                '@' => Ok(self.create_token(TokenType::AtSign)),
                '"' => self.create_string(),
                ';' => Err(ReaderError::UnexpectedCharacter(self.create_error())),
                _ => {
                    if char_is_ascii_digit(c) {
                        Ok(self.number())
                    } else if char_is_alphabetic(c) {
                        self.indentifier_or_keyword()
                    } else {
                        Err(ReaderError::UnknownCharacter(self.create_error()))
                    }
                },
            },
        }
    }
}

/// Every token of the stream has a span within a source of length `n`.
pub open spec fn tokens_span_wf(ts: Seq<Token>, n: nat) -> bool {
    forall|j: int| 0 <= j < ts.len() ==> #[trigger] ts[j].span_wf(n)
}

/// Every token of a successful scan has a span within the input.
pub proof fn lemma_tokens_from_wf(s: Seq<char>, p: Cursor)
    requires
        0 <= p.i <= s.len(),
        0 <= p.line,
        s.len() < usize::MAX,
    ensures
        spec_tokens_from(s, p) matches Ok(ts) ==> tokens_span_wf(ts, s.len() as nat),
    decreases s.len() - p.i,
{
    lemma_spec_next_advances(s, p);
    let st = spec_next(s, p);
    match st.res {
        Ok(t) => {
            lemma_spec_next_token_wf(s, p);
            if t.token_type != TokenType::EOF {
                lemma_tokens_from_wf(s, Cursor { i: st.i, line: st.line });
            }
        },
        Err(_) => {},
    }
}

/// A token produced by one step has a span within the input.
pub proof fn lemma_spec_next_token_wf(s: Seq<char>, p: Cursor)
    requires
        0 <= p.i <= s.len(),
        0 <= p.line,
        s.len() < usize::MAX,
    ensures
        spec_next(s, p).res matches Ok(t) ==> t.span_wf(s.len() as nat),
{
    let st = spec_next(s, p);
    if !at_end(s, p.i) {
        lemma_skip_ws_bounds(s, p);
        let q = spec_skip_ws(s, p);
        if q.i < s.len() {
            let c = s[q.i];
            if single_kind(c) is None && c != ';' {
                if c == '"' {
                    lemma_scan_string_bounds(s, Cursor { i: q.i + 1, line: q.line });
                } else if is_ascii_digit(c) {
                    lemma_run_digits_bounds(s, q.i + 1);
                } else if is_alphabetic(c) {
                    lemma_run_alnum_bounds(s, q.i + 1);
                }
            }
        }
    }
}


/// One step's token lies between the cursor before and after it, and its
/// line lies between the lines before and after.
pub proof fn lemma_spec_next_token_in_range(s: Seq<char>, p: Cursor)
    requires
        0 <= p.i <= s.len(),
        0 <= p.line,
        s.len() < usize::MAX,
        p.line + s.len() - p.i <= usize::MAX,
    ensures
        (match spec_next(s, p).res {
            Ok(t) => {
                &&& p.i <= t.start as int <= t.end as int <= spec_next(s, p).i
                &&& p.line <= t.line as int <= spec_next(s, p).line
            },
            Err(_) => true,
        }),
{
    lemma_spec_next_advances(s, p);
    if !at_end(s, p.i) {
        lemma_skip_ws_bounds(s, p);
        let q = spec_skip_ws(s, p);
        if q.i < s.len() {
            let c = s[q.i];
            if single_kind(c) is None && c != ';' {
                if c == '"' {
                    lemma_scan_string_bounds(s, Cursor { i: q.i + 1, line: q.line });
                } else if is_ascii_digit(c) {
                    lemma_run_digits_bounds(s, q.i + 1);
                } else if is_alphabetic(c) {
                    lemma_run_alnum_bounds(s, q.i + 1);
                }
            }
        }
    }
}

/// Whether consecutive tokens never overlap and their lines never
/// decrease.
pub open spec fn tokens_ordered(ts: Seq<Token>) -> bool {
    forall|j: int| 0 <= j < ts.len() - 1 ==> (#[trigger] ts[j]).end <= ts[j + 1].start && ts[
        j
    ].line <= ts[j + 1].line
}

/// Along a successful scan the token spans are monotonically
/// non-decreasing and never overlap, and the line numbers only increase.
#[verifier::rlimit(60)]
pub proof fn lemma_tokens_from_ordered(s: Seq<char>, p: Cursor)
    requires
        0 <= p.i <= s.len(),
        0 <= p.line,
        s.len() < usize::MAX,
        p.line + s.len() - p.i <= usize::MAX,
    ensures
        (match spec_tokens_from(s, p) {
            Ok(ts) => {
                &&& ts.len() >= 1
                &&& p.i <= ts[0].start as int
                &&& p.line <= ts[0].line as int
                &&& tokens_ordered(ts)
            },
            Err(_) => true,
        }),
    decreases s.len() - p.i,
{
    lemma_spec_next_advances(s, p);
    lemma_spec_next_token_in_range(s, p);
    let st = spec_next(s, p);
    match st.res {
        Ok(t) => {
            if t.token_type != TokenType::EOF {
                let p2 = Cursor { i: st.i, line: st.line };
                lemma_tokens_from_ordered(s, p2);
                match spec_tokens_from(s, p2) {
                    Ok(rest) => {
                        let whole = seq![t] + rest;
                        assert(whole[0] == t);
                        assert forall|j: int| 0 <= j < whole.len() - 1 implies (
                        #[trigger] whole[j]).end <= whole[j + 1].start && whole[j].line <= whole[
                            j + 1
                        ].line by {
                            if j == 0 {
                                assert(whole[1] == rest[0]);
                            } else {
                                assert(whole[j] == rest[j - 1]);
                                assert(whole[j + 1] == rest[j]);
                            }
                        }
                    },
                    Err(_) => {},
                }
            } else {
                assert(seq![t].len() == 1);
                assert(seq![t][0] == t);
            }
        },
        Err(_) => {},
    }
}

/// The invariant of every token stream the lexer produces: spans are
/// monotonically non-decreasing and never overlap, and line numbers only
/// increase along the stream.
#[verifier::rlimit(60)]
pub proof fn lemma_tokenize_ordered(s: Seq<char>)
    requires
        s.len() < usize::MAX,
    ensures
        (match spec_tokenize(s) {
            Ok(ts) => tokens_ordered(ts),
            Err(_) => true,
        }),
{
    lemma_tokens_from_ordered(s, Cursor { i: 0, line: 1 });
}

/// Scans the whole of `input` into tokens. The returned stream always ends
/// with the `EOF` token; the first failure aborts the scan and is returned
/// instead, with no resynchronization.
pub fn tokenize(input: &str) -> (r: Result<Vec<Token>, ReaderError>)
    requires
        input@.len() < usize::MAX,
    ensures
        lex_result_matches(spec_tokenize(input@), r),
        r matches Ok(v) ==> tokens_span_wf(v@, input@.len()),
{
    let mut lexer = Lexer::new(input);
    let mut tokens: Vec<Token> = Vec::new();
    proof {
        match spec_tokens_from(input@, lexer.cursor()) {
            Ok(rest) => {
                assert(tokens@ + rest =~= rest);
            },
            Err(_) => {},
        }
    }
    loop
        invariant
            lexer.wf(),
            lexer.input@ == input@,
            match spec_tokens_from(input@, lexer.cursor()) {
                Ok(rest) => spec_tokenize(input@) == Ok::<Seq<Token>, ReaderError>(
                    tokens@ + rest,
                ),
                Err(e) => spec_tokenize(input@) == Err::<Seq<Token>, ReaderError>(e),
            },
        decreases input@.len() - lexer.current,
    {
        proof {
            lemma_spec_next_advances(lexer.input@, lexer.cursor());
        }
        let ghost pre = lexer.cursor();
        let t = match lexer.next() {
            Ok(t) => t,
            Err(e) => {
                return Err(e);
            },
        };
        let is_eof = t.token_type == TokenType::EOF;
        let ghost toks0 = tokens@;
        tokens.push(t);
        if is_eof {
            proof {
                assert(spec_tokens_from(input@, pre) == Ok::<Seq<Token>, ReaderError>(seq![t]));
                assert(tokens@ =~= toks0 + seq![t]);
                lemma_tokens_from_wf(input@, Cursor { i: 0, line: 1 });
            }
            return Ok(tokens);
        }
        proof {
            assert(spec_tokens_from(input@, pre) == (match spec_tokens_from(
                input@,
                lexer.cursor(),
            ) {
                Err(e) => Err::<Seq<Token>, ReaderError>(e),
                Ok(rest) => Ok::<Seq<Token>, ReaderError>(seq![t] + rest),
            }));
            match spec_tokens_from(input@, lexer.cursor()) {
                Ok(rest) => {
                    assert(toks0 + (seq![t] + rest) =~= tokens@ + rest);
                },
                Err(_) => {},
            }
        }
    }
}

} // verus!
