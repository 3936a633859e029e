//! The parser: recursive descent over a token stream, producing one value
//! per call.
//!
//! `parse` reads exactly one top-level form starting at the first unconsumed
//! token and leaves trailing tokens unconsumed. Tokens carry no decoded
//! text, so the parser re-slices the source by token span.

use vstd::prelude::*;
use vstd::string::StrSliceExecFns;
use crate::chars::{slice_to_string, str_to_chars};
use crate::error::ReaderError;
use crate::lexer::tokens_span_wf;
use crate::numeral::{all_digits, digits_to_nat, parse_u64};
use crate::token::{Token, TokenType};
use crate::types::{view_seq, Value, ValueModel};

verus! {

/// The token at position `i` of the stream, if any.
pub open spec fn spec_token_at(ts: Seq<Token>, i: int) -> Option<Token> {
    if 0 <= i < ts.len() {
        Some(ts[i])
    } else {
        None
    }
}

/// What parsing one form produces: the value or error, and the position of
/// the first unconsumed token after it.
pub struct ParseStep {
    pub res: Result<ValueModel, ReaderError>,
    pub next: int,
}

/// What parsing a list body produces: the element models or an error, and
/// the position of the first unconsumed token.
pub struct ListStep {
    pub res: Result<Seq<ValueModel>, ReaderError>,
    pub next: int,
}

/// The value of one atom token, read against the source text.
///
/// A `Number` token converts exactly when its slice is a nonempty digit run
/// whose value fits in a `u64`; anything else is an `InvalidNumber` error. A
/// `String` token's slice is already the decoded text; an `Identifier`
/// becomes a symbol; every other kind becomes a keyword atom carrying it.
pub open spec fn spec_parse_atom(t: Token, src: Seq<char>) -> Result<ValueModel, ReaderError> {
    match t.token_type {
        TokenType::Number => {
            let text = src.subrange(t.start as int, t.end as int);
            if text.len() >= 1 && all_digits(text) && digits_to_nat(text) <= u64::MAX {
                Ok(ValueModel::Number(digits_to_nat(text) as u64))
            } else {
                Err(ReaderError::InvalidNumber(t))
            }
        },
        TokenType::String => Ok(ValueModel::String(src.subrange(t.start as int, t.end as int))),
        TokenType::Identifier => Ok(ValueModel::Symbol(src.subrange(t.start as int, t.end as int))),
        _ => Ok(ValueModel::Keyword(t.token_type)),
    }
}

/// Parsing one form at position `i`: a `LeftParen` opens a list; the end of
/// the stream yields the `End of Tokens` error value; anything else is an
/// atom, whose token is consumed.
pub open spec fn spec_parse_form(ts: Seq<Token>, src: Seq<char>, i: int) -> ParseStep
    decreases ts.len() - i, 0int,
{
    if i < 0 || i >= ts.len() || ts[i].token_type == TokenType::EOF {
        ParseStep { res: Ok(ValueModel::Error("End of Tokens"@)), next: i }
    } else if ts[i].token_type == TokenType::LeftParen {
        let ls = spec_parse_list(ts, src, i + 1);
        ParseStep {
            res: match ls.res {
                Ok(elems) => Ok(ValueModel::List(elems)),
                Err(e) => Err(e),
            },
            next: ls.next,
        }
    } else {
        ParseStep { res: spec_parse_atom(ts[i], src), next: i + 1 }
    }
}

/// Parsing list elements from position `i`: forms accumulate until a
/// `RightParen`, which is consumed and closes the list. Running out of
/// tokens before a closing paren is not an error: the elements read so far
/// stand.
pub open spec fn spec_parse_list(ts: Seq<Token>, src: Seq<char>, i: int) -> ListStep
    decreases ts.len() - i, 1int,
{
    if i < 0 || i >= ts.len() || ts[i].token_type == TokenType::EOF {
        ListStep { res: Ok(Seq::empty()), next: i }
    } else if ts[i].token_type == TokenType::RightParen {
        ListStep { res: Ok(Seq::empty()), next: i + 1 }
    } else {
        let st = spec_parse_form(ts, src, i);
        match st.res {
            Err(e) => ListStep { res: Err(e), next: st.next },
            Ok(v) => {
                let j = if i < st.next <= ts.len() {
                    st.next
                } else {
                    i + 1
                };
                let rest = spec_parse_list(ts, src, j);
                match rest.res {
                    Err(e) => ListStep { res: Err(e), next: rest.next },
                    Ok(vs) => ListStep { res: Ok(seq![v] + vs), next: rest.next },
                }
            },
        }
    }
}

/// Parsing a form never goes backwards, stays within the stream, and
/// consumes at least one token whenever one is there to consume.
pub proof fn lemma_parse_form_bounds(ts: Seq<Token>, src: Seq<char>, i: int)
    ensures
        i <= spec_parse_form(ts, src, i).next,
        i <= ts.len() ==> spec_parse_form(ts, src, i).next <= ts.len(),
        0 <= i < ts.len() && ts[i].token_type != TokenType::EOF ==> spec_parse_form(
            ts,
            src,
            i,
        ).next > i,
    decreases ts.len() - i, 0int,
{
    if 0 <= i < ts.len() && ts[i].token_type != TokenType::EOF && ts[i].token_type
        == TokenType::LeftParen {
        lemma_parse_list_bounds(ts, src, i + 1);
    }
}

/// Parsing list elements never goes backwards and stays within the stream.
pub proof fn lemma_parse_list_bounds(ts: Seq<Token>, src: Seq<char>, i: int)
    ensures
        i <= spec_parse_list(ts, src, i).next,
        i <= ts.len() ==> spec_parse_list(ts, src, i).next <= ts.len(),
    decreases ts.len() - i, 1int,
{
    if 0 <= i < ts.len() && ts[i].token_type != TokenType::EOF && ts[i].token_type
        != TokenType::RightParen {
        lemma_parse_form_bounds(ts, src, i);
        let st = spec_parse_form(ts, src, i);
        if st.res is Ok {
            let j = if i < st.next <= ts.len() {
                st.next
            } else {
                i + 1
            };
            lemma_parse_list_bounds(ts, src, j);
        }
    }
}

/// Whether an executable parse result carries the model the spec names.
pub open spec fn parse_result_matches(
    expected: Result<ValueModel, ReaderError>,
    got: Result<Value, ReaderError>,
) -> bool {
    match (expected, got) {
        (Ok(m), Ok(v)) => v@ == m,
        (Err(e), Err(e2)) => e == e2,
        _ => false,
    }
}

/// The parser's state: the token stream, the position of the next token to
/// consume, and the source characters the tokens point into.
pub struct Parser {
    pub tokens: Vec<Token>,
    pub index: usize,
    pub input: Vec<char>,
}

impl Parser {
    /// Well-formedness: every token span lies within the source and the
    /// position lies within the stream.
    pub open spec fn wf(self) -> bool {
        &&& tokens_span_wf(self.tokens@, self.input@.len())
        &&& self.index <= self.tokens@.len()
    }

    /// Constructs a parser over `tokens`, read against the source text
    /// `input` that produced them.
    pub fn new(tokens: Vec<Token>, input: &str) -> (r: Parser)
        requires
            input@.len() < usize::MAX,
        ensures
            r.tokens@ == tokens@,
            r.index == 0,
            r.input@ == input@,
    {
        Parser { tokens, index: 0, input: str_to_chars(input) }
    }

    /// Returns the next unconsumed token without consuming it.
    pub fn peek(&self) -> (r: Option<Token>)
        ensures
            r == spec_token_at(self.tokens@, self.index as int),
    {
        if self.index < self.tokens.len() {
            Some(self.tokens[self.index])
        } else {
            None
        }
    }

    /// Consumes one token.
    pub fn advance(&mut self)
        requires
            old(self).index < old(self).tokens@.len(),
        ensures
            final(self).index == old(self).index + 1,
            final(self).tokens@ == old(self).tokens@,
            final(self).input@ == old(self).input@,
    {
        let n = self.tokens.len();
        self.index = self.index + 1;
    }

    /// Parses one atom at the next token, consuming nothing. The end of the
    /// stream yields `Null`.
    fn parse_atom(&mut self) -> (r: Result<Value, ReaderError>)
        requires
            old(self).wf(),
        ensures
            final(self).tokens@ == old(self).tokens@,
            final(self).input@ == old(self).input@,
            final(self).index == old(self).index,
            match spec_token_at(old(self).tokens@, old(self).index as int) {
                Some(t) => parse_result_matches(spec_parse_atom(t, old(self).input@), r),
                None => r == Ok::<Value, ReaderError>(Value::Null),
            },
    {
        match self.peek() {
            Some(token) => match token.token_type {
                TokenType::Number => {
                    proof {
                        assert(self.tokens@[self.index as int].span_wf(self.input@.len()));
                    }
                    match parse_u64(&self.input, token.start, token.end) {
                        Some(x) => Ok(Value::Number(x)),
                        None => Err(ReaderError::InvalidNumber(token)),
                    }
                },
                TokenType::String => {
                    proof {
                        assert(self.tokens@[self.index as int].span_wf(self.input@.len()));
                    }
                    Ok(Value::String(slice_to_string(&self.input, token.start, token.end)))
                },
                TokenType::Identifier => {
                    proof {
                        assert(self.tokens@[self.index as int].span_wf(self.input@.len()));
                    }
                    Ok(Value::Symbol(slice_to_string(&self.input, token.start, token.end)))
                },
                _ => Ok(Value::Keyword(token.token_type)),
            },
            None => Ok(Value::Null),
        }
    }

    /// Parses one form: a list after a `LeftParen`, an atom otherwise. At
    /// the end of the stream the `End of Tokens` error value is returned.
    fn parse_form(&mut self) -> (r: Result<Value, ReaderError>)
        requires
            old(self).wf(),
        ensures
            final(self).wf(),
            final(self).tokens@ == old(self).tokens@,
            final(self).input@ == old(self).input@,
            ({
                let st = spec_parse_form(old(self).tokens@, old(self).input@, old(self).index as int);
                &&& parse_result_matches(st.res, r)
                &&& final(self).index as int == st.next
            }),
        decreases old(self).tokens@.len() - old(self).index, 0int,
    {
        proof {
            lemma_parse_form_bounds(self.tokens@, self.input@, self.index as int);
        }
        match self.peek() {
            Some(token) => {
                if token.token_type == TokenType::EOF {
                    Ok(Value::Error("End of Tokens".to_owned()))
                } else if token.token_type == TokenType::LeftParen {
                    self.advance();
                    self.parse_list()
                } else {
                    let res = self.parse_atom();
                    self.advance();
                    res
                }
            },
            None => Ok(Value::Error("End of Tokens".to_owned())),
        }
    }

    /// Parses list elements up to and including the closing `RightParen`,
    /// or to the end of the stream, whichever comes first.
    fn parse_list(&mut self) -> (r: Result<Value, ReaderError>)
        requires
            old(self).wf(),
        ensures
            final(self).wf(),
            final(self).tokens@ == old(self).tokens@,
            final(self).input@ == old(self).input@,
            ({
                let st = spec_parse_list(old(self).tokens@, old(self).input@, old(self).index as int);
                &&& (match (st.res, r) {
                    (Ok(elems), Ok(v)) => v@ == ValueModel::List(elems),
                    (Err(e), Err(e2)) => e == e2,
                    _ => false,
                })
                &&& final(self).index as int == st.next
            }),
        decreases old(self).tokens@.len() - old(self).index, 1int,
    {
        let ghost ts = self.tokens@;
        let ghost src = self.input@;
        let ghost i0 = self.index as int;
        let mut list: Vec<Value> = Vec::new();
        proof {
            if spec_parse_list(ts, src, i0).res is Ok {
                assert(view_seq(list@) + spec_parse_list(ts, src, i0).res->Ok_0 =~= spec_parse_list(
                    ts,
                    src,
                    i0,
                ).res->Ok_0);
            }
        }
        loop
            invariant_except_break
                ({
                    let whole = spec_parse_list(ts, src, i0);
                    let here = spec_parse_list(ts, src, self.index as int);
                    match here.res {
                        Ok(rest) => whole == (ListStep {
                            res: Ok(view_seq(list@) + rest),
                            next: here.next,
                        }),
                        Err(e) => whole.res == Err::<Seq<ValueModel>, ReaderError>(e) && whole.next
                            == here.next,
                    }
                }),
            invariant
                self.wf(),
                ts == old(self).tokens@,
                src == old(self).input@,
                i0 == old(self).index as int,
                self.tokens@ == ts,
                self.input@ == src,
                i0 <= self.index as int <= ts.len(),
            ensures
                self.wf(),
                self.tokens@ == ts,
                self.input@ == src,
                spec_parse_list(ts, src, i0) == (ListStep {
                    res: Ok(view_seq(list@)),
                    next: self.index as int,
                }),
            decreases ts.len() - self.index,
        {
            let ghost j = self.index as int;
            match self.peek() {
                Some(token) => {
                    if token.token_type == TokenType::EOF {
                        proof {
                            assert(spec_parse_list(ts, src, j) == (ListStep {
                                res: Ok(Seq::<ValueModel>::empty()),
                                next: j,
                            }));
                            assert(view_seq(list@) + Seq::<ValueModel>::empty() =~= view_seq(
                                list@,
                            ));
                        }
                        break ;
                    }
                    if token.token_type == TokenType::RightParen {
                        proof {
                            assert(spec_parse_list(ts, src, j) == (ListStep {
                                res: Ok(Seq::<ValueModel>::empty()),
                                next: j + 1,
                            }));
                            assert(view_seq(list@) + Seq::<ValueModel>::empty() =~= view_seq(
                                list@,
                            ));
                        }
                        self.advance();
                        break ;
                    }
                    proof {
                        lemma_parse_form_bounds(ts, src, j);
                    }
                    let v = match self.parse_form() {
                        Ok(v) => v,
                        Err(e) => {
                            proof {
                                assert(spec_parse_list(ts, src, j).res
                                    == Err::<Seq<ValueModel>, ReaderError>(e));
                            }
                            return Err(e);
                        },
                    };
                    let ghost l0 = list@;
                    list.push(v);
                    proof {
                        crate::types::lemma_view_seq_push(l0, v);
                        let st = spec_parse_form(ts, src, j);
                        let here = spec_parse_list(ts, src, self.index as int);
                        if here.res is Ok {
                            assert(view_seq(l0) + (seq![v@] + here.res->Ok_0) =~= view_seq(list@)
                                + here.res->Ok_0);
                        }
                    }
                },
                None => {
                    proof {
                        assert(spec_parse_list(ts, src, j) == (ListStep {
                            res: Ok(Seq::<ValueModel>::empty()),
                            next: j,
                        }));
                        assert(view_seq(list@) + Seq::<ValueModel>::empty() =~= view_seq(list@));
                    }
                    break ;
                },
            }
        }
        Ok(Value::List(list))
    }

    /// Parses exactly one top-level form starting at the first unconsumed
    /// token; trailing tokens are left unconsumed.
    pub fn parse(&mut self) -> (r: Result<Value, ReaderError>)
        requires
            old(self).wf(),
        ensures
            final(self).wf(),
            final(self).tokens@ == old(self).tokens@,
            final(self).input@ == old(self).input@,
            ({
                let st = spec_parse_form(old(self).tokens@, old(self).input@, old(self).index as int);
                &&& parse_result_matches(st.res, r)
                &&& final(self).index as int == st.next
            }),
    {
        self.parse_form()
    }
}

/// The source slice a token covers, as text.
pub fn token_to_string(token: &Token, input: &str) -> (r: String)
    requires
        token.start <= token.end <= input@.len(),
    ensures
        r@ == input@.subrange(token.start as int, token.end as int),
{
    input.substring_char(token.start, token.end).to_owned()
}

} // verus!
