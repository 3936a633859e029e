//! Printing is a faithful inverse of reading on the values the grammar
//! reaches: nested lists of numbers, symbols and keyword atoms.
//!
//! The law proved here: for every such value, printing it and reading the
//! printed text back yields the value again, structure, order and element
//! count preserved. The reserved vector and mapping forms, strings, and the
//! operator kinds the scanner does not recognize stay outside the class.

use vstd::prelude::*;
use crate::chars::{is_alphabetic, is_alphanumeric, is_ascii_digit, is_whitespace};
use crate::error::ReaderError;
use crate::lexer::{
    at_end, mk_token, single_kind, spec_next, spec_run_alnum, spec_run_digits, spec_skip_ws,
    spec_tokenize, spec_tokens_from, Cursor, LexStep,
};
use crate::numeral::{lemma_nat_to_digits, nat_to_digits};
use crate::printer::{spec_print, spec_print_spaced, token_kind_text};
use crate::token::{Token, TokenType};
use crate::parser::{spec_parse_form, spec_parse_list};
use crate::types::ValueModel;

verus! {

/// The keyword kinds whose printed text scans back to the same single
/// token: the recognized punctuation and the word keywords. The parentheses
/// (list structure), the comment start, the reserved unscanned punctuation,
/// the spliced keyword (its hyphen splits it), and the non-atom kinds stay
/// out.
pub open spec fn rt_keyword(k: TokenType) -> bool {
    match k {
        TokenType::LeftBrace => true,
        TokenType::RightBrace => true,
        TokenType::LeftBracket => true,
        TokenType::RightBracket => true,
        TokenType::Comma => true,
        TokenType::Dot => true,
        TokenType::Minus => true,
        TokenType::Plus => true,
        TokenType::Star => true,
        TokenType::Equal => true,
        TokenType::AtSign => true,
        TokenType::SingleQuote => true,
        TokenType::Let => true,
        TokenType::Fn => true,
        TokenType::Quote => true,
        TokenType::Quasiquote => true,
        TokenType::Unquote => true,
        _ => false,
    }
}

/// Symbol text that scans back to one identifier token: nonempty, an
/// alphabetic first character that is not whitespace, alphanumeric
/// throughout, and not one of the fixed keywords.
pub open spec fn rt_symbol(t: Seq<char>) -> bool {
    &&& t.len() >= 1
    &&& is_alphabetic(t[0])
    &&& !is_whitespace(t[0])
    &&& (forall|i: int| 0 <= i < t.len() ==> is_alphanumeric(#[trigger] t[i]))
    &&& t != "let"@
    &&& t != "fn"@
    &&& t != "quote"@
    &&& t != "quasiquote"@
    &&& t != "unquote"@
}

/// The values whose printed text reads back to themselves: numbers,
/// round-trippable symbols and keyword atoms, and lists of such values.
pub open spec fn rt_value(m: ValueModel) -> bool
    decreases m,
{
    match m {
        ValueModel::Number(_) => true,
        ValueModel::Symbol(t) => rt_symbol(t),
        ValueModel::Keyword(k) => rt_keyword(k),
        ValueModel::List(xs) => forall|i: int| 0 <= i < xs.len() ==> rt_value(#[trigger] xs[i]),
        _ => false,
    }
}

/// The tokens the lexer produces for the printed text of `m` laid down at
/// position `at` on line `line`.
pub open spec fn rt_tokens(m: ValueModel, at: int, line: int) -> Seq<Token>
    decreases m, 0int,
{
    match m {
        ValueModel::Number(n) => seq![
            mk_token(TokenType::Number, at, at + nat_to_digits(n as nat).len(), line),
        ],
        ValueModel::Symbol(t) => seq![mk_token(TokenType::Identifier, at, at + t.len(), line)],
        ValueModel::Keyword(k) => seq![mk_token(k, at, at + token_kind_text(k).len(), line)],
        ValueModel::List(xs) => seq![mk_token(TokenType::LeftParen, at, at + 1, line)]
            + rt_tokens_elems(xs, at + 1, line) + seq![
            mk_token(
                TokenType::RightParen,
                at + spec_print(m).len() - 1,
                at + spec_print(m).len(),
                line,
            ),
        ],
        _ => Seq::empty(),
    }
}

/// The tokens of the space-separated element texts laid down at `at`.
pub open spec fn rt_tokens_elems(xs: Seq<ValueModel>, at: int, line: int) -> Seq<Token>
    decreases xs, 1int,
{
    if xs.len() == 0 {
        Seq::empty()
    } else if xs.len() == 1 {
        rt_tokens(xs[0], at, line)
    } else {
        rt_tokens(xs[0], at, line) + rt_tokens_elems(
            xs.drop_first(),
            at + spec_print(xs[0]).len() + 1,
            line,
        )
    }
}

/// The lexer, started at `p`, produces exactly the tokens `toks` (none of
/// them `EOF`) and is then ready at `q`.
pub open spec fn lex_seq(s: Seq<char>, p: Cursor, toks: Seq<Token>, q: Cursor) -> bool
    decreases toks.len(),
{
    if toks.len() == 0 {
        p == q
    } else {
        let st = spec_next(s, p);
        &&& st.res == Ok::<Token, ReaderError>(toks[0])
        &&& toks[0].token_type != TokenType::EOF
        &&& lex_seq(s, Cursor { i: st.i, line: st.line }, toks.drop_first(), q)
    }
}

/// Token runs compose: one run followed by another is the run of both.
pub proof fn lemma_lex_seq_concat(s: Seq<char>, p: Cursor, t1: Seq<Token>, q: Cursor, t2: Seq<Token>, r: Cursor)
    requires
        lex_seq(s, p, t1, q),
        lex_seq(s, q, t2, r),
    ensures
        lex_seq(s, p, t1 + t2, r),
    decreases t1.len(),
{
    if t1.len() == 0 {
        assert(t1 + t2 =~= t2);
    } else {
        let st = spec_next(s, p);
        lemma_lex_seq_concat(s, Cursor { i: st.i, line: st.line }, t1.drop_first(), q, t2, r);
        assert((t1 + t2)[0] == t1[0]);
        assert((t1 + t2).drop_first() =~= t1.drop_first() + t2);
    }
}

/// A token run extends a successful scan: if the whole scan succeeds from
/// where the run ends, it succeeds from where the run starts, with the
/// run's tokens in front.
pub proof fn lemma_lex_seq_tokens_from(s: Seq<char>, p: Cursor, toks: Seq<Token>, q: Cursor, rest: Seq<Token>)
    requires
        lex_seq(s, p, toks, q),
        spec_tokens_from(s, q) == Ok::<Seq<Token>, ReaderError>(rest),
    ensures
        spec_tokens_from(s, p) == Ok::<Seq<Token>, ReaderError>(toks + rest),
    decreases toks.len(),
{
    if toks.len() == 0 {
        assert(toks + rest =~= rest);
    } else {
        let st = spec_next(s, p);
        lemma_lex_seq_tokens_from(s, Cursor { i: st.i, line: st.line }, toks.drop_first(), q, rest);
        assert(seq![toks[0]] + (toks.drop_first() + rest) =~= toks + rest);
    }
}

/// A maximal digit run ends exactly where the digits end.
pub proof fn lemma_run_digits_exact(s: Seq<char>, a: int, b: int)
    requires
        0 <= a <= b <= s.len(),
        forall|k: int| a <= k < b ==> is_ascii_digit(#[trigger] s[k]),
        b == s.len() || !is_ascii_digit(s[b]),
    ensures
        spec_run_digits(s, a) == b,
    decreases b - a,
{
    if a < b {
        lemma_run_digits_exact(s, a + 1, b);
    }
}

/// A maximal alphanumeric run ends exactly where the alphanumeric
/// characters end.
pub proof fn lemma_run_alnum_exact(s: Seq<char>, a: int, b: int)
    requires
        0 <= a <= b <= s.len(),
        forall|k: int| a <= k < b ==> is_alphanumeric(#[trigger] s[k]),
        b == s.len() || !is_alphanumeric(s[b]),
    ensures
        spec_run_alnum(s, a) == b,
    decreases b - a,
{
    if a < b {
        lemma_run_alnum_exact(s, a + 1, b);
    }
}

/// One scanned token is a token run of length one.
pub proof fn lemma_lex_seq_single(s: Seq<char>, p: Cursor, tok: Token)
    requires
        spec_next(s, p).res == Ok::<Token, ReaderError>(tok),
        tok.token_type != TokenType::EOF,
    ensures
        lex_seq(
            s,
            p,
            seq![tok],
            Cursor { i: spec_next(s, p).i, line: spec_next(s, p).line },
        ),
{
    let q = Cursor { i: spec_next(s, p).i, line: spec_next(s, p).line };
    assert(seq![tok][0] == tok);
    assert(seq![tok].drop_first() =~= Seq::<Token>::empty());
    assert(lex_seq(s, q, Seq::<Token>::empty(), q));
}

/// One recognized punctuation character scans to its single token.
pub proof fn lemma_lex_single(s: Seq<char>, at: int, line: int, k: TokenType)
    requires
        0 <= at < s.len(),
        single_kind(s[at]) == Some(k),
    ensures
        spec_next(s, Cursor { i: at, line }) == (LexStep {
            res: Ok::<Token, ReaderError>(mk_token(k, at, at + 1, line)),
            i: at + 1,
            line: line,
            start: at,
        }),
{
    let c = s[at];
    assert(!at_end(s, at));
    assert(spec_skip_ws(s, Cursor { i: at, line }) == Cursor { i: at, line });
}

/// The printed text of a round-trippable keyword: nonempty; a word keyword
/// is an alphanumeric run that classifies back to the same kind, and a
/// punctuation keyword is its single recognized character.
pub proof fn lemma_keyword_text_facts(k: TokenType)
    requires
        rt_keyword(k),
    ensures
        token_kind_text(k).len() >= 1,
        (k == TokenType::Let || k == TokenType::Fn || k == TokenType::Quote || k
            == TokenType::Quasiquote || k == TokenType::Unquote) ==> {
            let t = token_kind_text(k);
            &&& is_alphabetic(t[0])
            &&& !is_whitespace(t[0])
            &&& (forall|i: int| 0 <= i < t.len() ==> is_alphanumeric(#[trigger] t[i]))
            &&& crate::lexer::keyword_kind(t) == k
        },
        !(k == TokenType::Let || k == TokenType::Fn || k == TokenType::Quote || k
            == TokenType::Quasiquote || k == TokenType::Unquote) ==> {
            let t = token_kind_text(k);
            &&& t.len() == 1
            &&& single_kind(t[0]) == Some(k)
        },
{
    reveal_strlit("let");
    reveal_strlit("fn");
    reveal_strlit("quote");
    reveal_strlit("quasiquote");
    reveal_strlit("unquote");
    reveal_strlit("unquote-splicing");
    reveal_strlit("{");
    reveal_strlit("}");
    reveal_strlit("[");
    reveal_strlit("]");
    reveal_strlit(",");
    reveal_strlit(".");
    reveal_strlit("-");
    reveal_strlit("+");
    reveal_strlit("*");
    reveal_strlit("=");
    reveal_strlit("@");
    reveal_strlit("'");
    match k {
        TokenType::Let => {
            let t = token_kind_text(k);
            assert(t.len() == 3 && t[0] == 'l' && t[1] == 'e' && t[2] == 't');
            assert forall|i: int| 0 <= i < t.len() implies is_alphanumeric(#[trigger] t[i]) by {
                if i == 0 { assert(is_alphanumeric(t[0])); }
                if i == 1 { assert(is_alphanumeric(t[1])); }
                if i == 2 { assert(is_alphanumeric(t[2])); }
            }
            assert(is_alphabetic(t[0]));
            assert(!is_whitespace(t[0]));
            assert(crate::lexer::keyword_kind(t) == k);
        },
        TokenType::Fn => {
            let t = token_kind_text(k);
            assert(t.len() == 2 && t[0] == 'f' && t[1] == 'n');
            assert forall|i: int| 0 <= i < t.len() implies is_alphanumeric(#[trigger] t[i]) by {
                if i == 0 { assert(is_alphanumeric(t[0])); }
                if i == 1 { assert(is_alphanumeric(t[1])); }
            }
            assert(is_alphabetic(t[0]));
            assert(!is_whitespace(t[0]));
            assert(crate::lexer::keyword_kind(t) == k);
        },
        TokenType::Quote => {
            let t = token_kind_text(k);
            assert(t.len() == 5 && t[0] == 'q' && t[1] == 'u' && t[2] == 'o' && t[3] == 't' && t[4] == 'e');
            assert forall|i: int| 0 <= i < t.len() implies is_alphanumeric(#[trigger] t[i]) by {
                if i == 0 { assert(is_alphanumeric(t[0])); }
                if i == 1 { assert(is_alphanumeric(t[1])); }
                if i == 2 { assert(is_alphanumeric(t[2])); }
                if i == 3 { assert(is_alphanumeric(t[3])); }
                if i == 4 { assert(is_alphanumeric(t[4])); }
            }
            assert(is_alphabetic(t[0]));
            assert(!is_whitespace(t[0]));
            assert(crate::lexer::keyword_kind(t) == k);
        },
        TokenType::Quasiquote => {
            let t = token_kind_text(k);
            assert(t.len() == 10 && t[0] == 'q' && t[1] == 'u' && t[2] == 'a' && t[3] == 's' && t[4] == 'i' && t[5] == 'q' && t[6] == 'u' && t[7] == 'o' && t[8] == 't' && t[9] == 'e');
            assert forall|i: int| 0 <= i < t.len() implies is_alphanumeric(#[trigger] t[i]) by {
                if i == 0 { assert(is_alphanumeric(t[0])); }
                if i == 1 { assert(is_alphanumeric(t[1])); }
                if i == 2 { assert(is_alphanumeric(t[2])); }
                if i == 3 { assert(is_alphanumeric(t[3])); }
                if i == 4 { assert(is_alphanumeric(t[4])); }
                if i == 5 { assert(is_alphanumeric(t[5])); }
                if i == 6 { assert(is_alphanumeric(t[6])); }
                if i == 7 { assert(is_alphanumeric(t[7])); }
                if i == 8 { assert(is_alphanumeric(t[8])); }
                if i == 9 { assert(is_alphanumeric(t[9])); }
            }
            assert(is_alphabetic(t[0]));
            assert(!is_whitespace(t[0]));
            assert(crate::lexer::keyword_kind(t) == k);
        },
        TokenType::Unquote => {
            let t = token_kind_text(k);
            assert(t.len() == 7 && t[0] == 'u' && t[1] == 'n' && t[2] == 'q' && t[3] == 'u' && t[4] == 'o' && t[5] == 't' && t[6] == 'e');
            assert forall|i: int| 0 <= i < t.len() implies is_alphanumeric(#[trigger] t[i]) by {
                if i == 0 { assert(is_alphanumeric(t[0])); }
                if i == 1 { assert(is_alphanumeric(t[1])); }
                if i == 2 { assert(is_alphanumeric(t[2])); }
                if i == 3 { assert(is_alphanumeric(t[3])); }
                if i == 4 { assert(is_alphanumeric(t[4])); }
                if i == 5 { assert(is_alphanumeric(t[5])); }
                if i == 6 { assert(is_alphanumeric(t[6])); }
            }
            assert(is_alphabetic(t[0]));
            assert(!is_whitespace(t[0]));
            assert(crate::lexer::keyword_kind(t) == k);
        },
        _ => {},
    }
}

/// A round-trippable symbol text classifies as an identifier, not a
/// keyword.
pub proof fn lemma_symbol_not_keyword(t: Seq<char>)
    requires
        rt_symbol(t),
    ensures
        crate::lexer::keyword_kind(t) == TokenType::Identifier,
{
    reveal_strlit("unquote-splicing");
    if t == "unquote-splicing"@ {
        assert(t[7] == '-');
        assert(is_alphanumeric(t[7]));
        assert(false);
    }
}

/// The printed text of every round-trippable value is nonempty, and so is
/// its token run.
pub proof fn lemma_rt_print_nonempty(m: ValueModel, at: int, line: int)
    requires
        rt_value(m),
    ensures
        spec_print(m).len() >= 1,
        rt_tokens(m, at, line).len() >= 1,
{
    match m {
        ValueModel::Number(n) => {
            lemma_nat_to_digits(n as nat);
        },
        ValueModel::Keyword(k) => {
            lemma_keyword_text_facts(k);
        },
        ValueModel::List(xs) => {
            reveal_strlit("(");
            reveal_strlit(")");
        },
        _ => {},
    }
}

/// A space before a nonempty token run is consumed by the scan of its
/// first token.
pub proof fn lemma_lex_seq_from_space(s: Seq<char>, j: int, line: int, toks: Seq<Token>, q: Cursor)
    requires
        0 <= j < s.len(),
        s[j] == ' ',
        toks.len() >= 1,
        lex_seq(s, Cursor { i: j + 1, line }, toks, q),
    ensures
        lex_seq(s, Cursor { i: j, line }, toks, q),
{
    let st = spec_next(s, Cursor { i: j + 1, line });
    if at_end(s, j + 1) {
        assert(st.res == Ok::<Token, ReaderError>(
            mk_token(TokenType::EOF, j + 1, j + 1, line),
        ));
        assert(toks[0].token_type == TokenType::EOF);
        assert(false);
    }
    assert(!at_end(s, j));
    assert(spec_skip_ws(s, Cursor { i: j, line }) == spec_skip_ws(s, Cursor { i: j + 1, line }));
    assert(spec_next(s, Cursor { i: j, line }) == spec_next(s, Cursor { i: j + 1, line }));
}

/// Scanning the printed text of a round-trippable value, laid down as a
/// window of a larger text and followed by a space, a closing paren or the
/// end, yields exactly its token run and stops right after the window.
pub proof fn lemma_lex_print(s: Seq<char>, m: ValueModel, at: int, line: int)
    requires
        rt_value(m),
        0 <= at,
        at + spec_print(m).len() <= s.len(),
        s.subrange(at, at + spec_print(m).len()) == spec_print(m),
        at + spec_print(m).len() == s.len() || s[at + spec_print(m).len()] == ' ' || s[at
            + spec_print(m).len()] == ')',
    ensures
        lex_seq(
            s,
            Cursor { i: at, line },
            rt_tokens(m, at, line),
            Cursor { i: at + spec_print(m).len(), line },
        ),
    decreases m, 0int,
{
    let w = spec_print(m);
    let l = w.len() as int;
    assert(forall|k: int| 0 <= k < l ==> s[at + k] == #[trigger] w[k]) by {
        assert(forall|k: int| 0 <= k < l ==> #[trigger] w[k] == s.subrange(at, at + l)[k]);
    }
    match m {
        ValueModel::Number(n) => {
            lemma_nat_to_digits(n as nat);
            let c = s[at];
            assert(c == w[0]);
            assert(is_ascii_digit(c));
            assert(!at_end(s, at));
            assert(spec_skip_ws(s, Cursor { i: at, line }) == Cursor { i: at, line });
            assert(single_kind(c) is None);
            assert forall|k: int| at + 1 <= k < at + l implies is_ascii_digit(#[trigger] s[k]) by {
                assert(s[k] == w[k - at]);
            }
            lemma_run_digits_exact(s, at + 1, at + l);
            let tok = mk_token(TokenType::Number, at, at + l, line);
            assert(spec_next(s, Cursor { i: at, line }).res == Ok::<Token, ReaderError>(tok));
            lemma_lex_seq_single(s, Cursor { i: at, line }, tok);
            assert(rt_tokens(m, at, line) =~= seq![tok]);
        },
        ValueModel::Symbol(t) => {
            let c = s[at];
            assert(c == t[0]);
            assert(is_alphabetic(c));
            assert(!is_ascii_digit(c));
            assert(c != ';' && c != '\u{0}' && c != '"');
            assert(!at_end(s, at));
            assert(spec_skip_ws(s, Cursor { i: at, line }) == Cursor { i: at, line });
            assert(single_kind(c) is None);
            assert forall|k: int| at + 1 <= k < at + l implies is_alphanumeric(#[trigger] s[k]) by {
                assert(s[k] == w[k - at]);
            }
            lemma_run_alnum_exact(s, at + 1, at + l);
            assert(s.subrange(at, at + l) == t);
            lemma_symbol_not_keyword(t);
            let tok = mk_token(TokenType::Identifier, at, at + l, line);
            assert(spec_next(s, Cursor { i: at, line }).res == Ok::<Token, ReaderError>(tok));
            lemma_lex_seq_single(s, Cursor { i: at, line }, tok);
            assert(rt_tokens(m, at, line) =~= seq![tok]);
        },
        ValueModel::Keyword(k) => {
            lemma_keyword_text_facts(k);
            let t = token_kind_text(k);
            let tok = mk_token(k, at, at + l, line);
            if k == TokenType::Let || k == TokenType::Fn || k == TokenType::Quote || k
                == TokenType::Quasiquote || k == TokenType::Unquote {
                let c = s[at];
                assert(c == t[0]);
                assert(is_alphabetic(c));
                assert(!is_ascii_digit(c));
                assert(c != ';' && c != '\u{0}' && c != '"');
                assert(!at_end(s, at));
                assert(spec_skip_ws(s, Cursor { i: at, line }) == Cursor { i: at, line });
                assert(single_kind(c) is None);
                assert forall|k: int| at + 1 <= k < at + l implies is_alphanumeric(
                    #[trigger] s[k],
                ) by {
                    assert(s[k] == w[k - at]);
                }
                lemma_run_alnum_exact(s, at + 1, at + l);
                assert(s.subrange(at, at + l) == t);
                assert(spec_next(s, Cursor { i: at, line }).res == Ok::<Token, ReaderError>(tok));
            } else {
                assert(l == 1);
                assert(s[at] == t[0]);
                lemma_lex_single(s, at, line, k);
            }
            assert(tok.token_type != TokenType::EOF);
            lemma_lex_seq_single(s, Cursor { i: at, line }, tok);
            assert(rt_tokens(m, at, line) =~= seq![tok]);
        },
        ValueModel::List(xs) => {
            reveal_strlit("(");
            reveal_strlit(")");
            let sp = spec_print_spaced(xs);
            let sl = sp.len() as int;
            assert(l == 1 + sl + 1);
            assert(w[0] == '(');
            assert(w[l - 1] == ')');
            assert(forall|k: int| 0 <= k < sl ==> w[1 + k] == #[trigger] sp[k]);
            assert(s[at] == '(');
            assert(s[at + l - 1] == ')');
            assert(s.subrange(at + 1, at + 1 + sl) =~= sp);
            // the opening paren
            lemma_lex_single(s, at, line, TokenType::LeftParen);
            let lp = mk_token(TokenType::LeftParen, at, at + 1, line);
            lemma_lex_seq_single(s, Cursor { i: at, line }, lp);
            // the elements
            lemma_lex_print_elems(s, xs, at + 1, line);
            // the closing paren
            lemma_lex_single(s, at + l - 1, line, TokenType::RightParen);
            let rp = mk_token(TokenType::RightParen, at + l - 1, at + l, line);
            lemma_lex_seq_single(s, Cursor { i: at + l - 1, line }, rp);
            assert(lex_seq(
                s,
                Cursor { i: at + 1 + sl, line },
                seq![rp],
                Cursor { i: at + l, line },
            ));
            lemma_lex_seq_concat(
                s,
                Cursor { i: at + 1, line },
                rt_tokens_elems(xs, at + 1, line),
                Cursor { i: at + 1 + sl, line },
                seq![rp],
                Cursor { i: at + l, line },
            );
            lemma_lex_seq_concat(
                s,
                Cursor { i: at, line },
                seq![lp],
                Cursor { i: at + 1, line },
                rt_tokens_elems(xs, at + 1, line) + seq![rp],
                Cursor { i: at + l, line },
            );
            assert(seq![lp] + (rt_tokens_elems(xs, at + 1, line) + seq![rp]) =~= rt_tokens(
                m,
                at,
                line,
            ));
        },
        _ => {},
    }
}

/// Scanning the space-separated element texts, followed in the larger text
/// by the list's closing paren, yields their token runs in order.
pub proof fn lemma_lex_print_elems(s: Seq<char>, xs: Seq<ValueModel>, at: int, line: int)
    requires
        forall|i: int| 0 <= i < xs.len() ==> rt_value(#[trigger] xs[i]),
        0 <= at,
        at + spec_print_spaced(xs).len() < s.len(),
        s.subrange(at, at + spec_print_spaced(xs).len()) == spec_print_spaced(xs),
        s[at + spec_print_spaced(xs).len()] == ')',
    ensures
        lex_seq(
            s,
            Cursor { i: at, line },
            rt_tokens_elems(xs, at, line),
            Cursor { i: at + spec_print_spaced(xs).len(), line },
        ),
    decreases xs, 1int,
{
    let sp = spec_print_spaced(xs);
    let sl = sp.len() as int;
    if xs.len() == 0 {
        assert(sl == 0);
    } else if xs.len() == 1 {
        assert(rt_value(xs[0]));
        assert(sp == spec_print(xs[0]));
        lemma_lex_print(s, xs[0], at, line);
    } else {
        reveal_strlit(" ");
        let x0 = xs[0];
        let rest = xs.drop_first();
        assert(rt_value(x0));
        let w0 = spec_print(x0);
        let l0 = w0.len() as int;
        let spr = spec_print_spaced(rest);
        let slr = spr.len() as int;
        assert(sp == w0 + " "@ + spr);
        assert(sl == l0 + 1 + slr);
        assert(forall|k: int| 0 <= k < sl ==> s[at + k] == #[trigger] sp[k]) by {
            assert(forall|k: int| 0 <= k < sl ==> #[trigger] sp[k] == s.subrange(at, at + sl)[k]);
        }
        assert(forall|k: int| 0 <= k < l0 ==> sp[k] == w0[k]);
        assert(sp[l0] == ' ');
        assert(forall|k: int| 0 <= k < slr ==> sp[l0 + 1 + k] == #[trigger] spr[k]);
        assert(s.subrange(at, at + l0) =~= w0);
        assert(s[at + l0] == ' ');
        assert(s.subrange(at + l0 + 1, at + l0 + 1 + slr) =~= spr);
        // the first element, followed by the separating space
        lemma_lex_print(s, x0, at, line);
        // the remaining elements
        assert(forall|i: int| 0 <= i < rest.len() ==> rt_value(#[trigger] rest[i])) by {
            assert(forall|i: int| 0 <= i < rest.len() ==> rest[i] == xs[i + 1]);
        }
        lemma_lex_print_elems(s, rest, at + l0 + 1, line);
        // the space before the rest is consumed by the rest's first token
        assert(rest.len() >= 1);
        assert(rt_value(rest[0]));
        lemma_rt_tokens_elems_nonempty(rest, at + l0 + 1, line);
        lemma_lex_seq_from_space(
            s,
            at + l0,
            line,
            rt_tokens_elems(rest, at + l0 + 1, line),
            Cursor { i: at + sl, line },
        );
        lemma_lex_seq_concat(
            s,
            Cursor { i: at, line },
            rt_tokens(x0, at, line),
            Cursor { i: at + l0, line },
            rt_tokens_elems(rest, at + l0 + 1, line),
            Cursor { i: at + sl, line },
        );
        assert(rt_tokens(x0, at, line) + rt_tokens_elems(rest, at + l0 + 1, line)
            == rt_tokens_elems(xs, at, line));
    }
}

/// The token run of a nonempty element sequence is nonempty.
pub proof fn lemma_rt_tokens_elems_nonempty(xs: Seq<ValueModel>, at: int, line: int)
    requires
        xs.len() >= 1,
        rt_value(xs[0]),
    ensures
        rt_tokens_elems(xs, at, line).len() >= 1,
{
    lemma_rt_print_nonempty(xs[0], at, line);
}

/// The first token of a round-trippable value's run is never `EOF` or a
/// closing paren.
pub proof fn lemma_rt_tokens_first(m: ValueModel, at: int, line: int)
    requires
        rt_value(m),
    ensures
        rt_tokens(m, at, line).len() >= 1,
        rt_tokens(m, at, line)[0].token_type != TokenType::EOF,
        rt_tokens(m, at, line)[0].token_type != TokenType::RightParen,
        rt_tokens(m, at, line)[0].token_type == TokenType::LeftParen <==> m is List,
{
    match m {
        ValueModel::List(xs) => {
            let lp = mk_token(TokenType::LeftParen, at, at + 1, line);
            assert(rt_tokens(m, at, line)[0] == lp);
        },
        _ => {},
    }
}

/// Parsing the token run of a round-trippable value, embedded in a larger
/// stream and read against the source window its spans point into, yields
/// the value back and stops right after the run.
#[verifier::rlimit(100)]
pub proof fn lemma_parse_print(
    ts: Seq<Token>,
    src: Seq<char>,
    m: ValueModel,
    j: int,
    at: int,
    line: int,
)
    requires
        rt_value(m),
        0 <= at,
        at + spec_print(m).len() <= src.len(),
        at + spec_print(m).len() <= usize::MAX,
        0 <= line <= usize::MAX,
        src.subrange(at, at + spec_print(m).len()) == spec_print(m),
        0 <= j,
        j + rt_tokens(m, at, line).len() <= ts.len(),
        forall|k: int| 0 <= k < rt_tokens(m, at, line).len() ==> #[trigger] ts[j + k]
            == rt_tokens(m, at, line)[k],
    ensures
        spec_parse_form(ts, src, j) == (crate::parser::ParseStep {
            res: Ok::<ValueModel, ReaderError>(m),
            next: j + rt_tokens(m, at, line).len(),
        }),
    decreases m, 0int,
{
    let w = spec_print(m);
    let l = w.len() as int;
    lemma_rt_tokens_first(m, at, line);
    let toks = rt_tokens(m, at, line);
    assert(ts[j + 0] == toks[0]);
    assert(ts[j] == toks[0]);
    match m {
        ValueModel::Number(n) => {
            lemma_nat_to_digits(n as nat);
            let tok = mk_token(TokenType::Number, at, at + l, line);
            assert(ts[j] == tok);
            assert(tok.start as int == at && tok.end as int == at + l);
            assert(src.subrange(tok.start as int, tok.end as int) == w);
            assert(crate::parser::spec_parse_atom(tok, src) == Ok::<ValueModel, ReaderError>(
                ValueModel::Number(n),
            ));
            assert(toks.len() == 1);
        },
        ValueModel::Symbol(t) => {
            let tok = mk_token(TokenType::Identifier, at, at + l, line);
            assert(ts[j] == tok);
            assert(tok.start as int == at && tok.end as int == at + l);
            assert(src.subrange(tok.start as int, tok.end as int) == t);
            assert(crate::parser::spec_parse_atom(tok, src) == Ok::<ValueModel, ReaderError>(
                ValueModel::Symbol(t),
            ));
            assert(toks.len() == 1);
        },
        ValueModel::Keyword(k) => {
            let tok = mk_token(k, at, at + l, line);
            assert(ts[j] == tok);
            assert(crate::parser::spec_parse_atom(tok, src) == Ok::<ValueModel, ReaderError>(
                ValueModel::Keyword(k),
            ));
            assert(toks.len() == 1);
        },
        ValueModel::List(xs) => {
            reveal_strlit("(");
            reveal_strlit(")");
            let sp = spec_print_spaced(xs);
            let sl = sp.len() as int;
            assert(l == 1 + sl + 1);
            assert(forall|k: int| 0 <= k < l ==> #[trigger] w[k] == src.subrange(at, at + l)[k]);
            assert(forall|k: int| 0 <= k < sl ==> w[1 + k] == #[trigger] sp[k]);
            assert(src.subrange(at + 1, at + 1 + sl) =~= sp);
            let etoks = rt_tokens_elems(xs, at + 1, line);
            let rp = mk_token(TokenType::RightParen, at + l - 1, at + l, line);
            assert(toks =~= seq![mk_token(TokenType::LeftParen, at, at + 1, line)] + etoks + seq![
                rp,
            ]);
            assert(toks.len() == 2 + etoks.len());
            assert(forall|k: int| 0 <= k < etoks.len() ==> #[trigger] etoks[k] == toks[1 + k]);
            assert forall|k: int| 0 <= k < etoks.len() implies #[trigger] ts[j + 1 + k]
                == etoks[k] by {
                assert(ts[j + (1 + k)] == toks[1 + k]);
                assert(j + (1 + k) == j + 1 + k);
            }
            assert(ts[j + (1 + etoks.len() as int)] == toks[1 + etoks.len() as int]);
            assert(toks[1 + etoks.len() as int] == rp);
            assert(ts[j + 1 + etoks.len()] == rp);
            lemma_parse_print_elems(ts, src, xs, j + 1, at + 1, line);
            assert(spec_parse_form(ts, src, j) == (crate::parser::ParseStep {
                res: Ok::<ValueModel, ReaderError>(m),
                next: j + toks.len(),
            }));
        },
        _ => {},
    }
}

/// Parsing the token runs of the elements, followed in the stream by the
/// list's closing paren, yields the elements in order and consumes the
/// paren.
pub proof fn lemma_parse_print_elems(
    ts: Seq<Token>,
    src: Seq<char>,
    xs: Seq<ValueModel>,
    j: int,
    at: int,
    line: int,
)
    requires
        forall|i: int| 0 <= i < xs.len() ==> rt_value(#[trigger] xs[i]),
        0 <= at,
        at + spec_print_spaced(xs).len() <= src.len(),
        at + spec_print_spaced(xs).len() <= usize::MAX,
        0 <= line <= usize::MAX,
        src.subrange(at, at + spec_print_spaced(xs).len()) == spec_print_spaced(xs),
        0 <= j,
        j + rt_tokens_elems(xs, at, line).len() < ts.len(),
        forall|k: int| 0 <= k < rt_tokens_elems(xs, at, line).len() ==> #[trigger] ts[j + k]
            == rt_tokens_elems(xs, at, line)[k],
        ts[j + rt_tokens_elems(xs, at, line).len()].token_type == TokenType::RightParen,
    ensures
        spec_parse_list(ts, src, j) == (crate::parser::ListStep {
            res: Ok::<Seq<ValueModel>, ReaderError>(xs),
            next: j + rt_tokens_elems(xs, at, line).len() + 1,
        }),
    decreases xs, 1int,
{
    let sp = spec_print_spaced(xs);
    let sl = sp.len() as int;
    let etoks = rt_tokens_elems(xs, at, line);
    if xs.len() == 0 {
        assert(etoks.len() == 0);
        assert(ts[j].token_type == TokenType::RightParen);
        assert(xs =~= Seq::<ValueModel>::empty());
    } else {
        let x0 = xs[0];
        assert(rt_value(x0));
        lemma_rt_tokens_first(x0, at, line);
        let toks0 = rt_tokens(x0, at, line);
        let n0 = toks0.len() as int;
        let w0 = spec_print(x0);
        let l0 = w0.len() as int;
        if xs.len() == 1 {
            assert(etoks == toks0);
            assert(sp == w0);
            assert(ts[j + 0] == toks0[0]);
            assert(ts[j].token_type != TokenType::EOF && ts[j].token_type
                != TokenType::RightParen);
            lemma_parse_print(ts, src, x0, j, at, line);
            let st = spec_parse_form(ts, src, j);
            assert(st.next == j + n0);
            assert(j < st.next <= ts.len());
            assert(ts[j + n0].token_type == TokenType::RightParen);
            assert(spec_parse_list(ts, src, j + n0) == (crate::parser::ListStep {
                res: Ok::<Seq<ValueModel>, ReaderError>(Seq::empty()),
                next: j + n0 + 1,
            }));
            assert(seq![x0] + Seq::<ValueModel>::empty() =~= xs);
        } else {
            reveal_strlit(" ");
            let rest = xs.drop_first();
            let spr = spec_print_spaced(rest);
            let slr = spr.len() as int;
            assert(sp == w0 + " "@ + spr);
            assert(sl == l0 + 1 + slr);
            assert(forall|k: int| 0 <= k < sl ==> #[trigger] sp[k] == src.subrange(
                at,
                at + sl,
            )[k]);
            assert(forall|k: int| 0 <= k < l0 ==> sp[k] == #[trigger] w0[k]);
            assert(forall|k: int| 0 <= k < slr ==> sp[l0 + 1 + k] == #[trigger] spr[k]);
            assert(src.subrange(at, at + l0) =~= w0);
            assert(src.subrange(at + l0 + 1, at + l0 + 1 + slr) =~= spr);
            let rtoks = rt_tokens_elems(rest, at + l0 + 1, line);
            assert(etoks == toks0 + rtoks);
            assert(forall|k: int| 0 <= k < n0 ==> #[trigger] toks0[k] == etoks[k]);
            assert(forall|k: int| 0 <= k < n0 ==> #[trigger] ts[j + k] == toks0[k]);
            assert(forall|k: int| 0 <= k < rtoks.len() ==> #[trigger] rtoks[k] == etoks[n0 + k]);
            assert forall|k: int| 0 <= k < rtoks.len() implies #[trigger] ts[j + n0 + k]
                == rtoks[k] by {
                assert(ts[j + (n0 + k)] == etoks[n0 + k]);
                assert(j + (n0 + k) == j + n0 + k);
            }
            assert(ts[j + 0] == toks0[0]);
            assert(ts[j].token_type != TokenType::EOF && ts[j].token_type
                != TokenType::RightParen);
            lemma_parse_print(ts, src, x0, j, at, line);
            let st = spec_parse_form(ts, src, j);
            assert(st.next == j + n0);
            assert(j < st.next <= ts.len());
            assert(forall|i: int| 0 <= i < rest.len() ==> rt_value(#[trigger] rest[i])) by {
                assert(forall|i: int| 0 <= i < rest.len() ==> rest[i] == xs[i + 1]);
            }
            lemma_parse_print_elems(ts, src, rest, j + n0, at + l0 + 1, line);
            assert(seq![x0] + rest =~= xs);
        }
    }
}

/// Printing a round-trippable value and reading the text back yields the
/// value again: structure, order and element count are preserved. The one
/// proviso is a machine limit: the printed text fits in the address space,
/// so that token spans are exact.
pub proof fn lemma_print_parse_round_trip(m: ValueModel)
    requires
        rt_value(m),
        spec_print(m).len() < usize::MAX,
    ensures
        crate::spec_read(spec_print(m)) == Ok::<ValueModel, ReaderError>(m),
{
    let s = spec_print(m);
    let l = s.len() as int;
    assert(s.subrange(0, l) =~= s);
    lemma_lex_print(s, m, 0, 1);
    let eofq = Cursor { i: l, line: 1 };
    assert(at_end(s, l));
    let eof_tok = mk_token(TokenType::EOF, l, l, 1);
    assert(spec_next(s, eofq) == (LexStep {
        res: Ok::<Token, ReaderError>(eof_tok),
        i: l,
        line: 1,
        start: l,
    }));
    assert(spec_tokens_from(s, eofq) == Ok::<Seq<Token>, ReaderError>(seq![eof_tok]));
    lemma_lex_seq_tokens_from(s, Cursor { i: 0, line: 1 }, rt_tokens(m, 0, 1), eofq, seq![
        eof_tok,
    ]);
    let toks = rt_tokens(m, 0, 1);
    let ts = toks + seq![eof_tok];
    assert(spec_tokenize(s) == Ok::<Seq<Token>, ReaderError>(ts));
    assert(forall|k: int| 0 <= k < toks.len() ==> #[trigger] ts[0 + k] == toks[k]);
    lemma_parse_print(ts, s, m, 0, 0, 1);
}

/// Every character of a maximal alphanumeric run is alphanumeric.
pub proof fn lemma_run_alnum_chars(s: Seq<char>, i: int)
    ensures
        forall|k: int| i <= k < spec_run_alnum(s, i) ==> is_alphanumeric(#[trigger] s[k]),
    decreases s.len() - i,
{
    if 0 <= i < s.len() && is_alphanumeric(s[i]) {
        lemma_run_alnum_chars(s, i + 1);
    }
}

/// Whether every identifier token of a stream covers round-trippable
/// symbol text in `src`.
pub open spec fn idents_sound(ts: Seq<Token>, src: Seq<char>) -> bool {
    forall|k: int| 0 <= k < ts.len() && (#[trigger] ts[k]).token_type == TokenType::Identifier
        ==> rt_symbol(src.subrange(ts[k].start as int, ts[k].end as int))
}

/// An identifier token produced by one step of the lexer covers
/// round-trippable symbol text: nonempty, an alphabetic non-whitespace
/// start, alphanumeric throughout, and no keyword.
pub proof fn lemma_next_identifier_sound(s: Seq<char>, p: Cursor)
    requires
        0 <= p.i <= s.len(),
        s.len() < usize::MAX,
    ensures
        (match spec_next(s, p).res {
            Ok(t) => t.token_type == TokenType::Identifier ==> rt_symbol(
                s.subrange(t.start as int, t.end as int),
            ),
            Err(_) => true,
        }),
{
    if !at_end(s, p.i) {
        crate::lexer::lemma_skip_ws_bounds(s, p);
        let q = spec_skip_ws(s, p);
        if q.i < s.len() {
            let c = s[q.i];
            if single_kind(c) is None && c != '"' && c != ';' && !is_ascii_digit(c)
                && is_alphabetic(c) {
                crate::lexer::lemma_run_alnum_bounds(s, q.i + 1);
                lemma_run_alnum_chars(s, q.i + 1);
                let e = spec_run_alnum(s, q.i + 1);
                let sub = s.subrange(q.i, e);
                if crate::lexer::keyword_kind(sub) == TokenType::Identifier {
                    assert(sub.len() >= 1);
                    assert(sub[0] == c);
                    assert forall|i: int| 0 <= i < sub.len() implies is_alphanumeric(
                        #[trigger] sub[i],
                    ) by {
                        if i > 0 {
                            assert(sub[i] == s[q.i + i]);
                        }
                    }
                    assert(rt_symbol(sub));
                    let t = mk_token(TokenType::Identifier, q.i, e, q.line);
                    assert(t.start as int == q.i && t.end as int == e);
                }
            }
        }
    }
}

/// Every identifier token of a successful scan covers round-trippable
/// symbol text.
pub proof fn lemma_tokens_idents_sound(s: Seq<char>, p: Cursor)
    requires
        0 <= p.i <= s.len(),
        s.len() < usize::MAX,
    ensures
        (match spec_tokens_from(s, p) {
            Ok(ts) => idents_sound(ts, s),
            Err(_) => true,
        }),
    decreases s.len() - p.i,
{
    crate::lexer::lemma_spec_next_advances(s, p);
    lemma_next_identifier_sound(s, p);
    let st = spec_next(s, p);
    match st.res {
        Ok(t) => {
            if t.token_type != TokenType::EOF {
                lemma_tokens_idents_sound(s, Cursor { i: st.i, line: st.line });
                match spec_tokens_from(s, Cursor { i: st.i, line: st.line }) {
                    Ok(rest) => {
                        let whole = seq![t] + rest;
                        assert forall|k: int|
                            0 <= k < whole.len() && (#[trigger] whole[k]).token_type
                                == TokenType::Identifier implies rt_symbol(
                            s.subrange(whole[k].start as int, whole[k].end as int),
                        ) by {
                            if k > 0 {
                                assert(whole[k] == rest[k - 1]);
                            }
                        }
                    },
                    Err(_) => {},
                }
            } else {
                assert forall|k: int|
                    0 <= k < seq![t].len() && (#[trigger] seq![t][k]).token_type
                        == TokenType::Identifier implies rt_symbol(
                    s.subrange(seq![t][k].start as int, seq![t][k].end as int),
                ) by {
                    assert(seq![t][k] == t);
                }
            }
        },
        Err(_) => {},
    }
}

/// The value shapes the grammar reaches with round-trippable keyword
/// atoms: numbers, symbols, such keywords, and lists of these.
pub open spec fn fragment(m: ValueModel) -> bool
    decreases m,
{
    match m {
        ValueModel::Number(_) => true,
        ValueModel::Symbol(_) => true,
        ValueModel::Keyword(k) => rt_keyword(k),
        ValueModel::List(xs) => forall|i: int| 0 <= i < xs.len() ==> fragment(#[trigger] xs[i]),
        _ => false,
    }
}

/// A parsed value in the fragment, read from a stream whose identifier
/// tokens are sound, is round-trippable.
pub proof fn lemma_parse_fragment_rt(ts: Seq<Token>, src: Seq<char>, j: int)
    requires
        idents_sound(ts, src),
    ensures
        (match spec_parse_form(ts, src, j).res {
            Ok(m) => fragment(m) ==> rt_value(m),
            Err(_) => true,
        }),
    decreases ts.len() - j, 0int,
{
    if 0 <= j < ts.len() && ts[j].token_type != TokenType::EOF {
        if ts[j].token_type == TokenType::LeftParen {
            lemma_parse_list_fragment_rt(ts, src, j + 1);
        }
    }
}

/// Parsed list elements in the fragment, read from a stream whose
/// identifier tokens are sound, are round-trippable.
pub proof fn lemma_parse_list_fragment_rt(ts: Seq<Token>, src: Seq<char>, j: int)
    requires
        idents_sound(ts, src),
    ensures
        (match spec_parse_list(ts, src, j).res {
            Ok(vs) => (forall|i: int| 0 <= i < vs.len() ==> fragment(#[trigger] vs[i]))
                ==> (forall|i: int| 0 <= i < vs.len() ==> rt_value(#[trigger] vs[i])),
            Err(_) => true,
        }),
    decreases ts.len() - j, 1int,
{
    if 0 <= j < ts.len() && ts[j].token_type != TokenType::EOF && ts[j].token_type
        != TokenType::RightParen {
        crate::parser::lemma_parse_form_bounds(ts, src, j);
        lemma_parse_fragment_rt(ts, src, j);
        let st = spec_parse_form(ts, src, j);
        match st.res {
            Ok(v) => {
                let j2 = if j < st.next <= ts.len() {
                    st.next
                } else {
                    j + 1
                };
                lemma_parse_list_fragment_rt(ts, src, j2);
                let rest = spec_parse_list(ts, src, j2);
                match rest.res {
                    Ok(vs) => {
                        let whole = seq![v] + vs;
                        if forall|i: int| 0 <= i < whole.len() ==> fragment(
                            #[trigger] whole[i],
                        ) {
                            assert(fragment(whole[0]));
                            assert(fragment(v));
                            assert forall|i: int| 0 <= i < vs.len() implies fragment(
                                #[trigger] vs[i],
                            ) by {
                                assert(vs[i] == whole[i + 1]);
                            }
                            assert forall|i: int| 0 <= i < whole.len() implies rt_value(
                                #[trigger] whole[i],
                            ) by {
                                if i > 0 {
                                    assert(whole[i] == vs[i - 1]);
                                }
                            }
                        }
                    },
                    Err(_) => {},
                }
            },
            Err(_) => {},
        }
    }
}

/// Reading any source text whose value lies in the grammar's fragment,
/// printing that value, and reading the printed text yields the same value:
/// printing normalizes the spacing but preserves structure, order and
/// element count. The provisos are machine limits: both texts fit in the
/// address space.
pub proof fn lemma_read_print_read(s: Seq<char>, m: ValueModel)
    requires
        s.len() < usize::MAX,
        spec_print(m).len() < usize::MAX,
        crate::spec_read(s) == Ok::<ValueModel, ReaderError>(m),
        fragment(m),
    ensures
        rt_value(m),
        crate::spec_read(spec_print(m)) == Ok::<ValueModel, ReaderError>(m),
{
    match spec_tokenize(s) {
        Ok(ts) => {
            lemma_tokens_idents_sound(s, Cursor { i: 0, line: 1 });
            lemma_parse_fragment_rt(ts, s, 0);
        },
        Err(_) => {
            assert(false);
        },
    }
    lemma_print_parse_round_trip(m);
}

} // verus!
