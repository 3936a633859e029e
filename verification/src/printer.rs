//! The printer: serializes a value tree to its canonical text.
//!
//! Printing is total: every variant has a defined textual form. Lists print
//! their elements separated by single spaces with no trailing space; the
//! reserved vector and mapping forms print their parts with no separator.

use vstd::prelude::*;
use vstd::string::StrSliceExecFns;
use crate::chars::chars_to_string;
use crate::numeral::{nat_to_digits, write_u64};
use crate::token::TokenType;
use crate::types::{MapEntry, Value, ValueModel};

verus! {

/// The text of a token kind: the character of a punctuation kind, the word
/// of a keyword kind, and the kind's bare name otherwise.
pub open spec fn token_kind_text(k: TokenType) -> Seq<char> {
    match k {
        TokenType::LeftParen => "("@,
        TokenType::RightParen => ")"@,
        TokenType::LeftBrace => "{"@,
        TokenType::RightBrace => "}"@,
        TokenType::LeftBracket => "["@,
        TokenType::RightBracket => "]"@,
        TokenType::Comma => ","@,
        TokenType::Dot => "."@,
        TokenType::Minus => "-"@,
        TokenType::Plus => "+"@,
        TokenType::Semicolon => ";"@,
        TokenType::Star => "*"@,
        TokenType::Equal => "="@,
        TokenType::Tilde => "~"@,
        TokenType::AtSign => "@"@,
        TokenType::Backtick => "`"@,
        TokenType::SingleQuote => "'"@,
        TokenType::Slash => "/"@,
        TokenType::Let => "let"@,
        TokenType::Fn => "fn"@,
        TokenType::Quote => "quote"@,
        TokenType::Quasiquote => "quasiquote"@,
        TokenType::Unquote => "unquote"@,
        TokenType::UnquoteSplicing => "unquote-splicing"@,
        TokenType::Number => "Number"@,
        TokenType::String => "String"@,
        TokenType::Identifier => "Identifier"@,
        TokenType::EOF => "EOF"@,
        TokenType::Error => "Error"@,
    }
}

/// The canonical text of a value.
pub open spec fn spec_print(m: ValueModel) -> Seq<char>
    decreases m,
{
    match m {
        ValueModel::Number(n) => nat_to_digits(n as nat),
        ValueModel::String(s) => s,
        ValueModel::Boolean(b) => if b {
            "true"@
        } else {
            "false"@
        },
        ValueModel::List(xs) => "("@ + spec_print_spaced(xs) + ")"@,
        ValueModel::Vec(xs) => "["@ + spec_print_concat(xs) + "]"@,
        ValueModel::Mapping(ps) => "{"@ + spec_print_pairs(ps) + "}"@,
        ValueModel::Symbol(s) => s,
        ValueModel::Keyword(k) => token_kind_text(k),
        ValueModel::Null => "null"@,
        ValueModel::Error(s) => s,
    }
}

/// The texts of `xs`, separated by single spaces.
pub open spec fn spec_print_spaced(xs: Seq<ValueModel>) -> Seq<char>
    decreases xs,
{
    if xs.len() == 0 {
        Seq::empty()
    } else if xs.len() == 1 {
        spec_print(xs[0])
    } else {
        spec_print(xs[0]) + " "@ + spec_print_spaced(xs.drop_first())
    }
}

/// The texts of `xs`, concatenated with no separator.
pub open spec fn spec_print_concat(xs: Seq<ValueModel>) -> Seq<char>
    decreases xs,
{
    if xs.len() == 0 {
        Seq::empty()
    } else {
        spec_print(xs[0]) + spec_print_concat(xs.drop_first())
    }
}

/// The texts of the pairs of `ps`, each as `key:value`, concatenated with no
/// separator.
pub open spec fn spec_print_pairs(ps: Seq<(Seq<char>, ValueModel)>) -> Seq<char>
    decreases ps,
{
    if ps.len() == 0 {
        Seq::empty()
    } else {
        ps[0].0 + ":"@ + spec_print(ps[0].1) + spec_print_pairs(ps.drop_first())
    }
}

/// Appending one element: the separator comes before it exactly when it is
/// not the first.
pub proof fn lemma_spaced_push(xs: Seq<ValueModel>, x: ValueModel)
    ensures
        spec_print_spaced(xs.push(x)) == if xs.len() == 0 {
            spec_print(x)
        } else {
            spec_print_spaced(xs) + " "@ + spec_print(x)
        },
    decreases xs,
{
    let whole = xs.push(x);
    if xs.len() == 0 {
        assert(whole.len() == 1);
        assert(whole[0] == x);
    } else {
        assert(whole[0] == xs[0]);
        assert(whole.drop_first() =~= xs.drop_first().push(x));
        lemma_spaced_push(xs.drop_first(), x);
        if xs.len() == 1 {
            assert(xs.drop_first().len() == 0);
            assert(spec_print_spaced(whole) == spec_print(xs[0]) + " "@ + spec_print(x));
            assert(spec_print_spaced(xs) == spec_print(xs[0]));
        } else {
            assert(spec_print(whole[0]) + " "@ + (spec_print_spaced(xs.drop_first()) + " "@
                + spec_print(x)) =~= (spec_print(xs[0]) + " "@ + spec_print_spaced(
                xs.drop_first(),
            )) + " "@ + spec_print(x));
        }
    }
}

/// Appending one element appends its text.
pub proof fn lemma_concat_push(xs: Seq<ValueModel>, x: ValueModel)
    ensures
        spec_print_concat(xs.push(x)) == spec_print_concat(xs) + spec_print(x),
    decreases xs,
{
    let whole = xs.push(x);
    if xs.len() == 0 {
        assert(whole.drop_first() =~= Seq::<ValueModel>::empty());
        assert(whole[0] == x);
        assert(spec_print_concat(Seq::<ValueModel>::empty()) == Seq::<char>::empty());
        assert(spec_print_concat(whole) =~= spec_print(x));
        assert(spec_print_concat(xs) + spec_print(x) =~= spec_print(x));
    } else {
        assert(whole[0] == xs[0]);
        assert(whole.drop_first() =~= xs.drop_first().push(x));
        lemma_concat_push(xs.drop_first(), x);
        assert(spec_print(whole[0]) + (spec_print_concat(xs.drop_first()) + spec_print(x)) =~= (
        spec_print(xs[0]) + spec_print_concat(xs.drop_first())) + spec_print(x));
    }
}

/// Appending one pair appends its `key:value` text.
pub proof fn lemma_pairs_push(ps: Seq<(Seq<char>, ValueModel)>, p: (Seq<char>, ValueModel))
    ensures
        spec_print_pairs(ps.push(p)) == spec_print_pairs(ps) + p.0 + ":"@ + spec_print(p.1),
    decreases ps,
{
    let whole = ps.push(p);
    if ps.len() == 0 {
        assert(whole.drop_first() =~= Seq::<(Seq<char>, ValueModel)>::empty());
        assert(whole[0] == p);
        assert(spec_print_pairs(Seq::<(Seq<char>, ValueModel)>::empty()) == Seq::<char>::empty());
        assert(spec_print_pairs(whole) =~= p.0 + ":"@ + spec_print(p.1));
        assert(spec_print_pairs(ps) + p.0 + ":"@ + spec_print(p.1) =~= p.0 + ":"@ + spec_print(
            p.1,
        ));
    } else {
        assert(whole[0] == ps[0]);
        assert(whole.drop_first() =~= ps.drop_first().push(p));
        lemma_pairs_push(ps.drop_first(), p);
        assert(whole[0].0 + ":"@ + spec_print(whole[0].1) + (spec_print_pairs(ps.drop_first())
            + p.0 + ":"@ + spec_print(p.1)) =~= (ps[0].0 + ":"@ + spec_print(ps[0].1)
            + spec_print_pairs(ps.drop_first())) + p.0 + ":"@ + spec_print(p.1));
    }
}

/// Appends the characters of `s` to `out`.
pub fn push_str(out: &mut Vec<char>, s: &str)
    ensures
        final(out)@ == old(out)@ + s@,
{
    let n = s.unicode_len();
    let mut i: usize = 0;
    while i < n
        invariant
            n == s@.len(),
            i <= n,
            out@ == old(out)@ + s@.subrange(0, i as int),
        decreases n - i,
    {
        out.push(s.get_char(i));
        i = i + 1;
        proof {
            assert(old(out)@ + s@.subrange(0, i - 1) + seq![s@[i - 1]] =~= old(out)@
                + s@.subrange(0, i as int));
        }
    }
    proof {
        assert(old(out)@ + s@.subrange(0, n as int) =~= old(out)@ + s@);
    }
}

/// Appends the canonical text of `v` to `out`.
#[verifier::loop_isolation(false)]
pub fn write_value(v: &Value, out: &mut Vec<char>)
    ensures
        final(out)@ == old(out)@ + spec_print(v@),
    decreases v,
{
    broadcast use vstd::std_specs::vec::group_vec_axioms;

    match v {
        Value::Number(n) => {
            write_u64(*n, out);
        },
        Value::String(s) => {
            push_str(out, s.as_str());
        },
        Value::Boolean(b) => {
            if *b {
                push_str(out, "true");
            } else {
                push_str(out, "false");
            }
        },
        Value::List(xs) => {
            push_str(out, "(");
            let ghost base = out@;
            let mut i: usize = 0;
            while i < xs.len()
                invariant
                    i <= xs@.len(),
                    out@ == base + spec_print_spaced(crate::types::view_seq(xs@.subrange(0, i as int))),
                    forall|k: int| 0 <= k < xs@.len() ==> xs@[k] == #[trigger] xs@.subrange(
                        0,
                        xs@.len() as int,
                    )[k],
                decreases xs@.len() - i,
            {
                if i > 0 {
                    push_str(out, " ");
                }
                proof {
                    assert(decreases_to!(*xs => xs@[i as int]));
                }
                write_value(&xs[i], out);
                proof {
                    let pre = xs@.subrange(0, i as int);
                    crate::types::lemma_view_seq(pre);
                    crate::types::lemma_view_seq_push(pre, xs@[i as int]);
                    assert(xs@.subrange(0, i + 1) =~= pre.push(xs@[i as int]));
                    lemma_spaced_push(crate::types::view_seq(pre), xs@[i as int]@);
                    crate::types::lemma_view_seq(pre);
                    if i > 0 {
                        assert(base + spec_print_spaced(crate::types::view_seq(pre)) + " "@
                            + spec_print(xs@[i as int]@) =~= base + (spec_print_spaced(
                            crate::types::view_seq(pre),
                        ) + " "@ + spec_print(xs@[i as int]@)));
                    } else {
                        assert(crate::types::view_seq(pre).len() == 0);
                        assert(base + spec_print(xs@[i as int]@) =~= base + (Seq::<char>::empty()
                            + spec_print(xs@[i as int]@)));
                    }
                }
                i = i + 1;
            }
            proof {
                assert(xs@.subrange(0, xs@.len() as int) =~= xs@);
            }
            push_str(out, ")");
            proof {
                assert(old(out)@ + "("@ + spec_print_spaced(crate::types::view_seq(xs@)) + ")"@
                    =~= old(out)@ + ("("@ + spec_print_spaced(crate::types::view_seq(xs@))
                    + ")"@));
            }
        },
        Value::Vec(xs) => {
            push_str(out, "[");
            let ghost base = out@;
            let mut i: usize = 0;
            while i < xs.len()
                invariant
                    i <= xs@.len(),
                    out@ == base + spec_print_concat(crate::types::view_seq(xs@.subrange(0, i as int))),
                decreases xs@.len() - i,
            {
                proof {
                    assert(decreases_to!(*xs => xs@[i as int]));
                }
                write_value(&xs[i], out);
                proof {
                    let pre = xs@.subrange(0, i as int);
                    crate::types::lemma_view_seq_push(pre, xs@[i as int]);
                    assert(xs@.subrange(0, i + 1) =~= pre.push(xs@[i as int]));
                    lemma_concat_push(crate::types::view_seq(pre), xs@[i as int]@);
                    assert(base + spec_print_concat(crate::types::view_seq(pre)) + spec_print(
                        xs@[i as int]@,
                    ) =~= base + (spec_print_concat(crate::types::view_seq(pre)) + spec_print(
                        xs@[i as int]@,
                    )));
                }
                i = i + 1;
            }
            proof {
                assert(xs@.subrange(0, xs@.len() as int) =~= xs@);
            }
            push_str(out, "]");
            proof {
                assert(old(out)@ + "["@ + spec_print_concat(crate::types::view_seq(xs@)) + "]"@
                    =~= old(out)@ + ("["@ + spec_print_concat(crate::types::view_seq(xs@))
                    + "]"@));
            }
        },
        Value::Mapping(ps) => {
            push_str(out, "{");
            let ghost base = out@;
            let mut i: usize = 0;
            while i < ps.len()
                invariant
                    i <= ps@.len(),
                    out@ == base + spec_print_pairs(
                        crate::types::view_pairs(ps@.subrange(0, i as int)),
                    ),
                decreases ps@.len() - i,
            {
                push_str(out, ps[i].key.as_str());
                push_str(out, ":");
                proof {
                    assert(decreases_to!(*ps => ps@[i as int]));
                    assert(decreases_to!(ps@[i as int] => ps@[i as int].value));
                }
                write_value(&ps[i].value, out);
                proof {
                    let pre = ps@.subrange(0, i as int);
                    lemma_view_pairs_push(pre, ps@[i as int]);
                    assert(ps@.subrange(0, i + 1) =~= pre.push(ps@[i as int]));
                    lemma_pairs_push(
                        crate::types::view_pairs(pre),
                        (ps@[i as int].key@, ps@[i as int].value@),
                    );
                    assert(base + spec_print_pairs(crate::types::view_pairs(pre))
                        + ps@[i as int].key@ + ":"@ + spec_print(ps@[i as int].value@) =~= base + (
                    spec_print_pairs(crate::types::view_pairs(pre)) + ps@[i as int].key@ + ":"@
                        + spec_print(ps@[i as int].value@)));
                }
                i = i + 1;
            }
            proof {
                assert(ps@.subrange(0, ps@.len() as int) =~= ps@);
            }
            push_str(out, "}");
            proof {
                assert(old(out)@ + "{"@ + spec_print_pairs(crate::types::view_pairs(ps@)) + "}"@
                    =~= old(out)@ + ("{"@ + spec_print_pairs(crate::types::view_pairs(ps@))
                    + "}"@));
            }
        },
        Value::Symbol(s) => {
            push_str(out, s.as_str());
        },
        Value::Keyword(k) => {
            match k {
                TokenType::LeftParen => push_str(out, "("),
                TokenType::RightParen => push_str(out, ")"),
                TokenType::LeftBrace => push_str(out, "{"),
                TokenType::RightBrace => push_str(out, "}"),
                TokenType::LeftBracket => push_str(out, "["),
                TokenType::RightBracket => push_str(out, "]"),
                TokenType::Comma => push_str(out, ","),
                TokenType::Dot => push_str(out, "."),
                TokenType::Minus => push_str(out, "-"),
                TokenType::Plus => push_str(out, "+"),
                TokenType::Semicolon => push_str(out, ";"),
                TokenType::Star => push_str(out, "*"),
                TokenType::Equal => push_str(out, "="),
                TokenType::Tilde => push_str(out, "~"),
                TokenType::AtSign => push_str(out, "@"),
                TokenType::Backtick => push_str(out, "`"),
                TokenType::SingleQuote => push_str(out, "'"),
                TokenType::Slash => push_str(out, "/"),
                TokenType::Let => push_str(out, "let"),
                TokenType::Fn => push_str(out, "fn"),
                TokenType::Quote => push_str(out, "quote"),
                TokenType::Quasiquote => push_str(out, "quasiquote"),
                TokenType::Unquote => push_str(out, "unquote"),
                TokenType::UnquoteSplicing => push_str(out, "unquote-splicing"),
                TokenType::Number => push_str(out, "Number"),
                TokenType::String => push_str(out, "String"),
                TokenType::Identifier => push_str(out, "Identifier"),
                TokenType::EOF => push_str(out, "EOF"),
                TokenType::Error => push_str(out, "Error"),
            }
        },
        Value::Null => {
            push_str(out, "null");
        },
        Value::Error(s) => {
            push_str(out, s.as_str());
        },
    }
}

/// Appending one entry appends its pair of models.
pub proof fn lemma_view_pairs_push(s: Seq<MapEntry>, p: MapEntry)
    ensures
        crate::types::view_pairs(s.push(p)) == crate::types::view_pairs(s).push((p.key@, p.value@)),
{
    assert(s.push(p).drop_last() =~= s);
    assert(s.push(p).last() == p);
}

/// The canonical text of `v`: a pure, total serialization with no failure
/// mode.
pub fn format_value(v: &Value) -> (r: String)
    ensures
        r@ == spec_print(v@),
{
    let mut out: Vec<char> = Vec::new();
    write_value(v, &mut out);
    proof {
        assert(Seq::<char>::empty() + spec_print(v@) =~= spec_print(v@));
    }
    chars_to_string(&out)
}

} // verus!
