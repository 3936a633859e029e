//! The tagged value tree that the parser produces and the printer consumes,
//! together with its mathematical model.

use vstd::prelude::*;

verus! {

/// A value of the language: the closed set of variants every other
/// component produces or consumes.
///
/// Numeric literals are unsigned digit sequences, so a number is carried as
/// a `u64`. `Boolean`, `Null`, `Vec` and `Map` are reserved: the grammar
/// does not reach them yet. `Keyword` carries the originating token kind,
/// which lets operators occupy list positions such as the head of
/// `(+ 1 2)`. `Error` is a value-level error carrier, distinct from the
/// typed error channel of the reader.
/// One key-value pair of a `Mapping` value.
#[derive(Debug, PartialEq)]
pub struct MapEntry {
    pub key: String,
    pub value: Value,
}

#[derive(Debug, PartialEq)]
pub enum Value {
    Number(u64),
    String(String),
    Boolean(bool),
    List(Vec<Value>),
    Vec(Vec<Value>),
    Mapping(Vec<MapEntry>),
    Symbol(String),
    Keyword(crate::token::TokenType),
    Null,
    Error(String),
}

/// The mathematical model of a `Value`: the same tree with text as
/// character sequences.
pub enum ValueModel {
    Number(u64),
    String(Seq<char>),
    Boolean(bool),
    List(Seq<ValueModel>),
    Vec(Seq<ValueModel>),
    Mapping(Seq<(Seq<char>, ValueModel)>),
    Symbol(Seq<char>),
    Keyword(crate::token::TokenType),
    Null,
    Error(Seq<char>),
}

/// The models of a sequence of values, in order.
pub open spec fn view_seq(s: Seq<Value>) -> Seq<ValueModel>
    decreases s,
{
    if s.len() == 0 {
        Seq::empty()
    } else {
        view_seq(s.drop_last()).push(s.last()@)
    }
}

/// The models of a sequence of key-value pairs, in order.
pub open spec fn view_pairs(s: Seq<MapEntry>) -> Seq<(Seq<char>, ValueModel)>
    decreases s,
{
    if s.len() == 0 {
        Seq::empty()
    } else {
        view_pairs(s.drop_last()).push((s.last().key@, s.last().value@))
    }
}

impl View for Value {
    type V = ValueModel;

    open spec fn view(&self) -> ValueModel
        decreases self,
    {
        match self {
            Value::Number(n) => ValueModel::Number(*n),
            Value::String(s) => ValueModel::String(s@),
            Value::Boolean(b) => ValueModel::Boolean(*b),
            Value::List(xs) => ValueModel::List(view_seq(xs@)),
            Value::Vec(xs) => ValueModel::Vec(view_seq(xs@)),
            Value::Mapping(ps) => ValueModel::Mapping(view_pairs(ps@)),
            Value::Symbol(s) => ValueModel::Symbol(s@),
            Value::Keyword(k) => ValueModel::Keyword(*k),
            Value::Null => ValueModel::Null,
            Value::Error(s) => ValueModel::Error(s@),
        }
    }
}

/// `view_seq` maps each element to its model, index by index.
pub proof fn lemma_view_seq(s: Seq<Value>)
    ensures
        view_seq(s).len() == s.len(),
        forall|i: int| 0 <= i < s.len() ==> view_seq(s)[i] == #[trigger] s[i]@,
    decreases s.len(),
{
    if s.len() > 0 {
        lemma_view_seq(s.drop_last());
        assert(view_seq(s) == view_seq(s.drop_last()).push(s.last()@));
        assert(view_seq(s.drop_last()).len() == s.drop_last().len());
        assert(view_seq(s).len() == s.len());
        assert forall|i: int| 0 <= i < s.len() implies view_seq(s)[i] == #[trigger] s[i]@ by {
            if i < s.len() - 1 {
                assert(s.drop_last()[i] == s[i]);
                assert(view_seq(s)[i] == view_seq(s.drop_last())[i]);
            } else {
                assert(s.last() == s[i]);
            }
        }
    }
}

/// Appending one value to a sequence appends its model.
pub proof fn lemma_view_seq_push(s: Seq<Value>, v: Value)
    ensures
        view_seq(s.push(v)) == view_seq(s).push(v@),
{
    assert(s.push(v).drop_last() =~= s);
    assert(s.push(v).last() == v);
}

} // verus!
