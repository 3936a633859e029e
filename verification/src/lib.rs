//! A Lisp-style reader: a character-level lexer, a recursive-descent parser
//! producing a tagged value tree, and a canonical printer for that tree.
//!
//! Data flows one way: source text through the lexer into tokens, through
//! the parser into one value per top-level form, and through the printer
//! back to text. The evaluation stage between parsing and printing is an
//! identity placeholder.

pub mod chars;
pub mod error;
pub mod lexer;
pub mod numeral;
pub mod parser;
pub mod printer;
pub mod round_trip;
pub mod token;
pub mod types;

use vstd::prelude::*;
use crate::error::ReaderError;
use crate::lexer::{spec_tokenize, tokenize};
use crate::parser::{parse_result_matches, spec_parse_form, Parser};
use crate::printer::{format_value, spec_print};
use crate::types::{Value, ValueModel};

verus! {

/// What reading one form from source text yields: the first lexing error,
/// or the value of the first top-level form of the token stream.
pub open spec fn spec_read(s: Seq<char>) -> Result<ValueModel, ReaderError> {
    match spec_tokenize(s) {
        Err(e) => Err(e),
        Ok(ts) => spec_parse_form(ts, s, 0).res,
    }
}

/// Reads one top-level form from `input`: tokenize, then parse.
pub fn read(input: &str) -> (r: Result<Value, ReaderError>)
    requires
        input@.len() < usize::MAX,
    ensures
        parse_result_matches(spec_read(input@), r),
{
    let tokens = match tokenize(input) {
        Ok(ts) => ts,
        Err(e) => {
            return Err(e);
        },
    };
    let mut parser = Parser::new(tokens, input);
    parser.parse()
}

/// The evaluation stage: currently the identity function, with no
/// environment, bindings or special forms.
pub fn eval(ast: Value) -> (r: Result<Value, ReaderError>)
    ensures
        r == Ok::<Value, ReaderError>(ast),
{
    Ok(ast)
}

/// Reads one form from `input`, evaluates it, and returns its canonical
/// text. The first reader error aborts the cycle and is returned instead.
pub fn read_eval_print(input: &str) -> (r: Result<String, ReaderError>)
    requires
        input@.len() < usize::MAX,
    ensures
        match spec_read(input@) {
            Ok(m) => r matches Ok(text) && text@ == spec_print(m),
            Err(e) => r == Err::<String, ReaderError>(e),
        },
{
    let ast = match read(input) {
        Ok(v) => v,
        Err(e) => {
            return Err(e);
        },
    };
    let ast = match eval(ast) {
        Ok(v) => v,
        Err(e) => {
            return Err(e);
        },
    };
    Ok(format_value(&ast))
}

} // verus!
