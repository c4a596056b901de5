//! Text in, value out: reader, tokenizer, parser and evaluator composed.

use vstd::prelude::*;

use crate::error::EvalError;
use crate::evaluator::{evaluate, value_of};
use crate::grammar::parse_tokens;
use crate::lexer::{lex, lexer_impl};
use crate::parser::parse;
use crate::reader::string_reader;

verus! {

/// The value of the expression written in `s`, or the first error met:
/// lexical errors as the parser pulls the tokens, then syntax errors, then
/// errors of evaluation.
pub open spec fn eval_source(s: Seq<char>) -> Result<i32, EvalError> {
    match parse_tokens(lex(s).0, lex(s).1) {
        Err(x) => Err(x),
        Ok(e) => value_of(e),
    }
}

/// Evaluates the expression written in `s`.
pub fn my_eval(s: &str) -> (r: Result<i32, EvalError>)
    ensures
        r == eval_source(s@),
{
    let lexer = lexer_impl(string_reader(s));
    let tree = match parse(lexer.tokens()) {
        Ok(t) => t,
        Err(e) => return Err(e),
    };
    evaluate(&tree)
}

} // verus!
