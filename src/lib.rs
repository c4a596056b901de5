//! Evaluation of integer arithmetic expressions: a character source, a lazy
//! tokenizer, a recursive-descent parser with one token of lookahead, an
//! expression tree and its evaluator.

pub mod error;
pub mod token;
pub mod eval_expression;
pub mod evaluator;
pub mod reader;
pub mod lexer;
pub mod grammar;
pub mod parser;
pub mod pipeline;
pub mod precedence;
pub mod completeness;
