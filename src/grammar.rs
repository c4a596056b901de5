//! The grammar of expressions, as a recursive-descent parse of a token
//! stream specified position by position.

use vstd::prelude::*;

use crate::error::{EvalError, Expected};
use crate::eval_expression::{binary_node, EvalExpression, Operator};
use crate::token::Token;

verus! {

/// A parse of a rule: the tree built and the number of tokens consumed.
pub type Parsed = Result<(EvalExpression, nat), EvalError>;

/// A parse of a rule's tail: its (operator, operand) pairs, left to right,
/// and the number of tokens consumed.
pub type ParsedPairs = Result<(Seq<(Operator, EvalExpression)>, nat), EvalError>;

/// The tree of a successful parse.
pub open spec fn tree_of(r: Parsed) -> EvalExpression {
    r->Ok_0.0
}

/// The number of tokens that a successful parse consumed.
pub open spec fn consumed(r: Parsed) -> nat {
    r->Ok_0.1
}

/// What pulling at position `p` gives on a stream made of the tokens `ts`
/// followed by `end`: the token, `None` at the end of the input, or the
/// lexical error that stops the stream.
pub open spec fn token_at(ts: Seq<Token>, end: Option<EvalError>, p: nat) -> Result<Option<Token>, EvalError> {
    if p < ts.len() {
        Ok(Some(ts[p as int]))
    } else {
        match end {
            None => Ok(None),
            Some(e) => Err(e),
        }
    }
}

/// The operator of the lower precedence level that a token stands for.
pub open spec fn add_operator(t: Token) -> Option<Operator> {
    match t {
        Token::Plus => Some(Operator::Plus),
        Token::Minus => Some(Operator::Minus),
        _ => None,
    }
}

/// The operator of the higher precedence level that a token stands for.
pub open spec fn mul_operator(t: Token) -> Option<Operator> {
    match t {
        Token::Times => Some(Operator::Times),
        Token::Div => Some(Operator::Div),
        _ => None,
    }
}

/// Combines `left` with each (operator, operand) pair in turn, the tree
/// built so far becoming the left child of the next node.
pub open spec fn fold_pairs(left: EvalExpression, pairs: Seq<(Operator, EvalExpression)>) -> EvalExpression
    decreases pairs.len(),
{
    if pairs.len() == 0 {
        left
    } else {
        fold_pairs(binary_node(pairs[0].0, left, pairs[0].1), pairs.drop_first())
    }
}

/// The number of tokens at or after position `p`.
pub open spec fn left_at(ts: Seq<Token>, p: nat) -> nat {
    if p < ts.len() {
        (ts.len() - p) as nat
    } else {
        0
    }
}

/// `term := <Value> | '(' add ')'`, at position `p`.
pub open spec fn term_rule(ts: Seq<Token>, end: Option<EvalError>, p: nat) -> Parsed
    decreases left_at(ts, p), 0nat,
{
    match token_at(ts, end, p) {
        Err(x) => Err(x),
        Ok(None) => Err(EvalError::UnexpectedEndOfInput),
        Ok(Some(Token::Value(v))) => Ok((EvalExpression::Value(v), 1)),
        Ok(Some(Token::LeftParenthesis)) => match add_rule(ts, end, p + 1) {
            Err(x) => Err(x),
            Ok((e, n)) => match token_at(ts, end, p + 1 + n) {
                Err(x) => Err(x),
                Ok(None) => Err(EvalError::UnexpectedEndOfInput),
                Ok(Some(Token::RightParenthesis)) => Ok((e, n + 2)),
                Ok(Some(t)) => Err(EvalError::UnexpectedToken { expected: Expected::RightParenthesis, actual: t }),
            },
        },
        Ok(Some(t)) => Err(EvalError::UnexpectedToken { expected: Expected::Term, actual: t }),
    }
}

/// `mul' := ε | ('*'|'/') term mul'`, at position `p`.
pub open spec fn mul_pairs(ts: Seq<Token>, end: Option<EvalError>, p: nat) -> ParsedPairs
    decreases left_at(ts, p), 1nat,
{
    match token_at(ts, end, p) {
        Err(x) => Err(x),
        Ok(None) => Ok((Seq::empty(), 0)),
        Ok(Some(t)) => match mul_operator(t) {
            None => Ok((Seq::empty(), 0)),
            Some(op) => match term_rule(ts, end, p + 1) {
                Err(x) => Err(x),
                Ok((operand, n)) => match mul_pairs(ts, end, p + 1 + n) {
                    Err(x) => Err(x),
                    Ok((rest, m)) => Ok((seq![(op, operand)] + rest, 1 + n + m)),
                },
            },
        },
    }
}

/// `mul := term mul'`, the pairs folded to the left, at position `p`.
pub open spec fn mul_rule(ts: Seq<Token>, end: Option<EvalError>, p: nat) -> Parsed
    decreases left_at(ts, p), 2nat,
{
    match term_rule(ts, end, p) {
        Err(x) => Err(x),
        Ok((first, n)) => match mul_pairs(ts, end, p + n) {
            Err(x) => Err(x),
            Ok((pairs, m)) => Ok((fold_pairs(first, pairs), n + m)),
        },
    }
}

/// `add' := ε | ('+'|'-') mul add'`, at position `p`.
pub open spec fn add_pairs(ts: Seq<Token>, end: Option<EvalError>, p: nat) -> ParsedPairs
    decreases left_at(ts, p), 3nat,
{
    match token_at(ts, end, p) {
        Err(x) => Err(x),
        Ok(None) => Ok((Seq::empty(), 0)),
        Ok(Some(t)) => match add_operator(t) {
            None => Ok((Seq::empty(), 0)),
            Some(op) => match mul_rule(ts, end, p + 1) {
                Err(x) => Err(x),
                Ok((operand, n)) => match add_pairs(ts, end, p + 1 + n) {
                    Err(x) => Err(x),
                    Ok((rest, m)) => Ok((seq![(op, operand)] + rest, 1 + n + m)),
                },
            },
        },
    }
}

/// `add := mul add'`, the pairs folded to the left, at position `p`.
pub open spec fn add_rule(ts: Seq<Token>, end: Option<EvalError>, p: nat) -> Parsed
    decreases left_at(ts, p), 4nat,
{
    match mul_rule(ts, end, p) {
        Err(x) => Err(x),
        Ok((first, n)) => match add_pairs(ts, end, p + n) {
            Err(x) => Err(x),
            Ok((pairs, m)) => Ok((fold_pairs(first, pairs), n + m)),
        },
    }
}

/// The tree of a whole token stream: one `add`, then nothing.
pub open spec fn parse_tokens(ts: Seq<Token>, end: Option<EvalError>) -> Result<EvalExpression, EvalError> {
    match add_rule(ts, end, 0) {
        Err(x) => Err(x),
        Ok((e, n)) => match token_at(ts, end, n) {
            Err(x) => Err(x),
            Ok(None) => Ok(e),
            Ok(Some(_)) => Err(EvalError::TrailingTokens),
        },
    }
}

} // verus!
