//! The errors that end an evaluation.

use vstd::prelude::*;

use crate::token::Token;

verus! {

/// The token class that the parser required where it found another token.
#[derive(Clone, Copy, Debug, PartialEq, Eq, Structural)]
pub enum Expected {
    /// A literal or an opening parenthesis.
    Term,
    /// The parenthesis that closes a parenthesized sub-expression.
    RightParenthesis,
}

/// The first failure met while evaluating an expression.
#[derive(Clone, Copy, Debug, PartialEq, Eq, Structural)]
pub enum EvalError {
    /// A character that is neither whitespace, a digit, an operator nor a parenthesis.
    UnsupportedCharacter(char),
    /// A token was required but the input was exhausted.
    UnexpectedEndOfInput,
    /// A token of the `expected` class was required and `actual` was found.
    UnexpectedToken { expected: Expected, actual: Token },
    /// A complete expression was parsed but tokens remain.
    TrailingTokens,
    /// The right operand of a division evaluated to zero.
    DivisionByZero,
    /// A literal or an intermediate result does not fit in an `i32`.
    Overflow,
}

} // verus!
