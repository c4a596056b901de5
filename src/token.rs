//! Tokens, the lexical units of an expression.

use vstd::prelude::*;

verus! {

/// A lexical unit of an arithmetic expression.
#[derive(Clone, Copy, Debug, PartialEq, Eq, Structural)]
pub enum Token {
    Plus,
    Minus,
    Times,
    Div,
    LeftParenthesis,
    RightParenthesis,
    Value(i32),
}

} // verus!
