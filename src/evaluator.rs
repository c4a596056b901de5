//! The value of an expression tree, with checked `i32` arithmetic.

use vstd::prelude::*;

use crate::error::EvalError;
use crate::eval_expression::{EvalExpression, Operator};

verus! {

/// `|x|`.
pub open spec fn abs(x: int) -> int {
    if x < 0 { -x } else { x }
}

/// Integer division truncating toward zero, as the machine's `/` does.
pub open spec fn trunc_div(a: int, b: int) -> int
    recommends
        b != 0,
{
    let q = abs(a) / abs(b);
    if (a < 0) == (b < 0) { q } else { -q }
}

/// `x` as an `i32`, or `Overflow` where it does not fit.
pub open spec fn in_i32(x: int) -> Result<i32, EvalError> {
    if i32::MIN <= x <= i32::MAX {
        Ok(x as i32)
    } else {
        Err(EvalError::Overflow)
    }
}

/// The result of applying `op` to the values `a` and `b`.
pub open spec fn apply_operator(op: Operator, a: int, b: int) -> Result<i32, EvalError> {
    match op {
        Operator::Plus => in_i32(a + b),
        Operator::Minus => in_i32(a - b),
        Operator::Times => in_i32(a * b),
        Operator::Div => if b == 0 {
            Err(EvalError::DivisionByZero)
        } else {
            in_i32(trunc_div(a, b))
        },
    }
}

/// The left operand's outcome first, then the right one's, then the operator.
pub open spec fn combine(op: Operator, l: Result<i32, EvalError>, r: Result<i32, EvalError>) -> Result<i32, EvalError> {
    match l {
        Err(e) => Err(e),
        Ok(a) => match r {
            Err(e) => Err(e),
            Ok(b) => apply_operator(op, a as int, b as int),
        },
    }
}

/// The value of an expression tree, or the first failure met while
/// evaluating it left to right.
pub open spec fn value_of(e: EvalExpression) -> Result<i32, EvalError>
    decreases e,
{
    match e {
        EvalExpression::Value(v) => Ok(v),
        EvalExpression::Plus(l, r) => combine(Operator::Plus, value_of(*l), value_of(*r)),
        EvalExpression::Minus(l, r) => combine(Operator::Minus, value_of(*l), value_of(*r)),
        EvalExpression::Times(l, r) => combine(Operator::Times, value_of(*l), value_of(*r)),
        EvalExpression::Div(l, r) => combine(Operator::Div, value_of(*l), value_of(*r)),
    }
}

fn apply(op: Operator, a: i32, b: i32) -> (r: Result<i32, EvalError>)
    ensures
        r == apply_operator(op, a as int, b as int),
{
    let checked = match op {
        Operator::Plus => a.checked_add(b),
        Operator::Minus => a.checked_sub(b),
        Operator::Times => a.checked_mul(b),
        Operator::Div => {
            if b == 0 {
                return Err(EvalError::DivisionByZero);
            }
            a.checked_div(b)
        },
    };
    match checked {
        Some(v) => Ok(v),
        None => Err(EvalError::Overflow),
    }
}

/// Evaluates an expression tree: the left operand before the right one, `/`
/// truncating toward zero.
pub fn evaluate(expr: &EvalExpression) -> (r: Result<i32, EvalError>)
    ensures
        r == value_of(*expr),
    decreases expr,
{
    let (op, left, right) = match expr {
        EvalExpression::Plus(l, r) => (Operator::Plus, l, r),
        EvalExpression::Minus(l, r) => (Operator::Minus, l, r),
        EvalExpression::Times(l, r) => (Operator::Times, l, r),
        EvalExpression::Div(l, r) => (Operator::Div, l, r),
        EvalExpression::Value(v) => return Ok(*v),
    };
    let a = match evaluate(left) {
        Ok(a) => a,
        Err(e) => return Err(e),
    };
    let b = match evaluate(right) {
        Ok(b) => b,
        Err(e) => return Err(e),
    };
    apply(op, a, b)
}

} // verus!
