//! Expression trees and the operators at their inner nodes.

use vstd::prelude::*;

verus! {

/// The four binary operators of the expression language.
#[derive(Clone, Copy, Debug, PartialEq, Eq, Structural)]
pub enum Operator {
    Plus,
    Minus,
    Times,
    Div,
}

/// An expression tree: literals at the leaves, binary operators inside.
/// Each node owns its two children.
#[derive(Debug, PartialEq, Eq)]
pub enum EvalExpression {
    Plus(Box<EvalExpression>, Box<EvalExpression>),
    Minus(Box<EvalExpression>, Box<EvalExpression>),
    Times(Box<EvalExpression>, Box<EvalExpression>),
    Div(Box<EvalExpression>, Box<EvalExpression>),
    Value(i32),
}

/// The tree whose root applies `op` to `left` and `right`.
pub open spec fn binary_node(op: Operator, left: EvalExpression, right: EvalExpression) -> EvalExpression {
    match op {
        Operator::Plus => EvalExpression::Plus(Box::new(left), Box::new(right)),
        Operator::Minus => EvalExpression::Minus(Box::new(left), Box::new(right)),
        Operator::Times => EvalExpression::Times(Box::new(left), Box::new(right)),
        Operator::Div => EvalExpression::Div(Box::new(left), Box::new(right)),
    }
}

impl EvalExpression {
    pub fn value_box(value: i32) -> (r: Box<EvalExpression>)
        ensures
            *r == EvalExpression::Value(value),
    {
        Box::new(EvalExpression::Value(value))
    }

    pub fn plus_box(left: Box<EvalExpression>, right: Box<EvalExpression>) -> (r: Box<EvalExpression>)
        ensures
            *r == EvalExpression::Plus(left, right),
    {
        Box::new(EvalExpression::Plus(left, right))
    }

    pub fn minus_box(left: Box<EvalExpression>, right: Box<EvalExpression>) -> (r: Box<EvalExpression>)
        ensures
            *r == EvalExpression::Minus(left, right),
    {
        Box::new(EvalExpression::Minus(left, right))
    }

    pub fn times_box(left: Box<EvalExpression>, right: Box<EvalExpression>) -> (r: Box<EvalExpression>)
        ensures
            *r == EvalExpression::Times(left, right),
    {
        Box::new(EvalExpression::Times(left, right))
    }

    pub fn div_box(left: Box<EvalExpression>, right: Box<EvalExpression>) -> (r: Box<EvalExpression>)
        ensures
            *r == EvalExpression::Div(left, right),
    {
        Box::new(EvalExpression::Div(left, right))
    }
}

} // verus!
