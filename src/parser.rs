//! The recursive-descent parser, pulling tokens with one token of lookahead.

use vstd::prelude::*;

use crate::error::{EvalError, Expected};
use crate::eval_expression::{binary_node, EvalExpression, Operator};
use crate::grammar::{
    add_operator, add_pairs, add_rule, fold_pairs, left_at, mul_operator, mul_pairs, mul_rule,
    parse_tokens, term_rule, token_at, Parsed, ParsedPairs,
};
use crate::lexer::Lexer;
use crate::token::Token;

verus! {

/// One (operator, operand) pair of a rule's tail, and the pairs after it.
struct ReduceResult {
    op: Operator,
    term: Box<EvalExpression>,
    right: Option<Box<ReduceResult>>,
}

/// The pairs of a tail, left to right.
spec fn pairs_of(list: Option<Box<ReduceResult>>) -> Seq<(Operator, EvalExpression)>
    decreases list,
{
    match list {
        None => Seq::empty(),
        Some(node) => seq![(node.op, *node.term)] + pairs_of(node.right),
    }
}

impl ReduceResult {
    fn new_box(op: Operator, term: Box<EvalExpression>, right: Option<Box<ReduceResult>>) -> (r: Box<ReduceResult>)
        ensures
            pairs_of(Some(r)) == seq![(op, *term)] + pairs_of(right),
    {
        Box::new(ReduceResult { op, term, right })
    }
}

/// A token stream with one token of lookahead. The ghost fields record the
/// whole stream (its tokens, then how it ends) and the position reached.
struct TokenStack<L: Lexer> {
    tokens: L,
    head: Option<Token>,
    all: Ghost<Seq<Token>>,
    end: Ghost<Option<EvalError>>,
    pos: Ghost<nat>,
}

impl<L: Lexer> TokenStack<L> {
    /// How many tokens have been pulled from the lexer: those consumed, and
    /// the one in the lookahead if any. So at most one token is pulled ahead
    /// of the parse.
    spec fn pulled(&self) -> nat {
        if self.head is Some {
            self.pos@ + 1
        } else {
            self.pos@
        }
    }

    /// The lookahead and the lexer hold exactly the stream from `pos` on:
    /// each token is pulled once, in order, and the lexer still holds every
    /// token not pulled.
    spec fn wf(&self) -> bool {
        &&& self.pulled() <= self.all@.len()
        &&& self.tokens.upcoming().1 == self.end@
        &&& self.tokens.upcoming().0 == self.all@.skip(self.pulled() as int)
        &&& self.head matches Some(t) ==> self.all@[self.pos@ as int] == t
    }

    /// The same stream, `n` tokens further on.
    spec fn advanced(&self, before: Self, n: nat) -> bool {
        &&& self.wf()
        &&& self.all == before.all
        &&& self.end == before.end
        &&& self.pos@ == before.pos@ + n
    }

    /// What pulling at the current position gives.
    spec fn peek(&self) -> Result<Option<Token>, EvalError> {
        token_at(self.all@, self.end@, self.pos@)
    }

    fn new(tokens: L) -> (r: TokenStack<L>)
        ensures
            r.wf(),
            r.all@ == tokens.upcoming().0,
            r.end@ == tokens.upcoming().1,
            r.pos@ == 0,
    {
        let ghost up = tokens.upcoming();
        let r = TokenStack { tokens, head: None, all: Ghost(up.0), end: Ghost(up.1), pos: Ghost(0) };
        assert(r.all@.skip(0) =~= r.all@);
        r
    }

    /// The next token, left in the lookahead.
    fn head(&mut self) -> (r: Result<Option<Token>, EvalError>)
        requires
            old(self).wf(),
        ensures
            r == old(self).peek(),
            r is Ok ==> final(self).advanced(*old(self), 0),
            r matches Ok(Some(t)) ==> final(self).head == Some(t),
    {
        if self.head.is_none() {
            let ghost before = self.tokens.upcoming();
            match self.tokens.next_token() {
                Ok(t) => {
                    self.head = t;
                    if t.is_some() {
                        assert(self.all@.skip(self.pos@ + 1int) =~= before.0.drop_first());
                    }
                },
                Err(e) => return Err(e),
            }
        }
        Ok(self.head)
    }

    /// The next token, taken out of the stream.
    fn pop(&mut self) -> (r: Result<Option<Token>, EvalError>)
        requires
            old(self).wf(),
        ensures
            r == old(self).peek(),
            r matches Ok(Some(_)) ==> final(self).advanced(*old(self), 1) && final(self).head is None,
            r matches Ok(None) ==> final(self).advanced(*old(self), 0),
    {
        let result = self.head();
        if let Ok(Some(_)) = result {
            self.head = None;
            proof {
                self.pos@ = self.pos@ + 1;
            }
        }
        result
    }
}

/// `r` is the outcome `expected` of a rule, and the stack moved past the
/// tokens that the rule consumed.
spec fn parsed_as<L: Lexer>(
    r: Result<Box<EvalExpression>, EvalError>,
    expected: Parsed,
    before: TokenStack<L>,
    after: TokenStack<L>,
) -> bool {
    match expected {
        Ok((e, n)) => r matches Ok(b) && *b == e && after.advanced(before, n),
        Err(x) => r == Err::<Box<EvalExpression>, EvalError>(x),
    }
}

/// `r` is the outcome `expected` of a rule's tail, and the stack moved past
/// the tokens that the tail consumed.
spec fn pairs_parsed_as<L: Lexer>(
    r: Result<Option<Box<ReduceResult>>, EvalError>,
    expected: ParsedPairs,
    before: TokenStack<L>,
    after: TokenStack<L>,
) -> bool {
    match expected {
        Ok((ps, n)) => r matches Ok(list) && pairs_of(list) == ps && after.advanced(before, n),
        Err(x) => r == Err::<Option<Box<ReduceResult>>, EvalError>(x),
    }
}

fn reduce_to_eval_expression(op: Operator, left: Box<EvalExpression>, right: Box<EvalExpression>) -> (r: Box<EvalExpression>)
    ensures
        *r == binary_node(op, *left, *right),
{
    match op {
        Operator::Plus => EvalExpression::plus_box(left, right),
        Operator::Minus => EvalExpression::minus_box(left, right),
        Operator::Times => EvalExpression::times_box(left, right),
        Operator::Div => EvalExpression::div_box(left, right),
    }
}

/// Folds the pairs onto `first`, left to right: `a - b - c` becomes
/// `(a - b) - c`.
fn reduce_left(first: Box<EvalExpression>, pairs: Option<Box<ReduceResult>>) -> (r: Box<EvalExpression>)
    ensures
        *r == fold_pairs(*first, pairs_of(pairs)),
{
    let mut left = first;
    let mut right = pairs;
    loop
        invariant
            fold_pairs(*left, pairs_of(right)) == fold_pairs(*first, pairs_of(pairs)),
        decreases pairs_of(right).len(),
    {
        match right {
            Some(node) => {
                let ReduceResult { op, term, right: rest } = *node;
                assert(pairs_of(rest) =~= pairs_of(Some(node)).drop_first());
                left = reduce_to_eval_expression(op, left, term);
                right = rest;
            },
            None => return left,
        }
    }
}

fn parse_add<L: Lexer>(stack: &mut TokenStack<L>) -> (r: Result<Box<EvalExpression>, EvalError>)
    requires
        old(stack).wf(),
    ensures
        parsed_as(r, add_rule(old(stack).all@, old(stack).end@, old(stack).pos@), *old(stack), *final(stack)),
        // every token pulled so far came out of the lexer once, in order, and
        // at most the one token after the parsed ones is held in the lookahead
        r is Ok ==> final(stack).pulled() <= final(stack).pos@ + 1
            && final(stack).tokens.upcoming().0 == final(stack).all@.skip(final(stack).pulled() as int),
    decreases left_at(stack.all@, stack.pos@), 4nat,
{
    let left = match parse_mul(stack) {
        Ok(l) => l,
        Err(e) => return Err(e),
    };
    let right = match parse_add_p(stack) {
        Ok(r) => r,
        Err(e) => return Err(e),
    };
    Ok(reduce_left(left, right))
}

fn parse_add_p<L: Lexer>(stack: &mut TokenStack<L>) -> (r: Result<Option<Box<ReduceResult>>, EvalError>)
    requires
        old(stack).wf(),
    ensures
        pairs_parsed_as(r, add_pairs(old(stack).all@, old(stack).end@, old(stack).pos@), *old(stack), *final(stack)),
    decreases left_at(stack.all@, stack.pos@), 3nat,
{
    match stack.head() {
        Ok(Some(Token::Plus)) | Ok(Some(Token::Minus)) => {},
        Ok(_) => return Ok(None),
        Err(e) => return Err(e),
    }
    let t = match stack.pop() {
        Ok(Some(t)) => t,
        Ok(None) => return Ok(None),
        Err(e) => return Err(e),
    };
    let op = parse_add_op(t);
    let term = match parse_mul(stack) {
        Ok(x) => x,
        Err(e) => return Err(e),
    };
    let expr = match parse_add_p(stack) {
        Ok(x) => x,
        Err(e) => return Err(e),
    };
    Ok(Some(ReduceResult::new_box(op, term, expr)))
}

/// The error for `actual` standing where a token of the class `expected` was required.
fn unexpected_token(expected: Expected, actual: Token) -> (r: EvalError)
    ensures
        r == (EvalError::UnexpectedToken { expected, actual }),
{
    EvalError::UnexpectedToken { expected, actual }
}

fn parse_add_op(t: Token) -> (r: Operator)
    requires
        add_operator(t) is Some,
    ensures
        add_operator(t) == Some(r),
{
    match t {
        Token::Plus => Operator::Plus,
        _ => Operator::Minus,
    }
}

fn parse_mul<L: Lexer>(stack: &mut TokenStack<L>) -> (r: Result<Box<EvalExpression>, EvalError>)
    requires
        old(stack).wf(),
    ensures
        parsed_as(r, mul_rule(old(stack).all@, old(stack).end@, old(stack).pos@), *old(stack), *final(stack)),
        // every token pulled so far came out of the lexer once, in order, and
        // at most the one token after the parsed ones is held in the lookahead
        r is Ok ==> final(stack).pulled() <= final(stack).pos@ + 1
            && final(stack).tokens.upcoming().0 == final(stack).all@.skip(final(stack).pulled() as int),
    decreases left_at(stack.all@, stack.pos@), 2nat,
{
    let left = match parse_term(stack) {
        Ok(l) => l,
        Err(e) => return Err(e),
    };
    let right = match parse_mul_p(stack) {
        Ok(r) => r,
        Err(e) => return Err(e),
    };
    Ok(reduce_left(left, right))
}

fn parse_mul_p<L: Lexer>(stack: &mut TokenStack<L>) -> (r: Result<Option<Box<ReduceResult>>, EvalError>)
    requires
        old(stack).wf(),
    ensures
        pairs_parsed_as(r, mul_pairs(old(stack).all@, old(stack).end@, old(stack).pos@), *old(stack), *final(stack)),
    decreases left_at(stack.all@, stack.pos@), 1nat,
{
    match stack.head() {
        Ok(Some(Token::Times)) | Ok(Some(Token::Div)) => {},
        Ok(_) => return Ok(None),
        Err(e) => return Err(e),
    }
    let t = match stack.pop() {
        Ok(Some(t)) => t,
        Ok(None) => return Ok(None),
        Err(e) => return Err(e),
    };
    let op = parse_mul_op(t);
    let term = match parse_term(stack) {
        Ok(x) => x,
        Err(e) => return Err(e),
    };
    let expr = match parse_mul_p(stack) {
        Ok(x) => x,
        Err(e) => return Err(e),
    };
    Ok(Some(ReduceResult::new_box(op, term, expr)))
}

fn parse_mul_op(t: Token) -> (r: Operator)
    requires
        mul_operator(t) is Some,
    ensures
        mul_operator(t) == Some(r),
{
    match t {
        Token::Times => Operator::Times,
        _ => Operator::Div,
    }
}

fn parse_term<L: Lexer>(stack: &mut TokenStack<L>) -> (r: Result<Box<EvalExpression>, EvalError>)
    requires
        old(stack).wf(),
    ensures
        parsed_as(r, term_rule(old(stack).all@, old(stack).end@, old(stack).pos@), *old(stack), *final(stack)),
        r is Ok ==> final(stack).head is None,
    decreases left_at(stack.all@, stack.pos@), 0nat,
{
    let n = match next_token(stack) {
        Ok(t) => t,
        Err(e) => return Err(e),
    };
    match n {
        Token::Value(value) => Ok(EvalExpression::value_box(value)),
        Token::LeftParenthesis => {
            let expr = match parse_add(stack) {
                Ok(x) => x,
                Err(e) => return Err(e),
            };
            let n2 = match next_token(stack) {
                Ok(t) => t,
                Err(e) => return Err(e),
            };
            match n2 {
                Token::RightParenthesis => Ok(expr),
                t => Err(unexpected_token(Expected::RightParenthesis, t)),
            }
        },
        t => Err(unexpected_token(Expected::Term, t)),
    }
}

/// The next token, which must exist.
fn next_token<L: Lexer>(stack: &mut TokenStack<L>) -> (r: Result<Token, EvalError>)
    requires
        old(stack).wf(),
    ensures
        match old(stack).peek() {
            Ok(Some(t)) => r == Ok::<Token, EvalError>(t) && final(stack).advanced(*old(stack), 1)
                && final(stack).head is None,
            Ok(None) => r == Err::<Token, EvalError>(EvalError::UnexpectedEndOfInput),
            Err(x) => r == Err::<Token, EvalError>(x),
        },
{
    match stack.pop() {
        Ok(Some(t)) => Ok(t),
        Ok(None) => Err(EvalError::UnexpectedEndOfInput),
        Err(e) => Err(e),
    }
}

/// Parses a whole token stream into an expression tree: one expression
/// with nothing after it.
pub fn parse<L: Lexer>(tokens: L) -> (r: Result<Box<EvalExpression>, EvalError>)
    ensures
        match parse_tokens(tokens.upcoming().0, tokens.upcoming().1) {
            Ok(e) => r matches Ok(b) && *b == e,
            Err(x) => r == Err::<Box<EvalExpression>, EvalError>(x),
        },
{
    let mut stack = TokenStack::new(tokens);
    let result = match parse_add(&mut stack) {
        Ok(x) => x,
        Err(e) => return Err(e),
    };
    match stack.head() {
        Ok(None) => Ok(result),
        Ok(Some(_)) => Err(EvalError::TrailingTokens),
        Err(e) => Err(e),
    }
}

} // verus!
