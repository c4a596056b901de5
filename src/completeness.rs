//! Every well-formed expression evaluates: the parser accepts each token
//! sequence that precedence arithmetic reads as a sum, and builds a tree of
//! the same value.

use vstd::prelude::*;

use crate::error::EvalError;
use crate::eval_expression::{binary_node, EvalExpression, Operator};
use crate::evaluator::value_of;
use crate::grammar::{
    add_operator, add_pairs, add_rule, consumed, fold_pairs, mul_operator, mul_pairs, mul_rule,
    parse_tokens, term_rule, tree_of,
};
use crate::lexer::lex;
use crate::pipeline::eval_source;
use crate::precedence::{arith, atom_denotes, product_denotes, sum_denotes};
use crate::token::Token;

verus! {

/// The value of a tree in unbounded integers; `None` where it divides by zero.
pub open spec fn exact_value(e: EvalExpression) -> Option<int>
    decreases e,
{
    match e {
        EvalExpression::Value(v) => Some(v as int),
        EvalExpression::Plus(l, r) => exact_binary(Operator::Plus, exact_value(*l), exact_value(*r)),
        EvalExpression::Minus(l, r) => exact_binary(Operator::Minus, exact_value(*l), exact_value(*r)),
        EvalExpression::Times(l, r) => exact_binary(Operator::Times, exact_value(*l), exact_value(*r)),
        EvalExpression::Div(l, r) => exact_binary(Operator::Div, exact_value(*l), exact_value(*r)),
    }
}

/// `op` on two exact values, where both exist.
pub open spec fn exact_binary(op: Operator, l: Option<int>, r: Option<int>) -> Option<int> {
    match (l, r) {
        (Some(a), Some(b)) => arith(op, a, b),
        _ => None,
    }
}

/// Starting from the value `acc`, the pairs `('*'|'/') atom` that make up
/// `seg` give `v`.
pub open spec fn mul_tail(seg: Seq<Token>, acc: int, v: int) -> bool
    decreases seg.len(),
{
    ||| seg.len() == 0 && v == acc
    ||| mul_operator(seg[0]) is Some && exists|j: int, b: int|
        #![trigger atom_denotes(seg.subrange(1, j), b)]
        1 < j <= seg.len() && atom_denotes(seg.subrange(1, j), b)
            && arith(mul_operator(seg[0])->0, acc, b) is Some
            && mul_tail(seg.skip(j), arith(mul_operator(seg[0])->0, acc, b)->0, v)
}

/// Starting from the value `acc`, the pairs `('+'|'-') product` that make
/// up `seg` give `v`.
pub open spec fn add_tail(seg: Seq<Token>, acc: int, v: int) -> bool
    decreases seg.len(),
{
    ||| seg.len() == 0 && v == acc
    ||| add_operator(seg[0]) is Some && exists|j: int, b: int|
        #![trigger product_denotes(seg.subrange(1, j), b)]
        1 < j <= seg.len() && product_denotes(seg.subrange(1, j), b)
            && arith(add_operator(seg[0])->0, acc, b) is Some
            && add_tail(seg.skip(j), arith(add_operator(seg[0])->0, acc, b)->0, v)
}

proof fn lemma_mul_tail_append(t: Seq<Token>, acc: int, a: int, x: Token, r: Seq<Token>, b: int, v: int)
    requires
        mul_tail(t, acc, a),
        mul_operator(x) is Some,
        atom_denotes(r, b),
        r.len() >= 1,
        arith(mul_operator(x)->0, a, b) == Some(v),
    ensures
        mul_tail(t + seq![x] + r, acc, v),
    decreases t.len(),
{
    let u = t + seq![x] + r;
    if t.len() == 0 {
        assert(u =~= seq![x] + r);
        assert(u.subrange(1, u.len() as int) =~= r);
        assert(u.skip(u.len() as int) =~= Seq::<Token>::empty());
        assert(mul_tail(u.skip(u.len() as int), v, v));
        assert(atom_denotes(u.subrange(1, u.len() as int), b));
    } else {
        let (j, w) = choose|j: int, w: int|
            #![trigger atom_denotes(t.subrange(1, j), w)]
            1 < j <= t.len() && atom_denotes(t.subrange(1, j), w)
                && arith(mul_operator(t[0])->0, acc, w) is Some
                && mul_tail(t.skip(j), arith(mul_operator(t[0])->0, acc, w)->0, a);
        lemma_mul_tail_append(t.skip(j), arith(mul_operator(t[0])->0, acc, w)->0, a, x, r, b, v);
        assert(u.subrange(1, j) =~= t.subrange(1, j));
        assert(u.skip(j) =~= t.skip(j) + seq![x] + r);
        assert(u[0] == t[0]);
        assert(atom_denotes(u.subrange(1, j), w));
    }
}

proof fn lemma_add_tail_append(t: Seq<Token>, acc: int, a: int, x: Token, r: Seq<Token>, b: int, v: int)
    requires
        add_tail(t, acc, a),
        add_operator(x) is Some,
        product_denotes(r, b),
        r.len() >= 1,
        arith(add_operator(x)->0, a, b) == Some(v),
    ensures
        add_tail(t + seq![x] + r, acc, v),
    decreases t.len(),
{
    let u = t + seq![x] + r;
    if t.len() == 0 {
        assert(u =~= seq![x] + r);
        assert(u.subrange(1, u.len() as int) =~= r);
        assert(u.skip(u.len() as int) =~= Seq::<Token>::empty());
        assert(add_tail(u.skip(u.len() as int), v, v));
        assert(product_denotes(u.subrange(1, u.len() as int), b));
    } else {
        let (j, w) = choose|j: int, w: int|
            #![trigger product_denotes(t.subrange(1, j), w)]
            1 < j <= t.len() && product_denotes(t.subrange(1, j), w)
                && arith(add_operator(t[0])->0, acc, w) is Some
                && add_tail(t.skip(j), arith(add_operator(t[0])->0, acc, w)->0, a);
        lemma_add_tail_append(t.skip(j), arith(add_operator(t[0])->0, acc, w)->0, a, x, r, b, v);
        assert(u.subrange(1, j) =~= t.subrange(1, j));
        assert(u.skip(j) =~= t.skip(j) + seq![x] + r);
        assert(u[0] == t[0]);
        assert(product_denotes(u.subrange(1, j), w));
    }
}

proof fn lemma_product_nonempty(seg: Seq<Token>, v: int)
    requires
        product_denotes(seg, v),
    ensures
        seg.len() >= 1,
{
    if !atom_denotes(seg, v) {
        let (k, a, b) = choose|k: int, a: int, b: int|
            #![trigger arith(mul_operator(seg[k])->0, a, b)]
            0 < k < seg.len() && mul_operator(seg[k]) is Some
                && product_denotes(seg.take(k), a) && atom_denotes(seg.skip(k + 1), b)
                && arith(mul_operator(seg[k])->0, a, b) == Some(v);
    }
}

/// A product is its first atom followed by a tail.
proof fn lemma_product_first_atom(seg: Seq<Token>, v: int) -> (r: (int, int))
    requires
        product_denotes(seg, v),
    ensures
        1 <= r.0 <= seg.len(),
        atom_denotes(seg.take(r.0), r.1),
        mul_tail(seg.skip(r.0), r.1, v),
    decreases seg.len(),
{
    if atom_denotes(seg, v) {
        assert(seg.take(seg.len() as int) =~= seg);
        assert(seg.skip(seg.len() as int) =~= Seq::<Token>::empty());
        (seg.len() as int, v)
    } else {
        let (k, a, b) = choose|k: int, a: int, b: int|
            #![trigger arith(mul_operator(seg[k])->0, a, b)]
            0 < k < seg.len() && mul_operator(seg[k]) is Some
                && product_denotes(seg.take(k), a) && atom_denotes(seg.skip(k + 1), b)
                && arith(mul_operator(seg[k])->0, a, b) == Some(v);
        let left = seg.take(k);
        let (k0, w) = lemma_product_first_atom(left, a);
        lemma_mul_tail_append(left.skip(k0), w, a, seg[k], seg.skip(k + 1), b, v);
        assert(left.skip(k0) + seq![seg[k]] + seg.skip(k + 1) =~= seg.skip(k0));
        assert(left.take(k0) =~= seg.take(k0));
        (k0, w)
    }
}

/// A sum is its first product followed by a tail.
proof fn lemma_sum_first_product(seg: Seq<Token>, v: int) -> (r: (int, int))
    requires
        sum_denotes(seg, v),
    ensures
        1 <= r.0 <= seg.len(),
        product_denotes(seg.take(r.0), r.1),
        add_tail(seg.skip(r.0), r.1, v),
    decreases seg.len(),
{
    if product_denotes(seg, v) {
        lemma_product_nonempty(seg, v);
        assert(seg.take(seg.len() as int) =~= seg);
        assert(seg.skip(seg.len() as int) =~= Seq::<Token>::empty());
        (seg.len() as int, v)
    } else {
        let (k, a, b) = choose|k: int, a: int, b: int|
            #![trigger arith(add_operator(seg[k])->0, a, b)]
            0 < k < seg.len() && add_operator(seg[k]) is Some
                && sum_denotes(seg.take(k), a) && product_denotes(seg.skip(k + 1), b)
                && arith(add_operator(seg[k])->0, a, b) == Some(v);
        let left = seg.take(k);
        let (k0, w) = lemma_sum_first_product(left, a);
        lemma_product_nonempty(seg.skip(k + 1), b);
        lemma_add_tail_append(left.skip(k0), w, a, seg[k], seg.skip(k + 1), b, v);
        assert(left.skip(k0) + seq![seg[k]] + seg.skip(k + 1) =~= seg.skip(k0));
        assert(left.take(k0) =~= seg.take(k0));
        (k0, w)
    }
}

proof fn lemma_exact_value_binary(op: Operator, l: EvalExpression, r: EvalExpression)
    ensures
        exact_value(binary_node(op, l, r)) == exact_binary(op, exact_value(l), exact_value(r)),
{
}

/// Folding one more pair onto `acc`.
proof fn lemma_fold_first(acc: EvalExpression, op: Operator, operand: EvalExpression, rest: Seq<(Operator, EvalExpression)>)
    ensures
        fold_pairs(acc, seq![(op, operand)] + rest) == fold_pairs(binary_node(op, acc, operand), rest),
{
    assert((seq![(op, operand)] + rest).drop_first() =~= rest);
}

/// Nothing that could continue a product stands at `q`.
spec fn ends_product(ts: Seq<Token>, q: nat) -> bool {
    q == ts.len() || mul_operator(ts[q as int]) is None
}

/// Nothing that could continue a sum stands at `q`: the end, or a closing
/// parenthesis.
spec fn ends_sum(ts: Seq<Token>, q: nat) -> bool {
    q == ts.len() || ts[q as int] == Token::RightParenthesis
}

proof fn lemma_term_complete(ts: Seq<Token>, p: nat, q: nat, v: int)
    requires
        p < q <= ts.len(),
        atom_denotes(ts.subrange(p as int, q as int), v),
    ensures
        term_rule(ts, None, p) is Ok,
        consumed(term_rule(ts, None, p)) == q - p,
        exact_value(tree_of(term_rule(ts, None, p))) == Some(v),
    decreases q - p, 0nat,
{
    let seg = ts.subrange(p as int, q as int);
    assert(ts[p as int] == seg[0]);
    if seg.len() >= 2 {
        assert(ts[q - 1] == seg.last());
        assert(seg.subrange(1, seg.len() - 1) =~= ts.subrange(p + 1int, q - 1int));
        lemma_add_complete(ts, p + 1, (q - 1) as nat, v);
    }
}

proof fn lemma_mul_pairs_complete(ts: Seq<Token>, j: nat, q: nat, acc_tree: EvalExpression, acc: int, v: int)
    requires
        j <= q <= ts.len(),
        mul_tail(ts.subrange(j as int, q as int), acc, v),
        exact_value(acc_tree) == Some(acc),
        ends_product(ts, q),
    ensures
        mul_pairs(ts, None, j) is Ok,
        mul_pairs(ts, None, j)->Ok_0.1 == q - j,
        exact_value(fold_pairs(acc_tree, mul_pairs(ts, None, j)->Ok_0.0)) == Some(v),
    decreases q - j, 1nat,
{
    let seg = ts.subrange(j as int, q as int);
    if j < q {
        let (jj, b) = choose|jj: int, b: int|
            #![trigger atom_denotes(seg.subrange(1, jj), b)]
            1 < jj <= seg.len() && atom_denotes(seg.subrange(1, jj), b)
                && arith(mul_operator(seg[0])->0, acc, b) is Some
                && mul_tail(seg.skip(jj), arith(mul_operator(seg[0])->0, acc, b)->0, v);
        let op = mul_operator(seg[0])->0;
        assert(seg[0] == ts[j as int]);
        assert(seg.subrange(1, jj) =~= ts.subrange(j + 1int, j + jj));
        assert(seg.skip(jj) =~= ts.subrange(j + jj, q as int));
        lemma_term_complete(ts, j + 1, (j + jj) as nat, b);
        let operand = tree_of(term_rule(ts, None, j + 1));
        let next = binary_node(op, acc_tree, operand);
        lemma_exact_value_binary(op, acc_tree, operand);
        lemma_mul_pairs_complete(ts, (j + jj) as nat, q, next, arith(op, acc, b)->0, v);
        lemma_fold_first(acc_tree, op, operand, mul_pairs(ts, None, (j + jj) as nat)->Ok_0.0);
    } else {
        assert(fold_pairs(acc_tree, Seq::empty()) == acc_tree);
    }
}

proof fn lemma_mul_complete(ts: Seq<Token>, p: nat, q: nat, v: int)
    requires
        p <= q <= ts.len(),
        product_denotes(ts.subrange(p as int, q as int), v),
        ends_product(ts, q),
    ensures
        mul_rule(ts, None, p) is Ok,
        consumed(mul_rule(ts, None, p)) == q - p,
        exact_value(tree_of(mul_rule(ts, None, p))) == Some(v),
    decreases q - p, 2nat,
{
    let seg = ts.subrange(p as int, q as int);
    let (k, w) = lemma_product_first_atom(seg, v);
    assert(seg.take(k) =~= ts.subrange(p as int, p + k));
    assert(seg.skip(k) =~= ts.subrange(p + k, q as int));
    lemma_term_complete(ts, p, (p + k) as nat, w);
    lemma_mul_pairs_complete(ts, (p + k) as nat, q, tree_of(term_rule(ts, None, p)), w, v);
}

proof fn lemma_add_pairs_complete(ts: Seq<Token>, j: nat, q: nat, acc_tree: EvalExpression, acc: int, v: int)
    requires
        j <= q <= ts.len(),
        add_tail(ts.subrange(j as int, q as int), acc, v),
        exact_value(acc_tree) == Some(acc),
        ends_sum(ts, q),
    ensures
        add_pairs(ts, None, j) is Ok,
        add_pairs(ts, None, j)->Ok_0.1 == q - j,
        exact_value(fold_pairs(acc_tree, add_pairs(ts, None, j)->Ok_0.0)) == Some(v),
    decreases q - j, 3nat,
{
    let seg = ts.subrange(j as int, q as int);
    if j < q {
        let (jj, b) = choose|jj: int, b: int|
            #![trigger product_denotes(seg.subrange(1, jj), b)]
            1 < jj <= seg.len() && product_denotes(seg.subrange(1, jj), b)
                && arith(add_operator(seg[0])->0, acc, b) is Some
                && add_tail(seg.skip(jj), arith(add_operator(seg[0])->0, acc, b)->0, v);
        let op = add_operator(seg[0])->0;
        assert(seg[0] == ts[j as int]);
        assert(seg.subrange(1, jj) =~= ts.subrange(j + 1int, j + jj));
        assert(seg.skip(jj) =~= ts.subrange(j + jj, q as int));
        if j + jj < q {
            assert(seg.skip(jj)[0] == ts[j + jj]);
        }
        lemma_mul_complete(ts, j + 1, (j + jj) as nat, b);
        let operand = tree_of(mul_rule(ts, None, j + 1));
        let next = binary_node(op, acc_tree, operand);
        lemma_exact_value_binary(op, acc_tree, operand);
        lemma_add_pairs_complete(ts, (j + jj) as nat, q, next, arith(op, acc, b)->0, v);
        lemma_fold_first(acc_tree, op, operand, add_pairs(ts, None, (j + jj) as nat)->Ok_0.0);
    } else {
        assert(fold_pairs(acc_tree, Seq::empty()) == acc_tree);
    }
}

proof fn lemma_add_complete(ts: Seq<Token>, p: nat, q: nat, v: int)
    requires
        p <= q <= ts.len(),
        sum_denotes(ts.subrange(p as int, q as int), v),
        ends_sum(ts, q),
    ensures
        add_rule(ts, None, p) is Ok,
        consumed(add_rule(ts, None, p)) == q - p,
        exact_value(tree_of(add_rule(ts, None, p))) == Some(v),
    decreases q - p, 4nat,
{
    let seg = ts.subrange(p as int, q as int);
    let (k, w) = lemma_sum_first_product(seg, v);
    assert(seg.take(k) =~= ts.subrange(p as int, p + k));
    assert(seg.skip(k) =~= ts.subrange(p + k, q as int));
    if p + k < q {
        assert(seg.skip(k)[0] == ts[p + k]);
    }
    lemma_mul_complete(ts, p, (p + k) as nat, w);
    lemma_add_pairs_complete(ts, (p + k) as nat, q, tree_of(mul_rule(ts, None, p)), w, v);
}

/// Every node of `e` has an exact value, and it fits in an `i32`: the
/// evaluation of `e` in unbounded integers never leaves the `i32` range.
pub open spec fn stays_in_i32(e: EvalExpression) -> bool
    decreases e,
{
    &&& exact_value(e) matches Some(x) && i32::MIN <= x <= i32::MAX
    &&& match e {
        EvalExpression::Value(_) => true,
        EvalExpression::Plus(l, r) => stays_in_i32(*l) && stays_in_i32(*r),
        EvalExpression::Minus(l, r) => stays_in_i32(*l) && stays_in_i32(*r),
        EvalExpression::Times(l, r) => stays_in_i32(*l) && stays_in_i32(*r),
        EvalExpression::Div(l, r) => stays_in_i32(*l) && stays_in_i32(*r),
    }
}

/// Where a tree has an exact value, evaluating it gives that value when
/// every result on the way fits in an `i32`, and `Overflow` otherwise.
proof fn lemma_exact_evaluation(e: EvalExpression)
    requires
        exact_value(e) is Some,
    ensures
        value_of(e) is Ok ==> value_of(e)->Ok_0 as int == exact_value(e)->0,
        value_of(e) is Err ==> value_of(e) == Err::<i32, EvalError>(EvalError::Overflow),
        value_of(e) is Ok <==> stays_in_i32(e),
    decreases e,
{
    match e {
        EvalExpression::Value(_) => {},
        EvalExpression::Plus(l, r) => {
            lemma_exact_evaluation(*l);
            lemma_exact_evaluation(*r);
        },
        EvalExpression::Minus(l, r) => {
            lemma_exact_evaluation(*l);
            lemma_exact_evaluation(*r);
        },
        EvalExpression::Times(l, r) => {
            lemma_exact_evaluation(*l);
            lemma_exact_evaluation(*r);
        },
        EvalExpression::Div(l, r) => {
            lemma_exact_evaluation(*l);
            lemma_exact_evaluation(*r);
        },
    }
}

/// Every well-formed expression evaluates to its value: where the text
/// turns entirely into tokens that precedence arithmetic reads as a sum of
/// value `v`, no lexical, syntax or division error comes. The parser builds
/// a tree whose exact value is `v`, and the result is `v` exactly when that
/// evaluation stays within `i32` at every step, `Overflow` otherwise.
pub proof fn lemma_well_formed_expressions_evaluate(s: Seq<char>, v: int)
    requires
        lex(s).1 is None,
        sum_denotes(lex(s).0, v),
    ensures
        parse_tokens(lex(s).0, lex(s).1) is Ok,
        exact_value(parse_tokens(lex(s).0, lex(s).1)->Ok_0) == Some(v),
        stays_in_i32(parse_tokens(lex(s).0, lex(s).1)->Ok_0) ==> eval_source(s) == Ok::<i32, EvalError>(v as i32),
        !stays_in_i32(parse_tokens(lex(s).0, lex(s).1)->Ok_0)
            ==> eval_source(s) == Err::<i32, EvalError>(EvalError::Overflow),
        eval_source(s) is Ok ==> eval_source(s)->Ok_0 as int == v,
        eval_source(s) is Err ==> eval_source(s) == Err::<i32, EvalError>(EvalError::Overflow),
{
    let ts = lex(s).0;
    assert(ts.subrange(0, ts.len() as int) =~= ts);
    lemma_add_complete(ts, 0, ts.len(), v);
    lemma_exact_evaluation(tree_of(add_rule(ts, None, 0)));
}

} // verus!
