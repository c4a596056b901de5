//! Operator-precedence arithmetic on token sequences, and the proof that
//! parsing then evaluating agrees with it.

use vstd::prelude::*;

use crate::error::EvalError;
use crate::eval_expression::{binary_node, EvalExpression, Operator};
use crate::evaluator::{combine, trunc_div, value_of};
use crate::grammar::{
    add_operator, add_pairs, add_rule, consumed, fold_pairs, left_at, mul_operator, mul_pairs,
    mul_rule, term_rule, tree_of,
};
use crate::lexer::lex;
use crate::pipeline::eval_source;
use crate::token::Token;

verus! {

/// The integer that `op` gives on `a` and `b`; `None` for a division by zero.
pub open spec fn arith(op: Operator, a: int, b: int) -> Option<int> {
    match op {
        Operator::Plus => Some(a + b),
        Operator::Minus => Some(a - b),
        Operator::Times => Some(a * b),
        Operator::Div => if b == 0 {
            None
        } else {
            Some(trunc_div(a, b))
        },
    }
}

/// `ts` read as a sum has the value `v`: it is a product, or a sum followed
/// by `+` or `-` and a product.
pub open spec fn sum_denotes(ts: Seq<Token>, v: int) -> bool
    decreases ts.len(), 2nat,
{
    ||| product_denotes(ts, v)
    ||| exists|k: int, a: int, b: int|
        #![trigger arith(add_operator(ts[k])->0, a, b)]
        0 < k < ts.len() && add_operator(ts[k]) is Some
            && sum_denotes(ts.take(k), a) && product_denotes(ts.skip(k + 1), b)
            && arith(add_operator(ts[k])->0, a, b) == Some(v)
}

/// `ts` read as a product has the value `v`: it is an atom, or a product
/// followed by `*` or `/` and an atom.
pub open spec fn product_denotes(ts: Seq<Token>, v: int) -> bool
    decreases ts.len(), 1nat,
{
    ||| atom_denotes(ts, v)
    ||| exists|k: int, a: int, b: int|
        #![trigger arith(mul_operator(ts[k])->0, a, b)]
        0 < k < ts.len() && mul_operator(ts[k]) is Some
            && product_denotes(ts.take(k), a) && atom_denotes(ts.skip(k + 1), b)
            && arith(mul_operator(ts[k])->0, a, b) == Some(v)
}

/// `ts` read as an atom has the value `v`: it is one literal, or a sum in
/// parentheses.
pub open spec fn atom_denotes(ts: Seq<Token>, v: int) -> bool
    decreases ts.len(), 0nat,
{
    ||| ts.len() == 1 && ts[0] is Value && v == ts[0]->Value_0
    ||| ts.len() >= 2 && ts[0] == Token::LeftParenthesis && ts.last() == Token::RightParenthesis
        && sum_denotes(ts.subrange(1, ts.len() - 1), v)
}

/// How a token moves the nesting depth: `(` opens, `)` closes.
pub open spec fn paren_delta(t: Token) -> int {
    if t == Token::LeftParenthesis {
        1
    } else if t == Token::RightParenthesis {
        -1
    } else {
        0
    }
}

/// The nesting depth after the tokens `ts`: parentheses opened minus closed.
pub open spec fn depth(ts: Seq<Token>) -> int
    decreases ts.len(),
{
    if ts.len() == 0 {
        0
    } else {
        depth(ts.drop_last()) + paren_delta(ts.last())
    }
}

/// One of the four binary operators.
pub open spec fn is_operator(t: Token) -> bool {
    add_operator(t) is Some || mul_operator(t) is Some
}

/// Not empty, every parenthesis opened is closed, and none is closed that
/// was not opened before.
pub open spec fn balanced(ts: Seq<Token>) -> bool {
    &&& ts.len() >= 1
    &&& depth(ts) == 0
    &&& forall|i: int| 0 <= i <= ts.len() ==> depth(#[trigger] ts.take(i)) >= 0
}

/// No `+` or `-` stands outside every parenthesis.
pub open spec fn no_top_level_add(ts: Seq<Token>) -> bool {
    forall|i: int| 0 <= i < ts.len() && depth(#[trigger] ts.take(i)) == 0 ==> add_operator(ts[i]) is None
}

/// No operator stands outside every parenthesis.
pub open spec fn no_top_level_operator(ts: Seq<Token>) -> bool {
    forall|i: int| 0 <= i < ts.len() && depth(#[trigger] ts.take(i)) == 0 ==> !is_operator(ts[i])
}

proof fn lemma_depth_concat(a: Seq<Token>, b: Seq<Token>)
    ensures
        depth(a + b) == depth(a) + depth(b),
    decreases b.len(),
{
    if b.len() == 0 {
        assert(a + b =~= a);
    } else {
        lemma_depth_concat(a, b.drop_last());
        assert((a + b).drop_last() =~= a + b.drop_last());
    }
}

/// The depths before each position of `ts`, split at the token `ts[k]`.
proof fn lemma_split_depths(ts: Seq<Token>, k: int)
    requires
        0 < k < ts.len(),
    ensures
        forall|i: int| 0 <= i <= k ==> #[trigger] ts.take(i) == ts.take(k).take(i),
        forall|i: int| k < i <= ts.len() ==> depth(#[trigger] ts.take(i))
            == depth(ts.take(k)) + paren_delta(ts[k]) + depth(ts.skip(k + 1).take(i - k - 1)),
        ts.take(ts.len() as int) == ts,
{
    assert forall|i: int| 0 <= i <= k implies #[trigger] ts.take(i) == ts.take(k).take(i) by {
        assert(ts.take(i) =~= ts.take(k).take(i));
    }
    assert forall|i: int| k < i <= ts.len() implies depth(#[trigger] ts.take(i))
        == depth(ts.take(k)) + paren_delta(ts[k]) + depth(ts.skip(k + 1).take(i - k - 1)) by {
        assert(ts.take(i) =~= ts.take(k + 1) + ts.skip(k + 1).take(i - k - 1));
        lemma_depth_concat(ts.take(k + 1), ts.skip(k + 1).take(i - k - 1));
        assert(ts.take(k + 1).drop_last() =~= ts.take(k));
    }
    assert(ts.take(ts.len() as int) =~= ts);
}

/// A token sequence that reads as an atom is balanced, with no operator
/// outside its parentheses.
proof fn lemma_atom_shape(ts: Seq<Token>, v: int)
    requires
        atom_denotes(ts, v),
    ensures
        balanced(ts),
        no_top_level_operator(ts),
    decreases ts.len(), 0nat,
{
    if ts.len() == 1 {
        assert(ts.take(0) =~= Seq::<Token>::empty());
        assert(ts.take(1) =~= ts);
        assert(ts.drop_last() =~= Seq::<Token>::empty());
        assert(depth(Seq::<Token>::empty()) == 0);
        assert(depth(ts) == depth(ts.drop_last()) + paren_delta(ts.last()));
        assert forall|i: int| 0 <= i <= ts.len() implies depth(#[trigger] ts.take(i)) >= 0 by {
            if i == 0 {
                assert(depth(ts.take(i)) == 0);
            }
        }
    } else {
        let n = ts.len() as int;
        let inner = ts.subrange(1, n - 1);
        lemma_sum_shape(inner, v);
        assert forall|i: int| 1 <= i <= n - 1 implies depth(#[trigger] ts.take(i)) == 1 + depth(inner.take(i - 1)) by {
            assert(ts.take(i) =~= seq![Token::LeftParenthesis] + inner.take(i - 1));
            lemma_depth_concat(seq![Token::LeftParenthesis], inner.take(i - 1));
            assert(seq![Token::LeftParenthesis].drop_last() =~= Seq::<Token>::empty());
            assert(depth(Seq::<Token>::empty()) == 0);
            assert(depth(seq![Token::LeftParenthesis]) == 1);
        }
        assert(inner.take(n - 2) =~= inner);
        assert(ts.drop_last() =~= ts.take(n - 1));
        assert(ts.take(n) =~= ts);
        assert(ts.take(0) =~= Seq::<Token>::empty());
        assert forall|i: int| 0 <= i <= ts.len() implies depth(#[trigger] ts.take(i)) >= 0 by {
            if i == 0 {
                assert(depth(ts.take(i)) == 0);
            } else if i < n {
                assert(depth(ts.take(i)) == 1 + depth(inner.take(i - 1)));
            }
        }
        assert forall|i: int| 0 <= i < ts.len() && depth(#[trigger] ts.take(i)) == 0 implies !is_operator(ts[i]) by {
            if i > 0 {
                assert(depth(ts.take(i)) == 1 + depth(inner.take(i - 1)));
            }
        }
    }
}

/// A token sequence that reads as a product is balanced, with no `+` or `-`
/// outside its parentheses.
proof fn lemma_product_shape(ts: Seq<Token>, v: int)
    requires
        product_denotes(ts, v),
    ensures
        balanced(ts),
        no_top_level_add(ts),
    decreases ts.len(), 1nat,
{
    if atom_denotes(ts, v) {
        lemma_atom_shape(ts, v);
    } else {
        let (k, a, b) = choose|k: int, a: int, b: int|
            #![trigger arith(mul_operator(ts[k])->0, a, b)]
            0 < k < ts.len() && mul_operator(ts[k]) is Some
                && product_denotes(ts.take(k), a) && atom_denotes(ts.skip(k + 1), b)
                && arith(mul_operator(ts[k])->0, a, b) == Some(v);
        let left = ts.take(k);
        let right = ts.skip(k + 1);
        lemma_product_shape(left, a);
        lemma_atom_shape(right, b);
        lemma_split_depths(ts, k);
        assert(left.take(k) =~= left);
        assert forall|i: int| 0 <= i <= ts.len() implies depth(#[trigger] ts.take(i)) >= 0 by {
            if i <= k {
                assert(ts.take(i) == left.take(i));
            } else {
                assert(depth(ts.take(i)) == depth(right.take(i - k - 1)));
            }
        }
        assert forall|i: int| 0 <= i < ts.len() && depth(#[trigger] ts.take(i)) == 0 implies add_operator(ts[i]) is None by {
            if i < k {
                assert(ts.take(i) == left.take(i));
                assert(ts[i] == left[i]);
            } else if i > k {
                assert(depth(ts.take(i)) == depth(right.take(i - k - 1)));
                assert(ts[i] == right[i - k - 1]);
            }
        }
        assert(depth(ts.take(ts.len() as int)) == depth(right.take(right.len() as int)));
        assert(right.take(right.len() as int) =~= right);
    }
}

/// A token sequence that reads as a sum is balanced.
proof fn lemma_sum_shape(ts: Seq<Token>, v: int)
    requires
        sum_denotes(ts, v),
    ensures
        balanced(ts),
    decreases ts.len(), 2nat,
{
    if product_denotes(ts, v) {
        lemma_product_shape(ts, v);
    } else {
        let (k, a, b) = choose|k: int, a: int, b: int|
            #![trigger arith(add_operator(ts[k])->0, a, b)]
            0 < k < ts.len() && add_operator(ts[k]) is Some
                && sum_denotes(ts.take(k), a) && product_denotes(ts.skip(k + 1), b)
                && arith(add_operator(ts[k])->0, a, b) == Some(v);
        let left = ts.take(k);
        let right = ts.skip(k + 1);
        lemma_sum_shape(left, a);
        lemma_product_shape(right, b);
        lemma_split_depths(ts, k);
        assert(left.take(k) =~= left);
        assert forall|i: int| 0 <= i <= ts.len() implies depth(#[trigger] ts.take(i)) >= 0 by {
            if i <= k {
                assert(ts.take(i) == left.take(i));
            } else {
                assert(depth(ts.take(i)) == depth(right.take(i - k - 1)));
            }
        }
        assert(depth(ts.take(ts.len() as int)) == depth(right.take(right.len() as int)));
        assert(right.take(right.len() as int) =~= right);
    }
}

/// Where a product splits at `k1`, it does not also split at a later `k2`:
/// that operator stands inside the last atom.
proof fn lemma_mul_splits_agree(ts: Seq<Token>, k1: int, a1: int, b1: int, k2: int, a2: int)
    requires
        0 < k1 < k2 < ts.len(),
        mul_operator(ts[k1]) is Some,
        mul_operator(ts[k2]) is Some,
        product_denotes(ts.take(k1), a1),
        atom_denotes(ts.skip(k1 + 1), b1),
    ensures
        !product_denotes(ts.take(k2), a2),
{
    if product_denotes(ts.take(k2), a2) {
        let right = ts.skip(k1 + 1);
        let j = k2 - k1 - 1;
        lemma_product_shape(ts.take(k1), a1);
        lemma_product_shape(ts.take(k2), a2);
        lemma_atom_shape(right, b1);
        lemma_split_depths(ts, k1);
        assert(depth(ts.take(k2)) == depth(right.take(j)));
        assert(right[j] == ts[k2]);
    }
}

/// Where a sum splits at `k1`, it does not also split at a later `k2`: that
/// operator stands inside the last product.
proof fn lemma_add_splits_agree(ts: Seq<Token>, k1: int, a1: int, b1: int, k2: int, a2: int)
    requires
        0 < k1 < k2 < ts.len(),
        add_operator(ts[k1]) is Some,
        add_operator(ts[k2]) is Some,
        sum_denotes(ts.take(k1), a1),
        product_denotes(ts.skip(k1 + 1), b1),
    ensures
        !sum_denotes(ts.take(k2), a2),
{
    if sum_denotes(ts.take(k2), a2) {
        let right = ts.skip(k1 + 1);
        let j = k2 - k1 - 1;
        lemma_sum_shape(ts.take(k1), a1);
        lemma_sum_shape(ts.take(k2), a2);
        lemma_product_shape(right, b1);
        lemma_split_depths(ts, k1);
        assert(depth(ts.take(k2)) == depth(right.take(j)));
        assert(right[j] == ts[k2]);
    }
}

/// An atom has one value.
proof fn lemma_atom_unique(ts: Seq<Token>, v: int, w: int)
    requires
        atom_denotes(ts, v),
        atom_denotes(ts, w),
    ensures
        v == w,
    decreases ts.len(), 0nat,
{
    if ts.len() >= 2 {
        lemma_sum_unique(ts.subrange(1, ts.len() - 1), v, w);
    }
}

/// A product has one value.
proof fn lemma_product_unique(ts: Seq<Token>, v: int, w: int)
    requires
        product_denotes(ts, v),
        product_denotes(ts, w),
    ensures
        v == w,
    decreases ts.len(), 1nat,
{
    if atom_denotes(ts, v) && atom_denotes(ts, w) {
        lemma_atom_unique(ts, v, w);
    } else if atom_denotes(ts, v) || atom_denotes(ts, w) {
        let (x, y) = if atom_denotes(ts, v) { (v, w) } else { (w, v) };
        let (k, a, b) = choose|k: int, a: int, b: int|
            #![trigger arith(mul_operator(ts[k])->0, a, b)]
            0 < k < ts.len() && mul_operator(ts[k]) is Some
                && product_denotes(ts.take(k), a) && atom_denotes(ts.skip(k + 1), b)
                && arith(mul_operator(ts[k])->0, a, b) == Some(y);
        lemma_atom_shape(ts, x);
        lemma_product_shape(ts.take(k), a);
    } else {
        let (k1, a1, b1) = choose|k: int, a: int, b: int|
            #![trigger arith(mul_operator(ts[k])->0, a, b)]
            0 < k < ts.len() && mul_operator(ts[k]) is Some
                && product_denotes(ts.take(k), a) && atom_denotes(ts.skip(k + 1), b)
                && arith(mul_operator(ts[k])->0, a, b) == Some(v);
        let (k2, a2, b2) = choose|k: int, a: int, b: int|
            #![trigger arith(mul_operator(ts[k])->0, a, b)]
            0 < k < ts.len() && mul_operator(ts[k]) is Some
                && product_denotes(ts.take(k), a) && atom_denotes(ts.skip(k + 1), b)
                && arith(mul_operator(ts[k])->0, a, b) == Some(w);
        if k1 < k2 {
            lemma_mul_splits_agree(ts, k1, a1, b1, k2, a2);
        } else if k2 < k1 {
            lemma_mul_splits_agree(ts, k2, a2, b2, k1, a1);
        } else {
            lemma_product_unique(ts.take(k1), a1, a2);
            lemma_atom_unique(ts.skip(k1 + 1), b1, b2);
        }
    }
}

/// A sum has one value.
proof fn lemma_sum_unique(ts: Seq<Token>, v: int, w: int)
    requires
        sum_denotes(ts, v),
        sum_denotes(ts, w),
    ensures
        v == w,
    decreases ts.len(), 2nat,
{
    if product_denotes(ts, v) && product_denotes(ts, w) {
        lemma_product_unique(ts, v, w);
    } else if product_denotes(ts, v) || product_denotes(ts, w) {
        let (x, y) = if product_denotes(ts, v) { (v, w) } else { (w, v) };
        let (k, a, b) = choose|k: int, a: int, b: int|
            #![trigger arith(add_operator(ts[k])->0, a, b)]
            0 < k < ts.len() && add_operator(ts[k]) is Some
                && sum_denotes(ts.take(k), a) && product_denotes(ts.skip(k + 1), b)
                && arith(add_operator(ts[k])->0, a, b) == Some(y);
        lemma_product_shape(ts, x);
        lemma_sum_shape(ts.take(k), a);
    } else {
        let (k1, a1, b1) = choose|k: int, a: int, b: int|
            #![trigger arith(add_operator(ts[k])->0, a, b)]
            0 < k < ts.len() && add_operator(ts[k]) is Some
                && sum_denotes(ts.take(k), a) && product_denotes(ts.skip(k + 1), b)
                && arith(add_operator(ts[k])->0, a, b) == Some(v);
        let (k2, a2, b2) = choose|k: int, a: int, b: int|
            #![trigger arith(add_operator(ts[k])->0, a, b)]
            0 < k < ts.len() && add_operator(ts[k]) is Some
                && sum_denotes(ts.take(k), a) && product_denotes(ts.skip(k + 1), b)
                && arith(add_operator(ts[k])->0, a, b) == Some(w);
        if k1 < k2 {
            lemma_add_splits_agree(ts, k1, a1, b1, k2, a2);
        } else if k2 < k1 {
            lemma_add_splits_agree(ts, k2, a2, b2, k1, a1);
        } else {
            lemma_sum_unique(ts.take(k1), a1, a2);
            lemma_product_unique(ts.skip(k1 + 1), b1, b2);
        }
    }
}

/// The value of a tree that evaluates.
spec fn val(e: EvalExpression) -> int {
    value_of(e)->Ok_0 as int
}

proof fn lemma_value_of_binary(op: Operator, l: EvalExpression, r: EvalExpression)
    ensures
        value_of(binary_node(op, l, r)) == combine(op, value_of(l), value_of(r)),
{
}

/// Where the fold of pairs onto `acc` evaluates, `acc` evaluates too.
proof fn lemma_fold_evaluates(acc: EvalExpression, ps: Seq<(Operator, EvalExpression)>)
    requires
        value_of(fold_pairs(acc, ps)) is Ok,
    ensures
        value_of(acc) is Ok,
    decreases ps.len(),
{
    if ps.len() > 0 {
        let next = binary_node(ps[0].0, acc, ps[0].1);
        lemma_fold_evaluates(next, ps.drop_first());
        lemma_value_of_binary(ps[0].0, acc, ps[0].1);
    }
}

/// One more pair folded onto `acc`: its value is the operator applied to
/// the values of `acc` and the operand.
proof fn lemma_fold_step(acc: EvalExpression, op: Operator, operand: EvalExpression, rest: Seq<(Operator, EvalExpression)>)
    requires
        value_of(fold_pairs(acc, seq![(op, operand)] + rest)) is Ok,
    ensures
        fold_pairs(acc, seq![(op, operand)] + rest) == fold_pairs(binary_node(op, acc, operand), rest),
        value_of(fold_pairs(binary_node(op, acc, operand), rest)) is Ok,
        value_of(acc) is Ok,
        value_of(operand) is Ok,
        arith(op, val(acc), val(operand)) == Some(val(binary_node(op, acc, operand))),
{
    let ps = seq![(op, operand)] + rest;
    assert(ps.drop_first() =~= rest);
    let next = binary_node(op, acc, operand);
    lemma_fold_evaluates(next, rest);
    lemma_value_of_binary(op, acc, operand);
}

proof fn lemma_term_denotes(ts: Seq<Token>, end: Option<EvalError>, p: nat)
    requires
        term_rule(ts, end, p) is Ok,
        value_of(tree_of(term_rule(ts, end, p))) is Ok,
    ensures
        1 <= consumed(term_rule(ts, end, p)),
        p + consumed(term_rule(ts, end, p)) <= ts.len(),
        atom_denotes(ts.subrange(p as int, (p + consumed(term_rule(ts, end, p))) as int), val(tree_of(term_rule(ts, end, p)))),
    decreases left_at(ts, p), 0nat,
{
    let r = term_rule(ts, end, p);
    let seg = ts.subrange(p as int, (p + consumed(r)) as int);
    if ts[p as int] == Token::LeftParenthesis {
        let inner = add_rule(ts, end, p + 1);
        lemma_add_denotes(ts, end, p + 1);
        assert(seg.subrange(1, seg.len() - 1) =~= ts.subrange((p + 1) as int, (p + 1 + consumed(inner)) as int));
    }
}

proof fn lemma_mul_pairs_denote(ts: Seq<Token>, end: Option<EvalError>, p: nat, q0: nat, acc: EvalExpression)
    requires
        q0 < p <= ts.len(),
        mul_pairs(ts, end, p) is Ok,
        value_of(fold_pairs(acc, mul_pairs(ts, end, p)->Ok_0.0)) is Ok,
        value_of(acc) is Ok,
        product_denotes(ts.subrange(q0 as int, p as int), val(acc)),
    ensures
        p + mul_pairs(ts, end, p)->Ok_0.1 <= ts.len(),
        product_denotes(
            ts.subrange(q0 as int, (p + mul_pairs(ts, end, p)->Ok_0.1) as int),
            val(fold_pairs(acc, mul_pairs(ts, end, p)->Ok_0.0)),
        ),
    decreases left_at(ts, p), 1nat,
{
    let r = mul_pairs(ts, end, p);
    if r->Ok_0.0.len() > 0 {
        let t = ts[p as int];
        let op = mul_operator(t)->0;
        let operand_r = term_rule(ts, end, p + 1);
        let operand = tree_of(operand_r);
        let n = consumed(operand_r);
        let rest = mul_pairs(ts, end, p + 1 + n)->Ok_0.0;
        assert(r->Ok_0.0 == seq![(op, operand)] + rest);
        lemma_fold_step(acc, op, operand, rest);
        lemma_term_denotes(ts, end, p + 1);
        let next = binary_node(op, acc, operand);
        let seg = ts.subrange(q0 as int, (p + 1 + n) as int);
        let k = p - q0;
        assert(seg.take(k) =~= ts.subrange(q0 as int, p as int));
        assert(seg.skip(k + 1) =~= ts.subrange((p + 1) as int, (p + 1 + n) as int));
        assert(seg[k] == t);
        assert(product_denotes(seg.take(k), val(acc)) && atom_denotes(seg.skip(k + 1), val(operand)));
        assert(product_denotes(seg, val(next)));
        lemma_mul_pairs_denote(ts, end, p + 1 + n, q0, next);
    } else {
        assert(fold_pairs(acc, r->Ok_0.0) == acc);
    }
}

proof fn lemma_mul_denotes(ts: Seq<Token>, end: Option<EvalError>, p: nat)
    requires
        mul_rule(ts, end, p) is Ok,
        value_of(tree_of(mul_rule(ts, end, p))) is Ok,
    ensures
        p + consumed(mul_rule(ts, end, p)) <= ts.len(),
        product_denotes(ts.subrange(p as int, (p + consumed(mul_rule(ts, end, p))) as int), val(tree_of(mul_rule(ts, end, p)))),
    decreases left_at(ts, p), 2nat,
{
    let first_r = term_rule(ts, end, p);
    let first = tree_of(first_r);
    let n = consumed(first_r);
    let pairs = mul_pairs(ts, end, p + n)->Ok_0.0;
    lemma_fold_evaluates(first, pairs);
    lemma_term_denotes(ts, end, p);
    assert(product_denotes(ts.subrange(p as int, (p + n) as int), val(first)));
    lemma_mul_pairs_denote(ts, end, p + n, p, first);
}

proof fn lemma_add_pairs_denote(ts: Seq<Token>, end: Option<EvalError>, p: nat, q0: nat, acc: EvalExpression)
    requires
        q0 < p <= ts.len(),
        add_pairs(ts, end, p) is Ok,
        value_of(fold_pairs(acc, add_pairs(ts, end, p)->Ok_0.0)) is Ok,
        value_of(acc) is Ok,
        sum_denotes(ts.subrange(q0 as int, p as int), val(acc)),
    ensures
        p + add_pairs(ts, end, p)->Ok_0.1 <= ts.len(),
        sum_denotes(
            ts.subrange(q0 as int, (p + add_pairs(ts, end, p)->Ok_0.1) as int),
            val(fold_pairs(acc, add_pairs(ts, end, p)->Ok_0.0)),
        ),
    decreases left_at(ts, p), 3nat,
{
    let r = add_pairs(ts, end, p);
    if r->Ok_0.0.len() > 0 {
        let t = ts[p as int];
        let op = add_operator(t)->0;
        let operand_r = mul_rule(ts, end, p + 1);
        let operand = tree_of(operand_r);
        let n = consumed(operand_r);
        let rest = add_pairs(ts, end, p + 1 + n)->Ok_0.0;
        assert(r->Ok_0.0 == seq![(op, operand)] + rest);
        lemma_fold_step(acc, op, operand, rest);
        lemma_mul_denotes(ts, end, p + 1);
        let next = binary_node(op, acc, operand);
        let seg = ts.subrange(q0 as int, (p + 1 + n) as int);
        let k = p - q0;
        assert(seg.take(k) =~= ts.subrange(q0 as int, p as int));
        assert(seg.skip(k + 1) =~= ts.subrange((p + 1) as int, (p + 1 + n) as int));
        assert(seg[k] == t);
        assert(sum_denotes(seg.take(k), val(acc)) && product_denotes(seg.skip(k + 1), val(operand)));
        assert(sum_denotes(seg, val(next)));
        lemma_add_pairs_denote(ts, end, p + 1 + n, q0, next);
    } else {
        assert(fold_pairs(acc, r->Ok_0.0) == acc);
    }
}

proof fn lemma_add_denotes(ts: Seq<Token>, end: Option<EvalError>, p: nat)
    requires
        add_rule(ts, end, p) is Ok,
        value_of(tree_of(add_rule(ts, end, p))) is Ok,
    ensures
        p + consumed(add_rule(ts, end, p)) <= ts.len(),
        sum_denotes(ts.subrange(p as int, (p + consumed(add_rule(ts, end, p))) as int), val(tree_of(add_rule(ts, end, p)))),
    decreases left_at(ts, p), 4nat,
{
    let first_r = mul_rule(ts, end, p);
    let first = tree_of(first_r);
    let n = consumed(first_r);
    let pairs = add_pairs(ts, end, p + n)->Ok_0.0;
    lemma_fold_evaluates(first, pairs);
    lemma_mul_denotes(ts, end, p);
    assert(sum_denotes(ts.subrange(p as int, (p + n) as int), val(first)));
    lemma_add_pairs_denote(ts, end, p + n, p, first);
}

/// Parsing then evaluating computes what the usual precedence arithmetic
/// computes: where an expression evaluates, all of its text turns into
/// tokens, and its value is the one value that arithmetic gives them (`*`
/// and `/` binding tighter than `+` and `-`, each level grouping to the left,
/// parentheses first).
pub proof fn lemma_evaluation_follows_precedence(s: Seq<char>)
    requires
        eval_source(s) is Ok,
    ensures
        lex(s).1 is None,
        sum_denotes(lex(s).0, eval_source(s)->Ok_0 as int),
        forall|w: int| #[trigger] sum_denotes(lex(s).0, w) ==> w == eval_source(s)->Ok_0 as int,
{
    let ts = lex(s).0;
    let end = lex(s).1;
    lemma_add_denotes(ts, end, 0);
    assert(ts.subrange(0, ts.len() as int) =~= ts);
    assert forall|w: int| #[trigger] sum_denotes(ts, w) implies w == eval_source(s)->Ok_0 as int by {
        lemma_sum_unique(ts, eval_source(s)->Ok_0 as int, w);
    }
}

} // verus!
