//! The tree builder: precedence climbing over a flat left-to-right
//! stream of sub-results and operators.
//!
//! The stream is a first sub-result followed by `items`, a sequence of
//! (operator, next sub-result) pairs.  Climbing keeps a minimum
//! binding level: it stops in front of any operator that binds more
//! loosely, and otherwise consumes the operator, builds the right-hand
//! side by climbing with the operator's level (raised by one for a
//! left-associative operator), and folds the pair into the running
//! result.  This nests left-associative operators to the left and
//! right-associative ones to the right in one linear pass.

use vstd::prelude::*;

use crate::ast::Expression;
use crate::ast::InfixOp;
use crate::ast::clone_expr;
use crate::ast::leaf_count;
use crate::ast::op_count;
use crate::precedence::Assoc;
use crate::precedence::associativity;
use crate::precedence::level;
use crate::precedence::spec_assoc;
use crate::precedence::spec_level;

verus! {

/// The binding level the right-hand climb starts from: one above the
/// operator's own level if it is left-associative, the level itself if
/// it is right-associative.
pub open spec fn next_min_level(op: InfixOp) -> int {
    if spec_assoc(op) == Assoc::Left {
        spec_level(op) + 1
    } else {
        spec_level(op)
    }
}

/// What climbing the stream `items` from index `i` with running result
/// `first` and minimum binding level `min` produces: the built tree and
/// the index of the first operator not consumed.
pub open spec fn spec_climb(
    items: Seq<(InfixOp, Expression)>,
    i: int,
    first: Expression,
    min: int,
) -> (Expression, int)
    decreases items.len() - i,
{
    if !(0 <= i < items.len()) {
        (first, i)
    } else {
        let (op, prim) = items[i];
        if spec_level(op) < min {
            (first, i)
        } else {
            let inner = spec_climb(items, i + 1, prim, next_min_level(op));
            let j = inner.1;
            if i < j <= items.len() {
                spec_climb(items, j, Expression::Infix(op, Box::new(first), Box::new(inner.0)), min)
            } else {
                // A climb never stops before the index it started from, so
                // this branch is never reached; it closes the termination
                // measure.
                (first, i)
            }
        }
    }
}

/// A climb stops between the index it started from and the end of the
/// stream.
pub proof fn lemma_climb_bounds(items: Seq<(InfixOp, Expression)>, i: int, first: Expression, min: int)
    requires
        0 <= i <= items.len(),
    ensures
        i <= spec_climb(items, i, first, min).1 <= items.len(),
    decreases items.len() - i,
{
    if 0 <= i < items.len() {
        let (op, prim) = items[i];
        if spec_level(op) >= min {
            lemma_climb_bounds(items, i + 1, prim, next_min_level(op));
            let inner = spec_climb(items, i + 1, prim, next_min_level(op));
            lemma_climb_bounds(
                items,
                inner.1,
                Expression::Infix(op, Box::new(first), Box::new(inner.0)),
                min,
            );
        }
    }
}

/// Every operator binds at least as tightly as the lowest table level,
/// so a climb started there consumes the whole stream.
pub proof fn lemma_climb_consumes_all(
    items: Seq<(InfixOp, Expression)>,
    i: int,
    first: Expression,
    min: int,
)
    requires
        0 <= i <= items.len(),
        min <= 1,
    ensures
        spec_climb(items, i, first, min).1 == items.len(),
    decreases items.len() - i,
{
    if 0 <= i < items.len() {
        let (op, prim) = items[i];
        assert(spec_level(op) >= 1);
        lemma_climb_bounds(items, i + 1, prim, next_min_level(op));
        let inner = spec_climb(items, i + 1, prim, next_min_level(op));
        lemma_climb_consumes_all(
            items,
            inner.1,
            Expression::Infix(op, Box::new(first), Box::new(inner.0)),
            min,
        );
    }
}

/// The leaves of the sub-results carried by `items[i..j]`.
pub open spec fn sum_leaves(items: Seq<(InfixOp, Expression)>, i: int, j: int) -> nat
    decreases j - i,
{
    if i < j {
        leaf_count(items[i].1) + sum_leaves(items, i + 1, j)
    } else {
        0
    }
}

/// The operator nodes inside the sub-results carried by `items[i..j]`.
pub open spec fn sum_ops(items: Seq<(InfixOp, Expression)>, i: int, j: int) -> nat
    decreases j - i,
{
    if i < j {
        op_count(items[i].1) + sum_ops(items, i + 1, j)
    } else {
        0
    }
}

proof fn lemma_sum_split(items: Seq<(InfixOp, Expression)>, a: int, b: int, c: int)
    requires
        a <= b <= c,
    ensures
        sum_leaves(items, a, c) == sum_leaves(items, a, b) + sum_leaves(items, b, c),
        sum_ops(items, a, c) == sum_ops(items, a, b) + sum_ops(items, b, c),
    decreases b - a,
{
    if a < b {
        lemma_sum_split(items, a + 1, b, c);
    }
}

/// When every sub-result in `items[i..j]` is a single leaf, the
/// sub-results contribute `j - i` leaves and no operator nodes.
pub proof fn lemma_sum_leaf_items(items: Seq<(InfixOp, Expression)>, i: int, j: int)
    requires
        i <= j,
        forall|m: int|
            i <= m < j ==> leaf_count(#[trigger] items[m].1) == 1 && op_count(items[m].1) == 0,
    ensures
        sum_leaves(items, i, j) == j - i,
        sum_ops(items, i, j) == 0,
    decreases j - i,
{
    if i < j {
        lemma_sum_leaf_items(items, i + 1, j);
    }
}

/// What a climb builds is made of exactly what it consumed: the leaves
/// of the running result and of every consumed sub-result, and one
/// operator node per consumed operator on top of their own.
pub proof fn lemma_climb_counts(
    items: Seq<(InfixOp, Expression)>,
    i: int,
    first: Expression,
    min: int,
)
    requires
        0 <= i <= items.len(),
    ensures
        ({
            let r = spec_climb(items, i, first, min);
            &&& leaf_count(r.0) == leaf_count(first) + sum_leaves(items, i, r.1)
            &&& op_count(r.0) == op_count(first) + (r.1 - i) + sum_ops(items, i, r.1)
        }),
    decreases items.len() - i,
{
    if 0 <= i < items.len() {
        let (op, prim) = items[i];
        if spec_level(op) >= min {
            lemma_climb_bounds(items, i + 1, prim, next_min_level(op));
            lemma_climb_counts(items, i + 1, prim, next_min_level(op));
            let inner = spec_climb(items, i + 1, prim, next_min_level(op));
            let combined = Expression::Infix(op, Box::new(first), Box::new(inner.0));
            lemma_climb_bounds(items, inner.1, combined, min);
            lemma_climb_counts(items, inner.1, combined, min);
            let r = spec_climb(items, inner.1, combined, min);
            lemma_sum_split(items, i + 1, inner.1, r.1);
        }
    }
}

/// The left-nested tree over `items[i..]`: each consumed pair wraps
/// the running result as the left child.
pub open spec fn left_fold(items: Seq<(InfixOp, Expression)>, i: int, first: Expression) -> Expression
    decreases items.len() - i,
{
    if 0 <= i < items.len() {
        left_fold(
            items,
            i + 1,
            Expression::Infix(items[i].0, Box::new(first), Box::new(items[i].1)),
        )
    } else {
        first
    }
}

/// The right-nested tree over `items[i..]`: each pair's right child is
/// the fold of everything after it.
pub open spec fn right_fold(items: Seq<(InfixOp, Expression)>, i: int, first: Expression) -> Expression
    decreases items.len() - i,
{
    if 0 <= i < items.len() {
        Expression::Infix(items[i].0, Box::new(first), Box::new(right_fold(items, i + 1, items[i].1)))
    } else {
        first
    }
}

/// Left associativity as a law: when every operator of the stream is
/// left-associative and of one binding level, the climb groups the
/// stream left to right, nesting earlier operators deeper on the left.
pub proof fn lemma_climb_left_chain(
    items: Seq<(InfixOp, Expression)>,
    i: int,
    first: Expression,
    min: int,
    lv: int,
)
    requires
        0 <= i <= items.len(),
        min <= lv,
        forall|m: int|
            0 <= m < items.len() ==> spec_level((#[trigger] items[m]).0) == lv && spec_assoc(
                items[m].0,
            ) == Assoc::Left,
    ensures
        spec_climb(items, i, first, min).0 == left_fold(items, i, first),
        spec_climb(items, i, first, min).1 == items.len(),
    decreases items.len() - i,
{
    if 0 <= i < items.len() {
        let (op, prim) = items[i];
        assert(spec_climb(items, i + 1, prim, next_min_level(op)) == (prim, i + 1));
        let combined = Expression::Infix(op, Box::new(first), Box::new(prim));
        lemma_climb_left_chain(items, i + 1, combined, min, lv);
    }
}

/// Right associativity as a law: when every operator of the stream is
/// right-associative and of one binding level, the climb groups the
/// stream right to left, nesting later operators deeper on the right.
pub proof fn lemma_climb_right_chain(
    items: Seq<(InfixOp, Expression)>,
    i: int,
    first: Expression,
    min: int,
    lv: int,
)
    requires
        0 <= i <= items.len(),
        min <= lv,
        forall|m: int|
            0 <= m < items.len() ==> spec_level((#[trigger] items[m]).0) == lv && spec_assoc(
                items[m].0,
            ) == Assoc::Right,
    ensures
        spec_climb(items, i, first, min).0 == right_fold(items, i, first),
        spec_climb(items, i, first, min).1 == items.len(),
    decreases items.len() - i,
{
    if 0 <= i < items.len() {
        let (op, prim) = items[i];
        lemma_climb_right_chain(items, i + 1, prim, next_min_level(op), lv);
        let inner = spec_climb(items, i + 1, prim, next_min_level(op));
        let combined = Expression::Infix(op, Box::new(first), Box::new(inner.0));
        assert(spec_climb(items, inner.1, combined, min) == (combined, inner.1));
    }
}

/// Climbs the stream, returning the built tree and the index of the
/// first operator it did not consume.
pub fn climb(items: &Vec<(InfixOp, Expression)>, start: usize, first: Expression, min: u32) -> (r: (
    Expression,
    usize,
))
    requires
        start <= items@.len(),
    ensures
        r.0 == spec_climb(items@, start as int, first, min as int).0,
        r.1 as int == spec_climb(items@, start as int, first, min as int).1,
        start <= r.1 <= items@.len(),
    decreases items@.len() - start,
{
    if start >= items.len() {
        return (first, start);
    }
    let op: InfixOp = items[start].0;
    let lv: u32 = level(op);
    if lv < min {
        return (first, start);
    }
    let next_min: u32 = if associativity(op) == Assoc::Left {
        lv + 1
    } else {
        lv
    };
    let prim = clone_expr(&items[start].1);
    let (rhs, j) = climb(items, start + 1, prim, next_min);
    let combined = Expression::infix(op, first, rhs);
    climb(items, j, combined, min)
}

} // verus!

