//! The abstract syntax tree and the error type that parsing returns.

use vstd::prelude::*;

verus! {

/// A binary infix operator of the expression language.
#[derive(Debug, Clone, Copy, PartialEq, Eq, Structural)]
pub enum InfixOp {
    Plus,
    Minus,
    Times,
    Divide,
    Modulus,
    Power,
}

/// The abstract syntax tree: a literal leaf, or an operator node that
/// exclusively owns its two children, so the tree is finite and acyclic.
#[derive(Debug, PartialEq, Eq)]
pub enum Expression {
    Number(i32),
    Infix(InfixOp, Box<Expression>, Box<Expression>),
}

/// Why parsing failed: malformed input rejected by the front end, or a
/// lexically valid literal whose value does not fit in an `i32`.
/// `position` and `text` are pinned by the parsing contracts; the
/// human-readable `message` and `reason` strings are not.
#[derive(Debug)]
pub enum ParseError {
    SyntaxError { message: String, position: usize },
    LiteralError { text: String, reason: String },
}

/// How many literal leaves the tree has.
pub open spec fn leaf_count(e: Expression) -> nat
    decreases e,
{
    match e {
        Expression::Number(_) => 1,
        Expression::Infix(_, l, r) => leaf_count(*l) + leaf_count(*r),
    }
}

/// How many operator nodes the tree has.
pub open spec fn op_count(e: Expression) -> nat
    decreases e,
{
    match e {
        Expression::Number(_) => 0,
        Expression::Infix(_, l, r) => 1 + op_count(*l) + op_count(*r),
    }
}

impl Expression {
    /// Combines two subtrees under an operator node.
    pub fn infix(op: InfixOp, lhs: Expression, rhs: Expression) -> (r: Expression)
        ensures
            r == Expression::Infix(op, Box::new(lhs), Box::new(rhs)),
    {
        Expression::Infix(op, Box::new(lhs), Box::new(rhs))
    }
}

/// A structural copy of a tree.
pub fn clone_expr(e: &Expression) -> (r: Expression)
    ensures
        r == *e,
    decreases *e,
{
    match e {
        Expression::Number(n) => Expression::Number(*n),
        Expression::Infix(op, l, r) => Expression::Infix(
            *op,
            Box::new(clone_expr(&**l)),
            Box::new(clone_expr(&**r)),
        ),
    }
}

} // verus!
