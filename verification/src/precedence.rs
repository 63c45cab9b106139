//! The precedence table: each operator's fixed binding level and
//! associativity.  This is immutable configuration, total over
//! [`InfixOp`], so no operator can reach the tree builder without an
//! entry here.

use vstd::prelude::*;

use crate::ast::InfixOp;

verus! {

/// Whether repeated operators of one level group to the left or to the right.
#[derive(Debug, Clone, Copy, PartialEq, Eq, Structural)]
pub enum Assoc {
    Left,
    Right,
}

/// The lowest binding level in the table; the top-level climb starts here.
pub const LOWEST_LEVEL: u32 = 1;

/// The binding level of an operator: `+ -` bind loosest, `^` tightest.
pub open spec fn spec_level(op: InfixOp) -> int {
    match op {
        InfixOp::Plus => 1,
        InfixOp::Minus => 1,
        InfixOp::Times => 2,
        InfixOp::Divide => 2,
        InfixOp::Modulus => 2,
        InfixOp::Power => 3,
    }
}

/// The associativity of an operator: only `^` groups to the right.
pub open spec fn spec_assoc(op: InfixOp) -> Assoc {
    match op {
        InfixOp::Power => Assoc::Right,
        _ => Assoc::Left,
    }
}

/// Looks an operator's binding level up in the table.
pub fn level(op: InfixOp) -> (r: u32)
    ensures
        r as int == spec_level(op),
{
    match op {
        InfixOp::Plus => 1,
        InfixOp::Minus => 1,
        InfixOp::Times => 2,
        InfixOp::Divide => 2,
        InfixOp::Modulus => 2,
        InfixOp::Power => 3,
    }
}

/// Looks an operator's associativity up in the table.
pub fn associativity(op: InfixOp) -> (r: Assoc)
    ensures
        r == spec_assoc(op),
{
    match op {
        InfixOp::Power => Assoc::Right,
        InfixOp::Plus => Assoc::Left,
        InfixOp::Minus => Assoc::Left,
        InfixOp::Times => Assoc::Left,
        InfixOp::Divide => Assoc::Left,
        InfixOp::Modulus => Assoc::Left,
    }
}

} // verus!
