//! Expression trees and the operator table.

use vstd::prelude::*;

verus! {

/// An infix operator.
#[derive(Debug, Clone, Copy, PartialEq, Eq, Structural)]
pub enum Op {
    Add,
    Subtract,
    Multiply,
    Divide,
    Modulo,
}

/// An expression tree.  Each node owns its children.
#[derive(Debug, PartialEq, Eq)]
pub enum Expr {
    Integer(i32),
    UnaryMinus(Box<Expr>),
    BinOp { lhs: Box<Expr>, op: Op, rhs: Box<Expr> },
}

/// The precedence tier of an operator.  A higher tier binds tighter:
/// the additive operators are in tier 1, the multiplicative ones in tier 2.
/// All operators associate to the left.
pub open spec fn tier_of(op: Op) -> nat {
    match op {
        Op::Add | Op::Subtract => 1,
        Op::Multiply | Op::Divide | Op::Modulo => 2,
    }
}

impl Op {
    /// The precedence tier of this operator.
    pub fn tier(&self) -> (t: u8)
        ensures
            t == tier_of(*self),
    {
        match self {
            Op::Add | Op::Subtract => 1,
            Op::Multiply | Op::Divide | Op::Modulo => 2,
        }
    }
}

} // verus!
