//! The operator precedence table.
//!
//! Binary operators with defined semantics are fixed at
//! `Add:1/L, Sub:1/L, Mul:2/L, Div:2/L, Pow:3/R`.  The reserved kinds
//! `Eq`, `Neq`, `And` and `Or` have no evaluation semantics yet; so that an
//! expression using them still parses (and fails only at evaluation), the
//! parser gives all four one flat infix level below `Add`, left-associative.
//! Prefix (unary) operators bind at `UNARY_PREC`, strictly above every binary
//! level.

use vstd::prelude::*;
use crate::ast::Op;

verus! {

/// Associativity of a binary operator: whether equal-precedence chains group
/// left-to-right or right-to-left.
#[derive(Clone, Copy, Debug, PartialEq, Eq, Structural)]
pub enum Ass {
    Left,
    Right,
}

/// Binding strength of a prefix operator; strictly above every binary level,
/// so a prefix operator always captures the tightest possible operand.
pub const UNARY_PREC: u8 = 4;

/// The precedence table for the binary operators with defined semantics.
pub open spec fn spec_get_prec(op: Op) -> Option<(u8, Ass)> {
    match op {
        Op::Add => Some((1, Ass::Left)),
        Op::Sub => Some((1, Ass::Left)),
        Op::Mul => Some((2, Ass::Left)),
        Op::Div => Some((2, Ass::Left)),
        Op::Pow => Some((3, Ass::Right)),
        _ => None,
    }
}

/// Precedence and associativity assigned to `op` when it occurs in infix
/// position: the table value for the five arithmetic operators, one flat
/// reserved level below `Add` for `Eq`/`Neq`/`And`/`Or`, and `None` for
/// `Not`, which is prefix-only.
pub open spec fn spec_infix_prec(op: Op) -> Option<(u8, Ass)> {
    match op {
        Op::Eq => Some((0, Ass::Left)),
        Op::Neq => Some((0, Ass::Left)),
        Op::And => Some((0, Ass::Left)),
        Op::Or => Some((0, Ass::Left)),
        Op::Not => None,
        _ => spec_get_prec(op),
    }
}

/// `op` may occur in prefix position.
pub open spec fn spec_unary_capable(op: Op) -> bool {
    op == Op::Add || op == Op::Sub || op == Op::Not
}

/// The precedence table, defined exactly for `Add`, `Sub`, `Mul`, `Div` and
/// `Pow`.
pub fn get_prec(op: &Op) -> (r: (u8, Ass))
    requires
        spec_get_prec(*op) is Some,
    ensures
        Some(r) == spec_get_prec(*op),
{
    match op {
        Op::Add => (1, Ass::Left),
        Op::Sub => (1, Ass::Left),
        Op::Mul => (2, Ass::Left),
        Op::Div => (2, Ass::Left),
        _ => (3, Ass::Right),
    }
}

/// Precedence and associativity of `op` in infix position, if it has one.
pub fn infix_prec(op: &Op) -> (r: Option<(u8, Ass)>)
    ensures
        r == spec_infix_prec(*op),
{
    match op {
        Op::Eq => Some((0, Ass::Left)),
        Op::Neq => Some((0, Ass::Left)),
        Op::And => Some((0, Ass::Left)),
        Op::Or => Some((0, Ass::Left)),
        Op::Not => None,
        _ => Some(get_prec(op)),
    }
}

/// `op` may occur in prefix position.
pub fn unary_capable(op: &Op) -> (r: bool)
    ensures
        r == spec_unary_capable(*op),
{
    match op {
        Op::Add => true,
        Op::Sub => true,
        Op::Not => true,
        _ => false,
    }
}

} // verus!
