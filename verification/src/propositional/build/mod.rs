//! Shorthands for building sentences.

use vstd::prelude::*;
use super::expr::{Expr, Symbol};

verus! {

/// The constant `True`.
pub fn t() -> (r: Expr)
    ensures
        r == Expr::True,
{
    Expr::True
}

/// The constant `False`.
pub fn f() -> (r: Expr)
    ensures
        r == Expr::False,
{
    Expr::False
}

/// The symbol `var`.
pub fn var(symbol: Symbol) -> (r: Expr)
    ensures
        r == Expr::Var(symbol),
{
    Expr::Var(symbol)
}

/// `~s`
pub fn not(s: Expr) -> (r: Expr)
    ensures
        r == Expr::Not(Box::new(s)),
{
    Expr::Not(Box::new(s))
}

/// `lhs & rhs`
pub fn and(lhs: Expr, rhs: Expr) -> (r: Expr)
    ensures
        r == Expr::And(Box::new(lhs), Box::new(rhs)),
{
    Expr::And(Box::new(lhs), Box::new(rhs))
}

/// `lhs | rhs`
pub fn or(lhs: Expr, rhs: Expr) -> (r: Expr)
    ensures
        r == Expr::Or(Box::new(lhs), Box::new(rhs)),
{
    Expr::Or(Box::new(lhs), Box::new(rhs))
}

/// `lhs => rhs`
pub fn imply(lhs: Expr, rhs: Expr) -> (r: Expr)
    ensures
        r == Expr::Imply(Box::new(lhs), Box::new(rhs)),
{
    Expr::Imply(Box::new(lhs), Box::new(rhs))
}

/// `lhs <=> rhs`
pub fn iff(lhs: Expr, rhs: Expr) -> (r: Expr)
    ensures
        r == Expr::Iff(Box::new(lhs), Box::new(rhs)),
{
    Expr::Iff(Box::new(lhs), Box::new(rhs))
}

} // verus!
