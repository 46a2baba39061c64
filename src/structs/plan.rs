//! Logical query plans, as a planner builds them from an expression.
use vstd::prelude::*;

use crate::structs::{Expr, Symbol};

verus! {

/// A plan node.
#[derive(Debug)]
pub enum Plan {
    Product(Box<Plan>, Box<Plan>),
    Union(Box<Plan>, Box<Plan>),
    Difference(Box<Plan>, Box<Plan>),
    Intersect(Box<Plan>, Box<Plan>),
    Selection(Box<Plan>, Box<FilterExpr>),
    Projection(Box<Plan>, Vec<Symbol>),
    Division(Box<Plan>, Box<Plan>),
    Reduce(ItemReduce),
    Table(String),
}

/// An aggregation over a plan.
#[derive(Debug)]
pub enum ItemReduce {
    Count(Box<Plan>),
    Sum(Box<Plan>, Symbol),
    Avg(Box<Plan>, Symbol),
    Max(Box<Plan>, Symbol),
    Min(Box<Plan>, Symbol),
}

/// A row filter of a plan.
#[derive(Debug)]
pub enum FilterExpr {
    And(Vec<Box<CompExpr>>),
    Or(Vec<Box<CompExpr>>),
    Not(Box<CompExpr>),
    Comp(Box<CompExpr>),
    Range(u64, u64),
    GetItem(u64),
    GetFirst,
    GetLast,
}

/// A comparison of a plan; `In` tests membership in a sub-plan.
#[derive(Debug)]
pub enum CompExpr {
    Eq(Box<Expr>, Box<Expr>),
    Lt(Box<Expr>, Box<Expr>),
    Gt(Box<Expr>, Box<Expr>),
    In(Box<Expr>, Box<Plan>),
}

} // verus!
