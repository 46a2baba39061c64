//! The relational-algebra expression tree, as the parser hands it over.
use vstd::prelude::*;

use crate::structs::{Loc, LocExpr, Symbol};
use crate::type_system::TableName;

verus! {

pub type LocNode = Loc<Node>;

/// An algebra expression.
#[derive(Debug)]
pub enum Node {
    CrossProduct(Box<LocNode>, Box<LocNode>),
    Union(Box<LocNode>, Box<LocNode>),
    Difference(Box<LocNode>, Box<LocNode>),
    Intersect(Box<LocNode>, Box<LocNode>),
    Selection(Box<LocNode>, Vec<LocFilterExpr>),
    Projection(Box<LocNode>, Vec<Symbol>),
    Division(Box<LocNode>, Box<LocNode>),
    Rename(Box<LocNode>, Vec<(Symbol, Symbol)>),
    InnerJoin(Box<LocNode>, Box<LocNode>, Vec<FilterExpr>),
    EquiJoin(Box<LocNode>, Box<LocNode>, Vec<String>),
    NatureJoin(Box<LocNode>, Box<LocNode>),
    LeftJoin(),
    RightJoin(),
    FullJoin(),
    Reduce(LocItemReduce),
    Table(TableName),
}

pub type LocItemReduce = Loc<ItemReduce>;

/// An aggregation over one relation.
#[derive(Debug)]
pub enum ItemReduce {
    Count(Box<LocNode>),
    Sum(Box<LocNode>, Symbol),
    Avg(Box<LocNode>, Symbol),
    Max(Box<LocNode>, Symbol),
    Min(Box<LocNode>, Symbol),
}

pub type LocFilterExpr = Loc<FilterExpr>;

/// A row filter: comparisons combined by connectives, or a positional pick.
#[derive(Debug)]
pub enum FilterExpr {
    And(Vec<Box<LocCompExpr>>),
    Or(Vec<Box<LocCompExpr>>),
    Not(Box<LocCompExpr>),
    Comp(Box<LocCompExpr>),
    Range(u64, u64),
    GetItem(u64),
    GetFirst,
    GetLast,
}

pub type LocCompExpr = Loc<CompExpr>;

/// A comparison of two scalar expressions.
#[derive(Debug)]
pub enum CompExpr {
    Eq(Box<LocExpr>, Box<LocExpr>),
    Lt(Box<LocExpr>, Box<LocExpr>),
    Gt(Box<LocExpr>, Box<LocExpr>),
    In(Box<LocExpr>, Box<LocExpr>),
}

} // verus!
