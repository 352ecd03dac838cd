//! The messages about jobs.
use vstd::prelude::*;

pub mod expr;

verus! {

/// One comparison of a condition: the number of its `expr::Operation`, and
/// the number to compare with, in decimal digits.
#[derive(Clone, Debug, PartialEq)]
pub struct Expr {
    pub op: i32,
    pub rhs: String,
}

/// A filter over the samples of a dataset: all its comparisons must hold of
/// the first key of a sample.
#[derive(Clone, Debug, PartialEq)]
pub struct Condition {
    pub exprs: Vec<Expr>,
}

} // verus!
