//! The comparisons of a condition.
use vstd::prelude::*;

verus! {

/// A comparison.
#[derive(Clone, Copy, Debug, PartialEq, Eq, Hash)]
pub enum Operation {
    Lt,
    Leq,
    Gt,
    Geq,
    Eq,
}

} // verus!
