//! What every answer carries.
use vstd::prelude::*;

verus! {

/// How a request went.
#[derive(Clone, Copy, Debug, PartialEq, Eq, Hash, PartialOrd, Ord)]
pub enum Code {
    Success,
    Failure,
}

/// The outcome of a request: the number of its `Code`, and a message.
#[derive(Clone, Debug, PartialEq)]
pub struct Status {
    pub code: i32,
    pub msg: String,
}

} // verus!
