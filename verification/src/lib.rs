//! A multi-tenant data-loading cache: a coalescing sampler over the index sets
//! of many jobs, an arena of descriptors and payloads, and the scheduler that
//! couples the two.

pub mod cache;
pub mod dataset;
pub mod joader;
pub mod job;
pub mod loader;
pub mod local_cache;
pub mod process;
pub mod proto;
pub mod sampler;
pub mod service;

use vstd::prelude::*;

verus! {

/// The part a host plays when sampling is sharded over several hosts.
#[derive(Debug, Copy, Clone, PartialEq, Eq, Structural)]
pub enum Role {
    Leader,
    Follower,
}

} // verus!
