//! The consumers of samples.
pub mod job;
