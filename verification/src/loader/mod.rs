//! The hosts among which the indices of a job are dealt.
pub mod loader;
