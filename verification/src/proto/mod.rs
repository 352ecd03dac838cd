//! The messages that the service exchanges, as plain values.
pub mod common;
pub mod job;
