//! What a cache of whole payloads gives up first.
pub mod policy;
