//! The arena: descriptors, payloads, and the cache that hands them out.
pub mod cached_data;
pub mod data_block;
pub mod data_segment;
pub mod freelist;
pub mod head;
pub mod head_segment;
pub mod cache;
