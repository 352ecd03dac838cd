//! The coalescing sampler: bitmap value sets and the tree built over them.
pub mod bits;
pub mod decision;
pub mod random;
pub mod sampler_node;
pub mod sampler_tree;
pub mod values_set;
