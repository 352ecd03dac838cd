//! What the services share.
pub mod common;
pub mod id_table;
