//! The scheduler of a dataset, and the table of all of them.
pub mod joader;
pub mod joader_table;
