//! Records in MessagePack: writing them and reading them back.
pub mod msgpack;
