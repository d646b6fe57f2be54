//! A small in-memory data store in the style of Redis: string values, sorted
//! sets and lists under string keys, with millisecond expiry, a binary wire
//! format for replies and a command interpreter.

pub mod shard;
pub mod text;
pub mod zset;
pub mod store;
pub mod proto;
pub mod handler;
pub mod stats;
pub mod server;
pub mod laws;
pub mod command_laws;
