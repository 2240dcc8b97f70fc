//! ORMDB: a versioned entity store with snapshot-consistent graph fetches.

pub mod bytes;
pub mod catalog;
pub mod codec;
pub mod error;
pub mod gateway;
pub mod query;
pub mod raft;
pub mod security;
pub mod server;
pub mod storage;
pub mod text;
pub mod value;
