//! The server: mutations, requests and their transport.

pub mod access_laws;
pub mod batch;
pub mod changelog;
pub mod consistency;
pub mod database;
pub mod error;
pub mod framing;
pub mod handler;
pub mod mutation;
pub mod mutation_laws;
pub mod protocol;
pub mod stream_laws;
pub mod transport;
pub mod truth_laws;
