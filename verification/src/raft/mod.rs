//! Replication: what a node does with the log that the cluster agrees on.

pub mod apply;
pub mod cluster;
pub mod config;
pub mod error;
pub mod state_machine;
pub mod stored;
pub mod types;
