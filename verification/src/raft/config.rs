//! How a node takes part in its cluster.

use vstd::prelude::*;

use crate::raft::error::RaftError;
use crate::text::decimal;

verus! {

/// How a node takes part in its cluster.
#[derive(Debug)]
pub struct RaftConfig {
    /// The node.
    pub node_id: u64,
    /// The address that it listens on.
    pub raft_listen_addr: String,
    /// The address that others reach it by.
    pub raft_advertise_addr: String,
    /// How often a leader is heard of, in milliseconds.
    pub heartbeat_interval_ms: u64,
    /// How long a node waits for a leader at least, in milliseconds.
    pub election_timeout_min_ms: u64,
    /// How long a node waits for a leader at most, in milliseconds.
    pub election_timeout_max_ms: u64,
    /// How many entries of the log call for a snapshot.
    pub snapshot_threshold: u64,
    /// How many entries of the log are sent at once.
    pub max_entries_per_append: u64,
    /// Where the node keeps its data.
    pub data_dir: String,
}

/// The configuration that the cluster's algorithm runs by.
#[verifier::external_type_specification]
#[verifier::external_body]
pub struct ExClusterConfig(openraft::Config);

/// The configuration that settings give. The other settings are the outside
/// crate's defaults.
pub uninterp spec fn cluster_config(
    name: Seq<char>,
    heartbeat: u64,
    min: u64,
    max: u64,
    entries: u64,
    threshold: u64,
) -> openraft::Config;

/// What is wrong with settings, where something is.
pub open spec fn config_problem(heartbeat: u64, min: u64, max: u64, entries: u64) -> Option<
    Seq<char>,
> {
    if min >= max {
        Some(
            "election timeout: min("@ + decimal(min as nat) + ") must be < max("@ + decimal(
                max as nat,
            ) + ")"@,
        )
    } else if min <= heartbeat {
        Some(
            "election_timeout_min("@ + decimal(min as nat) + ") must be > heartbeat_interval("@
                + decimal(heartbeat as nat) + ")"@,
        )
    } else if entries == 0 {
        Some("max_payload_entries must be > 0"@)
    } else {
        None
    }
}

/// Calls `openraft::Config::validate` on a configuration with the settings and
/// otherwise the defaults, and writes out the error where there is one. The
/// waiting times must be ordered, longer than the heartbeat, and entries must be
/// sent; else the error says which of these fails first.
#[verifier::external_body]
fn validated(
    name: &str,
    heartbeat: u64,
    times: (u64, u64),
    entries: u64,
    threshold: u64,
) -> (r: Result<openraft::Config, String>)
    ensures
        match r {
            Ok(c) => config_problem(heartbeat, times.0, times.1, entries) is None && c
                == cluster_config(name@, heartbeat, times.0, times.1, entries, threshold),
            Err(text) => config_problem(heartbeat, times.0, times.1, entries) == Some(text@),
        },
{
    let config = openraft::Config {
        cluster_name: name.to_string(),
        heartbeat_interval: heartbeat,
        election_timeout_min: times.0,
        election_timeout_max: times.1,
        max_payload_entries: entries,
        snapshot_policy: openraft::SnapshotPolicy::LogsSinceLast(threshold),
        ..Default::default()
    };
    config.validate().map_err(|e| e.to_string())
}

/// The configuration that a node's settings give, or why they cannot be used.
pub fn build_cluster_config(config: &RaftConfig) -> (r: Result<openraft::Config, RaftError>)
    ensures
        ({
            let problem = config_problem(
                config.heartbeat_interval_ms,
                config.election_timeout_min_ms,
                config.election_timeout_max_ms,
                config.max_entries_per_append,
            );
            match r {
                Ok(c) => problem is None && c == cluster_config(
                    "ormdb-cluster"@,
                    config.heartbeat_interval_ms,
                    config.election_timeout_min_ms,
                    config.election_timeout_max_ms,
                    config.max_entries_per_append,
                    config.snapshot_threshold,
                ),
                Err(e) => e matches RaftError::Initialization(text) && problem == Some(text@),
            }
        }),
{
    match validated(
        "ormdb-cluster",
        config.heartbeat_interval_ms,
        (config.election_timeout_min_ms, config.election_timeout_max_ms),
        config.max_entries_per_append,
        config.snapshot_threshold,
    ) {
        Ok(c) => Ok(c),
        Err(text) => Err(RaftError::Initialization(text)),
    }
}

} // verus!
