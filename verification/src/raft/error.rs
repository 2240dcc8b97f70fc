//! What can go wrong in replication.

use vstd::prelude::*;
use vstd::string::StringExecFns;

use crate::text::{decimal, decimal_text, join2};

verus! {

/// An error of replication.
#[derive(Debug)]
pub enum RaftError {
    /// Replication could not be started.
    Initialization(String),
    /// The store failed.
    Storage(String),
    /// The network failed.
    Network(String),
    /// Something could not be written out.
    Serialization(String),
    /// A write failed.
    Write(String),
    /// A linearizable read failed.
    Read(String),
    /// The members could not be changed.
    MembershipChange(String),
    /// There is no leader.
    NoLeader,
    /// This node is not the leader.
    NotLeader {
        /// The leader.
        leader_id: Option<u64>,
        /// The leader's address.
        leader_addr: Option<String>,
    },
    /// A snapshot failed.
    Snapshot(String),
    /// Shutting down failed.
    Shutdown(String),
    /// An operation took too long.
    Timeout(String),
    /// Something else failed.
    Internal(String),
}

/// Calls `fmt` of `std::fmt::Debug` on the text, by way of `format!`: the text in
/// quotation marks, with some characters escaped. Which ones, and how, is the
/// standard library's: the result has a name and is not described.
#[verifier::external_body]
fn quoted(text: &str) -> (s: String)
    ensures
        s@ == quoted_text(text@),
{
    format!("{:?}", text)
}

/// A text in quotation marks, as the standard library writes it for debugging.
pub uninterp spec fn quoted_text(text: Seq<char>) -> Seq<char>;

/// A node's number that may be missing, written out.
pub open spec fn optional_number_text(n: Option<u64>) -> Seq<char> {
    match n {
        Some(n) => "Some("@ + decimal(n as nat) + ")"@,
        None => "None"@,
    }
}

/// An address that may be missing, written out.
pub open spec fn optional_address_text(a: Option<String>) -> Seq<char> {
    match a {
        Some(a) => "Some("@ + quoted_text(a@) + ")"@,
        None => "None"@,
    }
}

/// The text of an error of replication.
pub open spec fn raft_error_text(e: RaftError) -> Seq<char> {
    match e {
        RaftError::Initialization(s) => "Raft initialization failed: "@ + s@,
        RaftError::Storage(s) => "Storage error: "@ + s@,
        RaftError::Network(s) => "Network error: "@ + s@,
        RaftError::Serialization(s) => "Serialization error: "@ + s@,
        RaftError::Write(s) => "Write error: "@ + s@,
        RaftError::Read(s) => "Linearizable read error: "@ + s@,
        RaftError::MembershipChange(s) => "Membership change error: "@ + s@,
        RaftError::NoLeader => "No leader available"@,
        RaftError::NotLeader { leader_id, leader_addr } =>
            "Not the leader, current leader is node "@ + optional_number_text(leader_id) + " at "@
                + optional_address_text(leader_addr),
        RaftError::Snapshot(s) => "Snapshot error: "@ + s@,
        RaftError::Shutdown(s) => "Shutdown error: "@ + s@,
        RaftError::Timeout(s) => "Operation timed out: "@ + s@,
        RaftError::Internal(s) => "Internal error: "@ + s@,
    }
}

fn optional_number(n: &Option<u64>) -> (s: String)
    ensures
        s@ == optional_number_text(*n),
{
    match n {
        Some(n) => {
            let mut s: String = "Some(".to_owned();
            s.append(decimal_text(*n as u128).as_str());
            s.append(")");
            s
        },
        None => "None".to_owned(),
    }
}

fn optional_address(a: &Option<String>) -> (s: String)
    ensures
        s@ == optional_address_text(*a),
{
    match a {
        Some(a) => {
            let mut s: String = "Some(".to_owned();
            s.append(quoted(a.as_str()).as_str());
            s.append(")");
            s
        },
        None => "None".to_owned(),
    }
}

/// Writes out an error of replication.
pub fn raft_error_message(e: &RaftError) -> (s: String)
    ensures
        s@ == raft_error_text(*e),
{
    match e {
        RaftError::Initialization(s) => join2("Raft initialization failed: ", s.as_str()),
        RaftError::Storage(s) => join2("Storage error: ", s.as_str()),
        RaftError::Network(s) => join2("Network error: ", s.as_str()),
        RaftError::Serialization(s) => join2("Serialization error: ", s.as_str()),
        RaftError::Write(s) => join2("Write error: ", s.as_str()),
        RaftError::Read(s) => join2("Linearizable read error: ", s.as_str()),
        RaftError::MembershipChange(s) => join2("Membership change error: ", s.as_str()),
        RaftError::NoLeader => "No leader available".to_owned(),
        RaftError::NotLeader { leader_id, leader_addr } => {
            let mut s: String = "Not the leader, current leader is node ".to_owned();
            s.append(optional_number(leader_id).as_str());
            s.append(" at ");
            s.append(optional_address(leader_addr).as_str());
            s
        },
        RaftError::Snapshot(s) => join2("Snapshot error: ", s.as_str()),
        RaftError::Shutdown(s) => join2("Shutdown error: ", s.as_str()),
        RaftError::Timeout(s) => join2("Operation timed out: ", s.as_str()),
        RaftError::Internal(s) => join2("Internal error: ", s.as_str()),
    }
}

} // verus!
