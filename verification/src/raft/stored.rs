//! What a node keeps on disk of the log's state, as JSON texts.

use vstd::prelude::*;

use crate::raft::cluster::{nodes_view, NodeAddress};
use crate::raft::error::RaftError;
use crate::raft::types::{
    configs_view, orderly, LogId, Membership, MembershipView, StoredMembership,
    StoredMembershipView,
};

verus! {

/// A failure to read or write a JSON text.
#[verifier::external_type_specification]
#[verifier::external_body]
pub struct ExJsonError(serde_json::Error);

/// A place in the log: term, leader and index.
pub type Place = (u64, u64, u64);

/// A place that may be missing, the voters, and the members with their
/// addresses.
pub type MemberParts = (Option<Place>, Seq<Seq<u64>>, Seq<(u64, Seq<char>)>);

/// The JSON text of a place in the log.
pub uninterp spec fn place_json(place: Place) -> Seq<u8>;

/// The place in the log that a JSON text stands for, where it stands for one.
pub uninterp spec fn parsed_place(json: Seq<u8>) -> Option<Place>;

/// The JSON text of members.
pub uninterp spec fn members_json(
    log_id: Option<Place>,
    configs: Seq<Seq<u64>>,
    nodes: Seq<(u64, Seq<char>)>,
) -> Seq<u8>;

/// The members that a JSON text stands for, where it stands for some.
pub uninterp spec fn parsed_members(json: Seq<u8>) -> Option<MemberParts>;

/// A place in the log, by its parts.
pub open spec fn place_of(log_id: LogId) -> Place {
    (log_id.term, log_id.node_id, log_id.index)
}

/// A place in the log that may be missing, by its parts.
pub open spec fn optional_place(log_id: Option<LogId>) -> Option<Place> {
    match log_id {
        Some(log_id) => Some(place_of(log_id)),
        None => None,
    }
}

/// Members by their parts.
pub open spec fn parts_of(m: StoredMembershipView) -> MemberParts {
    (optional_place(m.log_id), m.membership.configs, m.membership.nodes)
}

/// What was read of members, in mathematical terms.
pub open spec fn read_view(m: (Option<Place>, Vec<Vec<u64>>, Vec<NodeAddress>)) -> MemberParts {
    (m.0, configs_view(m.1@), nodes_view(m.2@))
}

/// Calls `serde_json::to_vec` on an `openraft::LogId` with the term, the leader
/// and the index, all of them numbers, which never fails. The text is a function of
/// the three numbers, and reading it gives the three back.
#[verifier::external_body]
fn write_place(place: Place) -> (r: Result<Vec<u8>, serde_json::Error>)
    ensures
        r is Ok,
        r matches Ok(json) ==> json@ == place_json(place) && parsed_place(json@) == Some(place),
{
    let leader = openraft::CommittedLeaderId::<u64>::new(place.0, place.1);
    serde_json::to_vec(&openraft::LogId::new(leader, place.2))
}

/// Calls `serde_json::from_slice` for an `openraft::LogId` and takes it apart.
/// Whether the text stands for one, and for which, is a function of the text.
#[verifier::external_body]
fn read_place(json: &[u8]) -> (r: Result<Place, serde_json::Error>)
    ensures
        match r {
            Ok(place) => parsed_place(json@) == Some(place),
            Err(_) => parsed_place(json@) is None,
        },
{
    let id: openraft::LogId<u64> = serde_json::from_slice(json)?;
    Ok((id.leader_id.term, id.leader_id.node_id, id.index))
}

/// Calls `serde_json::to_vec` on an `openraft::StoredMembership` that
/// `openraft::Membership::new` makes of the voters and the members: numbers, texts
/// and maps with numbers as keys, which never fails. The text is a function of
/// these, and where they are in order, reading it gives them back.
#[verifier::external_body]
fn write_members(
    log_id: Option<Place>,
    configs: &Vec<Vec<u64>>,
    nodes: &Vec<NodeAddress>,
) -> (r: Result<Vec<u8>, serde_json::Error>)
    ensures
        r is Ok,
        r matches Ok(json) ==> json@ == members_json(
            log_id,
            configs_view(configs@),
            nodes_view(nodes@),
        ),
        r matches Ok(json) ==> orderly(
            (MembershipView { configs: configs_view(configs@), nodes: nodes_view(nodes@) }),
        ) ==> parsed_members(json@) == Some(
            (log_id, configs_view(configs@), nodes_view(nodes@)),
        ),
{
    let place = |p: Place| openraft::LogId::new(openraft::CommittedLeaderId::new(p.0, p.1), p.2);
    let voters = configs.iter().map(|c| c.iter().copied().collect()).collect();
    let node = |n: &NodeAddress| (n.0, openraft::BasicNode { addr: n.1.clone() });
    let known: std::collections::BTreeMap<u64, openraft::BasicNode> =
        nodes.iter().map(node).collect();
    let members = openraft::Membership::new(voters, known);
    serde_json::to_vec(&openraft::StoredMembership::new(log_id.map(place), members))
}

/// Calls `serde_json::from_slice` for an `openraft::StoredMembership` and takes
/// it apart. Whether the text stands for one, and for which, is a function of
/// the text.
#[verifier::external_body]
fn read_members(json: &[u8]) -> (r: Result<
    (Option<Place>, Vec<Vec<u64>>, Vec<NodeAddress>),
    serde_json::Error,
>)
    ensures
        match r {
            Ok(m) => parsed_members(json@) == Some(read_view(m)),
            Err(_) => parsed_members(json@) is None,
        },
{
    let m: openraft::StoredMembership<u64, openraft::BasicNode> = serde_json::from_slice(json)?;
    let id = m.log_id().map(|id| (id.leader_id.term, id.leader_id.node_id, id.index));
    let configs = m.membership().get_joint_config();
    let voters = configs.iter().map(|c| c.iter().copied().collect()).collect();
    Ok((id, voters, m.nodes().map(|(id, n)| (*id, n.addr.clone())).collect()))
}

/// Writes out a place in the log.
pub fn encode_log_id(log_id: LogId) -> (r: Result<Vec<u8>, RaftError>)
    ensures
        r matches Ok(json) && json@ == place_json(place_of(log_id)) && parsed_place(json@) == Some(
            place_of(log_id),
        ),
{
    match write_place((log_id.term, log_id.node_id, log_id.index)) {
        Ok(json) => Ok(json),
        Err(e) => Err(RaftError::Serialization(e.to_string())),
    }
}

/// Reads a place in the log.
pub fn decode_log_id(json: &[u8]) -> (r: Result<LogId, RaftError>)
    ensures
        match r {
            Ok(log_id) => parsed_place(json@) == Some(place_of(log_id)),
            Err(e) => parsed_place(json@) is None && e is Storage,
        },
{
    match read_place(json) {
        Ok((term, node_id, index)) => Ok(LogId { term, node_id, index }),
        Err(e) => Err(RaftError::Storage(e.to_string())),
    }
}

/// Writes out members.
pub fn encode_membership(m: &StoredMembership) -> (r: Result<Vec<u8>, RaftError>)
    ensures
        r matches Ok(json) && json@ == members_json(
            optional_place(m@.log_id),
            m@.membership.configs,
            m@.membership.nodes,
        ) && (orderly(m@.membership) ==> parsed_members(json@) == Some(parts_of(m@))),
{
    let place: Option<Place> = match &m.log_id {
        Some(log_id) => Some((log_id.term, log_id.node_id, log_id.index)),
        None => None,
    };
    match write_members(place, &m.membership.configs, &m.membership.nodes) {
        Ok(json) => Ok(json),
        Err(e) => Err(RaftError::Serialization(e.to_string())),
    }
}

/// Reads members.
pub fn decode_membership(json: &[u8]) -> (r: Result<StoredMembership, RaftError>)
    ensures
        match r {
            Ok(m) => parsed_members(json@) == Some(parts_of(m@)),
            Err(e) => parsed_members(json@) is None && e is Storage,
        },
{
    match read_members(json) {
        Ok((place, configs, nodes)) => {
            let log_id: Option<LogId> = match place {
                Some((term, node_id, index)) => Some(LogId { term, node_id, index }),
                None => None,
            };
            Ok(StoredMembership { log_id, membership: Membership { configs, nodes } })
        },
        Err(e) => Err(RaftError::Storage(e.to_string())),
    }
}

} // verus!
