//! What is replicated, and what a node answers to it.

use vstd::prelude::*;

use crate::bytes::copy_slice;
use crate::raft::cluster::{address_of, nodes_view, NodeAddress};
use crate::server::mutation::{
    mutations_view, Mutation, MutationBatch, MutationResult, MutationResultView, MutationView,
};

verus! {

/// A place in the log.
#[derive(Debug, Clone, Copy, PartialEq, Eq, Structural)]
pub struct LogId {
    /// The leader's term.
    pub term: u64,
    /// The leader.
    pub node_id: u64,
    /// The place.
    pub index: u64,
}

/// The members of the cluster.
#[derive(Debug)]
pub struct Membership {
    /// The voters; where members change, those before and those after.
    pub configs: Vec<Vec<u64>>,
    /// The members with their addresses.
    pub nodes: Vec<NodeAddress>,
}

/// The members of the cluster, in mathematical terms.
pub ghost struct MembershipView {
    /// The voters.
    pub configs: Seq<Seq<u64>>,
    /// The members with their addresses.
    pub nodes: Seq<(u64, Seq<char>)>,
}

/// Voters in mathematical terms.
pub open spec fn configs_view(configs: Seq<Vec<u64>>) -> Seq<Seq<u64>> {
    configs.map_values(|c: Vec<u64>| c@)
}

impl View for Membership {
    type V = MembershipView;

    open spec fn view(&self) -> MembershipView {
        MembershipView { configs: configs_view(self.configs@), nodes: nodes_view(self.nodes@) }
    }
}

impl Membership {
    /// No members.
    pub fn empty() -> (m: Membership)
        ensures
            m@ == no_members(),
    {
        let m = Membership { configs: Vec::new(), nodes: Vec::new() };
        assert(m@.configs =~= no_members().configs);
        assert(m@.nodes =~= no_members().nodes);
        m
    }

    /// A copy.
    pub fn copy(&self) -> (m: Membership)
        ensures
            m@ == self@,
    {
        let mut configs: Vec<Vec<u64>> = Vec::new();
        let mut i: usize = 0;
        while i < self.configs.len()
            invariant
                i <= self.configs@.len(),
                configs@.len() == i,
                forall|k: int| 0 <= k < i ==> (#[trigger] configs@[k])@ == self.configs@[k]@,
            decreases self.configs@.len() - i,
        {
            configs.push(copy_slice(self.configs[i].as_slice()));
            i = i + 1;
        }
        let mut nodes: Vec<NodeAddress> = Vec::new();
        let mut j: usize = 0;
        while j < self.nodes.len()
            invariant
                j <= self.nodes@.len(),
                nodes@.len() == j,
                forall|k: int|
                    0 <= k < j ==> (#[trigger] nodes@[k]).0 == self.nodes@[k].0 && nodes@[k].1@
                        == self.nodes@[k].1@,
            decreases self.nodes@.len() - j,
        {
            nodes.push((self.nodes[j].0, self.nodes[j].1.clone()));
            j = j + 1;
        }
        assert(configs_view(configs@) =~= configs_view(self.configs@));
        assert(nodes_view(nodes@) =~= nodes_view(self.nodes@));
        Membership { configs, nodes }
    }
}

/// No members.
pub open spec fn no_members() -> MembershipView {
    MembershipView { configs: Seq::empty(), nodes: Seq::empty() }
}

/// Whether members are as the cluster hands them out: in ascending order, and
/// with an address for every voter.
pub open spec fn orderly(m: MembershipView) -> bool {
    &&& forall|c: int, i: int, j: int|
        0 <= c < m.configs.len() && 0 <= i < j < m.configs[c].len() ==> #[trigger] m.configs[c][i]
            < #[trigger] m.configs[c][j]
    &&& forall|i: int, j: int|
        0 <= i < j < m.nodes.len() ==> (#[trigger] m.nodes[i]).0 < (#[trigger] m.nodes[j]).0
    &&& forall|c: int, i: int|
        0 <= c < m.configs.len() && 0 <= i < m.configs[c].len() ==> address_of(
            m.nodes,
            #[trigger] m.configs[c][i],
        ) is Some
}

/// The members of the cluster, and the place in the log that says so.
#[derive(Debug)]
pub struct StoredMembership {
    /// The place in the log.
    pub log_id: Option<LogId>,
    /// The members.
    pub membership: Membership,
}

/// The members of the cluster and where the log says so, in mathematical terms.
pub ghost struct StoredMembershipView {
    /// The place in the log.
    pub log_id: Option<LogId>,
    /// The members.
    pub membership: MembershipView,
}

impl View for StoredMembership {
    type V = StoredMembershipView;

    open spec fn view(&self) -> StoredMembershipView {
        StoredMembershipView { log_id: self.log_id, membership: self.membership@ }
    }
}

impl StoredMembership {
    /// A copy.
    pub fn copy(&self) -> (m: StoredMembership)
        ensures
            m@ == self@,
    {
        StoredMembership { log_id: self.log_id, membership: self.membership.copy() }
    }
}

/// What stands at a place in the log.
#[derive(Debug)]
pub enum EntryPayload {
    /// Nothing.
    Blank,
    /// What is replicated.
    Normal(ClientRequest),
    /// New members.
    Membership(Membership),
}

/// A place in the log and what stands there.
#[derive(Debug)]
pub struct Entry {
    /// The place.
    pub log_id: LogId,
    /// What stands there.
    pub payload: EntryPayload,
}

/// What stands at a place in the log, in mathematical terms.
pub ghost enum PayloadOfEntry {
    /// See [`EntryPayload::Blank`].
    Blank,
    /// See [`EntryPayload::Normal`].
    Normal(ClientRequestView),
    /// See [`EntryPayload::Membership`].
    Membership(MembershipView),
}

/// A place in the log and what stands there, in mathematical terms.
pub ghost struct EntryOfLog {
    /// The place.
    pub log_id: LogId,
    /// What stands there.
    pub payload: PayloadOfEntry,
}

impl View for Entry {
    type V = EntryOfLog;

    open spec fn view(&self) -> EntryOfLog {
        EntryOfLog {
            log_id: self.log_id,
            payload: match self.payload {
                EntryPayload::Blank => PayloadOfEntry::Blank,
                EntryPayload::Normal(r) => PayloadOfEntry::Normal(r@),
                EntryPayload::Membership(m) => PayloadOfEntry::Membership(m@),
            },
        }
    }
}

/// Part of the log in mathematical terms.
pub open spec fn log_view(entries: Seq<Entry>) -> Seq<EntryOfLog> {
    entries.map_values(|e: Entry| e@)
}

/// What is replicated.
#[derive(Debug)]
pub enum ClientRequest {
    /// Nothing.
    Noop,
    /// A change.
    Mutate(Mutation),
    /// Several changes.
    MutateBatch(MutationBatch),
}

/// What is replicated, in mathematical terms.
pub ghost enum ClientRequestView {
    /// See [`ClientRequest::Noop`].
    Noop,
    /// See [`ClientRequest::Mutate`].
    Mutate(MutationView),
    /// See [`ClientRequest::MutateBatch`].
    MutateBatch(Seq<MutationView>),
}

impl View for ClientRequest {
    type V = ClientRequestView;

    open spec fn view(&self) -> ClientRequestView {
        match *self {
            ClientRequest::Noop => ClientRequestView::Noop,
            ClientRequest::Mutate(m) => ClientRequestView::Mutate(m@),
            ClientRequest::MutateBatch(b) => ClientRequestView::MutateBatch(
                mutations_view(b.mutations@),
            ),
        }
    }
}

/// What a node answers.
#[derive(Debug)]
pub enum ClientResponse {
    /// Nothing was to be done.
    NoopResult,
    /// What was changed.
    MutationResult(MutationResult),
    /// Why nothing was changed.
    Error(String),
}

/// What a node answers, in mathematical terms.
pub ghost enum ClientResponseView {
    /// See [`ClientResponse::NoopResult`].
    NoopResult,
    /// See [`ClientResponse::MutationResult`].
    MutationResult(MutationResultView),
    /// See [`ClientResponse::Error`].
    Error(Seq<char>),
}

impl View for ClientResponse {
    type V = ClientResponseView;

    open spec fn view(&self) -> ClientResponseView {
        match *self {
            ClientResponse::NoopResult => ClientResponseView::NoopResult,
            ClientResponse::MutationResult(r) => ClientResponseView::MutationResult(r@),
            ClientResponse::Error(s) => ClientResponseView::Error(s@),
        }
    }
}

} // verus!
