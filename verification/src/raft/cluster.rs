//! Who leads the cluster, as far as a node knows.

use vstd::prelude::*;


verus! {

/// A node's number and address.
pub type NodeAddress = (u64, String);

/// Nodes in mathematical terms.
pub open spec fn nodes_view(nodes: Seq<NodeAddress>) -> Seq<(u64, Seq<char>)> {
    nodes.map_values(|n: NodeAddress| (n.0, n.1@))
}

/// The address of the first node with a number.
pub open spec fn address_of(nodes: Seq<(u64, Seq<char>)>, id: u64) -> Option<Seq<char>>
    decreases nodes.len(),
{
    if nodes.len() == 0 {
        None
    } else if nodes[0].0 == id {
        Some(nodes[0].1)
    } else {
        address_of(nodes.drop_first(), id)
    }
}

/// The address of a node.
pub fn find_address<'a>(nodes: &'a Vec<NodeAddress>, id: u64) -> (r: Option<&'a String>)
    ensures
        match r {
            Some(a) => address_of(nodes_view(nodes@), id) == Some(a@),
            None => address_of(nodes_view(nodes@), id) is None,
        },
{
    let ghost all = nodes_view(nodes@);
    let mut i: usize = 0;
    assert(all.skip(0) =~= all);
    while i < nodes.len()
        invariant
            i <= nodes@.len(),
            all == nodes_view(nodes@),
            address_of(all, id) == address_of(all.skip(i as int), id),
        decreases nodes@.len() - i,
    {
        proof {
            assert(all.skip(i as int)[0] == (nodes@[i as int].0, nodes@[i as int].1@));
            assert(all.skip(i as int).drop_first() =~= all.skip(i + 1));
        }
        if nodes[i].0 == id {
            return Some(&nodes[i].1);
        }
        i = i + 1;
    }
    None
}

/// A node that keeps track of who leads.
pub struct LeaderTracker {
    node_id: u64,
}

/// A node that may be missing, in mathematical terms.
pub open spec fn optional_node(n: Option<NodeAddress>) -> Option<(u64, Seq<char>)> {
    match n {
        Some(n) => Some((n.0, n.1@)),
        None => None,
    }
}

impl View for LeaderTracker {
    type V = u64;

    closed spec fn view(&self) -> u64 {
        self.node_id
    }
}

/// The current leader, where it and its address are known.
pub open spec fn known_leader(current: Option<u64>, nodes: Seq<(u64, Seq<char>)>) -> Option<
    (u64, Seq<char>),
> {
    match current {
        Some(id) => match address_of(nodes, id) {
            Some(a) => Some((id, a)),
            None => None,
        },
        None => None,
    }
}

impl LeaderTracker {
    /// The tracker of a node.
    pub fn new(node_id: u64) -> (l: LeaderTracker)
        ensures
            l@ == node_id,
    {
        LeaderTracker { node_id }
    }

    /// The node.
    pub fn node_id(&self) -> (id: u64)
        ensures
            id == self@,
    {
        self.node_id
    }

    /// Whether the node itself leads.
    pub fn is_leader(&self, current: Option<u64>) -> (r: bool)
        ensures
            r == (current == Some(self@)),
    {
        match current {
            Some(id) => id == self.node_id,
            None => false,
        }
    }

    /// Who leads now, given what the node's metrics and the membership say.
    pub fn get_leader(&self, current: Option<u64>, nodes: &Vec<NodeAddress>) -> (r: Option<
        NodeAddress,
    >)
        ensures
            optional_node(r) == known_leader(current, nodes_view(nodes@)),
    {
        match current {
            Some(id) => match find_address(nodes, id) {
                Some(address) => Some((id, address.clone())),
                None => None,
            },
            None => None,
        }
    }
}

/// A leader that is named is the current one, and among the members.
pub proof fn law_leader_is_current(current: Option<u64>, nodes: Seq<(u64, Seq<char>)>)
    ensures
        known_leader(current, nodes) matches Some(leader) ==> current == Some(leader.0)
            && nodes.contains(leader),
    decreases nodes.len(),
{
    if nodes.len() > 0 {
        law_leader_is_current(current, nodes.drop_first());
        if known_leader(current, nodes) is Some {
            let leader = known_leader(current, nodes)->0;
            if nodes[0].0 == leader.0 {
                assert(nodes[0] == leader);
            } else {
                let rest = nodes.drop_first();
                let i = choose|i: int| 0 <= i < rest.len() && rest[i] == leader;
                assert(nodes[i + 1] == leader);
            }
        }
    }
}

} // verus!
