//! The membership of a cluster as one of its nodes sees it.

use crate::ballot::NodeId;
use vstd::prelude::*;

verus! {

/// Number of nodes that form a majority of a cluster of `size` nodes.
pub open spec fn majority(size: nat) -> nat {
    size / 2 + 1
}

/// The address that a list of peers gives to a node: the last one for its identifier. The
/// current node is not its own peer.
pub open spec fn given_address<A>(current: NodeId, peers: Seq<(NodeId, A)>, id: NodeId) -> Option<A>
    decreases peers.len(),
{
    if peers.len() == 0 {
        None
    } else if peers.last().0 == id && id != current {
        Some(peers.last().1)
    } else {
        given_address(current, peers.drop_last(), id)
    }
}

/// Whether a list of peers is in strictly ascending order of their identifiers.
pub open spec fn ascending<A>(peers: Seq<(NodeId, A)>) -> bool {
    forall|i: int, j: int| 0 <= i < j < peers.len() ==> (#[trigger] peers[i]).0 < (
    #[trigger] peers[j]).0
}

/// Whether the entry of `id` in a list of peers has the address `address`, or is missing.
pub open spec fn maps<A>(peers: Seq<(NodeId, A)>, id: NodeId, address: Option<A>) -> bool {
    match address {
        Some(a) => peers.contains((id, a)),
        None => forall|i: int| 0 <= i < peers.len() ==> (#[trigger] peers[i]).0 != id,
    }
}

/// Current node of a cluster, and its peers with their addresses.
pub struct Configuration<A> {
    pub current: NodeId,
    pub peers: Vec<(NodeId, A)>,
}

impl<A> Configuration<A> {
    /// The peers are in ascending order, and the current node is not among them.
    pub open spec fn wf(self) -> bool {
        &&& ascending(self.peers@)
        &&& maps(self.peers@, self.current, None)
    }

    /// The identifiers of the peers, in ascending order.
    pub open spec fn ids(self) -> Seq<NodeId> {
        self.peers@.map_values(|p: (NodeId, A)| p.0)
    }

    /// Configuration of node `current` with the given peers. The last address given for an
    /// identifier counts, and an entry for the current node is dropped.
    pub fn new(current: NodeId, peers: Vec<(NodeId, A)>) -> (config: Configuration<A>)
        ensures
            config.wf(),
            config.current == current,
            forall|id: NodeId|
                maps(config.peers@, id, #[trigger] given_address(current, peers@, id)),
    {
        let mut peers = peers;
        let ghost given = peers@;
        let mut sorted: Vec<(NodeId, A)> = Vec::new();
        let mut rest: Vec<(NodeId, A)> = Vec::new();
        // reverse the list, so that its entries leave from the end in their order
        while peers.len() > 0
            invariant
                peers@ + rest@.reverse() =~= given,
            decreases peers.len(),
        {
            if let Some(peer) = peers.pop() {
                rest.push(peer);
            }
        }
        let ghost mut taken: Seq<(NodeId, A)> = Seq::empty();
        while rest.len() > 0
            invariant
                taken + rest@.reverse() =~= given,
                ascending(sorted@),
                maps(sorted@, current, None),
                forall|id: NodeId|
                    maps(sorted@, id, #[trigger] given_address(current, taken, id)),
            decreases rest.len(),
        {
            if let Some((id, address)) = rest.pop() {
                let ghost before = sorted@;
                if id != current {
                    enrol(&mut sorted, id, address);
                }
                proof {
                    let next = taken.push((id, address));
                    assert(next.drop_last() =~= taken);
                    assert forall|other: NodeId| maps(
                        sorted@,
                        other,
                        #[trigger] given_address(current, next, other),
                    ) by {
                        assert(maps(before, other, given_address(current, taken, other)));
                    }
                    taken = next;
                }
            }
        }
        assert(taken =~= given);
        Configuration { current, peers: sorted }
    }

    /// Identifier of the current node.
    pub fn current(&self) -> (current: NodeId)
        ensures
            current == self.current,
    {
        self.current
    }

    /// Identifiers of the peers, in ascending order.
    pub fn peer_node_ids(&self) -> (ids: Vec<NodeId>)
        ensures
            ids@ == self.ids(),
    {
        let mut ids: Vec<NodeId> = Vec::new();
        for i in 0..self.peers.len()
            invariant
                ids@ =~= self.ids().take(i as int),
        {
            ids.push(self.peers[i].0);
        }
        assert(self.ids().take(self.peers@.len() as int) =~= self.ids());
        ids
    }

    /// Whether a node is a peer.
    pub fn has_peer(&self, id: NodeId) -> (peer: bool)
        ensures
            peer == self.ids().contains(id),
    {
        for i in 0..self.peers.len()
            invariant
                forall|j: int| 0 <= j < i ==> self.ids()[j] != id,
        {
            if self.peers[i].0 == id {
                assert(self.ids()[i as int] == id);
                return true;
            }
        }
        false
    }

    /// Address of a peer.
    pub fn address(&self, id: NodeId) -> (address: Option<&A>)
        requires
            self.wf(),
        ensures
            address matches Some(a) ==> maps(self.peers@, id, Some(*a)),
            address is None ==> maps(self.peers@, id, None),
    {
        for i in 0..self.peers.len()
            invariant
                forall|j: int| 0 <= j < i ==> (#[trigger] self.peers@[j]).0 != id,
        {
            if self.peers[i].0 == id {
                assert(self.peers@[i as int] == (id, self.peers@[i as int].1));
                return Some(&self.peers[i].1);
            }
        }
        None
    }

    /// Sizes of the quorums of phase 1 and of phase 2: majorities of the cluster.
    pub fn quorum_size(&self) -> (quorums: (usize, usize))
        ensures
            quorums.0 == majority((self.peers@.len() + 1) as nat),
            quorums.1 == majority((self.peers@.len() + 1) as nat),
    {
        let peers: usize = self.peers.len();
        let majority: usize = peers / 2 + peers % 2 + 1;
        (majority, majority)
    }
}

/// Enters a peer into an ascending list, in place of an entry with the same identifier.
fn enrol<A>(peers: &mut Vec<(NodeId, A)>, id: NodeId, address: A)
    requires
        ascending(old(peers)@),
    ensures
        ascending(final(peers)@),
        maps(final(peers)@, id, Some(address)),
        forall|other: NodeId, a: Option<A>|
            other != id && #[trigger] maps(old(peers)@, other, a) ==> maps(
                final(peers)@,
                other,
                a,
            ),
{
    let mut i: usize = 0;
    while i < peers.len() && peers[i].0 < id
        invariant
            i <= peers@.len(),
            peers@ == old(peers)@,
            forall|j: int| 0 <= j < i ==> (#[trigger] peers@[j]).0 < id,
        decreases peers.len() - i,
    {
        i = i + 1;
    }
    if i < peers.len() && peers[i].0 == id {
        peers.set(i, (id, address));
    } else {
        peers.insert(i, (id, address));
    }
    proof {
        let (before, after) = (old(peers)@, peers@);
        let shift: int = after.len() - before.len();
        assert(after[i as int] == (id, address));
        assert forall|other: NodeId, a: Option<A>|
            other != id && #[trigger] maps(before, other, a) implies maps(after, other, a) by {
            if let Some(address) = a {
                let k = before.index_of((other, address));
                let place = if k < i { k } else { k + shift };
                assert(after[place] == (other, address));
            }
        }
    }
}

/// A majority is more than half of a group, and with one node less it would not be.
pub proof fn majorities_are_smallest(size: nat)
    ensures
        2 * majority(size) > size,
        2 * (majority(size) - 1) <= size,
{
}

/// Of the addresses given for a node the last one counts, an entry for another node does not, and
/// the current node has none.
pub proof fn last_addresses_count<A>(
    current: NodeId,
    peers: Seq<(NodeId, A)>,
    id: NodeId,
    address: A,
    other: NodeId,
)
    requires
        other != id,
    ensures
        given_address(current, Seq::<(NodeId, A)>::empty(), id) is None,
        given_address(current, peers.push((id, address)), id) == if id == current {
            None
        } else {
            Some(address)
        },
        given_address(current, peers.push((id, address)), other) == given_address(
            current,
            peers,
            other,
        ),
{
    assert(peers.push((id, address)).drop_last() =~= peers);
    lemma_current_has_no_address(current, peers);
}

/// The current node has no address.
proof fn lemma_current_has_no_address<A>(current: NodeId, peers: Seq<(NodeId, A)>)
    ensures
        given_address(current, peers, current) is None,
    decreases peers.len(),
{
    if peers.len() > 0 {
        lemma_current_has_no_address(current, peers.drop_last());
    }
}

/// A configuration lists its peers by ascending identifiers, each once, with their addresses.
pub proof fn configurations_list_each_peer_once<A>(config: Configuration<A>, id: NodeId, address: A)
    requires
        config.wf(),
    ensures
        forall|i: int, j: int|
            0 <= i < j < config.peers@.len() ==> config.peers@[i].0 < config.peers@[j].0,
        forall|i: int| 0 <= i < config.peers@.len() ==> (#[trigger] config.peers@[i]).0
            != config.current,
        maps(config.peers@, id, Some(address)) <==> exists|i: int|
            0 <= i < config.peers@.len() && #[trigger] config.peers@[i] == (id, address),
        maps(config.peers@, id, None) <==> forall|i: int|
            0 <= i < config.peers@.len() ==> (#[trigger] config.peers@[i]).0 != id,
        config.ids().len() == config.peers@.len(),
        forall|i: int|
            0 <= i < config.peers@.len() ==> #[trigger] config.ids()[i] == config.peers@[i].0,
{
}

} // verus!
