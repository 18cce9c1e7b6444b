//! The acceptor of a single slot.

use crate::ballot::{raise, Ballot, NodeId};
use crate::value::{contents, duplicate, duplicate_vote, vote_view};
use bytes::Bytes;
use std::collections::BTreeSet;
use vstd::prelude::*;

verus! {

broadcast use vstd::std_specs::btree::group_btree_axioms;

/// What an acceptor knows of its slot.
#[verifier::ext_equal]
pub enum AcceptorView {
    /// No value has been decided yet.
    Open {
        /// Ballot below which requests are rejected.
        promised: Option<Ballot>,
        /// Value of the highest ballot known for the slot.
        accepted: Option<(Ballot, Seq<u8>)>,
        /// Nodes known to have accepted that value under that ballot.
        voters: Set<NodeId>,
    },
    /// The slot is decided.
    Resolved { ballot: Ballot, value: Seq<u8> },
}

/// Answer of an acceptor to a PREPARE.
pub enum PrepareReply {
    Promise { value: Option<(Ballot, Seq<u8>)> },
    Reject { preempted: Ballot },
    Resolved,
}

/// Answer of an acceptor to an ACCEPT.
pub enum AcceptReply {
    Accepted,
    Reject { preempted: Ballot },
    Resolved,
}

impl AcceptorView {
    /// An acceptor that has promised and accepted nothing.
    pub open spec fn fresh() -> AcceptorView {
        AcceptorView::Open { promised: None, accepted: None, voters: Set::empty() }
    }

    /// Whether the slot is decided.
    pub open spec fn is_resolved(self) -> bool {
        self is Resolved
    }

    /// The decision, if there is one.
    pub open spec fn resolution(self) -> Option<(Ballot, Seq<u8>)> {
        match self {
            AcceptorView::Resolved { ballot, value } => Some((ballot, value)),
            AcceptorView::Open { .. } => None,
        }
    }

    /// The value of the highest ballot known for the slot, decided or not.
    pub open spec fn highest_value(self) -> Option<(Ballot, Seq<u8>)> {
        match self {
            AcceptorView::Resolved { ballot, value } => Some((ballot, value)),
            AcceptorView::Open { accepted, .. } => accepted,
        }
    }

    /// The ballot that preempts `ballot`, if the acceptor has promised a higher one.
    pub open spec fn preempting(self, ballot: Ballot) -> Option<Ballot> {
        match self {
            AcceptorView::Open { promised: Some(p), .. } if ballot.lt(p) => Some(p),
            _ => None,
        }
    }

    /// Effect of a PREPARE: the ballot is promised unless a higher one already is.
    pub open spec fn prepare(self, ballot: Ballot) -> AcceptorView {
        match self {
            AcceptorView::Open { accepted, voters, .. } if self.preempting(ballot) is None =>
                AcceptorView::Open { promised: Some(ballot), accepted, voters },
            _ => self,
        }
    }

    /// Answer to a PREPARE.
    pub open spec fn prepare_reply(self, ballot: Ballot) -> PrepareReply {
        match self {
            AcceptorView::Resolved { .. } => PrepareReply::Resolved,
            AcceptorView::Open { accepted, .. } => match self.preempting(ballot) {
                Some(preempted) => PrepareReply::Reject { preempted },
                None => PrepareReply::Promise { value: accepted },
            },
        }
    }

    /// Effect on the value and its voters of node `me` adopting `value` under `ballot`: only a
    /// higher ballot replaces the value, and the node is then its first voter.
    pub open spec fn adopt(
        self,
        me: NodeId,
        promised: Option<Ballot>,
        ballot: Ballot,
        value: Seq<u8>,
    ) -> AcceptorView {
        match self {
            AcceptorView::Open { accepted: Some((b, v)), voters, .. } if !b.lt(ballot) =>
                AcceptorView::Open { promised, accepted: Some((b, v)), voters },
            AcceptorView::Open { .. } => AcceptorView::Open {
                promised,
                accepted: Some((ballot, value)),
                voters: set![me],
            },
            AcceptorView::Resolved { .. } => self,
        }
    }

    /// Effect of an ACCEPT: the value is adopted unless a higher ballot has been promised.
    pub open spec fn accept(self, me: NodeId, ballot: Ballot, value: Seq<u8>) -> AcceptorView {
        if self.preempting(ballot) is Some {
            self
        } else {
            self.adopt(me, Some(ballot), ballot, value)
        }
    }

    /// Answer to an ACCEPT.
    pub open spec fn accept_reply(self, ballot: Ballot) -> AcceptReply {
        match self {
            AcceptorView::Resolved { .. } => AcceptReply::Resolved,
            AcceptorView::Open { .. } => match self.preempting(ballot) {
                Some(preempted) => AcceptReply::Reject { preempted },
                None => AcceptReply::Accepted,
            },
        }
    }

    /// Effect of learning that `value` was proposed under `ballot`.
    pub open spec fn notice(self, me: NodeId, ballot: Ballot, value: Seq<u8>) -> AcceptorView {
        match self {
            AcceptorView::Open { promised, .. } => self.adopt(
                me,
                raise(promised, ballot),
                ballot,
                value,
            ),
            AcceptorView::Resolved { .. } => self,
        }
    }

    /// Effect of an ACCEPTED of `from`: the vote counts towards the value of that very ballot,
    /// and a quorum of voters decides the slot.
    pub open spec fn vote(self, quorum: nat, from: NodeId, ballot: Ballot) -> AcceptorView {
        match self {
            AcceptorView::Open { promised, accepted: Some((b, v)), voters } if b == ballot => {
                let voters = voters.insert(from);
                if voters.len() >= quorum {
                    AcceptorView::Resolved { ballot, value: v }
                } else {
                    AcceptorView::Open { promised, accepted: Some((b, v)), voters }
                }
            },
            _ => self,
        }
    }

    /// Effect of learning the decision of the slot; the first decision stands.
    pub open spec fn resolve(self, ballot: Ballot, value: Seq<u8>) -> AcceptorView {
        match self {
            AcceptorView::Open { .. } => AcceptorView::Resolved { ballot, value },
            AcceptorView::Resolved { .. } => self,
        }
    }
}

/// Response of an acceptor to a PREPARE.
pub enum PrepareResponse {
    /// The ballot is promised; a value accepted earlier comes with the promise.
    Promise { proposed: Ballot, value: Option<(Ballot, Bytes)> },
    /// A higher ballot has been promised.
    Reject { proposed: Ballot, preempted: Ballot },
    /// The slot is decided.
    Resolved,
}

impl PrepareResponse {
    /// Whether this response to a PREPARE of `ballot` gives the answer `reply`.
    pub open spec fn gives(self, ballot: Ballot, reply: PrepareReply) -> bool {
        match self {
            PrepareResponse::Promise { proposed, value } => proposed == ballot && reply
                == (PrepareReply::Promise { value: vote_view(value) }),
            PrepareResponse::Reject { proposed, preempted } => proposed == ballot && reply == (
            PrepareReply::Reject { preempted }),
            PrepareResponse::Resolved => reply == PrepareReply::Resolved,
        }
    }
}

/// Response of an acceptor to an ACCEPT.
pub enum AcceptResponse {
    /// The value is accepted.
    Accepted { proposed: Ballot },
    /// A higher ballot has been promised.
    Reject { proposed: Ballot, preempted: Ballot },
    /// The slot is decided.
    Resolved,
}

impl AcceptResponse {
    /// Whether this response to an ACCEPT of `ballot` gives the answer `reply`.
    pub open spec fn gives(self, ballot: Ballot, reply: AcceptReply) -> bool {
        match self {
            AcceptResponse::Accepted { proposed } => proposed == ballot && reply
                == AcceptReply::Accepted,
            AcceptResponse::Reject { proposed, preempted } => proposed == ballot && reply == (
            AcceptReply::Reject { preempted }),
            AcceptResponse::Resolved => reply == AcceptReply::Resolved,
        }
    }
}

/// State of an acceptor.
pub enum AcceptorState {
    Open { promised: Option<Ballot>, accepted: Option<(Ballot, Bytes)>, voters: BTreeSet<NodeId> },
    Resolved(Ballot, Bytes),
}

/// Acceptor of one slot on one node.
pub struct Acceptor {
    pub node: NodeId,
    pub quorum: usize,
    pub state: AcceptorState,
}

impl View for Acceptor {
    type V = AcceptorView;

    open spec fn view(&self) -> AcceptorView {
        match self.state {
            AcceptorState::Open { promised, accepted, voters } => AcceptorView::Open {
                promised,
                accepted: vote_view(accepted),
                voters: voters@,
            },
            AcceptorState::Resolved(ballot, value) => AcceptorView::Resolved {
                ballot,
                value: contents(value),
            },
        }
    }
}

impl Acceptor {
    /// Acceptor of `node` that decides once `quorum` nodes have accepted a value.
    pub fn new(node: NodeId, quorum: usize) -> (acceptor: Acceptor)
        ensures
            acceptor.node == node,
            acceptor.quorum == quorum,
            acceptor@ == AcceptorView::fresh(),
    {
        Acceptor {
            node,
            quorum,
            state: AcceptorState::Open { promised: None, accepted: None, voters: BTreeSet::new() },
        }
    }

    /// The decision of the slot, if there is one.
    pub fn resolution(&self) -> (resolution: Option<(Ballot, Bytes)>)
        ensures
            vote_view(resolution) == self@.resolution(),
    {
        match &self.state {
            AcceptorState::Resolved(ballot, value) => Some((*ballot, duplicate(value))),
            AcceptorState::Open { .. } => None,
        }
    }

    /// Whether the slot is decided.
    pub fn is_resolved(&self) -> (resolved: bool)
        ensures
            resolved == self@.is_resolved(),
    {
        matches!(&self.state, AcceptorState::Resolved(..))
    }

    /// Value of the highest ballot known for the slot.
    pub fn highest_value(&self) -> (value: Option<(Ballot, Bytes)>)
        ensures
            vote_view(value) == self@.highest_value(),
    {
        match &self.state {
            AcceptorState::Open { accepted, .. } => duplicate_vote(accepted),
            AcceptorState::Resolved(ballot, value) => Some((*ballot, duplicate(value))),
        }
    }

    /// Reacts to a PREPARE.
    pub fn receive_prepare(&mut self, ballot: Ballot) -> (response: PrepareResponse)
        ensures
            final(self).node == old(self).node,
            final(self).quorum == old(self).quorum,
            final(self)@ == old(self)@.prepare(ballot),
            response.gives(ballot, old(self)@.prepare_reply(ballot)),
    {
        match &mut self.state {
            AcceptorState::Open { promised, accepted, .. } => {
                if let Some(preempted) = *promised {
                    if ballot.precedes(&preempted) {
                        return PrepareResponse::Reject { proposed: ballot, preempted };
                    }
                }
                *promised = Some(ballot);
                PrepareResponse::Promise { proposed: ballot, value: duplicate_vote(accepted) }
            },
            AcceptorState::Resolved(..) => PrepareResponse::Resolved,
        }
    }

    /// Reacts to an ACCEPT.
    pub fn receive_accept(&mut self, ballot: Ballot, value: Bytes) -> (response: AcceptResponse)
        ensures
            final(self).node == old(self).node,
            final(self).quorum == old(self).quorum,
            final(self)@ == old(self)@.accept(old(self).node, ballot, contents(value)),
            response.gives(ballot, old(self)@.accept_reply(ballot)),
    {
        let node: NodeId = self.node;
        match &mut self.state {
            AcceptorState::Open { promised, accepted, voters } => {
                if let Some(preempted) = *promised {
                    if ballot.precedes(&preempted) {
                        return AcceptResponse::Reject { proposed: ballot, preempted };
                    }
                }
                *promised = Some(ballot);
                adopt(node, accepted, voters, ballot, value);
                AcceptResponse::Accepted { proposed: ballot }
            },
            AcceptorState::Resolved(..) => AcceptResponse::Resolved,
        }
    }

    /// Learns that a value was proposed under a ballot.
    pub fn notice_value(&mut self, ballot: Ballot, value: Bytes)
        ensures
            final(self).node == old(self).node,
            final(self).quorum == old(self).quorum,
            final(self)@ == old(self)@.notice(old(self).node, ballot, contents(value)),
    {
        let node: NodeId = self.node;
        match &mut self.state {
            AcceptorState::Open { promised, accepted, voters } => {
                let higher: bool = match promised {
                    Some(p) => p.precedes(&ballot),
                    None => true,
                };
                if higher {
                    *promised = Some(ballot);
                }
                adopt(node, accepted, voters, ballot, value);
            },
            AcceptorState::Resolved(..) => {},
        }
    }

    /// Reacts to an ACCEPTED of a node; a quorum of them decides the slot.
    pub fn receive_accepted(&mut self, from: NodeId, ballot: Ballot)
        ensures
            final(self).node == old(self).node,
            final(self).quorum == old(self).quorum,
            final(self)@ == old(self)@.vote(old(self).quorum as nat, from, ballot),
    {
        let quorum: usize = self.quorum;
        let mut decided: Option<Bytes> = None;
        match &mut self.state {
            AcceptorState::Open { accepted: Some((accepted_ballot, value)), voters, .. } => {
                if *accepted_ballot == ballot {
                    voters.insert(from);
                    if voters.len() >= quorum {
                        decided = Some(duplicate(value));
                    }
                }
            },
            _ => {},
        }
        if let Some(value) = decided {
            self.state = AcceptorState::Resolved(ballot, value);
        }
    }

    /// Learns the decision of the slot.
    pub fn resolve(&mut self, ballot: Ballot, value: Bytes)
        ensures
            final(self).node == old(self).node,
            final(self).quorum == old(self).quorum,
            final(self)@ == old(self)@.resolve(ballot, contents(value)),
    {
        if !self.is_resolved() {
            self.state = AcceptorState::Resolved(ballot, value);
        }
    }
}

/// Node `me` takes over a value, unless the value it holds has a ballot at least as high.
fn adopt(
    me: NodeId,
    accepted: &mut Option<(Ballot, Bytes)>,
    voters: &mut BTreeSet<NodeId>,
    ballot: Ballot,
    value: Bytes,
)
    ensures
        match vote_view(*old(accepted)) {
            Some((b, v)) if !b.lt(ballot) => *final(accepted) == *old(accepted) && final(voters)@
                == old(voters)@,
            _ => vote_view(*final(accepted)) == Some((ballot, contents(value))) && final(voters)@
                == set![me],
        },
{
    let replace: bool = match accepted {
        Some((b, _)) => b.precedes(&ballot),
        None => true,
    };
    if replace {
        *accepted = Some((ballot, value));
        voters.clear();
        voters.insert(me);
    }
}

} // verus!
