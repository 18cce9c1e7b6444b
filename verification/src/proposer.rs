//! The proposer of a node: its role, the highest ballot it has seen, and the proposals that wait
//! for a leader.

use crate::ballot::{raise, Ballot, NodeId};
use crate::value::{contents, values_view};
use bytes::Bytes;
use std::collections::BTreeSet;
use vstd::prelude::*;

verus! {

broadcast use vstd::std_specs::btree::group_btree_axioms;

/// Role of a proposer.
#[verifier::ext_equal]
pub enum Role {
    /// Follows the node of the highest ballot.
    Follower,
    /// Collects promises for its ballot.
    Candidate { proposal: Ballot, promises: Set<NodeId> },
    /// Holds a quorum of promises for its ballot.
    Leader { proposal: Ballot },
}

/// What a proposer knows.
#[verifier::ext_equal]
pub struct ProposerView {
    pub node: NodeId,
    /// Number of promises, its own included, that make a leader.
    pub quorum: nat,
    pub highest: Option<Ballot>,
    pub role: Role,
    pub queue: Seq<Seq<u8>>,
}

impl ProposerView {
    /// Proposer of a node that has seen no ballot.
    pub open spec fn fresh(node: NodeId, quorum: nat) -> ProposerView {
        ProposerView { node, quorum, highest: None, role: Role::Follower, queue: Seq::empty() }
    }

    /// A candidate or a leader stands under its own ballot, and has seen none higher.
    pub open spec fn valid(self) -> bool {
        match self.role {
            Role::Follower => true,
            Role::Candidate { proposal, .. } => self.highest == Some(proposal) && proposal.1
                == self.node,
            Role::Leader { proposal } => self.highest == Some(proposal) && proposal.1 == self.node,
        }
    }

    /// Effect of seeing a ballot: a higher one than all before makes the node a follower.
    pub open spec fn observe(self, ballot: Ballot) -> ProposerView {
        if self.highest == raise(self.highest, ballot) {
            self
        } else {
            ProposerView { highest: Some(ballot), role: Role::Follower, ..self }
        }
    }

    /// Whether ballot numbers above the highest one seen remain.
    pub open spec fn can_prepare(self) -> bool {
        self.highest matches Some(h) ==> h.0 < u32::MAX
    }

    /// The ballot of the node's next candidacy: the first one of its own above all it has seen.
    pub open spec fn next_ballot(self) -> Ballot {
        match self.highest {
            Some(h) => Ballot((h.0 + 1) as u32, self.node),
            None => Ballot(0, self.node),
        }
    }

    /// Effect of starting a candidacy: the node's own promise is the first one.
    pub open spec fn prepare(self) -> ProposerView {
        ProposerView {
            highest: Some(self.next_ballot()),
            role: Role::Candidate { proposal: self.next_ballot(), promises: set![self.node] },
            ..self
        }
    }

    /// Effect of a PROMISE of `from`: it counts if it is for the ballot of the candidacy, and a
    /// quorum of promises makes the candidate a leader.
    pub open spec fn promise(self, from: NodeId, ballot: Ballot) -> ProposerView {
        match self.role {
            Role::Candidate { proposal, promises } if proposal == ballot => {
                let promises = promises.insert(from);
                let role = if promises.len() >= self.quorum {
                    Role::Leader { proposal }
                } else {
                    Role::Candidate { proposal, promises }
                };
                ProposerView { role, ..self }
            },
            _ => self,
        }
    }

    /// Effect of queueing a proposal.
    pub open spec fn push(self, value: Seq<u8>) -> ProposerView {
        ProposerView { queue: self.queue.push(value), ..self }
    }

    /// Effect of handing out all queued proposals.
    pub open spec fn drained(self) -> ProposerView {
        ProposerView { queue: Seq::empty(), ..self }
    }
}

/// State of a proposer.
pub enum ProposerState {
    Follower,
    Candidate { proposal: Ballot, promises: BTreeSet<NodeId> },
    Leader { proposal: Ballot },
}

impl View for ProposerState {
    type V = Role;

    open spec fn view(&self) -> Role {
        match *self {
            ProposerState::Follower => Role::Follower,
            ProposerState::Candidate { proposal, promises } => Role::Candidate {
                proposal,
                promises: promises@,
            },
            ProposerState::Leader { proposal } => Role::Leader { proposal },
        }
    }
}

impl ProposerState {
    pub fn is_follower(&self) -> (follower: bool)
        ensures
            follower == (self@ is Follower),
    {
        matches!(self, ProposerState::Follower)
    }

    pub fn is_candidate(&self) -> (candidate: bool)
        ensures
            candidate == (self@ is Candidate),
    {
        matches!(self, ProposerState::Candidate { .. })
    }

    pub fn is_leader(&self) -> (leader: bool)
        ensures
            leader == (self@ is Leader),
    {
        matches!(self, ProposerState::Leader { .. })
    }
}

/// Proposer of a node.
pub struct Proposer {
    pub node: NodeId,
    pub quorum: usize,
    pub highest: Option<Ballot>,
    pub state: ProposerState,
    pub queue: Vec<Bytes>,
}

impl View for Proposer {
    type V = ProposerView;

    open spec fn view(&self) -> ProposerView {
        ProposerView {
            node: self.node,
            quorum: self.quorum as nat,
            highest: self.highest,
            role: self.state@,
            queue: values_view(self.queue@),
        }
    }
}

impl Proposer {
    /// Proposer of `node` that leads once it holds `quorum` promises.
    pub fn new(node: NodeId, quorum: usize) -> (proposer: Proposer)
        ensures
            proposer@ == ProposerView::fresh(node, quorum as nat),
    {
        let proposer = Proposer {
            node,
            quorum,
            highest: None,
            state: ProposerState::Follower,
            queue: Vec::new(),
        };
        assert(values_view(proposer.queue@) =~= Seq::empty());
        proposer
    }

    /// Role of the proposer.
    pub fn state(&self) -> (state: &ProposerState)
        ensures
            state@ == self@.role,
    {
        &self.state
    }

    /// Highest ballot seen so far.
    pub fn highest_observed_ballot(&self) -> (highest: Option<Ballot>)
        ensures
            highest == self@.highest,
    {
        self.highest
    }

    /// Notes a ballot seen in a command.
    pub fn observe_ballot(&mut self, ballot: Ballot)
        ensures
            final(self)@ == old(self)@.observe(ballot),
    {
        let higher: bool = match &self.highest {
            Some(h) => h.precedes(&ballot),
            None => true,
        };
        if higher {
            self.highest = Some(ballot);
            self.state = ProposerState::Follower;
        }
    }

    /// Starts a candidacy and returns its ballot.
    pub fn prepare(&mut self) -> (ballot: Ballot)
        requires
            old(self)@.can_prepare(),
        ensures
            final(self)@ == old(self)@.prepare(),
            ballot == old(self)@.next_ballot(),
    {
        let ballot = match self.highest {
            Some(h) => Ballot(h.0 + 1, self.node),
            None => Ballot(0, self.node),
        };
        let mut promises: BTreeSet<NodeId> = BTreeSet::new();
        promises.insert(self.node);
        self.highest = Some(ballot);
        self.state = ProposerState::Candidate { proposal: ballot, promises };
        ballot
    }

    /// Notes a PROMISE of a node.
    pub fn receive_promise(&mut self, from: NodeId, ballot: Ballot)
        ensures
            final(self)@ == old(self)@.promise(from, ballot),
    {
        let quorum: usize = self.quorum;
        let mut elected: bool = false;
        match &mut self.state {
            ProposerState::Candidate { proposal, promises } => {
                if *proposal == ballot {
                    promises.insert(from);
                    elected = promises.len() >= quorum;
                }
            },
            _ => {},
        }
        if elected {
            self.state = ProposerState::Leader { proposal: ballot };
        }
    }

    /// Notes a REJECT: the ballot that preempted the rejected one is seen.
    pub fn receive_reject(&mut self, preempted: Ballot)
        ensures
            final(self)@ == old(self)@.observe(preempted),
    {
        self.observe_ballot(preempted);
    }

    /// Queues a proposal.
    pub fn push_proposal(&mut self, value: Bytes)
        ensures
            final(self)@ == old(self)@.push(contents(value)),
    {
        self.queue.push(value);
        assert(values_view(self.queue@) =~= values_view(old(self).queue@).push(contents(value)));
    }

    /// Whether no proposal is queued.
    pub fn is_proposal_queue_empty(&self) -> (empty: bool)
        ensures
            empty == (self@.queue.len() == 0),
    {
        self.queue.len() == 0
    }

    /// Hands out all queued proposals, in the order in which they were queued.
    pub fn take_proposals(&mut self) -> (proposals: Vec<Bytes>)
        ensures
            final(self)@ == old(self)@.drained(),
            values_view(proposals@) == old(self)@.queue,
    {
        let mut proposals: Vec<Bytes> = Vec::new();
        std::mem::swap(&mut proposals, &mut self.queue);
        assert(values_view(self.queue@) =~= Seq::empty());
        proposals
    }
}

} // verus!
