//! Whether a node can react to a command: what it sends on it goes to peers, and slot and ballot
//! numbers do not run out.

use crate::ballot::{raise, Ballot, NodeId, Slot};
use crate::commands::{reported_view, Command};
use crate::node::Node;
use crate::proposer::ProposerState;
use crate::window::{first_undecided, SlotRef};
use bytes::Bytes;
use vstd::prelude::*;

verus! {

broadcast use vstd::std_specs::btree::group_btree_axioms;

impl<A> Node<A> {
    /// Whether the node can react to a command.
    pub fn is_ready_for(&self, cmd: &Command) -> (ready: bool)
        requires
            self.wf(),
        ensures
            ready == self@.ready_for(cmd@),
    {
        match cmd {
            Command::Proposal(_) => self.is_ready_to_propose(),
            Command::Prepare { ballot, .. } => self.config.has_peer(ballot.1),
            Command::Promise { from, ballot, accepted, .. } => self.is_ready_for_promise(
                *from,
                *ballot,
                accepted,
            ),
            Command::Accept { slot, ballot, .. } => {
                self.is_ready_to_observe(*ballot) && (match self.window.slot(*slot) {
                    SlotRef::Resolved(..) => true,
                    _ => *slot < u64::MAX && self.config.has_peer(ballot.1),
                })
            },
            Command::Reject { preempted, .. } => self.is_ready_to_observe(*preempted),
            Command::Accepted { .. } => true,
            Command::Resolution { slot, ballot, .. } => self.is_ready_to_learn(*slot, *ballot),
            Command::Catchup { from, slot } => {
                let decided: bool = match self.window.slot(*slot) {
                    SlotRef::Resolved(..) => true,
                    _ => false,
                };
                !self.proposer.state().is_leader() || !decided || self.config.has_peer(*from)
            },
        }
    }

    /// Whether the node can stand for leadership.
    pub fn is_ready_to_lead(&self) -> (ready: bool)
        requires
            self.wf(),
        ensures
            ready == self@.can_propose_leadership(),
    {
        !self.proposer.state().is_follower() || (match self.proposer.highest_observed_ballot() {
            Some(highest) => highest.0 < u32::MAX,
            None => true,
        })
    }

    /// Whether a node is this one or a peer.
    fn is_member(&self, id: NodeId) -> (member: bool)
        ensures
            member == (id == self@.current || self@.is_peer(id)),
    {
        id == self.config.current() || self.config.has_peer(id)
    }

    /// Whether the node can take a proposal.
    fn is_ready_to_propose(&self) -> (ready: bool)
        requires
            self.wf(),
        ensures
            ready == self@.can_propose(),
    {
        match self.proposer.state() {
            ProposerState::Follower => match self.proposer.highest_observed_ballot() {
                Some(highest) => if highest.1 == self.config.current() {
                    highest.0 < u32::MAX
                } else {
                    self.config.has_peer(highest.1)
                },
                None => true,
            },
            ProposerState::Candidate { .. } => true,
            ProposerState::Leader { .. } => self.window.next_slot() < u64::MAX,
        }
    }

    /// The highest ballot seen once `ballot` is.
    fn highest_with(&self, ballot: Ballot) -> (highest: Ballot)
        ensures
            self@.observe(ballot).proposer.highest == Some(highest),
            Some(highest) == raise(self@.proposer.highest, ballot),
    {
        match self.proposer.highest_observed_ballot() {
            Some(highest) => if highest.precedes(&ballot) {
                ballot
            } else {
                highest
            },
            None => ballot,
        }
    }

    /// Whether the node can see a ballot and forward the proposals that wait.
    fn is_ready_to_observe(&self, ballot: Ballot) -> (ready: bool)
        requires
            self.wf(),
        ensures
            ready == self@.observe(ballot).can_forward(),
    {
        let highest: Ballot = self.highest_with(ballot);
        let surpassed: bool = match self.proposer.highest_observed_ballot() {
            Some(before) => before != highest,
            None => true,
        };
        let follows: bool = surpassed || self.proposer.state().is_follower();
        !follows || self.proposer.is_proposal_queue_empty() || self.is_member(highest.1)
    }

    /// Whether the node can take a promise.
    fn is_ready_for_promise(
        &self,
        from: NodeId,
        ballot: Ballot,
        accepted: &Vec<(Slot, Ballot, Bytes)>,
    ) -> (ready: bool)
        requires
            self.wf(),
        ensures
            ready == self@.can_take_promise(from, ballot, reported_view(accepted@)),
    {
        let ghost reported = reported_view(accepted@);
        let elected: bool = match self.proposer.state() {
            ProposerState::Candidate { proposal, promises } => {
                let mut promises = promises.clone();
                *proposal == ballot && {
                    promises.insert(from);
                    promises.len() >= self.proposer.quorum
                }
            },
            _ => {
                return true;
            },
        };
        let mut end: Slot = self.window.end();
        for i in 0..accepted.len()
            invariant
                reported == reported_view(accepted@),
                self@.proposer.role is Candidate,
                forall|j: int| 0 <= j < i ==> (#[trigger] reported[j]).0 < u64::MAX,
                end == self@.window.notice_all(reported.take(i as int)).end,
        {
            let slot: Slot = accepted[i].0;
            assert(reported[i as int].0 == slot);
            if slot == u64::MAX {
                return false;
            }
            if slot >= end {
                end = slot + 1;
            }
            assert(reported.take(i + 1).drop_last() =~= reported.take(i as int));
        }
        assert(reported.take(accepted@.len() as int) =~= reported);
        !elected || self.proposer.queue.len() as u64 <= u64::MAX - end
    }

    /// Whether the node can learn a decision.
    fn is_ready_to_learn(&self, slot: Slot, ballot: Ballot) -> (ready: bool)
        requires
            self.wf(),
        ensures
            forall|value: Seq<u8>| ready == #[trigger] self@.can_learn(slot, ballot, value),
    {
        if !self.is_ready_to_observe(ballot) {
            return false;
        }
        let behind: bool = match self.window.slot(slot) {
            SlotRef::Resolved(..) => self.window.end() - self.window.start() > 1,
            _ => {
                if slot == u64::MAX {
                    return false;
                }
                self.is_behind_with(slot, ballot)
            },
        };
        !behind || self.is_member(self.highest_with(ballot).1)
    }

    /// Whether decisions are missing once a slot that awaits a decision is decided.
    fn is_behind_with(&self, slot: Slot, ballot: Ballot) -> (behind: bool)
        requires
            self.wf(),
            slot < u64::MAX,
            !self@.window.is_resolved(slot),
        ensures
            forall|value: Seq<u8>|
                behind == (#[trigger] self@.learn(slot, ballot, value)).is_behind(),
    {
        let end: Slot = if slot < self.window.end() {
            self.window.end()
        } else {
            slot + 1
        };
        let ghost start = self@.window.start;
        let ghost decided = |value: Seq<u8>|
            self@.window.put(slot, self@.window.acceptor(slot).resolve(ballot, value)).slots;
        let mut first: Slot = self.window.start();
        while first < end
            invariant_except_break
                start <= first <= end,
                forall|value: Seq<u8>|
                    first_undecided(#[trigger] decided(value), first, end) == first_undecided(
                        decided(value),
                        start,
                        end,
                    ),
            invariant
                decided == (|value: Seq<u8>|
                    self@.window.put(
                        slot,
                        self@.window.acceptor(slot).resolve(ballot, value),
                    ).slots),
            ensures
                first <= end,
                forall|value: Seq<u8>|
                    first == first_undecided(#[trigger] decided(value), start, end),
            decreases end - first,
        {
            let resolved: bool = first == slot || (match self.window.slot(first) {
                SlotRef::Resolved(..) => true,
                _ => false,
            });
            if !resolved {
                break;
            }
            first = first + 1;
        }
        proof {
            assert forall|value: Seq<u8>|
                (end - first > 1) == (#[trigger] self@.learn(slot, ballot, value)).is_behind() by {
                assert(first == first_undecided(decided(value), start, end));
            }
        }
        end - first > 1
    }
}

} // verus!
