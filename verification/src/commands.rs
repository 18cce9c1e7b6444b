//! The commands that replicas exchange, and the traits of their receivers.

use crate::ballot::{Ballot, NodeId, Slot};
use crate::round::{PaxosKey, PaxosRound, Phase};
use crate::value::{contents, duplicate};
use bytes::Bytes;
use vstd::prelude::*;

verus! {

/// What a command says.
#[verifier::ext_equal]
pub enum CommandView {
    Proposal(Seq<u8>),
    Prepare { slot: Slot, ballot: Ballot },
    Promise {
        from: NodeId,
        slot: Slot,
        ballot: Ballot,
        accepted: Seq<(Slot, Ballot, Seq<u8>)>,
    },
    Accept { slot: Slot, ballot: Ballot, value: Seq<u8> },
    Reject { from: NodeId, slot: Slot, proposed: Ballot, preempted: Ballot, phase: Phase },
    Accepted { from: NodeId, slot: Slot, ballot: Ballot },
    Resolution { slot: Slot, ballot: Ballot, value: Seq<u8> },
    Catchup { from: NodeId, slot: Slot },
}

impl CommandView {
    /// The slot and ballot of the round that the command belongs to, and the phase of that round.
    /// Proposals and catchup requests belong to no round.
    pub open spec fn stage(self) -> Option<(Slot, Ballot, Phase)> {
        match self {
            CommandView::Proposal(_) => None,
            CommandView::Catchup { .. } => None,
            CommandView::Prepare { slot, ballot } => Some((slot, ballot, Phase::Prepare)),
            CommandView::Promise { slot, ballot, .. } => Some((slot, ballot, Phase::Promise)),
            CommandView::Accept { slot, ballot, .. } => Some((slot, ballot, Phase::Accept)),
            CommandView::Reject { slot, proposed, .. } => Some((slot, proposed, Phase::Reject)),
            CommandView::Accepted { slot, ballot, .. } => Some((slot, ballot, Phase::Accepted)),
            CommandView::Resolution { slot, ballot, .. } => Some(
                (slot, ballot, Phase::Resolution),
            ),
        }
    }

    /// The round that the command belongs to.
    pub open spec fn round(self) -> Option<PaxosRound> {
        match self.stage() {
            Some((_, ballot, phase)) => Some(PaxosRound { ballot: ballot.0, phase }),
            None => None,
        }
    }

    /// The key under which the command travels to `receiver`.
    pub open spec fn key_for(self, receiver: NodeId) -> PaxosKey {
        match self {
            CommandView::Catchup { slot, .. } => PaxosKey::Catchup { slot, leader: receiver },
            _ => match self.stage() {
                Some((slot, ballot, _)) => PaxosKey::Slot { slot, proposer: ballot.1 },
                None => PaxosKey::ProposalTo(receiver),
            },
        }
    }

    /// The key and the round with which the command has to be stamped.
    pub open spec fn stamp(self) -> Option<(PaxosKey, PaxosRound)> {
        match self.stage() {
            Some((slot, ballot, phase)) => Some(
                (
                    PaxosKey::Slot { slot, proposer: ballot.1 },
                    PaxosRound { ballot: ballot.0, phase },
                ),
            ),
            None => None,
        }
    }
}

/// What the values reported with a promise hold.
pub open spec fn reported_view(accepted: Seq<(Slot, Ballot, Bytes)>) -> Seq<
    (Slot, Ballot, Seq<u8>),
> {
    accepted.map_values(|a: (Slot, Ballot, Bytes)| (a.0, a.1, contents(a.2)))
}

/// Receiver of Paxos commands.
pub trait Receiver {
    /// Whether the receiver can take the command in its present state.
    spec fn receivable(&self, command: CommandView) -> bool;

    /// Whether `after` is what the receiver becomes on the command.
    spec fn received(&self, command: CommandView, after: &Self) -> bool;

    /// Receives a command and reacts accordingly
    fn receive(&mut self, command: Command)
        requires
            old(self).receivable(command@),
        ensures
            old(self).received(command@, final(self)),
    ;
}

/// Receiver of Paxos commands.
///
/// This is a convenience trait that breaks out reactors for each command.
pub trait Commander {
    /// Whether the commander can react to the command in its present state.
    spec fn ready_for(&self, command: CommandView) -> bool;

    /// Whether `after` is what the commander becomes by reacting to the command.
    spec fn reacts(&self, command: CommandView, after: &Self) -> bool;

    /// Receive a proposal
    fn proposal(&mut self, val: Bytes)
        requires
            old(self).ready_for(CommandView::Proposal(contents(val))),
        ensures
            old(self).reacts(CommandView::Proposal(contents(val)), final(self)),
    ;

    /// Receive a Phase 1a PREPARE message containing the proposed ballot
    fn prepare(&mut self, slot: Slot, bal: Ballot)
        requires
            old(self).ready_for(CommandView::Prepare { slot, ballot: bal }),
        ensures
            old(self).reacts(CommandView::Prepare { slot, ballot: bal }, final(self)),
    ;

    /// Receive a Phase 1b PROMISE message containing the node
    /// that generated the promise, the ballot promised and the values
    /// accepted for the slots that the promise covers.
    fn promise(
        &mut self,
        node: NodeId,
        slot: Slot,
        bal: Ballot,
        accepted: Vec<(Slot, Ballot, Bytes)>,
    )
        requires
            old(self).ready_for(
                CommandView::Promise {
                    from: node,
                    slot,
                    ballot: bal,
                    accepted: reported_view(accepted@),
                },
            ),
        ensures
            old(self).reacts(
                CommandView::Promise {
                    from: node,
                    slot,
                    ballot: bal,
                    accepted: reported_view(accepted@),
                },
                final(self),
            ),
    ;

    /// Receive a Phase 2a ACCEPT message that contains the the slot, proposed
    /// ballot and value of the proposal. The ballot contains the node of
    /// the leader of the slot.
    fn accept(&mut self, slot: Slot, bal: Ballot, value: Bytes)
        requires
            old(self).ready_for(
                CommandView::Accept { slot, ballot: bal, value: contents(value) },
            ),
        ensures
            old(self).reacts(
                CommandView::Accept { slot, ballot: bal, value: contents(value) },
                final(self),
            ),
    ;

    /// Receives a REJECT message from a peer containing a higher ballot that
    /// preempts either a Phase 1a (PREPARE) for Phase 2a (ACCEPT) message.
    fn reject(
        &mut self,
        node: NodeId,
        slot: Slot,
        proposed: Ballot,
        preempted: Ballot,
        phase: Phase,
    )
        requires
            old(self).ready_for(
                CommandView::Reject { from: node, slot, proposed, preempted, phase },
            ),
        ensures
            old(self).reacts(
                CommandView::Reject { from: node, slot, proposed, preempted, phase },
                final(self),
            ),
    ;

    /// Receives a Phase 2b ACCEPTED message containing the acceptor that has
    /// accepted the slot's proposal along with the ballot that generated
    /// the slot.
    fn accepted(&mut self, node: NodeId, slot: Slot, bal: Ballot)
        requires
            old(self).ready_for(CommandView::Accepted { from: node, slot, ballot: bal }),
        ensures
            old(self).reacts(CommandView::Accepted { from: node, slot, ballot: bal }, final(self)),
    ;

    /// Receives a final resolution of a slot that has been accepted by a
    /// majority of acceptors.
    ///
    /// NOTE: Resolutions may arrive out-of-order. No guarantees are made on
    /// slot order.
    fn resolution(&mut self, slot: Slot, bal: Ballot, value: Bytes)
        requires
            old(self).ready_for(
                CommandView::Resolution { slot, ballot: bal, value: contents(value) },
            ),
        ensures
            old(self).reacts(
                CommandView::Resolution { slot, ballot: bal, value: contents(value) },
                final(self),
            ),
    ;

    /// Request sent to a distinguished learner to catch up to latest slot
    /// values.
    fn catchup(&mut self, node: NodeId, slot: Slot)
        requires
            old(self).ready_for(CommandView::Catchup { from: node, slot }),
        ensures
            old(self).reacts(CommandView::Catchup { from: node, slot }, final(self)),
    ;
}

impl<T: Commander> Receiver for T {
    open spec fn receivable(&self, command: CommandView) -> bool {
        self.ready_for(command)
    }

    open spec fn received(&self, command: CommandView, after: &Self) -> bool {
        self.reacts(command, after)
    }

    fn receive(&mut self, command: Command) {
        match command {
            Command::Proposal(val) => {
                self.proposal(val);
            },
            Command::Prepare { slot, ballot } => {
                self.prepare(slot, ballot);
            },
            Command::Promise { from, slot, ballot, accepted } => {
                self.promise(from, slot, ballot, accepted);
            },
            Command::Accept { slot, ballot, value } => {
                self.accept(slot, ballot, value);
            },
            Command::Reject { from, slot, proposed, preempted, phase } => {
                self.reject(from, slot, proposed, preempted, phase);
            },
            Command::Accepted { from, slot, ballot } => {
                self.accepted(from, slot, ballot);
            },
            Command::Resolution { slot, ballot, value } => {
                self.resolution(slot, ballot, value);
            },
            Command::Catchup { from, slot } => {
                self.catchup(from, slot);
            },
        }
    }
}

/// RPC commands sent between replicas
#[derive(PartialEq, Eq, Debug)]
pub enum Command {
    /// Propose a value
    Proposal(Bytes),
    /// Phase 1a PREPARE message containing the proposed ballot
    Prepare { slot: Slot, ballot: Ballot },
    /// Phase 1b PROMISE message containing the node
    /// that generated the promise, the ballot promised and the values
    /// accepted for the slots that the promise covers.
    Promise { from: NodeId, slot: Slot, ballot: Ballot, accepted: Vec<(Slot, Ballot, Bytes)> },
    /// Phase 2a ACCEPT message that contains the the slot, proposed
    /// ballot and value of the proposal. The ballot contains the node of
    /// the leader of the slot.
    Accept { slot: Slot, ballot: Ballot, value: Bytes },
    /// REJECT a peer's previous message containing a higher ballot that
    /// preempts either a Phase 1a (PREPARE) for Phase 2a (ACCEPT) message.
    Reject { from: NodeId, slot: Slot, proposed: Ballot, preempted: Ballot, phase: Phase },
    /// Phase 2b ACCEPTED message containing the acceptor that has
    /// accepted the slot's proposal along with the ballot that generated
    /// the slot.
    Accepted { from: NodeId, slot: Slot, ballot: Ballot },
    /// Resolution of a slot that has been accepted by a
    /// majority of acceptors.
    ///
    /// NOTE: Resolutions may arrive out-of-order. No guarantees are made on
    /// slot order.
    Resolution { slot: Slot, ballot: Ballot, value: Bytes },
    /// Request sent to a distinguished learner to catch up to latest slot
    /// values.
    Catchup { from: NodeId, slot: Slot },
}

impl View for Command {
    type V = CommandView;

    open spec fn view(&self) -> CommandView {
        match *self {
            Command::Proposal(value) => CommandView::Proposal(contents(value)),
            Command::Prepare { slot, ballot } => CommandView::Prepare { slot, ballot },
            Command::Promise { from, slot, ballot, accepted } => CommandView::Promise {
                from,
                slot,
                ballot,
                accepted: reported_view(accepted@),
            },
            Command::Accept { slot, ballot, value } => CommandView::Accept {
                slot,
                ballot,
                value: contents(value),
            },
            Command::Reject { from, slot, proposed, preempted, phase } => CommandView::Reject {
                from,
                slot,
                proposed,
                preempted,
                phase,
            },
            Command::Accepted { from, slot, ballot } => CommandView::Accepted {
                from,
                slot,
                ballot,
            },
            Command::Resolution { slot, ballot, value } => CommandView::Resolution {
                slot,
                ballot,
                value: contents(value),
            },
            Command::Catchup { from, slot } => CommandView::Catchup { from, slot },
        }
    }
}

impl Clone for Command {
    fn clone(&self) -> (copy: Command)
        ensures
            copy@ == self@,
    {
        match self {
            Command::Proposal(value) => Command::Proposal(duplicate(value)),
            Command::Prepare { slot, ballot } => Command::Prepare { slot: *slot, ballot: *ballot },
            Command::Promise { from, slot, ballot, accepted } => Command::Promise {
                from: *from,
                slot: *slot,
                ballot: *ballot,
                accepted: duplicate_reported(accepted),
            },
            Command::Accept { slot, ballot, value } => Command::Accept {
                slot: *slot,
                ballot: *ballot,
                value: duplicate(value),
            },
            Command::Reject { from, slot, proposed, preempted, phase } => Command::Reject {
                from: *from,
                slot: *slot,
                proposed: *proposed,
                preempted: *preempted,
                phase: *phase,
            },
            Command::Accepted { from, slot, ballot } => Command::Accepted {
                from: *from,
                slot: *slot,
                ballot: *ballot,
            },
            Command::Resolution { slot, ballot, value } => Command::Resolution {
                slot: *slot,
                ballot: *ballot,
                value: duplicate(value),
            },
            Command::Catchup { from, slot } => Command::Catchup { from: *from, slot: *slot },
        }
    }
}

/// A copy of the values reported with a promise.
fn duplicate_reported(accepted: &Vec<(Slot, Ballot, Bytes)>) -> (copy: Vec<(Slot, Ballot, Bytes)>)
    ensures
        reported_view(copy@) == reported_view(accepted@),
{
    let mut copy: Vec<(Slot, Ballot, Bytes)> = Vec::new();
    for i in 0..accepted.len()
        invariant
            reported_view(copy@) =~= reported_view(accepted@).take(i as int),
    {
        let ghost before = copy@;
        copy.push((accepted[i].0, accepted[i].1, duplicate(&accepted[i].2)));
        assert(reported_view(copy@) =~= reported_view(before).push(
            reported_view(accepted@)[i as int],
        ));
    }
    assert(reported_view(accepted@).take(accepted@.len() as int) =~= reported_view(accepted@));
    copy
}

impl Command {
    /// Returns the Paxos round that is part of the command's protocol payload.
    ///
    /// Proposal and catchup messages are intentionally excluded: proposals are
    /// client work forwarded between replicas, and catchup requests do not carry
    /// a ballot.
    pub fn protocol_round(&self) -> (round: Option<PaxosRound>)
        ensures
            round == self@.round(),
    {
        match self {
            Command::Proposal(_) | Command::Catchup { .. } => None,
            Command::Prepare { ballot, .. } => Some(PaxosRound::new(ballot.0, Phase::Prepare)),
            Command::Promise { ballot, .. } => Some(PaxosRound::new(ballot.0, Phase::Promise)),
            Command::Accept { ballot, .. } => Some(PaxosRound::new(ballot.0, Phase::Accept)),
            Command::Reject { proposed, .. } => Some(PaxosRound::new(proposed.0, Phase::Reject)),
            Command::Accepted { ballot, .. } => Some(PaxosRound::new(ballot.0, Phase::Accepted)),
            Command::Resolution { ballot, .. } => Some(
                PaxosRound::new(ballot.0, Phase::Resolution),
            ),
        }
    }

    /// The key under which the command travels to `receiver`.
    pub fn key_for(&self, receiver: NodeId) -> (key: PaxosKey)
        ensures
            key == self@.key_for(receiver),
    {
        match self {
            Command::Proposal(_) => PaxosKey::ProposalTo(receiver),
            Command::Catchup { slot, .. } => PaxosKey::Catchup { slot: *slot, leader: receiver },
            Command::Prepare { slot, ballot } => PaxosKey::Slot {
                slot: *slot,
                proposer: ballot.1,
            },
            Command::Promise { slot, ballot, .. } => PaxosKey::Slot {
                slot: *slot,
                proposer: ballot.1,
            },
            Command::Accept { slot, ballot, .. } => PaxosKey::Slot {
                slot: *slot,
                proposer: ballot.1,
            },
            Command::Reject { slot, proposed, .. } => PaxosKey::Slot {
                slot: *slot,
                proposer: proposed.1,
            },
            Command::Accepted { slot, ballot, .. } => PaxosKey::Slot {
                slot: *slot,
                proposer: ballot.1,
            },
            Command::Resolution { slot, ballot, .. } => PaxosKey::Slot {
                slot: *slot,
                proposer: ballot.1,
            },
        }
    }

    /// The key and the round with which the command has to be stamped, if it belongs to a round.
    pub fn protocol_stamp(&self) -> (stamp: Option<(PaxosKey, PaxosRound)>)
        ensures
            stamp == self@.stamp(),
    {
        match self.protocol_round() {
            // the receiver does not enter into the key of a command that belongs to a round
            Some(round) => Some((self.key_for(0), round)),
            None => None,
        }
    }
}

/// Proposals travel under the key of their receiver and catchup requests under that of the slot
/// and their receiver; neither belongs to a round. Every other command travels under the key of
/// its slot and of the node of its ballot, whoever receives it, and belongs to the round of its
/// ballot number and its phase. A REJECT is of the ballot that was proposed.
pub proof fn commands_travel_under_their_keys(command: CommandView, receiver: NodeId)
    ensures
        match command {
            CommandView::Proposal(_) => command.key_for(receiver) == PaxosKey::ProposalTo(receiver)
                && command.stamp() is None && command.round() is None,
            CommandView::Catchup { slot, .. } => command.key_for(receiver) == (PaxosKey::Catchup {
                slot,
                leader: receiver,
            }) && command.stamp() is None && command.round() is None,
            CommandView::Prepare { slot, ballot } => is_stamped(
                command,
                receiver,
                slot,
                ballot,
                Phase::Prepare,
            ),
            CommandView::Promise { slot, ballot, .. } => is_stamped(
                command,
                receiver,
                slot,
                ballot,
                Phase::Promise,
            ),
            CommandView::Accept { slot, ballot, .. } => is_stamped(
                command,
                receiver,
                slot,
                ballot,
                Phase::Accept,
            ),
            CommandView::Reject { slot, proposed, .. } => is_stamped(
                command,
                receiver,
                slot,
                proposed,
                Phase::Reject,
            ),
            CommandView::Accepted { slot, ballot, .. } => is_stamped(
                command,
                receiver,
                slot,
                ballot,
                Phase::Accepted,
            ),
            CommandView::Resolution { slot, ballot, .. } => is_stamped(
                command,
                receiver,
                slot,
                ballot,
                Phase::Resolution,
            ),
        },
{
}

/// Whether a command travels under the key of a slot and of the node of a ballot, in the round of
/// the number of the ballot and of a phase.
pub open spec fn is_stamped(
    command: CommandView,
    receiver: NodeId,
    slot: Slot,
    ballot: Ballot,
    phase: Phase,
) -> bool {
    let key = PaxosKey::Slot { slot, proposer: ballot.1 };
    let round = PaxosRound { ballot: ballot.0, phase };
    &&& command.key_for(receiver) == key
    &&& command.stamp() == Some((key, round))
    &&& command.round() == Some(round)
}

} // verus!
