//! The state of a node and its reactions, as functions from state to state.

use crate::acceptor::AcceptReply;
use crate::ballot::{Ballot, NodeId, Slot};
use crate::comm::ActionView;
use crate::commands::CommandView;
use crate::config::majority;
use crate::proposer::{ProposerView, Role};
use crate::round::{PaxosKey, PaxosRound, Phase};
use crate::window::WindowView;
use vstd::prelude::*;

verus! {

/// Outcome of handing a PREPARE to the acceptors of a sequence of slots.
#[verifier::ext_equal]
pub struct Scan {
    pub window: WindowView,
    /// The values that come with the promises, in the order of the slots.
    pub accepted: Seq<(Slot, Ballot, Seq<u8>)>,
    /// The ballot that made an acceptor reject; no acceptor behind that one is asked.
    pub preempted: Option<Ballot>,
}

impl Scan {
    /// Hands a PREPARE to the acceptor of one more slot. A decided slot reports its decision, and
    /// an empty one has nothing to say.
    pub open spec fn step(self, slot: Slot, ballot: Ballot) -> Scan {
        if self.preempted is Some || self.window.is_empty(slot) {
            self
        } else if self.window.is_resolved(slot) {
            self.report(slot, self.window.slots[slot].resolution())
        } else {
            match self.window.slots[slot].preempting(ballot) {
                Some(preempted) => Scan { preempted: Some(preempted), ..self },
                None => Scan { window: self.window.prepare(slot, ballot), ..self }.report(
                    slot,
                    self.window.slots[slot].highest_value(),
                ),
            }
        }
    }

    /// Adds the value of a slot, if there is one, to those that come with the promises.
    pub open spec fn report(self, slot: Slot, value: Option<(Ballot, Seq<u8>)>) -> Scan {
        match value {
            Some((ballot, value)) => Scan {
                accepted: self.accepted.push((slot, ballot, value)),
                ..self
            },
            None => self,
        }
    }
}

impl WindowView {
    /// Hands a PREPARE to the acceptors of the slots, one after the other.
    pub open spec fn scan(self, slots: Seq<Slot>, ballot: Ballot) -> Scan
        decreases slots.len(),
    {
        if slots.len() == 0 {
            Scan { window: self, accepted: Seq::empty(), preempted: None }
        } else {
            self.scan(slots.drop_last(), ballot).step(slots.last(), ballot)
        }
    }

    /// The slots that a promise for `slot` covers, in ascending order: the open range and `slot`.
    pub open spec fn promise_slots(self, slot: Slot) -> Seq<Slot> {
        if slot < self.start {
            seq![slot] + self.open_slots()
        } else if slot < self.end {
            self.open_slots()
        } else {
            self.open_slots().push(slot)
        }
    }

    /// Learns of the values that come with a promise.
    pub open spec fn notice_all(self, accepted: Seq<(Slot, Ballot, Seq<u8>)>) -> WindowView
        decreases accepted.len(),
    {
        if accepted.len() == 0 {
            self
        } else {
            let (slot, ballot, value) = accepted.last();
            self.notice_all(accepted.drop_last()).notice(slot, ballot, value)
        }
    }

    /// Gives each of the values the next slot.
    pub open spec fn place_all(self, ballot: Ballot, values: Seq<Seq<u8>>) -> WindowView
        decreases values.len(),
    {
        if values.len() == 0 {
            self
        } else {
            let placed = self.place_all(ballot, values.drop_last());
            placed.notice(placed.next_slot(), ballot, values.last())
        }
    }

    /// The value to propose for a slot: the one of the highest ballot known for it, or an empty
    /// one if none is known.
    pub open spec fn claim_value(self, slot: Slot) -> Seq<u8> {
        match self.acceptor(slot).highest_value() {
            Some((_, value)) => value,
            None => Seq::empty(),
        }
    }

    /// Takes the slots of the open range below `upto` that are not decided under `ballot`,
    /// keeping the values known for them and filling the holes.
    pub open spec fn claim(self, ballot: Ballot, upto: Slot) -> WindowView {
        WindowView {
            slots: Map::new(
                |slot: Slot| self.slots.contains_key(slot) || self.start <= slot < upto,
                |slot: Slot|
                    if self.start <= slot < upto {
                        self.acceptor(slot).notice(self.node, ballot, self.claim_value(slot))
                    } else {
                        self.slots[slot]
                    },
            ),
            ..self
        }
    }
}

/// Whether the key and the round with which a command arrived are those it has to have.
#[derive(Clone, Copy, PartialEq, Eq, Structural, Debug)]
pub enum StampCheck {
    /// They are not.
    Mismatch,
    /// They are, and the command belongs to that round.
    InRound,
    /// They are, and the command belongs to no round.
    Free,
}

impl StampCheck {
    /// Whether a command with this outcome is received, given whether its key could be moved to
    /// the round.
    pub open spec fn admits(self, entered: bool) -> bool {
        match self {
            StampCheck::Mismatch => false,
            StampCheck::InRound => entered,
            StampCheck::Free => true,
        }
    }
}

/// The commands among the messages of an inbox that `keep` selects, in order.
pub open spec fn selected(
    messages: Seq<Option<CommandView>>,
    keep: spec_fn(CommandView) -> bool,
) -> Seq<CommandView>
    decreases messages.len(),
{
    if messages.len() == 0 {
        Seq::empty()
    } else {
        let before = selected(messages.drop_last(), keep);
        match messages.last() {
            Some(command) if keep(command) => before.push(command),
            _ => before,
        }
    }
}

/// The promises among the messages of an inbox.
pub open spec fn promises(messages: Seq<Option<CommandView>>) -> Seq<CommandView> {
    selected(messages, |command: CommandView| command is Promise)
}

/// The votes among the messages of an inbox.
pub open spec fn votes(messages: Seq<Option<CommandView>>) -> Seq<CommandView> {
    selected(messages, |command: CommandView| command is Accepted)
}

/// What a node knows, and what it has asked of the transport.
#[verifier::ext_equal]
pub struct NodeView {
    pub current: NodeId,
    pub peers: Seq<NodeId>,
    pub proposer: ProposerView,
    pub window: WindowView,
    /// The actions asked for, oldest first.
    pub asked: Seq<ActionView>,
}

impl NodeView {
    /// A node that has seen nothing, in a group with the given peers. Its quorums are majorities.
    pub open spec fn fresh(
        current: NodeId,
        peers: Seq<NodeId>,
        asked: Seq<ActionView>,
    ) -> NodeView {
        let quorum = majority(peers.len() + 1);
        NodeView {
            current,
            peers,
            proposer: ProposerView::fresh(current, quorum),
            window: WindowView::fresh(current, quorum),
            asked,
        }
    }

    pub open spec fn is_peer(self, id: NodeId) -> bool {
        self.peers.contains(id)
    }

    /// The parts of the node are valid and belong to it, and a node is not its own peer.
    pub open spec fn valid(self) -> bool {
        &&& self.proposer.valid()
        &&& self.window.valid()
        &&& self.proposer.node == self.current
        &&& self.window.node == self.current
        &&& !self.is_peer(self.current)
    }

    pub open spec fn is_leader(self) -> bool {
        self.proposer.role is Leader
    }

    // Actions

    pub open spec fn ask(self, action: ActionView) -> NodeView {
        NodeView { asked: self.asked.push(action), ..self }
    }

    pub open spec fn ask_all(self, actions: Seq<ActionView>) -> NodeView {
        NodeView { asked: self.asked + actions, ..self }
    }

    /// Moves the key of a command to the round of the command, if it belongs to one.
    pub open spec fn enter(self, command: CommandView) -> NodeView {
        match command.stamp() {
            Some((key, round)) => self.ask(ActionView::Enter { key, round }),
            None => self,
        }
    }

    /// Sends a command to a peer.
    pub open spec fn send(self, to: NodeId, command: CommandView) -> NodeView {
        self.ask(ActionView::Send { to, key: command.key_for(to), command })
    }

    /// Enters the round of a command and sends it to a peer.
    pub open spec fn tell(self, to: NodeId, command: CommandView) -> NodeView {
        self.enter(command).send(to, command)
    }

    /// Enters the round of a command and sends it to all peers.
    pub open spec fn announce(self, command: CommandView) -> NodeView {
        self.enter(command).ask_all(
            self.peers.map_values(
                |to: NodeId| ActionView::Send { to, key: command.key_for(to), command },
            ),
        )
    }

    /// The actions asked for once commands are announced one after the other.
    pub open spec fn announced(self, commands: Seq<CommandView>) -> Seq<ActionView>
        decreases commands.len(),
    {
        if commands.len() == 0 {
            self.asked
        } else {
            let before = NodeView { asked: self.announced(commands.drop_last()), ..self };
            before.announce(commands.last()).asked
        }
    }

    /// Announces commands one after the other.
    pub open spec fn announce_all(self, commands: Seq<CommandView>) -> NodeView {
        NodeView { asked: self.announced(commands), ..self }
    }

    /// Asks the leader for the decision of a slot; a node does not ask itself.
    pub open spec fn request(self, leader: NodeId, ballot: Ballot, slot: Slot) -> NodeView {
        if leader == self.current {
            self
        } else {
            self.ask(
                ActionView::Enter {
                    key: PaxosKey::Catchup { slot, leader },
                    round: PaxosRound { ballot: ballot.0, phase: Phase::Catchup },
                },
            ).send(leader, CommandView::Catchup { from: self.current, slot })
        }
    }

    /// The actions asked for once the leader is asked for the decisions of slots, one after the
    /// other.
    pub open spec fn requested(
        self,
        leader: NodeId,
        ballot: Ballot,
        slots: Seq<Slot>,
    ) -> Seq<ActionView>
        decreases slots.len(),
    {
        if slots.len() == 0 {
            self.asked
        } else {
            let before = NodeView {
                asked: self.requested(leader, ballot, slots.drop_last()),
                ..self
            };
            before.request(leader, ballot, slots.last()).asked
        }
    }

    /// Asks the leader for the decisions of slots, one after the other.
    pub open spec fn request_all(
        self,
        leader: NodeId,
        ballot: Ballot,
        slots: Seq<Slot>,
    ) -> NodeView {
        NodeView { asked: self.requested(leader, ballot, slots), ..self }
    }

    // Parts of reactions

    /// Notes a ballot.
    pub open spec fn observe(self, ballot: Ballot) -> NodeView {
        NodeView { proposer: self.proposer.observe(ballot), ..self }
    }

    /// Whether queued proposals, if they have to be forwarded, go to a peer.
    pub open spec fn can_forward(self) -> bool {
        self.proposer.role is Follower && self.proposer.queue.len() > 0 ==> (
        self.proposer.highest matches Some(h) ==> h.1 == self.current || self.is_peer(h.1))
    }

    /// A follower hands its queued proposals to the node of the highest ballot it has seen,
    /// unless that is itself.
    pub open spec fn forward(self) -> NodeView {
        if !(self.proposer.role is Follower) || self.proposer.queue.len() == 0 {
            self
        } else {
            match self.proposer.highest {
                Some(h) if h.1 == self.current => self,
                Some(h) => NodeView { proposer: self.proposer.drained(), ..self }.ask_all(
                    self.proposer.queue.map_values(
                        |value: Seq<u8>|
                            ActionView::Send {
                                to: h.1,
                                key: PaxosKey::ProposalTo(h.1),
                                command: CommandView::Proposal(value),
                            },
                    ),
                ),
                None => NodeView { proposer: self.proposer.drained(), ..self },
            }
        }
    }

    /// Whether the queued proposals find slots, should the node be a leader.
    pub open spec fn can_drive_accept(self) -> bool {
        self.is_leader() ==> self.window.end + self.proposer.queue.len() <= u64::MAX
    }

    /// A leader gives its queued proposals slots, takes all slots of the open range that are not
    /// decided under its ballot, and announces ACCEPTs for them.
    pub open spec fn drive_accept(self) -> NodeView {
        match self.proposer.role {
            Role::Leader { proposal } => {
                let placed = self.window.place_all(proposal, self.proposer.queue);
                NodeView {
                    proposer: self.proposer.drained(),
                    window: placed.claim(proposal, placed.end),
                    ..self
                }.announce_all(
                    placed.missing().map_values(
                        |slot: Slot|
                            CommandView::Accept {
                                slot,
                                ballot: proposal,
                                value: placed.claim_value(slot),
                            },
                    ),
                )
            },
            _ => self,
        }
    }

    // Leadership

    pub open spec fn can_propose_leadership(self) -> bool {
        self.proposer.role is Follower ==> self.proposer.can_prepare()
    }

    /// Announces PREPAREs under `ballot` for the slots that await a decision.
    pub open spec fn announce_prepares(self, ballot: Ballot) -> NodeView {
        self.announce_all(
            self.window.unresolved().map_values(
                |slot: Slot| CommandView::Prepare { slot, ballot },
            ),
        )
    }

    /// A follower starts a candidacy and a candidate repeats its own; a leader announces ACCEPTs
    /// of empty values for the slots that await a decision. That gives a second value to its
    /// ballot in the slots that it has proposed for, or will: agreement rests on runs in which
    /// no leader does so (see `group::renews_safely`).
    pub open spec fn propose_leadership(self) -> NodeView {
        match self.proposer.role {
            Role::Candidate { proposal, .. } => self.announce_prepares(proposal),
            Role::Follower => NodeView {
                proposer: self.proposer.prepare(),
                ..self
            }.announce_prepares(self.proposer.next_ballot()),
            Role::Leader { proposal } => self.announce_all(
                self.window.unresolved().map_values(
                    |slot: Slot|
                        CommandView::Accept { slot, ballot: proposal, value: Seq::empty() },
                ),
            ),
        }
    }

    /// The actions that move the keys of slots under the node's own ballots one step on.
    pub open spec fn steps(self, slots: Seq<Slot>) -> Seq<ActionView>
        decreases slots.len(),
    {
        if slots.len() == 0 {
            Seq::empty()
        } else {
            let slot = slots.last();
            self.steps(slots.drop_last()).push(
                ActionView::Tick { key: PaxosKey::Slot { slot, proposer: self.current } },
            ).push(ActionView::Tick { key: PaxosKey::Catchup { slot, leader: self.current } })
        }
    }

    /// Moves the keys of slots under the node's own ballots one step on.
    pub open spec fn tick_all(self, slots: Seq<Slot>) -> NodeView {
        self.ask_all(self.steps(slots))
    }

    // Reactions to commands

    pub open spec fn can_propose(self) -> bool {
        match self.proposer.role {
            Role::Follower => match self.proposer.highest {
                Some(h) => if h.1 == self.current {
                    self.proposer.can_prepare()
                } else {
                    self.is_peer(h.1)
                },
                None => true,
            },
            Role::Candidate { .. } => true,
            Role::Leader { .. } => self.window.next_slot() < u64::MAX,
        }
    }

    /// A leader proposes the value for the next slot, a candidate queues it, and a follower hands
    /// it to the leader it knows or, knowing none but itself, starts a candidacy for it.
    pub open spec fn propose(self, value: Seq<u8>) -> NodeView {
        let queued = NodeView { proposer: self.proposer.push(value), ..self };
        match self.proposer.role {
            Role::Follower => match self.proposer.highest {
                Some(h) if h.1 != self.current => self.send(h.1, CommandView::Proposal(value)),
                _ => queued.propose_leadership(),
            },
            Role::Candidate { .. } => queued,
            Role::Leader { proposal } => {
                let slot = self.window.next_slot();
                NodeView { window: self.window.notice(slot, proposal, value), ..self }.announce(
                    CommandView::Accept { slot, ballot: proposal, value },
                )
            },
        }
    }

    /// Promises the ballot for the open range and `slot`, and tells its proposer so along with
    /// the values known for them, or tells it which ballot preempts it. The promise leaves no
    /// trace on the slots that are empty.
    pub open spec fn prepare(self, slot: Slot, ballot: Ballot) -> NodeView {
        let scan = self.window.scan(self.window.promise_slots(slot), ballot);
        let after = NodeView { window: scan.window, ..self.observe(ballot) };
        match scan.preempted {
            Some(preempted) => after.tell(
                ballot.1,
                CommandView::Reject {
                    from: self.current,
                    slot,
                    proposed: ballot,
                    preempted,
                    phase: Phase::Prepare,
                },
            ),
            None => after.tell(
                ballot.1,
                CommandView::Promise {
                    from: self.current,
                    slot,
                    ballot,
                    accepted: scan.accepted,
                },
            ),
        }
    }

    /// The state of a candidate that has counted a promise and learnt the values that came with
    /// it.
    pub open spec fn count_promise(
        self,
        from: NodeId,
        ballot: Ballot,
        accepted: Seq<(Slot, Ballot, Seq<u8>)>,
    ) -> NodeView {
        NodeView {
            proposer: self.proposer.promise(from, ballot),
            window: self.window.notice_all(accepted),
            ..self
        }
    }

    pub open spec fn can_take_promise(
        self,
        from: NodeId,
        ballot: Ballot,
        accepted: Seq<(Slot, Ballot, Seq<u8>)>,
    ) -> bool {
        self.proposer.role is Candidate ==> {
            &&& forall|i: int| 0 <= i < accepted.len() ==> (#[trigger] accepted[i]).0 < u64::MAX
            &&& self.count_promise(from, ballot, accepted).can_drive_accept()
        }
    }

    /// A candidate counts the promise; one that becomes the leader by it drives ACCEPTs.
    pub open spec fn promise(
        self,
        from: NodeId,
        ballot: Ballot,
        accepted: Seq<(Slot, Ballot, Seq<u8>)>,
    ) -> NodeView {
        if self.proposer.role is Candidate {
            self.count_promise(from, ballot, accepted).drive_accept()
        } else {
            self
        }
    }

    pub open spec fn can_accept(self, slot: Slot, ballot: Ballot) -> bool {
        &&& self.observe(ballot).can_forward()
        &&& !self.window.is_resolved(slot) ==> slot < u64::MAX && self.is_peer(ballot.1)
    }

    /// Hands the ACCEPT to the acceptor of a slot that is not decided, and tells its proposer the
    /// answer.
    pub open spec fn accept(self, slot: Slot, ballot: Ballot, value: Seq<u8>) -> NodeView {
        let seen = self.observe(ballot).forward();
        if self.window.is_resolved(slot) {
            seen
        } else {
            let after = NodeView { window: self.window.accept(slot, ballot, value), ..seen };
            match self.window.acceptor(slot).accept_reply(ballot) {
                AcceptReply::Accepted => after.tell(
                    ballot.1,
                    CommandView::Accepted { from: self.current, slot, ballot },
                ),
                AcceptReply::Reject { preempted } => after.tell(
                    ballot.1,
                    CommandView::Reject {
                        from: self.current,
                        slot,
                        proposed: ballot,
                        preempted,
                        phase: Phase::Accept,
                    },
                ),
                AcceptReply::Resolved => after,
            }
        }
    }

    /// Counts the vote for a slot that awaits a decision, and announces the decision that it
    /// brings about.
    pub open spec fn accepted(self, from: NodeId, slot: Slot, ballot: Ballot) -> NodeView {
        let seen = self.observe(ballot);
        if self.window.is_open(slot) {
            let after = NodeView { window: self.window.vote(slot, from, ballot), ..seen };
            match self.window.acceptor(slot).vote(self.window.quorum, from, ballot).resolution() {
                Some((_, value)) => after.announce(CommandView::Resolution { slot, ballot, value }),
                None => after,
            }
        } else {
            seen
        }
    }

    /// The state of a node that has learnt the decision of a slot.
    pub open spec fn learn(self, slot: Slot, ballot: Ballot, value: Seq<u8>) -> NodeView {
        let seen = self.observe(ballot).forward();
        if self.window.is_resolved(slot) {
            seen
        } else {
            NodeView { window: self.window.resolve(slot, ballot, value), ..seen }
        }
    }

    /// Whether more than one slot is open, so that decisions are missing.
    pub open spec fn is_behind(self) -> bool {
        self.window.end - self.window.start > 1
    }

    pub open spec fn can_learn(self, slot: Slot, ballot: Ballot, value: Seq<u8>) -> bool {
        let after = self.learn(slot, ballot, value);
        &&& self.observe(ballot).can_forward()
        &&& !self.window.is_resolved(slot) ==> slot < u64::MAX
        &&& after.is_behind() ==> (after.proposer.highest matches Some(h) && (h.1 == self.current
            || self.is_peer(h.1)))
    }

    /// Learns the decision of a slot, and asks the leader for those that are missing. Decisions
    /// may arrive out of order, so the requests go under the highest ballot seen, whatever the
    /// ballot of the decision.
    pub open spec fn resolution(self, slot: Slot, ballot: Ballot, value: Seq<u8>) -> NodeView {
        let after = self.learn(slot, ballot, value);
        if after.is_behind() {
            let highest = after.proposer.highest->Some_0;
            after.request_all(highest.1, highest, after.window.missing())
        } else {
            after
        }
    }

    pub open spec fn can_catch_up(self, from: NodeId, slot: Slot) -> bool {
        self.is_leader() && self.window.is_resolved(slot) ==> self.is_peer(from)
    }

    /// A leader tells the asking node the decision of a decided slot.
    pub open spec fn catchup(self, from: NodeId, slot: Slot) -> NodeView {
        if self.is_leader() && self.window.is_resolved(slot) {
            let (ballot, value) = self.window.slots[slot].resolution()->Some_0;
            self.tell(from, CommandView::Resolution { slot, ballot, value })
        } else {
            self
        }
    }

    /// Whether the node can react to a command: what it sends on it goes to peers, and slot and
    /// ballot numbers do not run out.
    pub open spec fn ready_for(self, command: CommandView) -> bool {
        match command {
            CommandView::Proposal(_) => self.can_propose(),
            CommandView::Prepare { ballot, .. } => self.is_peer(ballot.1),
            CommandView::Promise { from, ballot, accepted, .. } => self.can_take_promise(
                from,
                ballot,
                accepted,
            ),
            CommandView::Accept { slot, ballot, .. } => self.can_accept(slot, ballot),
            CommandView::Reject { preempted, .. } => self.observe(preempted).can_forward(),
            CommandView::Accepted { .. } => true,
            CommandView::Resolution { slot, ballot, value } => self.can_learn(slot, ballot, value),
            CommandView::Catchup { from, slot } => self.can_catch_up(from, slot),
        }
    }

    /// Reaction of the node to a command.
    pub open spec fn react(self, command: CommandView) -> NodeView {
        match command {
            CommandView::Proposal(value) => self.propose(value),
            CommandView::Prepare { slot, ballot } => self.prepare(slot, ballot),
            CommandView::Promise { from, ballot, accepted, .. } => self.promise(
                from,
                ballot,
                accepted,
            ),
            CommandView::Accept { slot, ballot, value } => self.accept(slot, ballot, value),
            CommandView::Reject { preempted, .. } => self.observe(preempted).forward(),
            CommandView::Accepted { from, slot, ballot } => self.accepted(from, slot, ballot),
            CommandView::Resolution { slot, ballot, value } => self.resolution(
                slot,
                ballot,
                value,
            ),
            CommandView::Catchup { from, slot } => self.catchup(from, slot),
        }
    }

    /// Reactions of the node to commands, one after the other.
    pub open spec fn react_all(self, commands: Seq<CommandView>) -> NodeView
        decreases commands.len(),
    {
        if commands.len() == 0 {
            self
        } else {
            self.react_all(commands.drop_last()).react(commands.last())
        }
    }

    /// Whether the node can react to commands, one after the other.
    pub open spec fn ready_for_all(self, commands: Seq<CommandView>) -> bool
        decreases commands.len(),
    {
        commands.len() > 0 ==> {
            &&& self.ready_for_all(commands.drop_last())
            &&& self.react_all(commands.drop_last()).ready_for(commands.last())
        }
    }

    /// Whether a command arrived with the key and the round it has to have. The round of a
    /// command that belongs to none does not matter.
    pub open spec fn check_stamp(
        self,
        key: PaxosKey,
        round: PaxosRound,
        command: CommandView,
    ) -> StampCheck {
        if key != command.key_for(self.current) {
            StampCheck::Mismatch
        } else {
            match command.stamp() {
                Some(stamp) => if stamp == (key, round) {
                    StampCheck::InRound
                } else {
                    StampCheck::Mismatch
                },
                None => StampCheck::Free,
            }
        }
    }
}

} // verus!
