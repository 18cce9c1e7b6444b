//! A node of a multi-paxos group.

use crate::acceptor::{AcceptResponse, PrepareResponse};
use crate::ballot::{Ballot, NodeId, Slot};
use crate::comm::{Action, ActionView, Comm};
use crate::commands::{reported_view, Command, CommandView, Commander};
use crate::config::Configuration;
use crate::model::{NodeView, Scan};
use crate::proposer::{Proposer, ProposerState};
use crate::replica::Replica;
use crate::round::{PaxosKey, PaxosRound, Phase};
use crate::value::{contents, duplicate, empty_value, values_view};
use crate::window::{DecisionSet, SlotRef, SlotWindow, WindowView};
use bytes::Bytes;
use vstd::prelude::*;

verus! {

/// State manager for multi-paxos group
pub struct Node<A> {
    pub comm: Comm,
    pub config: Configuration<A>,
    pub proposer: Proposer,
    pub window: SlotWindow,
}

impl<A> View for Node<A> {
    type V = NodeView;

    open spec fn view(&self) -> NodeView {
        NodeView {
            current: self.config.current,
            peers: self.config.ids(),
            proposer: self.proposer@,
            window: self.window@,
            asked: self.comm@,
        }
    }
}

impl<A> Node<A> {
    /// The parts of the node are well formed and fit together.
    pub open spec fn wf(self) -> bool {
        &&& self.config.wf()
        &&& self.window.acceptors_match()
        &&& self@.valid()
    }

    /// Whether this node differs from `other` in the actions asked for alone.
    pub open spec fn same_but_asked(self, other: Node<A>) -> bool {
        &&& self.config == other.config
        &&& self.proposer == other.proposer
        &&& self.window == other.window
    }

    /// Node creation from a starting configuration and a place for its actions
    pub fn with_comm(comm: Comm, config: Configuration<A>) -> (node: Node<A>)
        requires
            config.wf(),
        ensures
            node.wf(),
            node.config == config,
            node@ == NodeView::fresh(config.current, config.ids(), comm@),
    {
        let (p1_quorum, p2_quorum) = config.quorum_size();
        let current: NodeId = config.current();
        let node = Node {
            comm,
            config,
            proposer: Proposer::new(current, p1_quorum),
            window: SlotWindow::new(current, p2_quorum),
        };
        node
    }

    /// Node creation from a starting configuration.
    pub fn new(config: Configuration<A>) -> (node: Node<A>)
        requires
            config.wf(),
        ensures
            node.wf(),
            node.config == config,
            node@ == NodeView::fresh(config.current, config.ids(), Seq::empty()),
    {
        Self::with_comm(Comm::new(), config)
    }

    /// The actions asked for.
    pub fn comm(&self) -> (comm: &Comm)
        ensures
            *comm == self.comm,
    {
        &self.comm
    }

    /// The actions asked for, to take them over.
    pub fn comm_mut(&mut self) -> (comm: &mut Comm)
        ensures
            *comm == old(self).comm,
            final(self).same_but_asked(*old(self)),
            final(self).comm == *final(comm),
    {
        &mut self.comm
    }

    pub fn current_node_id(&self) -> (current: NodeId)
        ensures
            current == self@.current,
    {
        self.config.current()
    }

    /// The slots of the open range, in order.
    pub fn open_slots(&self) -> (slots: Vec<Slot>)
        requires
            self.wf(),
        ensures
            slots@ == self@.window.open_slots(),
    {
        self.window.open_slots()
    }

    /// The slots of the open range that await a decision, in order.
    fn unresolved_open_slots(&self) -> (slots: Vec<Slot>)
        requires
            self.wf(),
        ensures
            slots@ == self@.window.unresolved(),
    {
        self.window.unresolved()
    }

    /// The identifiers of all nodes of the group, in ascending order.
    pub fn participant_node_ids(&self) -> (nodes: Vec<NodeId>)
        requires
            self.wf(),
        ensures
            forall|i: int, j: int| 0 <= i < j < nodes@.len() ==> nodes@[i] < nodes@[j],
            forall|id: NodeId|
                #[trigger] nodes@.contains(id) <==> id == self@.current || self@.is_peer(id),
    {
        let mut nodes: Vec<NodeId> = self.config.peer_node_ids();
        let current: NodeId = self.config.current();
        let ghost peers = nodes@;
        proof {
            assert forall|i: int, j: int| 0 <= i < j < peers.len() implies peers[i] < peers[j] by {
                assert(self.config.peers@[i].0 < self.config.peers@[j].0);
            }
            assert forall|i: int| 0 <= i < peers.len() implies peers[i] != current by {
                assert(self.config.peers@[i].0 != current);
            }
        }
        let mut place: usize = 0;
        while place < nodes.len() && nodes[place] < current
            invariant
                place <= nodes@.len(),
                nodes@ == peers,
                forall|i: int| 0 <= i < place ==> nodes@[i] < current,
            decreases nodes.len() - place,
        {
            place = place + 1;
        }
        nodes.insert(place, current);
        proof {
            assert(nodes@[place as int] == current);
            assert forall|id: NodeId|
                #[trigger] nodes@.contains(id) <==> id == self@.current || self@.is_peer(id) by {
                if self@.is_peer(id) {
                    let k = peers.index_of(id);
                    assert(nodes@[if k < place { k } else { k + 1 }] == id);
                }
                if nodes@.contains(id) && id != current {
                    let k = nodes@.index_of(id);
                    assert(peers[if k < place { k } else { k - 1 }] == id);
                }
            }
        }
        nodes
    }

    pub fn highest_observed_ballot(&self) -> (highest: Option<Ballot>)
        ensures
            highest == self@.proposer.highest,
    {
        self.proposer.highest_observed_ballot()
    }

    /// Moves a key to a round.
    pub(crate) fn enter_round(&mut self, key: PaxosKey, ballot: Ballot, phase: Phase)
        ensures
            final(self).same_but_asked(*old(self)),
            final(self)@ == old(self)@.ask(
                ActionView::Enter { key, round: PaxosRound { ballot: ballot.0, phase } },
            ),
    {
        self.comm.push(Action::Enter { key, round: PaxosRound::new(ballot.0, phase) });
    }

    /// Sends a command to a peer.
    fn send(&mut self, node: NodeId, cmd: Command)
        requires
            old(self)@.is_peer(node),
        ensures
            final(self).same_but_asked(*old(self)),
            final(self)@ == old(self)@.send(node, cmd@),
    {
        let key: PaxosKey = cmd.key_for(node);
        self.comm.push(Action::Send { to: node, key, command: cmd });
    }

    /// Enters the round of a command and sends it to a peer.
    fn send_at(&mut self, node: NodeId, slot: Slot, ballot: Ballot, phase: Phase, cmd: Command)
        requires
            old(self)@.is_peer(node),
            cmd@.stage() == Some((slot, ballot, phase)),
        ensures
            final(self).same_but_asked(*old(self)),
            final(self)@ == old(self)@.tell(node, cmd@),
    {
        self.enter_round(PaxosKey::Slot { slot, proposer: ballot.1 }, ballot, phase);
        self.send(node, cmd);
    }

    /// Asks a leader for the decision of a slot.
    fn send_catchup_at(&mut self, node: NodeId, slot: Slot, ballot: Ballot)
        requires
            node == old(self)@.current || old(self)@.is_peer(node),
        ensures
            final(self).same_but_asked(*old(self)),
            final(self)@ == old(self)@.request(node, ballot, slot),
    {
        let current: NodeId = self.config.current();
        if node == current {
            return;
        }
        self.enter_round(PaxosKey::Catchup { slot, leader: node }, ballot, Phase::Catchup);
        self.send(node, Command::Catchup { from: current, slot });
    }

    /// Enters the round of a command and sends it to all peers.
    fn broadcast_at(&mut self, slot: Slot, ballot: Ballot, phase: Phase, cmd: Command)
        requires
            cmd@.stage() == Some((slot, ballot, phase)),
        ensures
            final(self).same_but_asked(*old(self)),
            final(self)@ == old(self)@.announce(cmd@),
    {
        self.enter_round(PaxosKey::Slot { slot, proposer: ballot.1 }, ballot, phase);
        let peers: Vec<NodeId> = self.config.peer_node_ids();
        let ghost entered = self@;
        let ghost sends = peers@.map_values(
            |to: NodeId| ActionView::Send { to, key: cmd@.key_for(to), command: cmd@ },
        );
        assert(self@.asked =~= entered.asked + sends.take(0));
        for i in 0..peers.len()
            invariant
                peers@ == old(self)@.peers,
                sends == peers@.map_values(
                    |to: NodeId| ActionView::Send { to, key: cmd@.key_for(to), command: cmd@ },
                ),
                self.same_but_asked(*old(self)),
                self@.asked =~= entered.asked + sends.take(i as int),
        {
            assert(self@.peers[i as int] == peers@[i as int]);
            self.send(peers[i], cmd.clone());
        }
        assert(sends.take(peers@.len() as int) =~= sends);
        assert(self@ =~= old(self)@.announce(cmd@));
    }

    /// Forwards pending proposals to the new leader
    fn forward(&mut self)
        requires
            old(self).wf(),
            old(self)@.can_forward(),
        ensures
            final(self).wf(),
            final(self).config == old(self).config,
            final(self).window == old(self).window,
            final(self)@ == old(self)@.forward(),
    {
        if !self.proposer.state().is_follower() || self.proposer.is_proposal_queue_empty() {
            return;
        }
        let highest: Option<Ballot> = self.proposer.highest_observed_ballot();
        if let Some(Ballot(_, node)) = highest {
            if node == self.config.current() {
                // the proposals wait for the next candidacy of this node
                return;
            }
        }
        let proposals: Vec<Bytes> = self.proposer.take_proposals();
        if let Some(Ballot(_, node)) = highest {
            let ghost drained = self@;
            let ghost sends = values_view(proposals@).map_values(
                |value: Seq<u8>|
                    ActionView::Send {
                        to: node,
                        key: PaxosKey::ProposalTo(node),
                        command: CommandView::Proposal(value),
                    },
            );
            assert(self@.asked =~= drained.asked + sends.take(0));
            for i in 0..proposals.len()
                invariant
                    sends == values_view(proposals@).map_values(
                        |value: Seq<u8>|
                            ActionView::Send {
                                to: node,
                                key: PaxosKey::ProposalTo(node),
                                command: CommandView::Proposal(value),
                            },
                    ),
                    drained.is_peer(node),
                    self.config == old(self).config,
                    self.window == old(self).window,
                    self@ == (NodeView { asked: self@.asked, ..drained }),
                    self@.asked =~= drained.asked + sends.take(i as int),
            {
                self.send(node, Command::Proposal(duplicate(&proposals[i])));
            }
            assert(sends.take(proposals@.len() as int) =~= sends);
            assert(self@ =~= old(self)@.forward());
        }
    }

    /// Notes a ballot, and forwards pending proposals if that makes another node the leader.
    fn observe_ballot_and_forward(&mut self, ballot: Ballot)
        requires
            old(self).wf(),
            old(self)@.observe(ballot).can_forward(),
        ensures
            final(self).wf(),
            final(self).config == old(self).config,
            final(self).window == old(self).window,
            final(self)@ == old(self)@.observe(ballot).forward(),
    {
        self.proposer.observe_ballot(ballot);
        self.forward();
    }

    /// Broadcasts commands of one ballot and phase, one after the other.
    fn broadcast_all(&mut self, ballot: Ballot, phase: Phase, commands: Vec<(Slot, Command)>)
        requires
            forall|i: int|
                0 <= i < commands@.len() ==> (#[trigger] commands@[i]).1@.stage() == Some(
                    (commands@[i].0, ballot, phase),
                ),
        ensures
            final(self).same_but_asked(*old(self)),
            final(self)@ == old(self)@.announce_all(
                commands@.map_values(|c: (Slot, Command)| c.1@),
            ),
    {
        let ghost views = commands@.map_values(|c: (Slot, Command)| c.1@);
        for i in 0..commands.len()
            invariant
                forall|i: int|
                    0 <= i < commands@.len() ==> (#[trigger] commands@[i]).1@.stage() == Some(
                        (commands@[i].0, ballot, phase),
                    ),
                views == commands@.map_values(|c: (Slot, Command)| c.1@),
                self.same_but_asked(*old(self)),
                self@ == old(self)@.announce_all(views.take(i as int)),
        {
            self.broadcast_at(commands[i].0, ballot, phase, commands[i].1.clone());
            assert(views.take(i + 1).drop_last() =~= views.take(i as int));
        }
        assert(views.take(commands@.len() as int) =~= views);
    }

    /// Broadcast ACCEPT messages once the proposer has phase 1 quorum
    fn drive_accept(&mut self)
        requires
            old(self).wf(),
            old(self)@.can_drive_accept(),
        ensures
            final(self).wf(),
            final(self).config == old(self).config,
            final(self)@ == old(self)@.drive_accept(),
    {
        let bal: Ballot = match self.proposer.state() {
            ProposerState::Leader { proposal } => *proposal,
            _ => {
                return;
            },
        };

        // add queued proposals to new slots
        let proposals: Vec<Bytes> = self.proposer.take_proposals();
        let ghost queue = values_view(proposals@);
        let ghost opened = self.window@;
        for i in 0..proposals.len()
            invariant
                queue == values_view(proposals@),
                opened == old(self)@.window,
                opened.end + queue.len() <= u64::MAX,
                self.config == old(self).config,
                self.comm == old(self).comm,
                self.proposer@ == old(self).proposer@.drained(),
                self.window.wf(),
                self.window@.node == opened.node,
                self.window@.end <= opened.end + i,
                self.window@ == opened.place_all(bal, queue.take(i as int)),
        {
            let slot: Slot = self.window.next_slot();
            self.window.notice_value(slot, bal, duplicate(&proposals[i]));
            assert(queue.take(i + 1).drop_last() =~= queue.take(i as int));
        }
        assert(queue.take(proposals@.len() as int) =~= queue);
        let ghost placed = self.window@;

        // queue up all accepts
        let open: Vec<Slot> = self.window.open_slots();
        let mut accepts: Vec<(Slot, Command)> = Vec::new();
        let ghost keep = |slot: Slot| !placed.is_resolved(slot);
        let ghost command = |slot: Slot|
            CommandView::Accept { slot, ballot: bal, value: placed.claim_value(slot) };
        assert(accepts@.map_values(|c: (Slot, Command)| c.1@) =~= open@.take(0).filter(
            keep,
        ).map_values(command)) by {
            reveal(Seq::filter);
        }
        assert(self.window@ =~= placed.claim(bal, placed.start));
        for i in 0..open.len()
            invariant
                keep == (|slot: Slot| !placed.is_resolved(slot)),
                command == (|slot: Slot|
                    CommandView::Accept { slot, ballot: bal, value: placed.claim_value(slot) }),
                open@ == placed.open_slots(),
                placed.valid(),
                self.config == old(self).config,
                self.comm == old(self).comm,
                self.proposer@ == old(self).proposer@.drained(),
                self.window.wf(),
                self.window@ == placed.claim(bal, (placed.start + i) as Slot),
                forall|j: int|
                    0 <= j < accepts@.len() ==> (#[trigger] accepts@[j]).1@.stage() == Some(
                        (accepts@[j].0, bal, Phase::Accept),
                    ),
                accepts@.map_values(|c: (Slot, Command)| c.1@) == open@.take(i as int).filter(
                    keep,
                ).map_values(command),
        {
            let slot: Slot = open[i];
            let ghost claimed = self.window@;
            let ghost before = accepts@;
            proof {
                reveal(Seq::filter);
                assert(open@.take(i + 1).drop_last() =~= open@.take(i as int));
            }
            match self.window.slot(slot) {
                SlotRef::Resolved(..) => {
                    assert(placed.claim(bal, (placed.start + i + 1) as Slot) =~= claimed);
                },
                _ => {
                    let value: Bytes = match self.window.highest_value(slot) {
                        Some((_, value)) => value,
                        None => empty_value(),
                    };
                    // have the acceptor update the highest ballot to this one
                    self.window.notice_value(slot, bal, duplicate(&value));
                    accepts.push((slot, Command::Accept { slot, ballot: bal, value }));
                    proof {
                        assert(placed.claim(bal, (placed.start + i + 1) as Slot)
                            =~= claimed.notice(slot, bal, contents(value)));
                        assert(accepts@.map_values(|c: (Slot, Command)| c.1@)
                            =~= before.map_values(|c: (Slot, Command)| c.1@).push(command(slot)));
                        assert(open@.take(i + 1).filter(keep).map_values(command) =~= open@.take(
                            i as int,
                        ).filter(keep).map_values(command).push(command(slot)));
                    }
                },
            }
        }
        assert(open@.take(open@.len() as int) =~= open@);

        // send out the accepts
        self.broadcast_all(bal, Phase::Accept, accepts);
    }
}

/// Once an acceptor has rejected, the slots behind it do not matter.
proof fn lemma_scan_rejected(window: WindowView, slots: Seq<Slot>, upto: int, ballot: Ballot)
    requires
        0 <= upto <= slots.len(),
        window.scan(slots.take(upto), ballot).preempted is Some,
    ensures
        window.scan(slots, ballot) == window.scan(slots.take(upto), ballot),
    decreases slots.len(),
{
    if upto == slots.len() {
        assert(slots.take(upto) =~= slots);
    } else {
        assert(slots.drop_last().take(upto) =~= slots.take(upto));
        lemma_scan_rejected(window, slots.drop_last(), upto, ballot);
    }
}

impl<A> Commander for Node<A> {
    open spec fn ready_for(&self, command: CommandView) -> bool {
        self.wf() && self@.ready_for(command)
    }

    open spec fn reacts(&self, command: CommandView, after: &Self) -> bool {
        after.wf() && after.config == self.config && after@ == self@.react(command)
    }

    fn proposal(&mut self, val: Bytes) {
        // redirect to the distinguished proposer or start PREPARE
        match self.proposer.state() {
            ProposerState::Follower => match self.proposer.highest_observed_ballot() {
                Some(highest) => {
                    let leader_node: NodeId = highest.1;
                    if leader_node == self.config.current() {
                        self.proposer.push_proposal(val);
                        self.propose_leadership();
                    } else {
                        self.send(leader_node, Command::Proposal(val));
                    }
                },
                None => {
                    // no known proposers, go through prepare cycle
                    self.proposer.push_proposal(val);
                    self.propose_leadership();
                },
            },
            ProposerState::Candidate { .. } => {
                // still waiting for promises, queue up the value
                self.proposer.push_proposal(val);
            },
            ProposerState::Leader { proposal } => {
                // node is the distinguished proposer
                let bal: Ballot = *proposal;
                let slot: Slot = self.window.next_slot();
                self.window.notice_value(slot, bal, duplicate(&val));
                self.broadcast_at(
                    slot,
                    bal,
                    Phase::Accept,
                    Command::Accept { slot, ballot: bal, value: val },
                );
            },
        }
    }

    fn prepare(&mut self, slot: Slot, bal: Ballot) {
        self.proposer.observe_ballot(bal);

        let node_id: NodeId = self.config.current();
        let ghost window = self.window@;
        let mut accepted: Vec<(Slot, Ballot, Bytes)> = Vec::new();
        let mut promise_slots: Vec<Slot> = self.window.open_slots();
        if slot < self.window.start() {
            promise_slots.insert(0, slot);
        } else if slot >= self.window.end() {
            promise_slots.push(slot);
        }
        assert(promise_slots@ =~= window.promise_slots(slot));

        for i in 0..promise_slots.len()
            invariant
                window == old(self)@.window,
                promise_slots@ == window.promise_slots(slot),
                node_id == old(self)@.current,
                old(self).wf(),
                old(self)@.is_peer(bal.1),
                self.config == old(self).config,
                self.comm == old(self).comm,
                self.proposer@ == old(self).proposer@.observe(bal),
                self.window.wf(),
                self.window@.node == window.node,
                (Scan {
                    window: self.window@,
                    accepted: reported_view(accepted@),
                    preempted: None,
                }) =~= window.scan(promise_slots@.take(i as int), bal),
        {
            let open_slot: Slot = promise_slots[i];
            let ghost before = accepted@;
            assert(promise_slots@.take(i + 1).drop_last() =~= promise_slots@.take(i as int));
            let mut rejected: Option<(Ballot, Ballot)> = None;
            match self.window.slot(open_slot) {
                SlotRef::Open => match self.window.receive_prepare(open_slot, bal) {
                    PrepareResponse::Promise { value: Some((accepted_ballot, value)), .. } => {
                        accepted.push((open_slot, accepted_ballot, value));
                        assert(reported_view(accepted@) =~= reported_view(before).push(
                            (open_slot, accepted_ballot, contents(value)),
                        ));
                    },
                    PrepareResponse::Reject { proposed, preempted } => {
                        rejected = Some((proposed, preempted));
                    },
                    _ => {},
                },
                SlotRef::Resolved(accepted_ballot, value) => {
                    accepted.push((open_slot, accepted_ballot, value));
                    assert(reported_view(accepted@) =~= reported_view(before).push(
                        (open_slot, accepted_ballot, contents(value)),
                    ));
                },
                SlotRef::Empty => {},
            }
            if let Some((proposed, preempted)) = rejected {
                proof {
                    let scan = window.scan(promise_slots@.take(i + 1), bal);
                    assert(scan.preempted == Some(preempted));
                    assert(self.window@ =~= scan.window);
                    lemma_scan_rejected(window, promise_slots@, i + 1, bal);
                }
                self.send_at(
                    bal.1,
                    slot,
                    proposed,
                    Phase::Reject,
                    Command::Reject {
                        from: node_id,
                        slot,
                        proposed,
                        preempted,
                        phase: Phase::Prepare,
                    },
                );
                return;
            }
        }
        assert(promise_slots@.take(promise_slots@.len() as int) =~= promise_slots@);

        self.send_at(
            bal.1,
            slot,
            bal,
            Phase::Promise,
            Command::Promise { from: node_id, slot, ballot: bal, accepted },
        );
    }

    fn promise(
        &mut self,
        node: NodeId,
        _slot: Slot,
        bal: Ballot,
        accepted: Vec<(Slot, Ballot, Bytes)>,
    ) {
        if !self.proposer.state().is_candidate() {
            return;
        }

        self.proposer.receive_promise(node, bal);

        // track highest proposals
        let ghost reported = reported_view(accepted@);
        let ghost window = self.window@;
        for i in 0..accepted.len()
            invariant
                reported == reported_view(accepted@),
                window == old(self)@.window,
                forall|i: int| 0 <= i < reported.len() ==> (#[trigger] reported[i]).0 < u64::MAX,
                self.config == old(self).config,
                self.comm == old(self).comm,
                self.proposer@ == old(self).proposer@.promise(node, bal),
                self.window.wf(),
                self.window@.node == window.node,
                self.window@ == window.notice_all(reported.take(i as int)),
        {
            assert(reported.take(i + 1).drop_last() =~= reported.take(i as int));
            assert(reported[i as int].0 < u64::MAX);
            self.window.notice_value(accepted[i].0, accepted[i].1, duplicate(&accepted[i].2));
        }
        assert(reported.take(accepted@.len() as int) =~= reported);

        // if we have phase 1 quorum, we can send out ACCEPT messages
        self.drive_accept();
    }

    fn accept(&mut self, slot: Slot, bal: Ballot, val: Bytes) {
        self.observe_ballot_and_forward(bal);

        let current_node: NodeId = self.config.current();
        let acceptor_res: AcceptResponse = match self.window.slot(slot) {
            SlotRef::Resolved(..) => {
                return;
            },
            _ => self.window.receive_accept(slot, bal, val),
        };

        match acceptor_res {
            AcceptResponse::Accepted { .. } => {
                self.send_at(
                    bal.1,
                    slot,
                    bal,
                    Phase::Accepted,
                    Command::Accepted { from: current_node, slot, ballot: bal },
                );
            },
            AcceptResponse::Reject { proposed, preempted } => {
                self.send_at(
                    bal.1,
                    slot,
                    proposed,
                    Phase::Reject,
                    Command::Reject {
                        from: current_node,
                        slot,
                        proposed,
                        preempted,
                        phase: Phase::Accept,
                    },
                );
            },
            AcceptResponse::Resolved => {},
        }
    }

    fn reject(
        &mut self,
        node: NodeId,
        _slot: Slot,
        proposed: Ballot,
        promised: Ballot,
        _phase: Phase,
    ) {
        // reject preempted ballot within the proposer
        self.proposer.receive_reject(promised);
        self.forward();
    }

    fn accepted(&mut self, node: NodeId, slot: Slot, bal: Ballot) {
        self.proposer.observe_ballot(bal);

        // notify the slot of the accepted, collecting its resolution
        let resolution: Option<(Ballot, Bytes)> = match self.window.slot(slot) {
            SlotRef::Open => self.window.receive_accepted(slot, node, bal),
            _ => None,
        };

        if let Some((_, value)) = resolution {
            self.broadcast_at(
                slot,
                bal,
                Phase::Resolution,
                Command::Resolution { slot, ballot: bal, value },
            );
        }
    }

    fn resolution(&mut self, slot: Slot, bal: Ballot, val: Bytes) {
        self.observe_ballot_and_forward(bal);

        match self.window.slot(slot) {
            SlotRef::Resolved(..) => {},
            _ => {
                self.window.resolve(slot, bal, val);
            },
        }
        let ghost learnt = self@;

        // Send catchup for holds in the decision making
        // We can skip catchup if we're caught up and the range only
        // contains one slot
        if self.window.end() - self.window.start() > 1 {
            if let Some(highest) = self.proposer.highest_observed_ballot() {
                let leader: NodeId = highest.1;
                let slots: Vec<Slot> = self.window.missing();
                for i in 0..slots.len()
                    invariant
                        leader == learnt.current || learnt.is_peer(leader),
                        learnt.current == self@.current,
                        learnt.peers == self@.peers,
                        self.wf(),
                        self.config == old(self).config,
                        self@ == learnt.request_all(leader, highest, slots@.take(i as int)),
                {
                    self.send_catchup_at(leader, slots[i], highest);
                    assert(slots@.take(i + 1).drop_last() =~= slots@.take(i as int));
                }
                assert(slots@.take(slots@.len() as int) =~= slots@);
            }
        }
    }

    fn catchup(&mut self, node: NodeId, slot: Slot) {
        if !self.is_leader() {
            return;
        }
        if let SlotRef::Resolved(bal, val) = self.window.slot(slot) {
            self.send_at(
                node,
                slot,
                bal,
                Phase::Resolution,
                Command::Resolution { slot, ballot: bal, value: val },
            );
        }
    }
}

impl<A> Replica for Node<A> {
    open spec fn sound(&self) -> bool {
        self.wf()
    }

    open spec fn electable(&self) -> bool {
        self.wf() && self@.can_propose_leadership()
    }

    open spec fn elected(&self, after: &Self) -> bool {
        after.wf() && after.config == self.config && after@ == self@.propose_leadership()
    }

    open spec fn tickable(&self) -> bool {
        self.wf()
    }

    open spec fn ticked(&self, after: &Self) -> bool {
        after.wf() && after.config == self.config && after@ == self@.tick_all(
            self@.window.open_slots(),
        )
    }

    open spec fn leads(&self) -> bool {
        self@.is_leader()
    }

    open spec fn has_decided(&self, decisions: &DecisionSet) -> bool {
        decisions@ == self@.window.decisions()
    }

    fn propose_leadership(&mut self) {
        let mut leading: bool = false;
        let bal: Ballot = match self.proposer.state() {
            ProposerState::Candidate { proposal, .. } => *proposal,
            ProposerState::Leader { proposal } => {
                leading = true;
                *proposal
            },
            ProposerState::Follower => self.proposer.prepare(),
        };
        let ghost standing = self@;
        let slots: Vec<Slot> = self.unresolved_open_slots();
        let phase: Phase = if leading {
            Phase::Accept
        } else {
            Phase::Prepare
        };
        let ghost command = |slot: Slot|
            if leading {
                CommandView::Accept { slot, ballot: bal, value: Seq::empty() }
            } else {
                CommandView::Prepare { slot, ballot: bal }
            };
        let mut commands: Vec<(Slot, Command)> = Vec::new();
        for i in 0..slots.len()
            invariant
                phase == (if leading { Phase::Accept } else { Phase::Prepare }),
                command == (|slot: Slot|
                    if leading {
                        CommandView::Accept { slot, ballot: bal, value: Seq::empty() }
                    } else {
                        CommandView::Prepare { slot, ballot: bal }
                    }),
                forall|j: int|
                    0 <= j < commands@.len() ==> (#[trigger] commands@[j]).1@.stage() == Some(
                        (commands@[j].0, bal, phase),
                    ),
                commands@.map_values(|c: (Slot, Command)| c.1@) =~= slots@.take(
                    i as int,
                ).map_values(command),
        {
            let slot: Slot = slots[i];
            let ghost before = commands@;
            let cmd: Command = if leading {
                Command::Accept { slot, ballot: bal, value: empty_value() }
            } else {
                Command::Prepare { slot, ballot: bal }
            };
            commands.push((slot, cmd));
            assert(commands@.map_values(|c: (Slot, Command)| c.1@) =~= before.map_values(
                |c: (Slot, Command)| c.1@,
            ).push(command(slot)));
        }
        self.broadcast_all(bal, phase, commands);
        proof {
            assert(slots@.take(slots@.len() as int) =~= slots@);
            if leading {
                assert(slots@.map_values(command) =~= slots@.map_values(
                    |slot: Slot| CommandView::Accept { slot, ballot: bal, value: Seq::empty() },
                ));
            } else {
                assert(slots@.map_values(command) =~= slots@.map_values(
                    |slot: Slot| CommandView::Prepare { slot, ballot: bal },
                ));
            }
        }
    }

    fn is_leader(&self) -> (leader: bool) {
        self.proposer.state().is_leader()
    }

    fn tick(&mut self) {
        let current: NodeId = self.config.current();
        let slots: Vec<Slot> = self.window.open_slots();
        for i in 0..slots.len()
            invariant
                current == old(self)@.current,
                self.same_but_asked(*old(self)),
                self@ == old(self)@.tick_all(slots@.take(i as int)),
        {
            let slot: Slot = slots[i];
            self.comm.push(Action::Tick { key: PaxosKey::Slot { slot, proposer: current } });
            self.comm.push(Action::Tick { key: PaxosKey::Catchup { slot, leader: current } });
            proof {
                assert(slots@.take(i + 1).drop_last() =~= slots@.take(i as int));
                assert(self@ =~= old(self)@.tick_all(slots@.take(i + 1)));
            }
        }
        assert(slots@.take(slots@.len() as int) =~= slots@);
    }

    fn decisions(&self) -> (decisions: DecisionSet) {
        self.window.decisions()
    }
}

} // verus!
