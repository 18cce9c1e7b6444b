use bytes::Bytes;
use paxos::{
    Action, Ballot, Command, Commander, Configuration, Node, NodeId, PaxosKey, PaxosRound, Phase,
    Replica, Slot, StampedReceiver,
};
use std::collections::HashMap;

/// A node with a transport that keeps what is sent to each of its four peers.
struct Peers {
    node: Node<NodeId>,
    rounds: HashMap<PaxosKey, PaxosRound>,
    sent: [Vec<Command>; 4],
}

impl Peers {
    fn new() -> Peers {
        Peers {
            node: Node::new(config()),
            rounds: HashMap::new(),
            sent: [Vec::new(), Vec::new(), Vec::new(), Vec::new()],
        }
    }

    /// Carries out the actions that the node has asked for.
    fn carry_out(&mut self) {
        for action in self.node.comm_mut().take() {
            match action {
                Action::Enter { key, round } => {
                    let current = self.current(key);
                    assert!(!round.precedes(&current), "round movement must not move to the past");
                    self.rounds.insert(key, round);
                }
                Action::Tick { .. } => {}
                Action::Send { to, key, command } => {
                    assert_eq!(key, command.key_for(to));
                    if let Some(round) = command.protocol_round() {
                        assert_eq!(round, self.current(key));
                    }
                    self.sent[to as usize].push(command);
                }
            }
        }
    }

    fn current(&self, key: PaxosKey) -> PaxosRound {
        match self.rounds.get(&key) {
            Some(round) => *round,
            None => PaxosRound::new(0, Phase::Prepare),
        }
    }

    fn clear(&mut self) {
        self.carry_out();
        for sent in &mut self.sent {
            sent.clear();
        }
    }

    fn proposal(&mut self, val: Bytes) {
        self.node.proposal(val);
        self.carry_out();
    }

    fn promise(&mut self, node: NodeId, slot: Slot, bal: Ballot) {
        self.node.promise(node, slot, bal, Vec::new());
        self.carry_out();
    }

    fn accepted(&mut self, node: NodeId, slot: Slot, bal: Ballot) {
        self.node.accepted(node, slot, bal);
        self.carry_out();
    }

    /// Moves the key of a command that belongs to a round to that round, as long as that does
    /// not lie in its past, and hands the command to the node.
    fn receive_stamped(&mut self, key: PaxosKey, round: PaxosRound, cmd: Command) {
        if cmd.protocol_stamp() == Some((key, round)) {
            assert!(!round.precedes(&self.current(key)), "must not move to the past");
            self.rounds.insert(key, round);
        }
        self.node.receive_stamped(key, round, cmd, true);
        self.carry_out();
    }

    fn decisions(&self) -> Vec<(Slot, Bytes)> {
        self.node.decisions().iter().clone()
    }
}

fn config() -> Configuration<NodeId> {
    Configuration::new(4u32, vec![(0, 0), (1, 1), (2, 2), (3, 3)])
}

/// A node that leads under ballot (0, 4) with "123" proposed for slot 0.
fn leader() -> Peers {
    let mut replica = Peers::new();
    replica.proposal("123".into());
    replica.promise(1, 0, Ballot(0, 4));
    replica.promise(2, 0, Ballot(0, 4));
    replica.clear();
    replica
}

#[test]
fn proposal_starts_prepare_round() {
    let mut replica = Peers::new();

    replica.proposal("123".into());

    let expected = Command::Prepare { slot: 0, ballot: Ballot(0, 4) };
    for node in 0..4 {
        assert_eq!(&[expected.clone()], &replica.sent[node][..]);
    }
    assert_eq!(
        replica.current(PaxosKey::Slot { slot: 0, proposer: 4 }),
        PaxosRound::new(0, Phase::Prepare)
    );
}

#[test]
fn promise_quorum_drives_one_slot_accept() {
    let mut replica = Peers::new();
    replica.proposal("123".into());
    replica.clear();

    replica.promise(0, 0, Ballot(0, 4));
    for node in 0..4 {
        assert!(replica.sent[node].is_empty());
    }

    replica.promise(2, 0, Ballot(0, 4));
    let expected = Command::Accept { slot: 0, ballot: Ballot(0, 4), value: "123".into() };
    for node in 0..4 {
        assert_eq!(&[expected.clone()], &replica.sent[node][..]);
    }
    assert_eq!(
        replica.current(PaxosKey::Slot { slot: 0, proposer: 4 }),
        PaxosRound::new(0, Phase::Accept)
    );
}

#[test]
fn accepted_quorum_broadcasts_resolution() {
    let mut replica = Peers::new();
    replica.proposal("123".into());
    replica.promise(1, 0, Ballot(0, 4));
    replica.promise(2, 0, Ballot(0, 4));
    replica.clear();

    replica.accepted(0, 0, Ballot(0, 4));
    for node in 0..4 {
        assert!(replica.sent[node].is_empty());
    }

    replica.accepted(2, 0, Ballot(0, 4));
    let expected = Command::Resolution { slot: 0, ballot: Ballot(0, 4), value: "123".into() };
    for node in 0..4 {
        assert_eq!(&[expected.clone()], &replica.sent[node][..]);
    }
    assert_eq!(vec![(0, Bytes::from("123"))], replica.decisions());
}

#[test]
fn resolution_requests_catchup_per_missing_slot() {
    let mut replica = Peers::new();

    replica.node.resolution(4, Ballot(1, 2), "123".into());
    replica.carry_out();

    for slot in 0..4 {
        assert_eq!(replica.sent[2][slot as usize], Command::Catchup { from: 4, slot });
    }
}

#[test]
fn resolutions_of_older_ballots_request_catchup() {
    let mut replica = Peers::new();
    replica.node.resolution(4, Ballot(5, 2), "a".into());
    replica.clear();

    replica.node.resolution(2, Ballot(3, 1), "b".into());
    replica.carry_out();

    let expected = [
        Command::Catchup { from: 4, slot: 0 },
        Command::Catchup { from: 4, slot: 1 },
        Command::Catchup { from: 4, slot: 3 },
    ];
    assert_eq!(&expected, &replica.sent[2][..]);
    for node in [0, 1, 3] {
        assert!(replica.sent[node].is_empty());
    }
    assert_eq!(
        replica.current(PaxosKey::Catchup { slot: 0, leader: 2 }),
        PaxosRound::new(5, Phase::Catchup)
    );
}

#[test]
fn stamped_proposal_does_not_import_envelope_round() {
    let mut replica = Peers::new();

    replica.receive_stamped(
        PaxosKey::ProposalTo(4),
        PaxosRound::new(3, Phase::Resolution),
        Command::Proposal("123".into()),
    );

    assert_eq!(
        replica.current(PaxosKey::Slot { slot: 0, proposer: 4 }),
        PaxosRound::new(0, Phase::Prepare)
    );
}

#[test]
fn stamped_catchup_does_not_import_envelope_round() {
    let mut replica = Peers::new();

    replica.receive_stamped(
        PaxosKey::Catchup { slot: 7, leader: 4 },
        PaxosRound::new(3, Phase::Catchup),
        Command::Catchup { from: 1, slot: 7 },
    );

    assert_eq!(
        replica.current(PaxosKey::Slot { slot: 0, proposer: 4 }),
        PaxosRound::new(0, Phase::Prepare)
    );
}

#[test]
fn liveness_retry_skips_already_resolved_slots() {
    let mut replica = Peers::new();

    replica.proposal("first".into());
    replica.promise(1, 0, Ballot(0, 4));
    replica.promise(2, 0, Ballot(0, 4));

    replica.receive_stamped(
        PaxosKey::Slot { slot: 1, proposer: 4 },
        PaxosRound::new(0, Phase::Resolution),
        Command::Resolution { slot: 1, ballot: Ballot(0, 4), value: "second".into() },
    );
    replica.clear();

    replica.node.propose_leadership();
    replica.carry_out();

    let expected = Command::Accept { slot: 0, ballot: Ballot(0, 4), value: Bytes::default() };
    for node in 0..4 {
        assert_eq!(&[expected.clone()], &replica.sent[node][..]);
    }
    assert_eq!(
        replica.current(PaxosKey::Slot { slot: 1, proposer: 4 }),
        PaxosRound::new(0, Phase::Resolution)
    );
}

#[test]
fn resolution_can_follow_reject_for_same_ballot() {
    let mut replica = Peers::new();

    replica.receive_stamped(
        PaxosKey::Slot { slot: 0, proposer: 4 },
        PaxosRound::new(0, Phase::Reject),
        Command::Reject {
            from: 1,
            slot: 0,
            proposed: Ballot(0, 4),
            preempted: Ballot(1, 2),
            phase: Phase::Accept,
        },
    );
    replica.receive_stamped(
        PaxosKey::Slot { slot: 0, proposer: 4 },
        PaxosRound::new(0, Phase::Resolution),
        Command::Resolution { slot: 0, ballot: Ballot(0, 4), value: "chosen".into() },
    );

    assert_eq!(vec![(0, Bytes::from("chosen"))], replica.decisions());
}

#[test]
fn follower_sends_proposals_to_the_leader() {
    let mut replica = Peers::new();
    replica.node.accept(0, Ballot(1, 2), "x".into());
    replica.clear();

    replica.proposal("123".into());

    assert_eq!(&[Command::Proposal("123".into())], &replica.sent[2][..]);
    assert!(replica.sent[0].is_empty());
    assert!(replica.sent[1].is_empty());
    assert!(replica.sent[3].is_empty());
}

#[test]
fn candidate_queues_and_then_forwards_proposals() {
    let mut replica = Peers::new();
    replica.proposal("first".into());
    replica.proposal("second".into());
    replica.clear();

    replica.node.reject(1, 0, Ballot(0, 4), Ballot(1, 2), Phase::Prepare);
    replica.carry_out();

    assert_eq!(
        &[Command::Proposal("first".into()), Command::Proposal("second".into())],
        &replica.sent[2][..]
    );
    assert_eq!(replica.node.highest_observed_ballot(), Some(Ballot(1, 2)));
    assert!(!replica.node.is_leader());
}

#[test]
fn elected_leader_announces_queued_proposals_in_order() {
    let mut replica = Peers::new();
    replica.proposal("first".into());
    replica.proposal("second".into());
    replica.promise(0, 0, Ballot(0, 4));
    replica.clear();

    replica.promise(3, 0, Ballot(0, 4));

    assert!(replica.node.is_leader());
    for node in 0..4 {
        assert_eq!(
            &[
                Command::Accept { slot: 0, ballot: Ballot(0, 4), value: "first".into() },
                Command::Accept { slot: 1, ballot: Ballot(0, 4), value: "second".into() },
            ],
            &replica.sent[node][..]
        );
    }
}

#[test]
fn leader_proposes_for_the_next_slot() {
    let mut replica = leader();

    replica.proposal("456".into());

    let expected = Command::Accept { slot: 1, ballot: Ballot(0, 4), value: "456".into() };
    for node in 0..4 {
        assert_eq!(&[expected.clone()], &replica.sent[node][..]);
    }
    assert_eq!(replica.node.open_slots(), vec![0, 1]);
}

#[test]
fn elected_leader_keeps_the_highest_reported_value_and_fills_holes() {
    let mut replica = Peers::new();
    replica.node.propose_leadership();
    replica.clear();

    replica.node.promise(
        0,
        0,
        Ballot(0, 4),
        vec![(0, Ballot(0, 1), "low".into()), (2, Ballot(0, 2), "two".into())],
    );
    replica.node.promise(1, 0, Ballot(0, 4), vec![(0, Ballot(0, 3), "high".into())]);
    replica.carry_out();

    assert_eq!(
        &[
            Command::Accept { slot: 0, ballot: Ballot(0, 4), value: "high".into() },
            Command::Accept { slot: 1, ballot: Ballot(0, 4), value: Bytes::default() },
            Command::Accept { slot: 2, ballot: Ballot(0, 4), value: "two".into() },
        ],
        &replica.sent[3][..]
    );
}

#[test]
fn promises_for_another_ballot_do_not_count() {
    let mut replica = Peers::new();
    replica.proposal("123".into());
    replica.promise(0, 0, Ballot(0, 3));
    replica.promise(1, 0, Ballot(0, 3));
    replica.promise(2, 0, Ballot(0, 3));
    assert!(!replica.node.is_leader());

    // nor does the same node count twice
    replica.promise(0, 0, Ballot(0, 4));
    replica.promise(0, 0, Ballot(0, 4));
    assert!(!replica.node.is_leader());
}

#[test]
fn prepare_is_answered_with_a_promise() {
    let mut replica = Peers::new();
    replica.node.accept(0, Ballot(0, 1), "x".into());
    replica.clear();

    replica.node.prepare(0, Ballot(1, 2));
    replica.carry_out();

    assert_eq!(
        &[Command::Promise {
            from: 4,
            slot: 0,
            ballot: Ballot(1, 2),
            accepted: vec![(0, Ballot(0, 1), "x".into())],
        }],
        &replica.sent[2][..]
    );
    assert_eq!(
        replica.current(PaxosKey::Slot { slot: 0, proposer: 2 }),
        PaxosRound::new(1, Phase::Promise)
    );
}

#[test]
fn prepare_reports_decided_slots_before_the_open_range() {
    let mut replica = Peers::new();
    replica.node.resolution(0, Ballot(0, 1), "zero".into());
    replica.node.accept(1, Ballot(0, 1), "one".into());
    replica.clear();

    replica.node.prepare(0, Ballot(1, 2));
    replica.carry_out();

    assert_eq!(
        &[Command::Promise {
            from: 4,
            slot: 0,
            ballot: Ballot(1, 2),
            accepted: vec![
                (0, Ballot(0, 1), "zero".into()),
                (1, Ballot(0, 1), "one".into()),
            ],
        }],
        &replica.sent[2][..]
    );
}

#[test]
fn lower_ballots_are_rejected() {
    let mut replica = Peers::new();
    replica.node.prepare(0, Ballot(2, 1));
    replica.clear();

    replica.node.prepare(0, Ballot(1, 2));
    replica.node.accept(0, Ballot(1, 3), "x".into());
    replica.carry_out();

    assert_eq!(
        &[Command::Reject {
            from: 4,
            slot: 0,
            proposed: Ballot(1, 2),
            preempted: Ballot(2, 1),
            phase: Phase::Prepare,
        }],
        &replica.sent[2][..]
    );
    assert_eq!(
        &[Command::Reject {
            from: 4,
            slot: 0,
            proposed: Ballot(1, 3),
            preempted: Ballot(2, 1),
            phase: Phase::Accept,
        }],
        &replica.sent[3][..]
    );
}

#[test]
fn promises_hold_for_the_open_slots() {
    let mut replica = Peers::new();
    replica.node.prepare(10, Ballot(5, 1));
    replica.carry_out();
    assert_eq!(
        &[Command::Promise { from: 4, slot: 10, ballot: Ballot(5, 1), accepted: Vec::new() }],
        &replica.sent[1][..]
    );

    // slot 0 was open and keeps the promise
    replica.clear();
    replica.node.accept(0, Ballot(3, 2), "low".into());
    replica.node.prepare(10, Ballot(3, 2));
    replica.carry_out();
    let reject = |slot, phase| Command::Reject {
        from: 4,
        slot,
        proposed: Ballot(3, 2),
        preempted: Ballot(5, 1),
        phase,
    };
    assert_eq!(
        &[reject(0, Phase::Accept), reject(10, Phase::Prepare)],
        &replica.sent[2][..]
    );

    // slot 12 was empty, and the promise has left no trace on it
    replica.clear();
    replica.node.accept(12, Ballot(3, 2), "low".into());
    replica.carry_out();
    assert_eq!(
        &[Command::Accepted { from: 4, slot: 12, ballot: Ballot(3, 2) }],
        &replica.sent[2][..]
    );
}

#[test]
fn accept_is_answered_with_accepted() {
    let mut replica = Peers::new();

    replica.node.accept(3, Ballot(1, 2), "x".into());
    replica.carry_out();

    assert_eq!(
        &[Command::Accepted { from: 4, slot: 3, ballot: Ballot(1, 2) }],
        &replica.sent[2][..]
    );
    assert_eq!(replica.node.open_slots(), vec![0, 1, 2, 3]);
}

#[test]
fn decided_slots_ignore_accepts_and_later_resolutions() {
    let mut replica = Peers::new();
    replica.node.resolution(0, Ballot(0, 1), "first".into());
    replica.clear();

    replica.node.accept(0, Ballot(5, 2), "other".into());
    replica.node.resolution(0, Ballot(6, 2), "other".into());
    replica.carry_out();

    assert!(replica.sent[2].is_empty());
    assert_eq!(vec![(0, Bytes::from("first"))], replica.decisions());
    assert_eq!(replica.node.open_slots(), vec![1]);
}

#[test]
fn decisions_have_no_gaps() {
    let mut replica = Peers::new();
    replica.node.resolution(1, Ballot(0, 1), "one".into());
    assert_eq!(Vec::<(Slot, Bytes)>::new(), replica.decisions());

    replica.node.resolution(0, Ballot(0, 1), "zero".into());
    assert_eq!(
        vec![(0, Bytes::from("zero")), (1, Bytes::from("one"))],
        replica.decisions()
    );
}

#[test]
fn decisions_are_read_from_a_slot_on() {
    let mut replica = Peers::new();
    for (slot, value) in [(0, "a"), (1, "b"), (2, "c")] {
        replica.node.resolution(slot, Ballot(1, 2), value.into());
    }

    let decisions = replica.node.decisions();
    assert_eq!(vec![(1, "b".into()), (2, "c".into())], decisions.range(1));
    assert_eq!(3, decisions.range(0).len());
    assert!(decisions.range(3).is_empty());
}

#[test]
fn leader_answers_catchup_for_decided_slots() {
    let mut replica = leader();
    replica.accepted(0, 0, Ballot(0, 4));
    replica.accepted(1, 0, Ballot(0, 4));
    replica.clear();

    replica.node.catchup(3, 0);
    replica.node.catchup(3, 1);
    replica.carry_out();

    assert_eq!(
        &[Command::Resolution { slot: 0, ballot: Ballot(0, 4), value: "123".into() }],
        &replica.sent[3][..]
    );
}

#[test]
fn votes_for_unknown_slots_decide_nothing() {
    let mut replica = leader();

    for node in 0..4 {
        replica.accepted(node, 9, Ballot(0, 4));
    }

    assert_eq!(Vec::<(Slot, Bytes)>::new(), replica.decisions());
    assert_eq!(replica.node.open_slots(), vec![0]);
}

#[test]
fn higher_ballots_unseat_the_leader() {
    let mut replica = leader();
    assert!(replica.node.is_leader());

    replica.node.prepare(0, Ballot(1, 2));

    assert!(!replica.node.is_leader());
    assert_eq!(replica.node.highest_observed_ballot(), Some(Ballot(1, 2)));

    replica.node.propose_leadership();
    assert_eq!(replica.node.highest_observed_ballot(), Some(Ballot(2, 4)));
}

#[test]
fn candidate_repeats_its_prepare() {
    let mut replica = Peers::new();
    replica.proposal("123".into());
    replica.clear();

    replica.node.propose_leadership();
    replica.carry_out();

    let expected = Command::Prepare { slot: 0, ballot: Ballot(0, 4) };
    for node in 0..4 {
        assert_eq!(&[expected.clone()], &replica.sent[node][..]);
    }
}

#[test]
fn wrong_stamps_are_refused() {
    let mut replica = Peers::new();
    let prepare = Command::Prepare { slot: 0, ballot: Ballot(1, 2) };
    let key = PaxosKey::Slot { slot: 0, proposer: 2 };
    let round = PaxosRound::new(1, Phase::Prepare);

    // another key, another round, and a round that could not be entered
    let other = PaxosKey::Slot { slot: 1, proposer: 2 };
    assert!(!replica.node.try_receive_stamped(other, round, prepare.clone(), true));
    let later = PaxosRound::new(1, Phase::Promise);
    assert!(!replica.node.try_receive_stamped(key, later, prepare.clone(), true));
    assert!(!replica.node.try_receive_stamped(key, round, prepare.clone(), false));
    assert_eq!(replica.node.highest_observed_ballot(), None);

    assert!(replica.node.try_receive_stamped(key, round, prepare, true));
    assert_eq!(replica.node.highest_observed_ballot(), Some(Ballot(1, 2)));

    // commands that belong to no round
    let catchup = Command::Catchup { from: 1, slot: 7 };
    let wrong = PaxosKey::Catchup { slot: 7, leader: 3 };
    assert!(!replica.node.try_receive_stamped(wrong, round, catchup.clone(), true));
    let right = PaxosKey::Catchup { slot: 7, leader: 4 };
    assert!(replica.node.try_receive_stamped(right, round, catchup, false));
}

#[test]
fn promise_inbox_counts_promises_alone() {
    let mut replica = Peers::new();
    replica.proposal("123".into());
    replica.clear();
    let promise = |from: NodeId| Command::Promise {
        from,
        slot: 0,
        ballot: Ballot(0, 4),
        accepted: Vec::new(),
    };

    replica.node.enter_promise_inbox(0, Ballot(0, 4));
    let count = replica.node.collect_promise_inbox(vec![
        Some(promise(0)),
        None,
        Some(Command::Accepted { from: 1, slot: 0, ballot: Ballot(0, 4) }),
        Some(promise(2)),
    ]);
    replica.carry_out();

    assert_eq!(count, 2);
    assert!(replica.node.is_leader());
    assert_eq!(replica.sent[0].len(), 1);
}

#[test]
fn accepted_inbox_counts_votes_alone() {
    let mut replica = leader();

    replica.node.enter_accepted_inbox(0, Ballot(0, 4));
    let count = replica.node.collect_accepted_inbox(vec![
        Some(Command::Accepted { from: 0, slot: 0, ballot: Ballot(0, 4) }),
        Some(Command::Prepare { slot: 0, ballot: Ballot(9, 1) }),
        None,
        Some(Command::Accepted { from: 1, slot: 0, ballot: Ballot(0, 4) }),
    ]);
    replica.carry_out();

    assert_eq!(count, 2);
    assert_eq!(vec![(0, Bytes::from("123"))], replica.decisions());
    assert_eq!(
        replica.current(PaxosKey::Slot { slot: 0, proposer: 4 }),
        PaxosRound::new(0, Phase::Resolution)
    );
}

#[test]
fn tick_moves_the_keys_of_open_slots() {
    let mut replica = Peers::new();
    replica.node.tick();

    let mut keys = Vec::new();
    for action in replica.node.comm_mut().take() {
        if let Action::Tick { key } = action {
            keys.push(key);
        }
    }
    assert_eq!(
        keys,
        vec![PaxosKey::Slot { slot: 0, proposer: 4 }, PaxosKey::Catchup { slot: 0, leader: 4 }]
    );
}

#[test]
fn participants_are_sorted() {
    let node = Node::new(Configuration::new(2u32, vec![(3, "c"), (0, "a"), (1, "b")]));
    assert_eq!(node.current_node_id(), 2);
    assert_eq!(node.participant_node_ids(), vec![0, 1, 2, 3]);
}

#[test]
fn readiness_is_told_for_each_command() {
    let mut replica = Peers::new();

    // answers go to peers only
    assert!(replica.node.is_ready_for(&Command::Prepare { slot: 0, ballot: Ballot(0, 2) }));
    assert!(!replica.node.is_ready_for(&Command::Prepare { slot: 0, ballot: Ballot(0, 4) }));
    assert!(!replica.node.is_ready_for(&Command::Prepare { slot: 0, ballot: Ballot(0, 9) }));
    let accept = |slot: Slot, node: NodeId| Command::Accept {
        slot,
        ballot: Ballot(0, node),
        value: "x".into(),
    };
    assert!(replica.node.is_ready_for(&accept(0, 1)));
    assert!(!replica.node.is_ready_for(&accept(0, 4)));
    assert!(!replica.node.is_ready_for(&accept(u64::MAX, 1)));
    let resolution = |slot: Slot, node: NodeId| Command::Resolution {
        slot,
        ballot: Ballot(0, node),
        value: "x".into(),
    };
    assert!(replica.node.is_ready_for(&resolution(0, 9)));
    assert!(!replica.node.is_ready_for(&resolution(1, 9)));
    assert!(replica.node.is_ready_for(&resolution(1, 3)));
    assert!(replica.node.is_ready_for(&Command::Catchup { from: 9, slot: 0 }));
    assert!(replica.node.is_ready_for(&Command::Accepted { from: 9, slot: 0, ballot: Ballot(0, 9) }));

    // slot numbers do not run out
    replica.proposal("123".into());
    let promise = |slot: Slot| Command::Promise {
        from: 0,
        slot: 0,
        ballot: Ballot(0, 4),
        accepted: vec![(slot, Ballot(0, 1), "x".into())],
    };
    assert!(replica.node.is_ready_for(&promise(3)));
    assert!(!replica.node.is_ready_for(&promise(u64::MAX)));

    // queued proposals go to a peer
    let reject = |node: NodeId| Command::Reject {
        from: 1,
        slot: 0,
        proposed: Ballot(0, 4),
        preempted: Ballot(1, node),
        phase: Phase::Prepare,
    };
    assert!(replica.node.is_ready_for(&reject(2)));
    assert!(!replica.node.is_ready_for(&reject(9)));

    // ballot numbers do not run out
    assert!(replica.node.is_ready_to_lead());
    replica.node.accepted(1, 0, Ballot(u32::MAX, 1));
    assert!(!replica.node.is_ready_to_lead());
    assert!(replica.node.is_ready_for(&Command::Proposal("x".into())));
}
