use bytes::Bytes;
use paxos::acceptor::Acceptor;
use paxos::commands::CommandView;
use paxos::proposer::Proposer;
use paxos::round::encode_slot;
use paxos::{
    Ballot, Command, Commander, Configuration, NodeId, PaxosKey, PaxosRound, Phase, Receiver, Slot,
};

fn words(key: PaxosKey) -> Vec<u32> {
    let mut out = Vec::new();
    key.encode(&mut out);
    out
}

#[test]
fn keys_encode_to_four_words() {
    assert_eq!(words(PaxosKey::ProposalTo(7)), vec![0, 7, 0, 0]);
    assert_eq!(
        words(PaxosKey::Slot { slot: 0x1_0000_0002, proposer: 3 }),
        vec![1, 3, 1, 2]
    );
    assert_eq!(
        words(PaxosKey::Catchup { slot: u64::MAX, leader: 5 }),
        vec![2, 5, u32::MAX, u32::MAX]
    );

    let mut out = vec![9];
    encode_slot(0x0000_0005_0000_0006, &mut out);
    assert_eq!(out, vec![9, 5, 6]);
}

#[test]
fn keys_decode_to_what_was_encoded() {
    let keys = [
        PaxosKey::ProposalTo(u32::MAX),
        PaxosKey::Slot { slot: 0, proposer: 0 },
        PaxosKey::Slot { slot: 0xdead_beef_0000_0001, proposer: 3 },
        PaxosKey::Catchup { slot: 0x8000_0000_8000_0000, leader: 4 },
    ];
    for key in keys {
        assert_eq!(PaxosKey::decode(&words(key)), Some(key));
    }
}

#[test]
fn other_words_decode_to_nothing() {
    assert_eq!(PaxosKey::decode(&[]), None);
    assert_eq!(PaxosKey::decode(&[1, 2, 3]), None);
    assert_eq!(PaxosKey::decode(&[1, 2, 3, 4, 5]), None);
    assert_eq!(PaxosKey::decode(&[3, 0, 0, 0]), None);
    assert_eq!(PaxosKey::decode(&[0, 1, 0, 1]), None);
    assert_eq!(PaxosKey::decode(&[0, 1, 1, 0]), None);
}

#[test]
fn rounds_are_ordered_by_ballot_and_phase() {
    let order = [
        Phase::Prepare,
        Phase::Promise,
        Phase::Accept,
        Phase::Accepted,
        Phase::Reject,
        Phase::Resolution,
        Phase::Catchup,
    ];
    for i in 0..order.len() {
        for j in 0..order.len() {
            let (a, b) = (PaxosRound::new(1, order[i]), PaxosRound::new(1, order[j]));
            assert_eq!(a.precedes(&b), i < j);
        }
    }
    let late = PaxosRound::new(1, Phase::Catchup);
    let early = PaxosRound::new(2, Phase::Prepare);
    assert!(late.precedes(&early));
    assert!(!early.precedes(&late));
    assert_eq!(late.ballot(), 1);
    assert_eq!(late.phase(), Phase::Catchup);
    assert!(late.meets(&PaxosRound::new(1, Phase::Catchup), Phase::Catchup));
    assert!(!late.meets(&PaxosRound::new(1, Phase::Catchup), Phase::Promise));
    assert!(!late.meets(&PaxosRound::new(2, Phase::Catchup), Phase::Catchup));
    assert!(!late.meets(&PaxosRound::new(1, Phase::Reject), Phase::Catchup));
}

#[test]
fn ballots_are_ordered_by_number_and_node() {
    assert!(Ballot(0, 9).precedes(&Ballot(1, 0)));
    assert!(Ballot(1, 0).precedes(&Ballot(1, 1)));
    assert!(!Ballot(1, 1).precedes(&Ballot(1, 1)));
    assert!(!Ballot(1, 1).precedes(&Ballot(0, 9)));
}

fn commands() -> Vec<Command> {
    let value = Bytes::from("v");
    vec![
        Command::Proposal(value.clone()),
        Command::Prepare { slot: 1, ballot: Ballot(2, 3) },
        Command::Promise {
            from: 5,
            slot: 1,
            ballot: Ballot(2, 3),
            accepted: vec![(1, Ballot(0, 1), value.clone())],
        },
        Command::Accept { slot: 1, ballot: Ballot(2, 3), value: value.clone() },
        Command::Reject {
            from: 5,
            slot: 1,
            proposed: Ballot(2, 3),
            preempted: Ballot(4, 6),
            phase: Phase::Accept,
        },
        Command::Accepted { from: 5, slot: 1, ballot: Ballot(2, 3) },
        Command::Resolution { slot: 1, ballot: Ballot(2, 3), value },
        Command::Catchup { from: 5, slot: 1 },
    ]
}

#[test]
fn commands_belong_to_rounds() {
    let phases = [
        None,
        Some(Phase::Prepare),
        Some(Phase::Promise),
        Some(Phase::Accept),
        Some(Phase::Reject),
        Some(Phase::Accepted),
        Some(Phase::Resolution),
        None,
    ];
    for (command, phase) in commands().iter().zip(phases) {
        let key = PaxosKey::Slot { slot: 1, proposer: 3 };
        match phase {
            Some(phase) => {
                let round = PaxosRound::new(2, phase);
                assert_eq!(command.protocol_round(), Some(round));
                assert_eq!(command.protocol_stamp(), Some((key, round)));
                assert_eq!(command.key_for(8), key);
            }
            None => {
                assert_eq!(command.protocol_round(), None);
                assert_eq!(command.protocol_stamp(), None);
            }
        }
    }
    assert_eq!(commands()[0].key_for(8), PaxosKey::ProposalTo(8));
    assert_eq!(commands()[7].key_for(8), PaxosKey::Catchup { slot: 1, leader: 8 });
}

#[test]
fn clones_of_commands_are_equal() {
    for command in commands() {
        assert_eq!(command.clone(), command);
    }
}

/// A commander that notes which reactor was called with what.
#[derive(Default)]
struct Log(Vec<Command>);

// The stated relations of the trait are never run.
impl Commander for Log {
    fn ready_for(&self, _: CommandView) -> bool {
        unreachable!()
    }
    fn reacts(&self, _: CommandView, _: &Log) -> bool {
        unreachable!()
    }
    fn proposal(&mut self, val: Bytes) {
        self.0.push(Command::Proposal(val));
    }
    fn prepare(&mut self, slot: Slot, bal: Ballot) {
        self.0.push(Command::Prepare { slot, ballot: bal });
    }
    fn promise(
        &mut self,
        node: NodeId,
        slot: Slot,
        bal: Ballot,
        accepted: Vec<(Slot, Ballot, Bytes)>,
    ) {
        self.0.push(Command::Promise { from: node, slot, ballot: bal, accepted });
    }
    fn accept(&mut self, slot: Slot, bal: Ballot, value: Bytes) {
        self.0.push(Command::Accept { slot, ballot: bal, value });
    }
    fn reject(
        &mut self,
        node: NodeId,
        slot: Slot,
        proposed: Ballot,
        preempted: Ballot,
        phase: Phase,
    ) {
        self.0.push(Command::Reject { from: node, slot, proposed, preempted, phase });
    }
    fn accepted(&mut self, node: NodeId, slot: Slot, bal: Ballot) {
        self.0.push(Command::Accepted { from: node, slot, ballot: bal });
    }
    fn resolution(&mut self, slot: Slot, bal: Ballot, value: Bytes) {
        self.0.push(Command::Resolution { slot, ballot: bal, value });
    }
    fn catchup(&mut self, node: NodeId, slot: Slot) {
        self.0.push(Command::Catchup { from: node, slot });
    }
}

#[test]
fn commands_are_handed_to_their_reactors() {
    let mut log = Log::default();
    for command in commands() {
        log.receive(command);
    }
    assert_eq!(log.0, commands());
}

#[test]
fn configurations_keep_the_last_address() {
    let config = Configuration::new(
        4u32,
        vec![(3, "c"), (1, "a"), (4, "self"), (3, "d"), (2, "b")],
    );
    assert_eq!(config.current(), 4);
    assert_eq!(config.peer_node_ids(), vec![1, 2, 3]);
    assert_eq!(config.address(3), Some(&"d"));
    assert_eq!(config.address(1), Some(&"a"));
    assert_eq!(config.address(4), None);
    assert!(config.has_peer(2));
    assert!(!config.has_peer(4));
    assert_eq!(config.quorum_size(), (3, 3));
}

#[test]
fn quorums_are_majorities() {
    let sizes = [(0, 1), (1, 2), (2, 2), (3, 3), (4, 3), (5, 4), (6, 4)];
    for (peers, quorum) in sizes {
        let config = Configuration::new(99u32, (0..peers).map(|id| (id, ())).collect());
        assert_eq!(config.quorum_size(), (quorum, quorum));
    }
}

#[test]
fn acceptors_keep_the_highest_value() {
    let mut acceptor = Acceptor::new(4, 3);
    acceptor.notice_value(Ballot(1, 2), "new".into());
    acceptor.notice_value(Ballot(0, 9), "old".into());
    assert_eq!(acceptor.highest_value(), Some((Ballot(1, 2), "new".into())));
    acceptor.notice_value(Ballot(1, 2), "same ballot".into());
    assert_eq!(acceptor.highest_value(), Some((Ballot(1, 2), "new".into())));

    // votes for another ballot do not count
    acceptor.receive_accepted(0, Ballot(0, 9));
    acceptor.receive_accepted(1, Ballot(0, 9));
    acceptor.receive_accepted(0, Ballot(1, 2));
    assert!(!acceptor.is_resolved());
    acceptor.receive_accepted(1, Ballot(1, 2));
    assert_eq!(acceptor.resolution(), Some((Ballot(1, 2), "new".into())));

    acceptor.resolve(Ballot(7, 7), "later".into());
    assert_eq!(acceptor.resolution(), Some((Ballot(1, 2), "new".into())));
}

#[test]
fn candidacies_stand_above_all_ballots_seen() {
    let mut proposer = Proposer::new(4, 3);
    assert_eq!(proposer.prepare(), Ballot(0, 4));
    proposer.observe_ballot(Ballot(5, 1));
    assert!(proposer.state().is_follower());
    proposer.observe_ballot(Ballot(3, 1));
    assert_eq!(proposer.prepare(), Ballot(6, 4));
    assert!(proposer.state().is_candidate());
    proposer.receive_promise(1, Ballot(6, 4));
    proposer.receive_promise(2, Ballot(6, 4));
    assert!(proposer.state().is_leader());
}
