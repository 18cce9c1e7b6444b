use paxos::commands::CommandView;
use paxos::liveness::{Timeout, LEADERSHIP_TIMEOUT};
use paxos::window::DecisionSet;
use paxos::{Ballot, Command, Configuration, Liveness, Node, Phase, Receiver, Replica};

const SECOND: u64 = 1_000_000_000;

#[test]
fn propose_does_not_bump_timeout() {
    let mut live = Liveness::new(Inner::default());
    live.receive(Command::Proposal("123".into()));

    // does not bump leadership
    assert!(live.leader_election.latest_message.is_none());
    assert_eq!(Command::Proposal("123".into()), live.inner.commands[0]);
}

#[test]
fn commands_bump_timeout() {
    let mut live = Liveness::new(Inner::default());
    live.receive(Command::Prepare { slot: 0, ballot: Ballot(2, 3) });
    assert!(live.leader_election.latest_message.is_some());
    assert_eq!(live.inner.commands[0], Command::Prepare { slot: 0, ballot: Ballot(2, 3) });

    let mut live = Liveness::new(Inner::default());
    live.receive(Command::Promise {
        from: 0,
        slot: 0,
        ballot: Ballot(2, 3),
        accepted: Vec::new(),
    });
    assert!(live.leader_election.latest_message.is_some());
    assert_eq!(
        live.inner.commands[0],
        Command::Promise { from: 0, slot: 0, ballot: Ballot(2, 3), accepted: Vec::new() }
    );

    let mut live = Liveness::new(Inner::default());
    live.receive(Command::Reject {
        from: 4,
        slot: 0,
        proposed: Ballot(0, 1),
        preempted: Ballot(4, 5),
        phase: Phase::Prepare,
    });
    assert!(live.leader_election.latest_message.is_some());
    assert_eq!(
        live.inner.commands[0],
        Command::Reject {
            from: 4,
            slot: 0,
            proposed: Ballot(0, 1),
            preempted: Ballot(4, 5),
            phase: Phase::Prepare,
        }
    );

    let mut live = Liveness::new(Inner::default());
    live.receive(Command::Accept { slot: 0, ballot: Ballot(4, 5), value: "x".into() });
    assert!(live.leader_election.latest_message.is_some());
    assert_eq!(
        live.inner.commands[0],
        Command::Accept { slot: 0, ballot: Ballot(4, 5), value: "x".into() }
    );

    let mut live = Liveness::new(Inner::default());
    live.receive(Command::Accepted { from: 5, slot: 2, ballot: Ballot(1, 2) });
    assert!(live.leader_election.latest_message.is_some());
    assert_eq!(
        live.inner.commands[0],
        Command::Accepted { from: 5, slot: 2, ballot: Ballot(1, 2) }
    );

    let mut live = Liveness::new(Inner::default());
    live.receive(Command::Resolution { slot: 0, ballot: Ballot(1, 2), value: "x".into() });
    assert!(live.leader_election.latest_message.is_some());
    assert_eq!(
        live.inner.commands[0],
        Command::Resolution { slot: 0, ballot: Ballot(1, 2), value: "x".into() }
    );
}

#[test]
fn tick_leader() {
    let mut live = Liveness::new(Inner::default());
    live.inner.leader = true;
    assert!(live.is_leader());
    live.tick();
    assert!(!live.inner.proposed_leadership);

    // receive a message
    live.receive(Command::Accepted { from: 5, slot: 2, ballot: Ballot(1, 2) });
    live.tick();
    assert!(!live.inner.proposed_leadership);

    // jump forward the timeout duration
    live.leader_election.fast_forward(SECOND);

    live.tick();
    assert!(live.inner.proposed_leadership);
}

#[test]
fn tick_follower() {
    let mut live = Liveness::new(Inner::default());
    live.inner.leader = false;
    assert!(!live.is_leader());
    live.tick();
    assert!(!live.inner.proposed_leadership);

    // receive a message
    live.receive(Command::Resolution { slot: 0, ballot: Ballot(0, 1), value: "x".into() });
    live.tick();
    assert!(!live.inner.proposed_leadership);

    // jump forward the timeout duration
    live.leader_election.fast_forward(2 * SECOND);

    live.tick();
    assert!(live.inner.proposed_leadership);
}

#[test]
fn catchup_does_not_bump_timeout() {
    let mut live = Liveness::new(Inner::default());
    live.receive(Command::Catchup { from: 1, slot: 7 });
    assert!(live.leader_election.latest_message.is_none());
    assert_eq!(live.inner.commands, vec![Command::Catchup { from: 1, slot: 7 }]);
}

#[test]
fn leadership_is_due_after_the_timeout() {
    let mut live = Liveness::new(Inner::default());
    let timeout = LEADERSHIP_TIMEOUT as i128;
    live.receive_at(Command::Prepare { slot: 0, ballot: Ballot(0, 1) }, 5);
    assert_eq!(live.leader_election.latest_message, Some(5));

    live.tick_at(5 + timeout);
    assert!(!live.inner.proposed_leadership);
    assert_eq!(live.inner.ticks, 1);

    live.tick_at(6 + timeout);
    assert!(live.inner.proposed_leadership);
    assert_eq!(live.inner.ticks, 2);
    assert_eq!(live.leader_election.latest_message, None);
}

#[test]
fn leaders_renew_halfway() {
    let mut live = Liveness::new(Inner::default());
    live.inner.leader = true;
    let half = (LEADERSHIP_TIMEOUT / 2) as i128;
    live.receive_at(Command::Prepare { slot: 0, ballot: Ballot(0, 1) }, 0);

    live.tick_at(half);
    assert!(!live.inner.proposed_leadership);

    live.tick_at(half + 1);
    assert!(live.inner.proposed_leadership);
}

#[test]
fn timeouts_measure_from_the_latest_message() {
    let mut timeout = Timeout::new(100);
    assert!(!timeout.lapsed());
    assert!(!timeout.near());
    assert!(!timeout.lapsed_at(i128::MAX));

    timeout.bump_at(1000);
    assert!(!timeout.near_at(1050));
    assert!(timeout.near_at(1051));
    assert!(!timeout.lapsed_at(1100));
    assert!(timeout.lapsed_at(1101));

    timeout.fast_forward(90);
    assert_eq!(timeout.latest_message, Some(900));
    assert!(timeout.lapsed_at(1001));

    timeout.clear();
    assert!(!timeout.lapsed_at(1001));
    timeout.fast_forward(90);
    assert_eq!(timeout.latest_message, None);

    timeout.bump_at(i128::MAX);
    assert!(!timeout.lapsed_at(i128::MAX));
}

#[test]
fn clock_moves_on() {
    let mut timeout = Timeout::new(0);
    timeout.bump();
    let start = std::time::Instant::now();
    while start.elapsed().as_micros() < 50 {}
    assert!(timeout.lapsed());
    assert!(timeout.near());
    let latest = timeout.latest_message;
    timeout.bump();
    assert!(timeout.latest_message > latest);
}

#[test]
fn nodes_stand_for_leadership_when_due() {
    let config = Configuration::new(4u32, vec![(0, ()), (1, ()), (2, ()), (3, ())]);
    let mut live = Liveness::new(Node::new(config));
    live.receive(Command::Accept { slot: 0, ballot: Ballot(0, 1), value: "x".into() });
    assert_eq!(live.inner.highest_observed_ballot(), Some(Ballot(0, 1)));

    live.leader_election.fast_forward(2 * SECOND);
    live.tick();

    assert_eq!(live.inner.highest_observed_ballot(), Some(Ballot(1, 4)));
    live.receive(Command::Resolution { slot: 0, ballot: Ballot(0, 1), value: "x".into() });
    assert_eq!(live.decisions().iter().len(), 1);
}

#[test]
fn nodes_that_cannot_stand_tick_until_leadership_is_due() {
    let config = Configuration::new(4u32, vec![(0, ()), (1, ()), (2, ()), (3, ())]);
    let mut live = Liveness::new(Node::new(config));
    live.receive_at(
        Command::Accept { slot: 0, ballot: Ballot(u32::MAX, 1), value: "x".into() },
        0,
    );
    assert!(!live.inner.is_ready_to_lead());
    live.inner.comm_mut().take();

    live.tick_at(LEADERSHIP_TIMEOUT as i128);

    assert_eq!(live.inner.comm_mut().take().len(), 2);
    assert_eq!(live.leader_election.latest_message, Some(0));
}

#[derive(Default)]
struct Inner {
    commands: Vec<Command>,
    leader: bool,
    proposed_leadership: bool,
    ticks: usize,
}

// The stated relations of the traits are never run.
impl Receiver for Inner {
    fn receivable(&self, _: CommandView) -> bool {
        unreachable!()
    }

    fn received(&self, _: CommandView, _: &Inner) -> bool {
        unreachable!()
    }

    fn receive(&mut self, cmd: Command) {
        self.commands.push(cmd);
    }
}

impl Replica for Inner {
    fn sound(&self) -> bool {
        unreachable!()
    }

    fn electable(&self) -> bool {
        unreachable!()
    }

    fn elected(&self, _: &Inner) -> bool {
        unreachable!()
    }

    fn tickable(&self) -> bool {
        unreachable!()
    }

    fn ticked(&self, _: &Inner) -> bool {
        unreachable!()
    }

    fn leads(&self) -> bool {
        unreachable!()
    }

    fn has_decided(&self, _: &DecisionSet) -> bool {
        unreachable!()
    }

    fn propose_leadership(&mut self) {
        self.proposed_leadership = true;
    }

    fn is_leader(&self) -> bool {
        self.leader
    }

    fn tick(&mut self) {
        self.ticks += 1;
    }

    fn decisions(&self) -> DecisionSet {
        unreachable!();
    }
}
