use bytes::Bytes;
use paxos::{
    Action, Ballot, Command, Commander, Configuration, Node, NodeId, PaxosKey, PaxosRound, Phase,
    Replica, Slot, StampedReceiver,
};
use std::collections::VecDeque;

/// A command on its way.
struct Message {
    to: NodeId,
    key: PaxosKey,
    command: Command,
}

/// Nodes with the commands that travel between them.
struct Cluster {
    nodes: Vec<Node<NodeId>>,
    travelling: VecDeque<Message>,
}

impl Cluster {
    fn new(size: u32) -> Cluster {
        Cluster {
            nodes: (0..size)
                .map(|id| Node::new(Configuration::new(id, (0..size).map(|p| (p, p)).collect())))
                .collect(),
            travelling: VecDeque::new(),
        }
    }

    /// Takes over what the nodes send.
    fn collect(&mut self) {
        for node in &mut self.nodes {
            for action in node.comm_mut().take() {
                if let Action::Send { to, key, command } = action {
                    self.travelling.push_back(Message { to, key, command });
                }
            }
        }
    }

    /// Delivers what `reaches` lets through until nothing travels; the rest is lost.
    fn deliver(&mut self, reaches: fn(&Message) -> bool) {
        self.collect();
        while let Some(message) = self.travelling.pop_front() {
            if reaches(&message) {
                let round = match message.command.protocol_round() {
                    Some(round) => round,
                    None => PaxosRound::new(0, Phase::Prepare),
                };
                let node = &mut self.nodes[message.to as usize];
                assert!(node.is_ready_for(&message.command));
                assert!(node.try_receive_stamped(message.key, round, message.command, true));
            }
            self.collect();
        }
    }

    fn decisions(&self, node: usize) -> Vec<(Slot, Bytes)> {
        self.nodes[node].decisions().iter().clone()
    }
}

#[test]
fn clusters_decide_what_is_proposed() {
    let mut cluster = Cluster::new(3);

    cluster.nodes[0].proposal("first".into());
    cluster.deliver(|_| true);
    cluster.nodes[1].proposal("second".into());
    cluster.deliver(|_| true);

    let expected: Vec<(Slot, Bytes)> = vec![(0, "first".into()), (1, "second".into())];
    for node in 0..3 {
        assert_eq!(expected, cluster.decisions(node));
    }
    assert!(cluster.nodes[0].is_leader());
    assert!(!cluster.nodes[1].is_leader());
}

#[test]
fn decided_values_survive_elections() {
    let mut cluster = Cluster::new(3);

    // node 0 decides by the vote of node 1, and nobody else hears of it
    cluster.nodes[0].proposal("kept".into());
    cluster.deliver(|message| {
        message.to != 2 && !matches!(message.command, Command::Resolution { .. })
    });
    assert_eq!(vec![(0, "kept".into())], cluster.decisions(0));
    assert!(cluster.decisions(1).is_empty());

    // node 2 is elected by node 1 and proposes what node 1 has voted for
    cluster.nodes[2].proposal("late".into());
    cluster.deliver(|message| message.to != 0);
    assert!(cluster.nodes[2].is_leader());
    let expected: Vec<(Slot, Bytes)> = vec![(0, "kept".into()), (1, "late".into())];
    assert_eq!(expected, cluster.decisions(1));
    assert_eq!(expected, cluster.decisions(2));
}

#[test]
fn preempted_leaders_step_back() {
    let mut cluster = Cluster::new(3);
    cluster.nodes[0].proposal("first".into());
    cluster.deliver(|_| true);

    // node 1 promises the ballot of node 2
    cluster.nodes[2].propose_leadership();
    cluster.deliver(|message| {
        message.to != 0 && !matches!(message.command, Command::Accept { .. })
    });
    assert_eq!(Some(Ballot(1, 2)), cluster.nodes[1].highest_observed_ballot());

    // and rejects that of node 0 from then on
    assert!(cluster.nodes[0].is_leader());
    cluster.nodes[0].proposal("stale".into());
    cluster.deliver(|message| message.to != 2);
    assert!(!cluster.nodes[0].is_leader());
    assert_eq!(Some(Ballot(1, 2)), cluster.nodes[0].highest_observed_ballot());
    let expected: Vec<(Slot, Bytes)> = vec![(0, "first".into())];
    assert_eq!(expected, cluster.decisions(0));
}
