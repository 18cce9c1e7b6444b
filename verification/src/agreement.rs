//! Agreement on one slot: the nodes of a group never decide two values for it, as long as
//! proposers ask a majority for promises that cover the slot before they propose, and propose one
//! value per ballot.

use crate::acceptor::{AcceptReply, AcceptorView};
use crate::ballot::{opt_le, raise, Ballot, NodeId};
use crate::config::majority;
use crate::growth::vote_ballot;
use crate::quorum::majorities_meet;
use vstd::prelude::*;

verus! {

/// One slot in a group: its acceptors, and what has happened to them.
pub struct Instance {
    pub members: Set<NodeId>,
    pub acceptors: Map<NodeId, AcceptorView>,
    /// The promises given: by which node, for which ballot, and what it reported.
    pub promises: Set<(NodeId, Ballot, Option<(Ballot, Seq<u8>)>)>,
    /// The values proposed, by their ballots.
    pub proposals: Map<Ballot, Seq<u8>>,
    /// The votes given: by which node and under which ballot.
    pub votes: Set<(NodeId, Ballot)>,
}

/// What can happen to an instance.
pub enum Event {
    /// A node promises a ballot and reports the value it knows, or the decision. Where it has
    /// promised a higher ballot, that promise stands.
    Promise { node: NodeId, ballot: Ballot },
    /// The proposer of a ballot proposes a value on the strength of the reports of `backers`. It
    /// promises the ballot itself and gives it the first vote, unless it already holds a value of
    /// a higher ballot.
    Propose { ballot: Ballot, value: Seq<u8>, backers: Map<NodeId, Option<(Ballot, Seq<u8>)>> },
    /// The ACCEPT of a ballot reaches an acceptor, which votes for it or rejects it.
    Accept { node: NodeId, ballot: Ballot },
    /// A candidate learns of the proposal of a ballot from a promise. Its acceptor keeps the value
    /// and counts the node among those that hold it, but nobody is told: votes are counted by the
    /// proposer of their ballot alone, which has voted for it itself.
    Notice { node: NodeId, ballot: Ballot },
    /// The ACCEPTED of a node reaches the proposer of the ballot, which counts the vote.
    Count { from: NodeId, ballot: Ballot },
    /// A node learns that the value of a ballot is chosen.
    Resolve { node: NodeId, ballot: Ballot },
}

/// The acceptor once it has promised a ballot, or a higher one.
pub open spec fn pledged(acceptor: AcceptorView, ballot: Ballot) -> AcceptorView {
    match acceptor {
        AcceptorView::Open { promised, accepted, voters } => AcceptorView::Open {
            promised: raise(promised, ballot),
            accepted,
            voters,
        },
        AcceptorView::Resolved { .. } => acceptor,
    }
}

/// Whether an acceptor knows a value of a higher ballot, or the decision.
pub open spec fn outgrown(acceptor: AcceptorView, ballot: Ballot) -> bool {
    match acceptor {
        AcceptorView::Open { accepted, .. } => accepted matches Some((b, _)) && ballot.lt(b),
        AcceptorView::Resolved { .. } => true,
    }
}

impl Instance {
    /// An instance to which nothing has happened.
    pub open spec fn fresh(members: Set<NodeId>) -> Instance {
        Instance {
            members,
            acceptors: Map::new(|n: NodeId| members.contains(n), |n: NodeId| AcceptorView::fresh()),
            promises: Set::empty(),
            proposals: Map::empty(),
            votes: Set::empty(),
        }
    }

    /// Number of nodes that decide.
    pub open spec fn quorum(self) -> nat {
        majority(self.members.len())
    }

    /// Whether the nodes of `backers` are a majority to which the proposer of the ballot belongs,
    /// and each of the others has promised the ballot with its report.
    pub open spec fn backed(
        self,
        ballot: Ballot,
        backers: Map<NodeId, Option<(Ballot, Seq<u8>)>>,
    ) -> bool {
        &&& backers.dom().subset_of(self.members)
        &&& backers.dom().len() >= self.quorum()
        &&& backers.contains_key(ballot.1)
        &&& forall|n: NodeId| #[trigger]
            backers.contains_key(n) && n != ballot.1 ==> self.promises.contains(
                (n, ballot, backers[n]),
            )
    }

    /// Whether an event can happen. A value is proposed once per ballot, by a proposer that has
    /// not promised a higher one unless it holds a value of a higher one, and it is the value that
    /// was reported under the highest ballot, its own report included, if any was reported.
    pub open spec fn can(self, event: Event) -> bool {
        match event {
            Event::Promise { node, .. } => self.members.contains(node),
            Event::Propose { ballot, value, backers } => {
                &&& !self.proposals.contains_key(ballot)
                &&& self.backed(ballot, backers)
                &&& !self.acceptors[ballot.1].is_resolved()
                &&& self.acceptors[ballot.1].preempting(ballot) is None || outgrown(
                    self.acceptors[ballot.1],
                    ballot,
                )
                &&& backers[ballot.1] == self.acceptors[ballot.1].highest_value()
                &&& highest_report(backers, value)
            },
            Event::Accept { node, ballot } => self.members.contains(node)
                && self.proposals.contains_key(ballot),
            Event::Notice { node, ballot } => self.members.contains(node)
                && self.proposals.contains_key(ballot),
            Event::Count { from, ballot } => self.votes.contains((from, ballot)),
            Event::Resolve { node, ballot } => self.members.contains(node) && self.chosen(ballot),
        }
    }

    /// The instance with the acceptor of a node replaced.
    pub open spec fn with_acceptor(self, node: NodeId, acceptor: AcceptorView) -> Instance {
        Instance { acceptors: self.acceptors.insert(node, acceptor), ..self }
    }

    /// The instance after an event.
    pub open spec fn after(self, event: Event) -> Instance {
        match event {
            Event::Promise { node, ballot } => {
                let acceptor = self.acceptors[node];
                Instance {
                    promises: self.promises.insert((node, ballot, acceptor.highest_value())),
                    ..self.with_acceptor(node, pledged(acceptor, ballot))
                }
            },
            Event::Propose { ballot, value, backers } => {
                let node = ballot.1;
                Instance {
                    promises: self.promises.insert((node, ballot, backers[node])),
                    proposals: self.proposals.insert(ballot, value),
                    votes: if self.acceptors[node].preempting(ballot) is None {
                        self.votes.insert((node, ballot))
                    } else {
                        self.votes
                    },
                    ..self.with_acceptor(node, self.acceptors[node].notice(node, ballot, value))
                }
            },
            Event::Accept { node, ballot } => {
                let acceptor = self.acceptors[node];
                Instance {
                    votes: match acceptor.accept_reply(ballot) {
                        AcceptReply::Accepted => self.votes.insert((node, ballot)),
                        _ => self.votes,
                    },
                    ..self.with_acceptor(
                        node,
                        acceptor.accept(node, ballot, self.proposals[ballot]),
                    )
                }
            },
            Event::Notice { node, ballot } => self.with_acceptor(
                node,
                self.acceptors[node].notice(node, ballot, self.proposals[ballot]),
            ),
            Event::Count { from, ballot } => self.with_acceptor(
                ballot.1,
                self.acceptors[ballot.1].vote(self.quorum(), from, ballot),
            ),
            Event::Resolve { node, ballot } => self.with_acceptor(
                node,
                self.acceptors[node].resolve(ballot, self.proposals[ballot]),
            ),
        }
    }

    /// Whether events can happen one after the other.
    pub open spec fn can_all(self, events: Seq<Event>) -> bool
        decreases events.len(),
    {
        events.len() > 0 ==> {
            &&& self.can_all(events.drop_last())
            &&& self.after_all(events.drop_last()).can(events.last())
        }
    }

    /// The instance after events one after the other.
    pub open spec fn after_all(self, events: Seq<Event>) -> Instance
        decreases events.len(),
    {
        if events.len() == 0 {
            self
        } else {
            self.after_all(events.drop_last()).after(events.last())
        }
    }

    /// Whether `nodes` are a majority.
    pub open spec fn is_majority(self, nodes: Set<NodeId>) -> bool {
        nodes.subset_of(self.members) && nodes.len() >= self.quorum()
    }

    /// Whether a majority has voted under a ballot, so that its value is chosen.
    pub open spec fn chosen(self, ballot: Ballot) -> bool {
        exists|voters: Set<NodeId>| #[trigger] self.elects(voters, ballot)
    }

    /// Whether `voters` are a majority and have voted under a ballot.
    pub open spec fn elects(self, voters: Set<NodeId>, ballot: Ballot) -> bool {
        &&& self.is_majority(voters)
        &&& forall|n: NodeId| #[trigger] voters.contains(n) ==> self.votes.contains((n, ballot))
    }

    /// Whether a majority has not voted under a ballot and will not, so that its value cannot be
    /// chosen any more.
    pub open spec fn dead(self, ballot: Ballot) -> bool {
        exists|nodes: Set<NodeId>| #[trigger] self.bars(nodes, ballot)
    }

    /// Whether a node has not voted under a ballot and will not: its slot is decided, or it has
    /// promised a higher ballot.
    pub open spec fn abstains(self, node: NodeId, ballot: Ballot) -> bool {
        &&& !self.votes.contains((node, ballot))
        &&& self.acceptors[node].is_resolved() || self.acceptors[node].preempting(ballot) is Some
    }

    /// Whether `nodes` are a majority and abstain under a ballot.
    pub open spec fn bars(self, nodes: Set<NodeId>, ballot: Ballot) -> bool {
        &&& self.is_majority(nodes)
        &&& forall|n: NodeId| #[trigger] nodes.contains(n) ==> self.abstains(n, ballot)
    }

    /// Whether a value was proposed under a ballot.
    pub open spec fn proposed(self, ballot: Ballot, value: Seq<u8>) -> bool {
        self.proposals.contains_key(ballot) && self.proposals[ballot] == value
    }

    /// What holds of the acceptor of a node.
    pub open spec fn acceptor_safe(self, node: NodeId) -> bool {
        &&& self.acceptors.contains_key(node)
        &&& match self.acceptors[node] {
            AcceptorView::Open { promised, accepted, voters } => {
                // it has promised at least the ballot of the value it holds
                &&& opt_le(vote_ballot(accepted), promised)
                // it holds a value at least as high as all its votes
                &&& forall|b: Ballot| #[trigger]
                    self.votes.contains((node, b)) ==> opt_le(Some(b), vote_ballot(accepted))
                &&& accepted matches Some((b, v)) ==> {
                    // the value it holds was proposed
                    &&& self.proposed(b, v)
                    // and if it is its own proposal, the nodes it counts have voted for it
                    &&& b.1 == node ==> forall|n: NodeId| #[trigger]
                        voters.contains(n) ==> self.votes.contains((n, b))
                }
            },
            // what it has decided is chosen
            AcceptorView::Resolved { ballot, value } => self.proposed(ballot, value)
                && self.chosen(ballot),
        }
    }

    /// Whether a report speaks for a vote: it is of a ballot at least as high, or of one whose
    /// value is chosen.
    pub open spec fn covers(self, report: Option<(Ballot, Seq<u8>)>, ballot: Ballot) -> bool {
        opt_le(Some(ballot), vote_ballot(report)) || (report matches Some((b, _)) && self.chosen(b))
    }

    /// What holds of a promise: it is kept, what was reported was proposed, and the report speaks
    /// for all votes of the node under lower ballots.
    pub open spec fn promise_safe(
        self,
        node: NodeId,
        ballot: Ballot,
        report: Option<(Ballot, Seq<u8>)>,
    ) -> bool {
        &&& self.members.contains(node)
        &&& self.acceptors[node] matches AcceptorView::Open { promised, .. } ==> opt_le(
            Some(ballot),
            promised,
        )
        &&& report matches Some((b, v)) ==> self.proposed(b, v)
        &&& forall|b: Ballot| #[trigger]
            self.votes.contains((node, b)) && b.lt(ballot) ==> self.covers(report, b)
    }

    /// What holds of two ballots, the higher of which is proposed: the lower one has the same
    /// value, or cannot be chosen any more.
    pub open spec fn ballots_safe(self, low: Ballot, high: Ballot) -> bool {
        self.dead(low) || self.proposed(low, self.proposals[high])
    }

    /// What every event keeps.
    pub open spec fn safe(self) -> bool {
        &&& self.members.finite()
        &&& forall|n: NodeId| #[trigger] self.members.contains(n) ==> self.acceptor_safe(n)
        &&& forall|n: NodeId, b: Ballot, r: Option<(Ballot, Seq<u8>)>| #[trigger]
            self.promises.contains((n, b, r)) ==> self.promise_safe(n, b, r)
        &&& forall|low: Ballot, high: Ballot|
            self.proposals.contains_key(high) && low.lt(high) ==> #[trigger] self.ballots_safe(
                low,
                high,
            )
        &&& forall|b: Ballot| #[trigger]
            self.proposals.contains_key(b) ==> self.members.contains(b.1) && (self.votes.contains(
                (b.1, b),
            ) || outgrown(self.acceptors[b.1], b))
        &&& forall|n: NodeId, b: Ballot| #[trigger]
            self.votes.contains((n, b)) ==> self.members.contains(n)
                && self.proposals.contains_key(b)
    }
}

/// Whether `value` is what was reported under the highest ballot, or nothing was reported.
pub open spec fn highest_report(
    backers: Map<NodeId, Option<(Ballot, Seq<u8>)>>,
    value: Seq<u8>,
) -> bool {
    ||| forall|n: NodeId| #[trigger] backers.contains_key(n) ==> backers[n] is None
    ||| exists|n: NodeId| #[trigger]
        backers.contains_key(n) && backers[n] is Some && backers[n]->Some_0.1 == value && (
        forall|m: NodeId| #[trigger]
            backers.contains_key(m) ==> opt_le(vote_ballot(backers[m]), vote_ballot(backers[n])))
}

/// An instance to which nothing has happened is safe.
pub proof fn instances_start_safe(members: Set<NodeId>)
    requires
        members.finite(),
    ensures
        Instance::fresh(members).safe(),
{
}

/// What is chosen was proposed.
proof fn lemma_chosen_is_proposed(instance: Instance, ballot: Ballot)
    requires
        instance.safe(),
        instance.chosen(ballot),
    ensures
        instance.proposals.contains_key(ballot),
{
    let voters = choose|voters: Set<NodeId>| #[trigger] instance.elects(voters, ballot);
    assert(exists|n: NodeId| voters.contains(n)) by {
        if forall|n: NodeId| !voters.contains(n) {
            assert(voters =~= Set::empty());
        }
    }
    let voter = choose|n: NodeId| voters.contains(n);
    assert(instance.votes.contains((voter, ballot)));
}

/// What is chosen cannot be barred.
proof fn lemma_chosen_is_not_dead(instance: Instance, ballot: Ballot)
    requires
        instance.members.finite(),
        instance.chosen(ballot),
    ensures
        !instance.dead(ballot),
{
    if instance.dead(ballot) {
        let voters = choose|voters: Set<NodeId>| #[trigger] instance.elects(voters, ballot);
        let nodes = choose|nodes: Set<NodeId>| #[trigger] instance.bars(nodes, ballot);
        majorities_meet(instance.members, voters, nodes);
        let both = choose|n: NodeId| #[trigger] voters.contains(n) && nodes.contains(n);
        assert(instance.votes.contains((both, ballot)));
        assert(instance.abstains(both, ballot));
    }
}

/// What is chosen stays chosen, and what is dead stays dead.
proof fn lemma_fate_stays(instance: Instance, event: Event, ballot: Ballot)
    requires
        instance.safe(),
        instance.can(event),
    ensures
        instance.chosen(ballot) ==> instance.after(event).chosen(ballot),
        instance.dead(ballot) ==> instance.after(event).dead(ballot),
{
    let after = instance.after(event);
    if instance.chosen(ballot) {
        let voters = choose|voters: Set<NodeId>| #[trigger] instance.elects(voters, ballot);
        assert(after.elects(voters, ballot));
    }
    if instance.dead(ballot) {
        let nodes = choose|nodes: Set<NodeId>| #[trigger] instance.bars(nodes, ballot);
        assert forall|n: NodeId| #[trigger] nodes.contains(n) implies after.abstains(n, ballot) by {
            assert(instance.abstains(n, ballot));
            assert(instance.members.contains(n));
            assert(instance.acceptor_safe(n));
        }
        assert(after.bars(nodes, ballot));
    }
}

/// A proposal that takes the highest report agrees with every lower ballot that may still be
/// chosen.
proof fn lemma_proposal_agrees(
    instance: Instance,
    ballot: Ballot,
    value: Seq<u8>,
    backers: Map<NodeId, Option<(Ballot, Seq<u8>)>>,
    low: Ballot,
)
    requires
        instance.safe(),
        instance.can(Event::Propose { ballot, value, backers }),
        low.lt(ballot),
    ensures
        instance.after(Event::Propose { ballot, value, backers }).ballots_safe(low, ballot),
{
    let after = instance.after(Event::Propose { ballot, value, backers });
    lemma_fate_stays(instance, Event::Propose { ballot, value, backers }, low);
    assert(instance.members.contains(ballot.1));
    assert(instance.acceptor_safe(ballot.1));
    if forall|n: NodeId| #[trigger] backers.contains_key(n) ==> !instance.votes.contains((n, low)) {
        assert forall|n: NodeId| #[trigger] backers.dom().contains(n) implies after.abstains(
            n,
            low,
        ) by {
            assert(backers.contains_key(n));
            assert(instance.members.contains(n));
            assert(instance.acceptor_safe(n));
            if n != ballot.1 {
                assert(instance.promise_safe(n, ballot, backers[n]));
            }
        }
        assert(after.bars(backers.dom(), low));
    } else {
        let voter = choose|n: NodeId| #[trigger]
            backers.contains_key(n) && instance.votes.contains((n, low));
        assert(instance.proposals.contains_key(low));
        assert(instance.covers(backers[voter], low)) by {
            if voter != ballot.1 {
                assert(instance.promise_safe(voter, ballot, backers[voter]));
            }
        }
        assert(backers[voter] is Some);
        let source = choose|n: NodeId| #[trigger]
            backers.contains_key(n) && backers[n] is Some && backers[n]->Some_0.1 == value && (
            forall|m: NodeId| #[trigger]
                backers.contains_key(m) ==> opt_le(
                    vote_ballot(backers[m]),
                    vote_ballot(backers[n]),
                ));
        let highest = backers[source]->Some_0.0;
        assert(instance.proposed(highest, value)) by {
            if source != ballot.1 {
                assert(instance.promise_safe(source, ballot, backers[source]));
            }
        }
        if low.lt(highest) {
            assert(instance.ballots_safe(low, highest));
        } else if low != highest {
            let known = backers[voter]->Some_0.0;
            assert(opt_le(vote_ballot(backers[voter]), vote_ballot(backers[source])));
            assert(instance.chosen(known));
            lemma_chosen_is_not_dead(instance, known);
            assert(instance.ballots_safe(known, low));
            if known != highest {
                assert(instance.ballots_safe(known, highest));
            }
        }
    }
}

/// Every event keeps an instance safe.
pub proof fn events_keep_instances_safe(instance: Instance, event: Event)
    requires
        instance.safe(),
        instance.can(event),
    ensures
        instance.after(event).safe(),
{
    let after = instance.after(event);
    assert forall|b: Ballot| instance.chosen(b) implies #[trigger] after.chosen(b) by {
        lemma_fate_stays(instance, event, b);
    }
    assert forall|low: Ballot, high: Ballot|
        after.proposals.contains_key(high) && low.lt(high) implies #[trigger] after.ballots_safe(
        low,
        high,
    ) by {
        lemma_fate_stays(instance, event, low);
        if instance.proposals.contains_key(high) {
            assert(instance.ballots_safe(low, high));
        } else if let Event::Propose { ballot, value, backers } = event {
            lemma_proposal_agrees(instance, ballot, value, backers, low);
        }
    }
    assert forall|n: NodeId| #[trigger] after.members.contains(n) implies after.acceptor_safe(n) by {
        lemma_acceptor_stays_safe(instance, event, n);
    }
    assert forall|n: NodeId, b: Ballot, r: Option<(Ballot, Seq<u8>)>| #[trigger]
        after.promises.contains((n, b, r)) implies after.promise_safe(n, b, r) by {
        if instance.promises.contains((n, b, r)) {
            assert(instance.promise_safe(n, b, r));
        }
        assert(instance.members.contains(n));
        assert(instance.acceptor_safe(n));
    }
}

/// Every event keeps the acceptors safe.
proof fn lemma_acceptor_stays_safe(instance: Instance, event: Event, node: NodeId)
    requires
        instance.safe(),
        instance.can(event),
        instance.members.contains(node),
    ensures
        instance.after(event).acceptor_safe(node),
{
    let after = instance.after(event);
    assert(instance.acceptor_safe(node));
    assert forall|b: Ballot| instance.chosen(b) implies #[trigger] after.chosen(b) by {
        lemma_fate_stays(instance, event, b);
    }
    match event {
        Event::Count { from, ballot } => {
            if node == ballot.1 {
                if let AcceptorView::Open { accepted: Some((b, v)), voters, .. } =
                    instance.acceptors[node] {
                    if b == ballot && voters.insert(from).len() >= instance.quorum() {
                        assert(after.elects(voters.insert(from), ballot));
                    }
                }
            }
        },
        Event::Resolve { ballot, .. } => {
            lemma_chosen_is_proposed(instance, ballot);
        },
        _ => {},
    }
}

/// All values that are chosen in a safe instance are the same.
pub proof fn chosen_values_agree(instance: Instance, a: Ballot, b: Ballot)
    requires
        instance.safe(),
        instance.chosen(a),
        instance.chosen(b),
    ensures
        instance.proposals[a] == instance.proposals[b],
{
    let voters_a = choose|voters: Set<NodeId>| #[trigger] instance.elects(voters, a);
    let voters_b = choose|voters: Set<NodeId>| #[trigger] instance.elects(voters, b);
    majorities_meet(instance.members, voters_a, voters_b);
    let both = choose|n: NodeId| #[trigger] voters_a.contains(n) && voters_b.contains(n);
    assert(voters_b.contains(both));
    assert(instance.votes.contains((both, a)) && instance.votes.contains((both, b)));
    lemma_chosen_is_not_dead(instance, a);
    lemma_chosen_is_not_dead(instance, b);
    if a.lt(b) {
        assert(instance.ballots_safe(a, b));
    } else if b.lt(a) {
        assert(instance.ballots_safe(b, a));
    }
}

/// Agreement: whatever happens to a slot, no two nodes decide different values for it.
pub proof fn decisions_agree(members: Set<NodeId>, events: Seq<Event>, a: NodeId, b: NodeId)
    requires
        members.finite(),
        Instance::fresh(members).can_all(events),
        members.contains(a),
        members.contains(b),
        Instance::fresh(members).after_all(events).acceptors[a].is_resolved(),
        Instance::fresh(members).after_all(events).acceptors[b].is_resolved(),
    ensures
        ({
            let after = Instance::fresh(members).after_all(events);
            after.acceptors[a].resolution()->Some_0.1 == after.acceptors[b].resolution()->Some_0.1
        }),
{
    let after = Instance::fresh(members).after_all(events);
    lemma_runs_are_safe(members, events);
    assert(after.acceptor_safe(a) && after.acceptor_safe(b));
    chosen_values_agree(
        after,
        after.acceptors[a].resolution()->Some_0.0,
        after.acceptors[b].resolution()->Some_0.0,
    );
}

proof fn lemma_runs_are_safe(members: Set<NodeId>, events: Seq<Event>)
    requires
        members.finite(),
        Instance::fresh(members).can_all(events),
    ensures
        Instance::fresh(members).after_all(events).safe(),
        Instance::fresh(members).after_all(events).members == members,
    decreases events.len(),
{
    if events.len() == 0 {
        instances_start_safe(members);
    } else {
        lemma_runs_are_safe(members, events.drop_last());
        events_keep_instances_safe(
            Instance::fresh(members).after_all(events.drop_last()),
            events.last(),
        );
    }
}

} // verus!
