//! Quorums: why they meet, and what they decide.

use crate::acceptor::{AcceptReply, AcceptorView, PrepareReply};
use crate::ballot::{opt_le, Ballot, NodeId, Slot};
use crate::commands::CommandView;
use crate::config::majority;
use crate::growth::vote_ballot;
use crate::model::NodeView;
use crate::proposals::{has_announced, lemma_announced};
use crate::proposer::{ProposerView, Role};
use crate::window::WindowView;
use vstd::prelude::*;
use vstd::set_lib::*;

verus! {

/// Any two majorities of a group have a node in common.
pub proof fn majorities_meet(members: Set<NodeId>, a: Set<NodeId>, b: Set<NodeId>)
    requires
        members.finite(),
        a.subset_of(members),
        b.subset_of(members),
        a.len() >= majority(members.len()),
        b.len() >= majority(members.len()),
    ensures
        exists|node: NodeId| #[trigger] a.contains(node) && b.contains(node),
{
    lemma_len_subset(a, members);
    lemma_len_subset(b, members);
    if !(exists|node: NodeId| #[trigger] a.contains(node) && b.contains(node)) {
        assert(a.disjoint(b));
        lemma_set_disjoint_lens(a, b);
        assert((a + b).subset_of(members));
        lemma_len_subset(a + b, members);
    }
}

/// A node starts a candidacy under a ballot of its own that is above every ballot it has seen.
pub proof fn candidacies_are_new(proposer: ProposerView)
    requires
        proposer.can_prepare(),
    ensures
        proposer.next_ballot().1 == proposer.node,
        proposer.highest matches Some(h) ==> h.lt(proposer.next_ballot()),
        proposer.prepare().valid(),
{
}

/// A candidate becomes the leader by a promise for the ballot of its candidacy alone, and once
/// the nodes that have promised it are a quorum.
pub proof fn leaders_hold_a_quorum(proposer: ProposerView, from: NodeId, ballot: Ballot)
    requires
        proposer.role is Candidate,
    ensures
        proposer.promise(from, ballot).role is Leader <==> (ballot
            == proposer.role->Candidate_proposal && proposer.role->promises.insert(from).len()
            >= proposer.quorum),
        proposer.promise(from, ballot).role is Leader ==> proposer.promise(from, ballot).role == (
        Role::Leader { proposal: ballot }),
{
}

/// A vote decides a slot if and only if it is for the ballot of the accepted value and the nodes
/// that have voted for that value are then a quorum. The decision is that value.
pub proof fn votes_decide_by_quorum(
    acceptor: AcceptorView,
    quorum: nat,
    from: NodeId,
    ballot: Ballot,
)
    requires
        !acceptor.is_resolved(),
    ensures
        acceptor.vote(quorum, from, ballot).is_resolved() <==> (vote_ballot(
            acceptor.highest_value(),
        ) == Some(ballot) && acceptor->voters.insert(from).len() >= quorum),
        acceptor.vote(quorum, from, ballot).is_resolved() ==> acceptor.vote(
            quorum,
            from,
            ballot,
        ).resolution() == acceptor.highest_value(),
{
}

/// An acceptor that has promised a ballot rejects every lower one, names the promised one, and
/// does not change.
pub proof fn promises_are_kept(
    acceptor: AcceptorView,
    promised: Ballot,
    me: NodeId,
    ballot: Ballot,
    value: Seq<u8>,
)
    requires
        !acceptor.is_resolved(),
        acceptor->promised == Some(promised),
        ballot.lt(promised),
    ensures
        acceptor.prepare(ballot) == acceptor,
        acceptor.prepare_reply(ballot) == (PrepareReply::Reject { preempted: promised }),
        acceptor.accept(me, ballot, value) == acceptor,
        acceptor.accept_reply(ballot) == (AcceptReply::Reject { preempted: promised }),
{
}

/// A slot is decided by nothing but a vote for it or the news of its decision, and a vote that
/// decides it makes the node announce the decision.
pub proof fn decisions_have_a_cause(node: NodeView, command: CommandView, slot: Slot)
    requires
        node.valid(),
        node.ready_for(command),
        !node.window.is_resolved(slot),
        node.react(command).window.is_resolved(slot),
    ensures
        match command {
            CommandView::Accepted { from, slot: s, ballot } => {
                let decision = node.react(command).window.slots[slot].resolution();
                let voted = node.window.acceptor(slot).vote(node.window.quorum, from, ballot);
                &&& s == slot
                &&& voted.is_resolved()
                &&& decision == voted.resolution()
                &&& vote_ballot(decision) == Some(ballot)
                &&& has_announced(
                    node.react(command),
                    CommandView::Resolution { slot, ballot, value: decision->Some_0.1 },
                )
            },
            CommandView::Resolution { slot: s, ballot, value } => {
                &&& s == slot
                &&& node.react(command).window.slots[slot].resolution() == Some((ballot, value))
            },
            _ => false,
        },
{
    match command {
        CommandView::Proposal(_) => {},
        CommandView::Prepare { slot: s, ballot } => {
            lemma_scan_decides_nothing(node.window, node.window.promise_slots(s), ballot, slot);
        },
        CommandView::Promise { from, ballot, accepted, .. } => {
            lemma_promises_decide_nothing(node, from, ballot, accepted, slot);
        },
        CommandView::Accept { .. } => {},
        CommandView::Reject { .. } => {},
        CommandView::Accepted { from, slot: s, ballot } => {
            let voted = node.window.acceptor(s).vote(node.window.quorum, from, ballot);
            if let Some((_, value)) = voted.resolution() {
                let after = NodeView {
                    window: node.window.vote(s, from, ballot),
                    ..node.observe(ballot)
                };
                lemma_announced(after, CommandView::Resolution { slot: s, ballot, value });
            }
        },
        CommandView::Resolution { .. } => {},
        CommandView::Catchup { .. } => {},
    }
}

proof fn lemma_scan_decides_nothing(
    window: WindowView,
    slots: Seq<Slot>,
    ballot: Ballot,
    slot: Slot,
)
    ensures
        window.scan(slots, ballot).window.is_resolved(slot) == window.is_resolved(slot),
    decreases slots.len(),
{
    if slots.len() > 0 {
        lemma_scan_decides_nothing(window, slots.drop_last(), ballot, slot);
    }
}

proof fn lemma_notices_decide_nothing(
    window: WindowView,
    accepted: Seq<(Slot, Ballot, Seq<u8>)>,
    slot: Slot,
)
    ensures
        window.notice_all(accepted).is_resolved(slot) == window.is_resolved(slot),
    decreases accepted.len(),
{
    if accepted.len() > 0 {
        lemma_notices_decide_nothing(window, accepted.drop_last(), slot);
    }
}

proof fn lemma_placing_decides_nothing(
    window: WindowView,
    ballot: Ballot,
    values: Seq<Seq<u8>>,
    slot: Slot,
)
    ensures
        window.place_all(ballot, values).is_resolved(slot) == window.is_resolved(slot),
    decreases values.len(),
{
    if values.len() > 0 {
        lemma_placing_decides_nothing(window, ballot, values.drop_last(), slot);
    }
}

proof fn lemma_promises_decide_nothing(
    node: NodeView,
    from: NodeId,
    ballot: Ballot,
    accepted: Seq<(Slot, Ballot, Seq<u8>)>,
    slot: Slot,
)
    requires
        !node.window.is_resolved(slot),
    ensures
        !node.promise(from, ballot, accepted).window.is_resolved(slot),
{
    let counted = node.count_promise(from, ballot, accepted);
    lemma_notices_decide_nothing(node.window, accepted, slot);
    if let Role::Leader { proposal } = counted.proposer.role {
        lemma_placing_decides_nothing(counted.window, proposal, counted.proposer.queue, slot);
    }
}

/// Of the values that come with a promise the highest one stays: what a node knows for a slot
/// that is not decided is then at least as high as what it knew and as all that was reported for
/// the slot, and it is one of these.
pub proof fn highest_reported_value_stays(
    window: WindowView,
    accepted: Seq<(Slot, Ballot, Seq<u8>)>,
    slot: Slot,
)
    requires
        !window.is_resolved(slot),
    ensures
        ({
            let before = window.acceptor(slot).highest_value();
            let after = window.notice_all(accepted).acceptor(slot).highest_value();
            &&& opt_le(vote_ballot(before), vote_ballot(after))
            &&& forall|i: int|
                0 <= i < accepted.len() && (#[trigger] accepted[i]).0 == slot ==> opt_le(
                    Some(accepted[i].1),
                    vote_ballot(after),
                )
            &&& after == before || exists|i: int|
                0 <= i < accepted.len() && (#[trigger] accepted[i]).0 == slot && after == Some(
                    (accepted[i].1, accepted[i].2),
                )
        }),
    decreases accepted.len(),
{
    if accepted.len() > 0 {
        let earlier = accepted.drop_last();
        let last = accepted[accepted.len() - 1];
        let middle = window.notice_all(earlier);
        let before = window.acceptor(slot).highest_value();
        let after = window.notice_all(accepted).acceptor(slot).highest_value();
        highest_reported_value_stays(window, earlier, slot);
        lemma_notices_decide_nothing(window, earlier, slot);
        assert forall|i: int|
            0 <= i < accepted.len() && (#[trigger] accepted[i]).0 == slot implies opt_le(
            Some(accepted[i].1),
            vote_ballot(after),
        ) by {
            if i < earlier.len() {
                assert(earlier[i].0 == slot);
            }
        }
        let known = middle.acceptor(slot).highest_value();
        if after == known && known != before {
            let i = choose|i: int|
                0 <= i < earlier.len() && (#[trigger] earlier[i]).0 == slot && known == Some(
                    (earlier[i].1, earlier[i].2),
                );
            assert(accepted[i] == earlier[i]);
        }
    }
}

} // verus!
