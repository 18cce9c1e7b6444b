//! What nodes start from, when they are ready for what arrives, and how it reaches them.

use crate::acceptor::AcceptorView;
use crate::ballot::{Ballot, NodeId, Slot};
use crate::comm::ActionView;
use crate::commands::{CommandView, Commander, Receiver};
use crate::conduct::{above, is_decided};
use crate::elections::first_vacant;
use crate::inbox::StampedReceiver;
use crate::model::{promises, selected, votes, NodeView, StampCheck};
use crate::node::Node;
use crate::proposer::Role;
use crate::replica::Replica;
use crate::round::{PaxosKey, PaxosRound, Phase};
use crate::window::{DecisionSet, WindowView};
use vstd::prelude::*;

verus! {

/// A new node follows nobody, has seen no ballot and queued no proposal. Its first slot is open
/// and knows nothing, and it has no other. What elects a leader and decides a slot is a smallest
/// majority of its group.
pub proof fn new_nodes_know_nothing(
    current: NodeId,
    peers: Seq<NodeId>,
    asked: Seq<ActionView>,
    slot: Slot,
)
    ensures
        ({
            let node = NodeView::fresh(current, peers, asked);
            let size = peers.len() + 1;
            &&& node.current == current
            &&& node.peers == peers
            &&& node.asked == asked
            &&& node.proposer.node == current
            &&& node.proposer.role is Follower
            &&& node.proposer.highest is None
            &&& node.proposer.queue.len() == 0
            &&& node.window.node == current
            &&& node.window.start == 0
            &&& node.window.end == 1
            &&& node.window.slots.contains_key(slot) <==> slot == 0
            &&& node.window.slots[0] == (AcceptorView::Open {
                promised: None,
                accepted: None,
                voters: Set::empty(),
            })
            &&& 2 * node.proposer.quorum > size && 2 * (node.proposer.quorum - 1) <= size
            &&& 2 * node.window.quorum > size && 2 * (node.window.quorum - 1) <= size
        }),
{
}

// Readiness

/// Whether a node is a member of the group of another one.
pub open spec fn is_member(node: NodeView, id: NodeId) -> bool {
    id == node.current || node.peers.contains(id)
}

/// Whether a node has ballot numbers left, and slots for all that is queued and more.
pub open spec fn has_room(node: NodeView) -> bool {
    &&& node.proposer.highest matches Some(h) ==> h.0 < u32::MAX
    &&& node.window.end + node.proposer.queue.len() < u64::MAX
}

/// The end of a window that has learnt values is not behind the last slot it had or learnt of.
proof fn lemma_learnt_end(
    window: WindowView,
    accepted: Seq<(Slot, Ballot, Seq<u8>)>,
    limit: int,
)
    requires
        window.end <= limit,
        forall|i: int| 0 <= i < accepted.len() ==> (#[trigger] accepted[i]).0 < limit,
        limit <= u64::MAX,
    ensures
        window.notice_all(accepted).end <= limit,
    decreases accepted.len(),
{
    if accepted.len() > 0 {
        let earlier = accepted.drop_last();
        assert forall|i: int| 0 <= i < earlier.len() implies (#[trigger] earlier[i]).0 < limit by {
            assert(accepted[i].0 < limit);
        }
        assert(accepted[accepted.len() - 1].0 < limit);
        lemma_learnt_end(window, earlier, limit);
    }
}

/// A node that has room and has seen ballots of members alone is ready for all that members send:
/// proposals, votes, rejections and decisions under ballots of members; PREPAREs, ACCEPTs and
/// catchup requests of peers; and promises that speak of slots behind which there is room.
pub proof fn nodes_are_ready_for_their_group(node: NodeView, command: CommandView)
    requires
        node.valid(),
        has_room(node),
        node.proposer.highest matches Some(h) ==> is_member(node, h.1),
        match command {
            CommandView::Proposal(_) => true,
            CommandView::Prepare { ballot, .. } => node.peers.contains(ballot.1),
            CommandView::Promise { accepted, .. } => forall|i: int|
                0 <= i < accepted.len() ==> (#[trigger] accepted[i]).0 + node.proposer.queue.len()
                    < u64::MAX,
            CommandView::Accept { slot, ballot, .. } => slot < u64::MAX && node.peers.contains(
                ballot.1,
            ),
            CommandView::Reject { preempted, .. } => is_member(node, preempted.1),
            CommandView::Accepted { .. } => true,
            CommandView::Resolution { slot, ballot, .. } => slot < u64::MAX && is_member(
                node,
                ballot.1,
            ),
            CommandView::Catchup { from, .. } => node.peers.contains(from),
        },
    ensures
        node.ready_for(command),
        node.can_propose_leadership(),
{
    if let CommandView::Promise { from, ballot, accepted, .. } = command {
        let limit = u64::MAX - node.proposer.queue.len();
        assert forall|i: int| 0 <= i < accepted.len() implies (#[trigger] accepted[i]).0 < limit by {
            assert(accepted[i].0 + node.proposer.queue.len() < u64::MAX);
        }
        lemma_learnt_end(node.window, accepted, limit);
    }
}

/// Whether a node that has noted a ballot can hand over what is queued: it goes to a member, if it
/// goes to anybody.
pub open spec fn can_hand_over(node: NodeView, ballot: Ballot) -> bool {
    let rises = above(ballot, node.proposer.highest);
    let highest = if rises {
        ballot
    } else {
        node.proposer.highest->Some_0
    };
    (rises || node.proposer.role is Follower) && node.proposer.queue.len() > 0 ==> is_member(
        node,
        highest.1,
    )
}

/// A node is ready for a command exactly if all that it has to send on it goes to members, to
/// peers where it is an answer, and the slots that it has to open are there.
pub proof fn readiness_is_exact(node: NodeView, command: CommandView)
    requires
        node.valid(),
    ensures
        node.ready_for(command) <==> match command {
            CommandView::Proposal(_) => match node.proposer.role {
                Role::Follower => node.proposer.highest matches Some(h) ==> if h.1
                    == node.current {
                    h.0 < u32::MAX
                } else {
                    node.peers.contains(h.1)
                },
                Role::Candidate { .. } => true,
                Role::Leader { .. } => first_vacant(node.window) < u64::MAX,
            },
            CommandView::Prepare { ballot, .. } => node.peers.contains(ballot.1),
            CommandView::Promise { from, ballot, accepted, .. } => {
                node.proposer.role matches Role::Candidate { proposal, promises } ==> {
                    let queued = node.proposer.queue.len();
                    &&& forall|i: int|
                        0 <= i < accepted.len() ==> (#[trigger] accepted[i]).0 < u64::MAX
                    &&& proposal == ballot && promises.insert(from).len() >= node.proposer.quorum
                        ==> node.window.end + queued <= u64::MAX && forall|i: int|
                        0 <= i < accepted.len() ==> (#[trigger] accepted[i]).0 + 1 + queued
                            <= u64::MAX
                }
            },
            CommandView::Accept { slot, ballot, .. } => can_hand_over(node, ballot) && (is_decided(
                node.window,
                slot,
            ) || (slot < u64::MAX && node.peers.contains(ballot.1))),
            CommandView::Reject { preempted, .. } => can_hand_over(node, preempted),
            CommandView::Accepted { .. } => true,
            CommandView::Resolution { slot, ballot, .. } => {
                let after = node.react(command);
                &&& can_hand_over(node, ballot)
                &&& is_decided(node.window, slot) || slot < u64::MAX
                &&& after.window.end - after.window.start > 1 ==> is_member(
                    node,
                    after.proposer.highest->Some_0.1,
                )
            },
            CommandView::Catchup { from, slot } => node.proposer.role is Leader && is_decided(
                node.window,
                slot,
            ) ==> node.peers.contains(from),
        },
        node.can_propose_leadership() <==> (node.proposer.role is Follower
            ==> (node.proposer.highest matches Some(h) ==> h.0 < u32::MAX)),
{
    match command {
        CommandView::Promise { from, ballot, accepted, .. } => {
            lemma_learnt_end_reaches(node.window, accepted);
            let end = node.window.notice_all(accepted).end;
            if forall|i: int| 0 <= i < accepted.len() ==> (#[trigger] accepted[i]).0 < u64::MAX {
                let queued = node.proposer.queue.len();
                if node.window.end + queued <= u64::MAX && forall|i: int|
                    0 <= i < accepted.len() ==> (#[trigger] accepted[i]).0 + 1 + queued
                        <= u64::MAX {
                    let limit = u64::MAX - queued;
                    assert forall|i: int| 0 <= i < accepted.len() implies (
                    #[trigger] accepted[i]).0 < limit by {
                        assert(accepted[i].0 + 1 + queued <= u64::MAX);
                    }
                    lemma_learnt_end(node.window, accepted, limit);
                }
            }
        },
        _ => {},
    }
}

/// The end of a window that has learnt values is behind all slots it had and learnt of.
proof fn lemma_learnt_end_reaches(window: WindowView, accepted: Seq<(Slot, Ballot, Seq<u8>)>)
    ensures
        (forall|i: int| 0 <= i < accepted.len() ==> (#[trigger] accepted[i]).0 < u64::MAX) ==> {
            let end = window.notice_all(accepted).end;
            &&& window.end <= end
            &&& forall|i: int| 0 <= i < accepted.len() ==> (#[trigger] accepted[i]).0 < end
        },
    decreases accepted.len(),
{
    if accepted.len() > 0 {
        let earlier = accepted.drop_last();
        lemma_learnt_end_reaches(window, earlier);
        if forall|i: int| 0 <= i < accepted.len() ==> (#[trigger] accepted[i]).0 < u64::MAX {
            let end = window.notice_all(accepted).end;
            assert(forall|i: int| 0 <= i < earlier.len() ==> #[trigger] earlier[i] == accepted[i]);
            assert(accepted[accepted.len() - 1].0 < u64::MAX);
            assert forall|i: int| 0 <= i < accepted.len() implies (#[trigger] accepted[i]).0
                < end by {
                if i < earlier.len() {
                    assert(earlier[i].0 < window.notice_all(earlier).end);
                }
            }
        }
    }
}

/// A receiver of commands that breaks them out reacts to a command as it does to what the command
/// says.
pub proof fn receivers_react<T: Commander>(before: T, command: CommandView, after: T)
    ensures
        before.receivable(command) <==> before.ready_for(command),
        before.received(command, &after) <==> before.reacts(command, &after),
{
}

// Stamps

/// A command is refused if it did not arrive under the key of its slot and of the node of its
/// ballot, in the round of its ballot number and phase; a proposal, if it did not arrive under the
/// key of this node; and a catchup request, if it did not under that of its slot and this node. In
/// what round these two arrive does not matter.
pub proof fn stamps_have_to_match(
    node: NodeView,
    key: PaxosKey,
    round: PaxosRound,
    command: CommandView,
    entered: bool,
)
    ensures
        ({
            let check = node.check_stamp(key, round, command);
            let stage = match command {
                CommandView::Proposal(_) => None,
                CommandView::Catchup { .. } => None,
                CommandView::Prepare { slot, ballot } => Some((slot, ballot, Phase::Prepare)),
                CommandView::Promise { slot, ballot, .. } => Some((slot, ballot, Phase::Promise)),
                CommandView::Accept { slot, ballot, .. } => Some((slot, ballot, Phase::Accept)),
                CommandView::Reject { slot, proposed, .. } => Some(
                    (slot, proposed, Phase::Reject),
                ),
                CommandView::Accepted { slot, ballot, .. } => Some(
                    (slot, ballot, Phase::Accepted),
                ),
                CommandView::Resolution { slot, ballot, .. } => Some(
                    (slot, ballot, Phase::Resolution),
                ),
            };
            match stage {
                Some((slot, ballot, phase)) => {
                    let right = key == (PaxosKey::Slot { slot, proposer: ballot.1 })
                        && round.ballot == ballot.0 && round.phase == phase;
                    &&& check is InRound <==> right
                    &&& check is Mismatch <==> !right
                    &&& check.admits(entered) <==> right && entered
                },
                None => {
                    let right = if let CommandView::Catchup { slot, .. } = command {
                        key == (PaxosKey::Catchup { slot, leader: node.current })
                    } else {
                        key == PaxosKey::ProposalTo(node.current)
                    };
                    &&& check is Free <==> right
                    &&& check is Mismatch <==> !right
                    &&& check.admits(entered) <==> right
                },
            }
        }),
{
}

// Inboxes

/// The commands that are selected from an inbox are those that are to be kept, all of them, in
/// the order of the inbox.
pub proof fn selected_commands_keep_their_order(
    messages: Seq<Option<CommandView>>,
    keep: spec_fn(CommandView) -> bool,
) -> (places: Seq<int>)
    ensures
        places.len() == selected(messages, keep).len(),
        forall|i: int, j: int| 0 <= i < j < places.len() ==> places[i] < places[j],
        forall|j: int|
            0 <= j < places.len() ==> 0 <= #[trigger] places[j] < messages.len()
                && messages[places[j]] == Some(selected(messages, keep)[j]),
        forall|i: int|
            0 <= i < messages.len() && messages[i] is Some && keep(
                (#[trigger] messages[i])->Some_0,
            ) ==> places.contains(i),
        forall|j: int| 0 <= j < places.len() ==> keep(#[trigger] selected(messages, keep)[j]),
    decreases messages.len(),
{
    if messages.len() == 0 {
        Seq::empty()
    } else {
        let earlier = messages.drop_last();
        let last = messages.len() - 1;
        let before = selected_commands_keep_their_order(earlier, keep);
        let all = selected(messages, keep);
        let keeps = messages[last] is Some && keep(messages[last]->Some_0);
        let places = if keeps {
            before.push(last)
        } else {
            before
        };
        assert forall|i: int|
            0 <= i < messages.len() && messages[i] is Some && keep(
                (#[trigger] messages[i])->Some_0,
            ) implies places.contains(i) by {
            if i < last {
                assert(earlier[i] == messages[i]);
                let k = before.index_of(i);
                assert(places[k] == i);
            } else {
                assert(places[before.len() as int] == last);
            }
        }
        assert forall|j: int| 0 <= j < places.len() implies 0 <= #[trigger] places[j]
            < messages.len() && messages[places[j]] == Some(all[j]) by {
            if j < before.len() {
                assert(before[j] == places[j]);
                assert(earlier[before[j]] == messages[before[j]]);
            }
        }
        assert forall|j: int| 0 <= j < places.len() implies keep(#[trigger] all[j]) by {
            if j < before.len() {
                assert(all[j] == selected(earlier, keep)[j]);
            }
        }
        places
    }
}

/// From the inbox of promises the promises are received, and from that of votes the votes.
pub proof fn inboxes_yield_promises_and_votes(messages: Seq<Option<CommandView>>)
    ensures
        promises(messages) == selected(messages, |command: CommandView| command is Promise),
        votes(messages) == selected(messages, |command: CommandView| command is Accepted),
{
}

/// A node reacts to commands one after the other: to none by nothing, to one as to that one, and
/// to more by reacting to the first ones first. It is ready for them if it is for each when its
/// turn comes.
pub proof fn commands_are_taken_in_turn(
    node: NodeView,
    command: CommandView,
    first: Seq<CommandView>,
    second: Seq<CommandView>,
)
    ensures
        node.react_all(Seq::empty()) == node,
        node.react_all(seq![command]) == node.react(command),
        node.react_all(first + second) == node.react_all(first).react_all(second),
        node.ready_for_all(Seq::empty()),
        node.ready_for_all(seq![command]) <==> node.ready_for(command),
        node.ready_for_all(first + second) <==> node.ready_for_all(first) && node.react_all(
            first,
        ).ready_for_all(second),
    decreases second.len(),
{
    reveal_with_fuel(NodeView::react_all, 2);
    reveal_with_fuel(NodeView::ready_for_all, 2);
    assert(seq![command].drop_last() =~= Seq::empty());
    if second.len() == 0 {
        assert(first + second =~= first);
    } else {
        assert((first + second).drop_last() =~= first + second.drop_last());
        assert((first + second).last() == second.last());
        commands_are_taken_in_turn(node, command, first, second.drop_last());
    }
}

// Nodes and their model

/// What a node is, what it shows of itself.
pub proof fn nodes_show_what_they_are<A>(node: Node<A>, slot: Slot, i: int)
    ensures
        node@.current == node.config.current,
        node@.peers.len() == node.config.peers@.len(),
        0 <= i < node.config.peers@.len() ==> node@.peers[i] == node.config.peers@[i].0,
        node@.proposer.highest == node.proposer.highest,
        node@.proposer.queue.len() == node.proposer.queue@.len(),
        node@.proposer.quorum == node.proposer.quorum,
        node@.window.quorum == node.window.quorum,
        node@.window.start == node.window.start,
        node@.window.end == node.window.end,
        node@.window.slots.contains_key(slot) <==> node.window.slots@.contains_key(slot),
        node.window.slots@.contains_key(slot) ==> node@.window.slots[slot]
            == node.window.slots@[slot]@,
        node@.asked.len() == node.comm.actions@.len(),
        0 <= i < node.comm.actions@.len() ==> node@.asked[i] == node.comm.actions@[i]@,
{
}

/// A well-formed node that is ready in its model reacts as its model does, whichever way the
/// command comes, and so it stands for leadership, makes its steps and gives out its decisions.
/// Its configuration stays, and it stays well formed.
pub proof fn nodes_act_as_their_model<A>(
    before: Node<A>,
    command: CommandView,
    after: Node<A>,
    key: PaxosKey,
    round: PaxosRound,
    entered: bool,
    decisions: DecisionSet,
)
    ensures
        before.wf() ==> before@.valid(),
        before.wf() && before@.ready_for(command) ==> before.ready_for(command)
            && before.receivable(command),
        before.reacts(command, &after) ==> after.wf() && after.config == before.config && after@
            == before@.react(command),
        before.received(command, &after) ==> before.reacts(command, &after),
        before.takes(key, round, command, entered) <==> before@.check_stamp(
            key,
            round,
            command,
        ).admits(entered),
        before.wf() && before@.can_propose_leadership() ==> before.electable(),
        before.elected(&after) ==> after.wf() && after.config == before.config && after@
            == before@.propose_leadership(),
        before.wf() ==> before.tickable() && before.sound(),
        before.ticked(&after) ==> after.wf() && after.config == before.config && after@
            == before@.tick_all(before@.window.open_slots()),
        before.leads() <==> before@.proposer.role is Leader,
        before.has_decided(&decisions) <==> decisions@ == before@.window.decisions(),
        decisions@.len() == decisions.decisions@.len(),
{
}

} // verus!
