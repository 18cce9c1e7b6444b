//! No proposal is lost: where a proposal goes, and where queued proposals go once a leader is
//! elected.

use crate::ballot::{Ballot, NodeId, Slot};
use crate::comm::ActionView;
use crate::commands::CommandView;
use crate::growth::{
    lemma_announce_all_asks,
    lemma_claim_grows,
    lemma_place_all_grows,
};
use crate::model::NodeView;
use crate::proposer::Role;
use crate::window::WindowView;
use vstd::prelude::*;

verus! {

/// The slots that values are given, in order.
pub open spec fn placements(window: WindowView, ballot: Ballot, values: Seq<Seq<u8>>) -> Seq<Slot>
    decreases values.len(),
{
    if values.len() == 0 {
        Seq::empty()
    } else {
        let earlier = values.drop_last();
        placements(window, ballot, earlier).push(window.place_all(ballot, earlier).next_slot())
    }
}

/// Whether a node has asked for a command to be sent to all its peers.
pub open spec fn has_announced(node: NodeView, command: CommandView) -> bool {
    forall|to: NodeId| #[trigger]
        node.is_peer(to) ==> node.asked.contains(
            ActionView::Send { to, key: command.key_for(to), command },
        )
}

/// The next slot has no value yet, and it is given the value that is placed there.
proof fn lemma_place(window: WindowView, ballot: Ballot, value: Seq<u8>)
    requires
        window.valid(),
        window.end < u64::MAX,
    ensures
        ({
            let slot = window.next_slot();
            let after = window.notice(slot, ballot, value);
            &&& !window.is_resolved(slot)
            &&& window.acceptor(slot).highest_value() is None
            &&& window.start <= slot < after.end
            &&& window.end <= slot + 1
            &&& after.is_open(slot)
            &&& after.acceptor(slot).highest_value() == Some((ballot, value))
        }),
{
}

/// Placed values keep their slots.
proof fn lemma_placements(window: WindowView, ballot: Ballot, values: Seq<Seq<u8>>)
    requires
        window.valid(),
        window.end + values.len() <= u64::MAX,
    ensures
        ({
            let slots = placements(window, ballot, values);
            let placed = window.place_all(ballot, values);
            &&& slots.len() == values.len()
            &&& forall|i: int, j: int| 0 <= i < j < slots.len() ==> slots[i] < slots[j]
            &&& forall|i: int|
                0 <= i < slots.len() ==> {
                    &&& placed.start <= #[trigger] slots[i] < placed.end
                    &&& placed.is_open(slots[i])
                    &&& placed.acceptor(slots[i]).highest_value() == Some((ballot, values[i]))
                }
        }),
    decreases values.len(),
{
    if values.len() > 0 {
        let earlier = values.drop_last();
        let before = window.place_all(ballot, earlier);
        lemma_placements(window, ballot, earlier);
        lemma_place_all_grows(window, ballot, earlier);
        lemma_place(before, ballot, values.last());
        let slots = placements(window, ballot, values);
        let n = earlier.len() as int;
        assert forall|i: int| 0 <= i < n implies #[trigger] slots[i] < slots[n] by {
            assert(placements(window, ballot, earlier)[i] == slots[i]);
        }
        let placed = window.place_all(ballot, values);
        assert forall|i: int| 0 <= i < slots.len() implies {
            &&& placed.start <= #[trigger] slots[i] < placed.end
            &&& placed.is_open(slots[i])
            &&& placed.acceptor(slots[i]).highest_value() == Some((ballot, values[i]))
        } by {
            if i < n {
                assert(placements(window, ballot, earlier)[i] == slots[i]);
                assert(slots[i] < slots[n]);
                assert(earlier[i] == values[i]);
            }
        }
    }
}

/// What is announced is sent to all peers.
pub(crate) proof fn lemma_announced(node: NodeView, command: CommandView)
    ensures
        has_announced(node.announce(command), command),
{
    let after = node.announce(command);
    let sends = node.peers.map_values(
        |to: NodeId| ActionView::Send { to, key: command.key_for(to), command },
    );
    assert forall|to: NodeId| #[trigger] after.is_peer(to) implies after.asked.contains(
        ActionView::Send { to, key: command.key_for(to), command },
    ) by {
        let k = node.peers.index_of(to);
        assert(after.asked[node.enter(command).asked.len() + k] == sends[k]);
    }
}

/// What is announced among other commands is sent to all peers.
pub(crate) proof fn lemma_all_announced(node: NodeView, commands: Seq<CommandView>, i: int)
    requires
        0 <= i < commands.len(),
    ensures
        has_announced(node.announce_all(commands), commands[i]),
    decreases commands.len(),
{
    let before = node.announce_all(commands.drop_last());
    let after = node.announce_all(commands);
    let command = commands[i];
    if i < commands.len() - 1 {
        lemma_announce_all_asks(node, commands.drop_last());
        lemma_all_announced(node, commands.drop_last(), i);
        assert forall|to: NodeId| #[trigger] after.is_peer(to) implies after.asked.contains(
            ActionView::Send { to, key: command.key_for(to), command },
        ) by {
            let action = ActionView::Send { to, key: command.key_for(to), command };
            assert(before.is_peer(to));
            let k = before.asked.index_of(action);
            assert(after.asked[k] == action);
        }
    } else {
        lemma_announced(before, command);
    }
}

/// A proposal is queued, or sent to the leader, or given a slot by the leader and announced.
pub proof fn proposals_are_not_lost(node: NodeView, value: Seq<u8>)
    requires
        node.valid(),
        node.can_propose(),
    ensures
        ({
            let after = node.propose(value);
            match node.proposer.role {
                Role::Leader { proposal } => {
                    let slot = node.window.next_slot();
                    &&& node.window.acceptor(slot).highest_value() is None
                    &&& after.window.acceptor(slot).highest_value() == Some((proposal, value))
                    &&& has_announced(
                        after,
                        CommandView::Accept { slot, ballot: proposal, value },
                    )
                },
                _ => {
                    ||| after.proposer.queue == node.proposer.queue.push(value)
                    ||| node.proposer.highest matches Some(h) && h.1 != node.current && after
                        == node.send(h.1, CommandView::Proposal(value))
                },
            }
        }),
{
    let queued = NodeView { proposer: node.proposer.push(value), ..node };
    match node.proposer.role {
        Role::Leader { proposal } => {
            let slot = node.window.next_slot();
            let command = CommandView::Accept { slot, ballot: proposal, value };
            let noticed = NodeView { window: node.window.notice(slot, proposal, value), ..node };
            lemma_announced(noticed, command);
        },
        Role::Candidate { .. } => {},
        Role::Follower => {
            let ballot = node.proposer.next_ballot();
            lemma_announce_all_asks(
                NodeView { proposer: queued.proposer.prepare(), ..queued },
                queued.window.unresolved().map_values(
                    |slot: Slot| CommandView::Prepare { slot, ballot },
                ),
            );
        },
    }
}

/// Once a node leads, each of its queued proposals has a slot of its own, in the order in which
/// they were queued, is proposed there under the ballot of the leader, and is no longer queued.
pub proof fn queued_proposals_are_announced(node: NodeView)
    requires
        node.valid(),
        node.is_leader(),
        node.can_drive_accept(),
    ensures
        ({
            let ballot = node.proposer.role->Leader_proposal;
            let queue = node.proposer.queue;
            let slots = placements(node.window, ballot, queue);
            let after = node.drive_accept();
            &&& after.proposer.queue.len() == 0
            &&& slots.len() == queue.len()
            &&& forall|i: int, j: int| 0 <= i < j < slots.len() ==> slots[i] < slots[j]
            &&& forall|i: int|
                0 <= i < slots.len() ==> {
                    &&& after.window.acceptor(#[trigger] slots[i]).highest_value() == Some(
                        (ballot, queue[i]),
                    )
                    &&& has_announced(
                        after,
                        CommandView::Accept { slot: slots[i], ballot, value: queue[i] },
                    )
                }
        }),
{
    let ballot = node.proposer.role->Leader_proposal;
    let queue = node.proposer.queue;
    let slots = placements(node.window, ballot, queue);
    let placed = node.window.place_all(ballot, queue);
    let after = node.drive_accept();
    let command = |slot: Slot|
        CommandView::Accept { slot, ballot, value: placed.claim_value(slot) };
    let keep = |slot: Slot| !placed.is_resolved(slot);
    let commands = placed.missing().map_values(command);
    let claimed = NodeView {
        proposer: node.proposer.drained(),
        window: placed.claim(ballot, placed.end),
        ..node
    };
    lemma_placements(node.window, ballot, queue);
    lemma_place_all_grows(node.window, ballot, queue);
    lemma_claim_grows(placed, ballot);
    lemma_announce_all_asks(claimed, commands);
    assert(after == claimed.announce_all(commands));
    assert forall|i: int| 0 <= i < slots.len() implies {
        &&& after.window.acceptor(#[trigger] slots[i]).highest_value() == Some((ballot, queue[i]))
        &&& has_announced(
            after,
            CommandView::Accept { slot: slots[i], ballot, value: queue[i] },
        )
    } by {
        let slot = slots[i];
        let open = placed.open_slots();
        assert(open[slot - placed.start] == slot);
        assert(keep(slot));
        open.lemma_filter_contains(keep, slot - placed.start);
        assert(placed.missing().contains(slot));
        let k = placed.missing().index_of(slot);
        assert(commands[k] == command(slot));
        lemma_all_announced(claimed, commands, k);
        assert(placed.claim_value(slot) == queue[i]);
    }
}

} // verus!
