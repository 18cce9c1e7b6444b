//! How the reactions of a node bring about what happens to a slot: the promises and the votes of
//! its acceptor, those for the node's own ballots included, and its decision.

use crate::acceptor::{AcceptReply, AcceptorView, PrepareReply};
use crate::ballot::{Ballot, NodeId, Slot};
use crate::comm::ActionView;
use crate::commands::CommandView;
use crate::growth::{lemma_notice_all_grows, lemma_place_all_grows};
use crate::model::NodeView;
use crate::proposals::{has_announced, lemma_all_announced, lemma_announced};
use crate::round::{PaxosKey, Phase};
use crate::window::WindowView;
use vstd::prelude::*;

verus! {

/// An ACCEPT for a slot that is not decided goes to the acceptor of the slot, and the node tells
/// the proposer what the acceptor answers.
pub proof fn accepts_reach_the_acceptor(
    node: NodeView,
    slot: Slot,
    ballot: Ballot,
    value: Seq<u8>,
)
    requires
        node.valid(),
        node.ready_for(CommandView::Accept { slot, ballot, value }),
        !node.window.is_resolved(slot),
    ensures
        ({
            let acceptor = node.window.acceptor(slot);
            let after = node.react(CommandView::Accept { slot, ballot, value });
            let answer = match acceptor.accept_reply(ballot) {
                AcceptReply::Reject { preempted } => CommandView::Reject {
                    from: node.current,
                    slot,
                    proposed: ballot,
                    preempted,
                    phase: Phase::Accept,
                },
                _ => CommandView::Accepted { from: node.current, slot, ballot },
            };
            &&& !(acceptor.accept_reply(ballot) is Resolved)
            &&& after.window.acceptor(slot) == acceptor.accept(node.current, ballot, value)
            &&& after.asked.last() == (ActionView::Send {
                to: ballot.1,
                key: PaxosKey::Slot { slot, proposer: ballot.1 },
                command: answer,
            })
        }),
{
}

/// What a scan that no acceptor rejects does to a slot.
proof fn lemma_scan_slot(window: WindowView, slots: Seq<Slot>, ballot: Ballot, slot: Slot)
    requires
        slots.no_duplicates(),
        window.is_open(slot),
        window.scan(slots, ballot).preempted is None,
    ensures
        ({
            let scan = window.scan(slots, ballot);
            let acceptor = window.acceptor(slot);
            if slots.contains(slot) {
                &&& acceptor.preempting(ballot) is None
                &&& scan.window.acceptor(slot) == acceptor.prepare(ballot)
                &&& forall|b: Ballot, v: Seq<u8>| #[trigger]
                    scan.accepted.contains((slot, b, v)) <==> acceptor.highest_value() == Some(
                        (b, v),
                    )
            } else {
                &&& scan.window.is_open(slot)
                &&& scan.window.acceptor(slot) == acceptor
                &&& forall|b: Ballot, v: Seq<u8>| !#[trigger] scan.accepted.contains((slot, b, v))
            }
        }),
    decreases slots.len(),
{
    if slots.len() > 0 {
        let earlier = slots.drop_last();
        let last = slots.last();
        let before = window.scan(earlier, ballot);
        let after = window.scan(slots, ballot);
        lemma_scan_slot(window, earlier, ballot, slot);
        assert(slots =~= earlier.push(last));
        assert(slots.contains(slot) <==> earlier.contains(slot) || last == slot) by {
            if earlier.contains(slot) {
                assert(slots[earlier.index_of(slot)] == slot);
            }
            assert(slots[slots.len() - 1] == last);
        }
        assert(last == slot ==> !earlier.contains(slot)) by {
            if earlier.contains(slot) {
                let k = earlier.index_of(slot);
                assert(slots[k] == slot && slots[slots.len() - 1] == last);
            }
        }
        assert forall|b: Ballot, v: Seq<u8>|
            last != slot implies #[trigger] after.accepted.contains((slot, b, v))
            == before.accepted.contains((slot, b, v)) by {
            lemma_report_other(before.accepted, after.accepted, last, (slot, b, v));
        }
        if last == slot {
            let known = window.acceptor(slot).highest_value();
            assert forall|b: Ballot, v: Seq<u8>| #[trigger]
                after.accepted.contains((slot, b, v)) <==> known == Some((b, v)) by {
                assert(!before.accepted.contains((slot, b, v)));
                if known is Some {
                    let n = before.accepted.len() as int;
                    assert(after.accepted[n] == (slot, known->Some_0.0, known->Some_0.1));
                    if after.accepted.contains((slot, b, v)) {
                        let k = after.accepted.index_of((slot, b, v));
                        assert(k < n ==> before.accepted[k] == (slot, b, v));
                    }
                }
            }
        }
    }
}

/// A report for one slot leaves those of the others.
proof fn lemma_report_other(
    before: Seq<(Slot, Ballot, Seq<u8>)>,
    after: Seq<(Slot, Ballot, Seq<u8>)>,
    last: Slot,
    entry: (Slot, Ballot, Seq<u8>),
)
    requires
        after == before || exists|b: Ballot, v: Seq<u8>| after == #[trigger] before.push(
            (last, b, v),
        ),
        entry.0 != last,
    ensures
        after.contains(entry) == before.contains(entry),
{
    if before.contains(entry) {
        assert(after[before.index_of(entry)] == entry);
    }
    if after.contains(entry) {
        assert(before[after.index_of(entry)] == entry);
    }
}

/// What a scan does to a slot that is empty: nothing.
proof fn lemma_scan_empty(window: WindowView, slots: Seq<Slot>, ballot: Ballot, slot: Slot)
    requires
        window.is_empty(slot),
    ensures
        window.scan(slots, ballot).window.is_empty(slot),
        forall|b: Ballot, v: Seq<u8>|
            !#[trigger] window.scan(slots, ballot).accepted.contains((slot, b, v)),
    decreases slots.len(),
{
    if slots.len() > 0 {
        let before = window.scan(slots.drop_last(), ballot);
        let after = window.scan(slots, ballot);
        lemma_scan_empty(window, slots.drop_last(), ballot, slot);
        assert forall|b: Ballot, v: Seq<u8>| !#[trigger] after.accepted.contains((slot, b, v)) by {
            assert(!before.accepted.contains((slot, b, v)));
            if slots.last() == slot {
                assert(after == before);
            } else {
                lemma_report_other(before.accepted, after.accepted, slots.last(), (slot, b, v));
            }
        }
    }
}

/// What a scan does to a slot that is decided: it stays as it is, and its decision is reported if
/// no acceptor rejects.
proof fn lemma_scan_resolved(window: WindowView, slots: Seq<Slot>, ballot: Ballot, slot: Slot)
    requires
        window.is_resolved(slot),
    ensures
        ({
            let scan = window.scan(slots, ballot);
            &&& scan.window.slots.contains_key(slot)
            &&& scan.window.slots[slot] == window.slots[slot]
            &&& scan.preempted is None ==> forall|b: Ballot, v: Seq<u8>| #[trigger]
                scan.accepted.contains((slot, b, v)) <==> window.slots[slot].resolution() == Some(
                    (b, v),
                ) && slots.contains(slot)
        }),
    decreases slots.len(),
{
    if slots.len() > 0 {
        let earlier = slots.drop_last();
        let last = slots.last();
        let before = window.scan(earlier, ballot);
        let after = window.scan(slots, ballot);
        let decision = window.slots[slot].resolution();
        lemma_scan_resolved(window, earlier, ballot, slot);
        assert(slots =~= earlier.push(last));
        assert(slots.contains(slot) <==> earlier.contains(slot) || last == slot) by {
            if earlier.contains(slot) {
                assert(slots[earlier.index_of(slot)] == slot);
            }
            assert(slots[slots.len() - 1] == last);
        }
        if after.preempted is None {
            assert forall|b: Ballot, v: Seq<u8>| #[trigger]
                after.accepted.contains((slot, b, v)) <==> decision == Some((b, v))
                    && slots.contains(slot) by {
                let n = before.accepted.len() as int;
                if last != slot {
                    lemma_report_other(before.accepted, after.accepted, last, (slot, b, v));
                } else {
                    assert(after.accepted[n] == (slot, decision->Some_0.0, decision->Some_0.1));
                    if after.accepted.contains((slot, b, v)) {
                        let k = after.accepted.index_of((slot, b, v));
                        if k < n {
                            assert(before.accepted[k] == (slot, b, v));
                            assert(before.accepted.contains((slot, b, v)));
                        }
                    }
                }
            }
        }
    }
}

/// Whether a node answers a PREPARE with a promise that reports `accepted`.
pub open spec fn promises_with(
    node: NodeView,
    asked: Slot,
    ballot: Ballot,
    accepted: Seq<(Slot, Ballot, Seq<u8>)>,
) -> bool {
    node.react(CommandView::Prepare { slot: asked, ballot }).asked.last() == (ActionView::Send {
        to: ballot.1,
        key: PaxosKey::Slot { slot: asked, proposer: ballot.1 },
        command: CommandView::Promise { from: node.current, slot: asked, ballot, accepted },
    })
}

/// What a promise of a node for a ballot says of each slot. An open one has promised the ballot,
/// and its value is reported if it has accepted one. An empty one has nothing to report and stays
/// as it is. A decided one of the open range, or the one that was asked for, is reported with its
/// decision, and no other decided one is.
pub proof fn promises_cover_the_slots(
    node: NodeView,
    asked: Slot,
    ballot: Ballot,
    accepted: Seq<(Slot, Ballot, Seq<u8>)>,
    slot: Slot,
)
    requires
        node.valid(),
        node.ready_for(CommandView::Prepare { slot: asked, ballot }),
        promises_with(node, asked, ballot, accepted),
    ensures
        ({
            let acceptor = node.window.acceptor(slot);
            let after = node.react(CommandView::Prepare { slot: asked, ballot }).window;
            if node.window.is_open(slot) {
                &&& acceptor.prepare_reply(ballot) == (PrepareReply::Promise {
                    value: acceptor.highest_value(),
                })
                &&& after.acceptor(slot) == acceptor.prepare(ballot)
                &&& forall|b: Ballot, v: Seq<u8>| #[trigger]
                    accepted.contains((slot, b, v)) <==> acceptor.highest_value() == Some((b, v))
            } else if node.window.is_empty(slot) {
                &&& after.is_empty(slot)
                &&& forall|b: Ballot, v: Seq<u8>| !#[trigger] accepted.contains((slot, b, v))
            } else {
                &&& after.acceptor(slot) == acceptor
                &&& forall|b: Ballot, v: Seq<u8>| #[trigger]
                    accepted.contains((slot, b, v)) <==> acceptor.resolution() == Some((b, v)) && (
                    slot >= node.window.start || slot == asked)
            }
        }),
{
    let window = node.window;
    let slots = window.promise_slots(asked);
    lemma_promise_slots(window, asked, slot);
    if window.is_open(slot) {
        lemma_scan_slot(window, slots, ballot, slot);
    } else if window.is_empty(slot) {
        lemma_scan_empty(window, slots, ballot, slot);
    } else {
        lemma_scan_resolved(window, slots, ballot, slot);
    }
}

/// The answer of a node to a PREPARE for a lower ballot than one that an open slot has promised.
proof fn lemma_scan_preempted(window: WindowView, slots: Seq<Slot>, ballot: Ballot, slot: Slot)
    requires
        slots.contains(slot),
        window.is_open(slot),
        window.slots[slot].preempting(ballot) is Some,
    ensures
        window.scan(slots, ballot).preempted is Some,
    decreases slots.len(),
{
    let earlier = slots.drop_last();
    let before = window.scan(earlier, ballot);
    if before.preempted is None {
        if earlier.contains(slot) {
            lemma_scan_preempted(window, earlier, ballot, slot);
        } else {
            assert(slots.last() == slot) by {
                let k = slots.index_of(slot);
                if k < earlier.len() {
                    assert(earlier[k] == slot);
                }
            }
            lemma_scan_keeps_others(window, earlier, ballot, slot);
        }
    }
}

/// A scan leaves the slots alone that it does not ask.
proof fn lemma_scan_keeps_others(window: WindowView, slots: Seq<Slot>, ballot: Ballot, slot: Slot)
    requires
        !slots.contains(slot),
    ensures
        window.scan(slots, ballot).window.is_empty(slot) == window.is_empty(slot),
        window.scan(slots, ballot).window.acceptor(slot) == window.acceptor(slot),
    decreases slots.len(),
{
    if slots.len() > 0 {
        let earlier = slots.drop_last();
        assert(slots[slots.len() - 1] != slot);
        assert(!earlier.contains(slot)) by {
            if earlier.contains(slot) {
                assert(slots[earlier.index_of(slot)] == slot);
            }
        }
        lemma_scan_keeps_others(window, earlier, ballot, slot);
    }
}

/// The slots of the open range are covered by every promise.
proof fn lemma_promise_slots(window: WindowView, asked: Slot, slot: Slot)
    requires
        window.valid(),
    ensures
        window.promise_slots(asked).no_duplicates(),
        window.promise_slots(asked).contains(slot) <==> window.start <= slot < window.end || slot
            == asked,
        window.is_open(slot) ==> window.start <= slot < window.end,
{
    let slots = window.promise_slots(asked);
    let open = window.open_slots();
    let shift: int = if asked < window.start {
        1
    } else {
        0
    };
    if window.start <= slot < window.end {
        assert(open[slot - window.start] == slot);
        assert(slots[slot - window.start + shift] == slot);
    }
    if slot == asked && slot < window.start {
        assert(slots[0] == slot);
    }
    if slot == asked && slot >= window.end {
        assert(slots[slots.len() - 1] == slot);
    }
    if window.is_open(slot) && slot < window.start {
        assert(window.is_resolved(slot));
    }
}

/// Whether a node answers a command with the REJECT of a ballot, and nothing else after it.
pub open spec fn rejects(node: NodeView, command: CommandView, slot: Slot, low: Ballot) -> bool {
    let last = node.react(command).asked.last();
    &&& last is Send
    &&& last->to == low.1
    &&& last->command matches CommandView::Reject { from, slot: s, proposed, preempted, .. }
        && from == node.current && s == slot && proposed == low && low.lt(preempted)
}

/// A node that has sent a promise for a ballot keeps it in the slots that were open then: from
/// then on it answers an ACCEPT of a lower ballot for such a slot with a REJECT, as long as the
/// slot is not decided, and as long as one of them is not decided, every PREPARE of a lower
/// ballot.
pub proof fn promising_nodes_reject_lower_ballots(
    node: NodeView,
    asked: Slot,
    ballot: Ballot,
    accepted: Seq<(Slot, Ballot, Seq<u8>)>,
    later: NodeView,
    slot: Slot,
    low: Ballot,
    value: Seq<u8>,
    asked_later: Slot,
)
    requires
        node.valid(),
        node.ready_for(CommandView::Prepare { slot: asked, ballot }),
        promises_with(node, asked, ballot, accepted),
        node.window.is_open(slot),
        node.react(CommandView::Prepare { slot: asked, ballot }).grows_to(later),
        later.valid(),
        !later.window.is_resolved(slot),
        low.lt(ballot),
    ensures
        later.window.acceptor(slot).prepare_reply(low) is Reject,
        later.window.acceptor(slot).accept_reply(low) is Reject,
        rejects(later, CommandView::Accept { slot, ballot: low, value }, slot, low),
        rejects(later, CommandView::Prepare { slot: asked_later, ballot: low }, asked_later, low),
{
    let after = node.react(CommandView::Prepare { slot: asked, ballot });
    promises_cover_the_slots(node, asked, ballot, accepted, slot);
    lemma_promise_slots(node.window, asked, slot);
    lemma_scan_slot(node.window, node.window.promise_slots(asked), ballot, slot);
    assert(after.window.slots.contains_key(slot));
    assert(later.window.is_open(slot));
    lemma_promise_slots(later.window, asked_later, slot);
    lemma_scan_preempted(later.window, later.window.promise_slots(asked_later), low, slot);
    lemma_scan_preempting(later.window, later.window.promise_slots(asked_later), low);
}

/// A scan is rejected by a higher ballot.
proof fn lemma_scan_preempting(window: WindowView, slots: Seq<Slot>, ballot: Ballot)
    ensures
        window.scan(slots, ballot).preempted matches Some(p) ==> ballot.lt(p),
    decreases slots.len(),
{
    if slots.len() > 0 {
        lemma_scan_preempting(window, slots.drop_last(), ballot);
    }
}

/// A node that takes a value under a ballot of its own, where it has not promised a higher one,
/// promises the ballot thereby and votes for it.
pub proof fn own_proposals_promise_and_vote(
    acceptor: AcceptorView,
    me: NodeId,
    ballot: Ballot,
    value: Seq<u8>,
)
    requires
        !acceptor.is_resolved(),
        acceptor.preempting(ballot) is None,
    ensures
        acceptor.prepare_reply(ballot) == (PrepareReply::Promise {
            value: acceptor.highest_value(),
        }),
        acceptor.prepare(ballot).accept_reply(ballot) is Accepted,
        acceptor.notice(me, ballot, value) == acceptor.prepare(ballot).accept(me, ballot, value),
{
}

/// What placing values does to a slot: nothing, or it gets one of them if it had none.
pub(crate) proof fn lemma_place_all_slot(
    window: WindowView,
    ballot: Ballot,
    values: Seq<Seq<u8>>,
    slot: Slot,
)
    requires
        window.valid(),
        window.end + values.len() <= u64::MAX,
    ensures
        ({
            let before = window.acceptor(slot);
            let after = window.place_all(ballot, values).acceptor(slot);
            ||| after == before
            ||| before.highest_value() is None && exists|value: Seq<u8>|
                after == #[trigger] before.notice(window.node, ballot, value)
        }),
        window.place_all(ballot, values).node == window.node,
    decreases values.len(),
{
    if values.len() > 0 {
        let middle = window.place_all(ballot, values.drop_last());
        lemma_place_all_slot(window, ballot, values.drop_last(), slot);
        lemma_place_all_grows(window, ballot, values.drop_last());
    }
}

/// A candidate that becomes the leader takes every slot of its open range that is not decided: it
/// proposes the value of the highest ballot it knows for the slot, if it knows one, tells all its
/// peers so, and takes the value itself, by which it gives its own promise and its own vote.
pub proof fn elected_leaders_propose(
    node: NodeView,
    from: NodeId,
    asked: Slot,
    ballot: Ballot,
    accepted: Seq<(Slot, Ballot, Seq<u8>)>,
    slot: Slot,
)
    requires
        node.valid(),
        node.ready_for(CommandView::Promise { from, slot: asked, ballot, accepted }),
        node.proposer.role is Candidate,
        node.count_promise(from, ballot, accepted).is_leader(),
        ({
            let after = node.react(
                CommandView::Promise { from, slot: asked, ballot, accepted },
            );
            after.window.start <= slot < after.window.end && !after.window.is_resolved(slot)
        }),
    ensures
        ({
            let known = node.window.notice_all(accepted).acceptor(slot);
            let after = node.react(
                CommandView::Promise { from, slot: asked, ballot, accepted },
            );
            exists|value: Seq<u8>|
                {
                    &&& known.highest_value() matches Some((_, v)) ==> value == v
                    &&& after.window.acceptor(slot) == #[trigger] known.notice(
                        node.current,
                        ballot,
                        value,
                    )
                    &&& has_announced(after, CommandView::Accept { slot, ballot, value })
                }
        }),
{
    let counted = node.count_promise(from, ballot, accepted);
    let queue = counted.proposer.queue;
    let placed = counted.window.place_all(ballot, queue);
    let claimed = NodeView {
        proposer: counted.proposer.drained(),
        window: placed.claim(ballot, placed.end),
        ..counted
    };
    let known = counted.window.acceptor(slot);
    let value = placed.claim_value(slot);
    let command = |s: Slot|
        CommandView::Accept { slot: s, ballot, value: placed.claim_value(s) };
    let keep = |s: Slot| !placed.is_resolved(s);
    let commands = placed.missing().map_values(command);
    lemma_notice_all_grows(node.window, accepted);
    lemma_place_all_slot(counted.window, ballot, queue, slot);
    assert(!placed.is_resolved(slot));
    let open = placed.open_slots();
    assert(open[slot - placed.start] == slot);
    assert(keep(slot));
    open.lemma_filter_contains(keep, slot - placed.start);
    let k = placed.missing().index_of(slot);
    assert(commands[k] == command(slot));
    lemma_all_announced(claimed, commands, k);
    assert(claimed.window.acceptor(slot) == placed.acceptor(slot).notice(
        placed.node,
        ballot,
        value,
    ));
    assert(claimed.window.acceptor(slot) == known.notice(node.current, ballot, value));
}

/// A leader that gets a proposal takes the next slot for it, for which it knows no value, tells
/// all its peers so, and takes the value itself, by which it gives its own promise and its own
/// vote.
pub proof fn leaders_propose(node: NodeView, value: Seq<u8>)
    requires
        node.valid(),
        node.ready_for(CommandView::Proposal(value)),
        node.is_leader(),
    ensures
        ({
            let ballot = node.proposer.role->Leader_proposal;
            let slot = node.window.next_slot();
            let after = node.react(CommandView::Proposal(value));
            &&& !node.window.is_resolved(slot)
            &&& node.window.acceptor(slot).highest_value() is None
            &&& after.window.acceptor(slot) == node.window.acceptor(slot).notice(
                node.current,
                ballot,
                value,
            )
            &&& has_announced(after, CommandView::Accept { slot, ballot, value })
        }),
{
    let ballot = node.proposer.role->Leader_proposal;
    let slot = node.window.next_slot();
    lemma_announced(
        NodeView { window: node.window.notice(slot, ballot, value), ..node },
        CommandView::Accept { slot, ballot, value },
    );
}

/// An ACCEPTED for an open slot goes to the acceptor of the slot, which counts the vote. The news
/// of a decision goes to it, too.
pub proof fn votes_and_news_reach_the_acceptor(
    node: NodeView,
    from: NodeId,
    slot: Slot,
    ballot: Ballot,
    value: Seq<u8>,
)
    requires
        node.valid(),
    ensures
        node.window.is_open(slot) ==> node.react(
            CommandView::Accepted { from, slot, ballot },
        ).window.acceptor(slot) == node.window.acceptor(slot).vote(
            node.window.quorum,
            from,
            ballot,
        ),
        node.react(CommandView::Resolution { slot, ballot, value }).window.acceptor(slot)
            == node.window.acceptor(slot).resolve(ballot, value),
{
}

} // verus!
