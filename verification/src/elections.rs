//! What a candidate does with the promises it gets, and what the one that wins proposes.

use crate::acceptor::AcceptorView;
use crate::ballot::{Ballot, NodeId, Slot};
use crate::commands::CommandView;
use crate::conduct::{
    above,
    announces,
    ascends,
    asks,
    below,
    in_order,
    is_decided,
    known_value,
    lemma_announces,
    lemma_filtered,
    lemma_open_slots,
    same_node,
    windows_are_in_order,
};
use crate::growth::{
    lemma_notice_all_grows,
    lemma_place_all_grows,
    reactions_only_grow,
};
use crate::model::NodeView;
use crate::proposer::Role;
use crate::round::Phase;
use crate::window::WindowView;
use vstd::prelude::*;

verus! {

/// Whether values that come with a promise speak of a slot.
pub open spec fn is_reported(accepted: Seq<(Slot, Ballot, Seq<u8>)>, slot: Slot) -> bool {
    exists|i: int| 0 <= i < accepted.len() && (#[trigger] accepted[i]).0 == slot
}

/// The ballot of an optional value.
pub open spec fn ballot_of(value: Option<(Ballot, Seq<u8>)>) -> Option<Ballot> {
    match value {
        Some((ballot, _)) => Some(ballot),
        None => None,
    }
}

/// Whether no value reported for a slot is of a higher ballot than `ballot`.
pub open spec fn tops(
    accepted: Seq<(Slot, Ballot, Seq<u8>)>,
    slot: Slot,
    ballot: Option<Ballot>,
) -> bool {
    forall|i: int|
        0 <= i < accepted.len() && (#[trigger] accepted[i]).0 == slot ==> !above(
            accepted[i].1,
            ballot,
        )
}

/// Whether a reported value is the first one of the highest ballot reported for a slot, and that
/// ballot is above `known`.
pub open spec fn wins(
    accepted: Seq<(Slot, Ballot, Seq<u8>)>,
    slot: Slot,
    known: Option<Ballot>,
    i: int,
) -> bool {
    &&& 0 <= i < accepted.len()
    &&& accepted[i].0 == slot
    &&& above(accepted[i].1, known)
    &&& tops(accepted, slot, Some(accepted[i].1))
    &&& forall|j: int|
        0 <= j < i && (#[trigger] accepted[j]).0 == slot ==> below(accepted[j].1, accepted[i].1)
}

/// What a slot that awaits a decision knows once it has learnt the values reported for it: the
/// value that wins over the one known before, of which the node is the only voter, or that one
/// with its voters. It has promised the highest of these ballots and of the one promised before.
pub open spec fn learns_of(
    before: WindowView,
    after: AcceptorView,
    accepted: Seq<(Slot, Ballot, Seq<u8>)>,
    slot: Slot,
) -> bool {
    let known = known_value(before, slot);
    let (promised, voters) = if before.slots.contains_key(slot) {
        (before.slots[slot]->promised, before.slots[slot]->voters)
    } else {
        (None, Set::empty())
    };
    &&& after is Open
    &&& if tops(accepted, slot, ballot_of(known)) {
        after->accepted == known && after->voters == voters
    } else {
        &&& after->voters == Set::empty().insert(before.node)
        &&& exists|i: int| #[trigger]
            wins(accepted, slot, ballot_of(known), i) && after->accepted == Some(
                (accepted[i].1, accepted[i].2),
            )
    }
    &&& after->promised == promised || exists|i: int|
        0 <= i < accepted.len() && (#[trigger] accepted[i]).0 == slot && after->promised == Some(
            accepted[i].1,
        )
    &&& tops(accepted, slot, after->promised)
    &&& promised matches Some(p) ==> !above(p, after->promised)
}

/// Whether a window has learnt the values that come with a promise: every slot that they speak of
/// and that is not decided knows them, and nothing else has changed.
pub open spec fn learns(
    before: WindowView,
    after: WindowView,
    accepted: Seq<(Slot, Ballot, Seq<u8>)>,
) -> bool {
    &&& in_order(after)
    &&& after.start == before.start
    &&& after.node == before.node
    &&& after.quorum == before.quorum
    &&& forall|s: Slot| #[trigger]
        after.slots.contains_key(s) <==> before.slots.contains_key(s) || is_reported(accepted, s)
    &&& forall|s: Slot| #[trigger]
        after.slots.contains_key(s) ==> if is_decided(before, s) || !is_reported(accepted, s) {
            after.slots[s] == before.slots[s]
        } else {
            learns_of(before, after.slots[s], accepted, s)
        }
}

/// What one slot learns.
proof fn lemma_learns_of(
    window: WindowView,
    accepted: Seq<(Slot, Ballot, Seq<u8>)>,
    slot: Slot,
)
    ensures
        ({
            let after = window.notice_all(accepted);
            &&& after.start == window.start
            &&& after.node == window.node
            &&& after.quorum == window.quorum
            &&& after.slots.contains_key(slot) <==> window.slots.contains_key(slot) || is_reported(
                accepted,
                slot,
            )
            &&& is_decided(window, slot) || !is_reported(accepted, slot) ==> after.acceptor(slot)
                == window.acceptor(slot)
            &&& !is_decided(window, slot) ==> learns_of(
                window,
                after.acceptor(slot),
                accepted,
                slot,
            )
        }),
    decreases accepted.len(),
{
    if accepted.len() > 0 {
        let earlier = accepted.drop_last();
        let n = earlier.len() as int;
        let (s, ballot, value) = accepted.last();
        let middle = window.notice_all(earlier);
        let after = window.notice_all(accepted);
        let known = known_value(window, slot);
        lemma_learns_of(window, earlier, slot);
        assert(accepted[n] == (s, ballot, value));
        assert forall|i: int| 0 <= i < n implies #[trigger] accepted[i] == earlier[i] by {}
        assert(is_reported(accepted, slot) <==> is_reported(earlier, slot) || s == slot) by {
            if is_reported(earlier, slot) {
                let i = choose|i: int|
                    0 <= i < earlier.len() && (#[trigger] earlier[i]).0 == slot;
                assert(accepted[i].0 == slot);
            }
            if is_reported(accepted, slot) && s != slot {
                let i = choose|i: int|
                    0 <= i < accepted.len() && (#[trigger] accepted[i]).0 == slot;
                assert(earlier[i].0 == slot);
            }
        }
        if !is_decided(window, slot) {
            let before = middle.acceptor(slot);
            let learnt = after.acceptor(slot);
            if tops(earlier, slot, ballot_of(known)) {
                if s == slot && above(ballot, ballot_of(known)) {
                    assert(wins(accepted, slot, ballot_of(known), n)) by {
                        assert forall|j: int|
                            0 <= j < n && (#[trigger] accepted[j]).0 == slot implies below(
                            accepted[j].1,
                            accepted[n].1,
                        ) by {
                            assert(earlier[j].0 == slot);
                        }
                    }
                    assert(!tops(accepted, slot, ballot_of(known))) by {
                        assert(accepted[n].0 == slot);
                    }
                } else {
                    assert forall|i: int|
                        0 <= i < accepted.len() && (#[trigger] accepted[i]).0
                            == slot implies !above(accepted[i].1, ballot_of(known)) by {
                        if i < n {
                            assert(earlier[i].0 == slot);
                        }
                    }
                    assert(tops(accepted, slot, ballot_of(known)));
                }
            } else {
                let i = choose|i: int| #[trigger]
                    wins(earlier, slot, ballot_of(known), i) && before->accepted == Some(
                        (earlier[i].1, earlier[i].2),
                    );
                assert(accepted[i] == earlier[i]);
                assert(!tops(accepted, slot, ballot_of(known))) by {
                    assert(accepted[i].0 == slot);
                }
                if s == slot && below(earlier[i].1, ballot) {
                    assert(wins(accepted, slot, ballot_of(known), n)) by {
                        assert forall|j: int|
                            0 <= j < n && (#[trigger] accepted[j]).0 == slot implies below(
                            accepted[j].1,
                            accepted[n].1,
                        ) by {
                            assert(earlier[j].0 == slot);
                        }
                    }
                } else {
                    assert(wins(accepted, slot, ballot_of(known), i)) by {
                        assert forall|j: int|
                            0 <= j < accepted.len() && (#[trigger] accepted[j]).0
                                == slot implies !above(accepted[j].1, Some(accepted[i].1)) by {
                            if j < n {
                                assert(earlier[j].0 == slot);
                            }
                        }
                        assert forall|j: int|
                            0 <= j < i && (#[trigger] accepted[j]).0 == slot implies below(
                            accepted[j].1,
                            accepted[i].1,
                        ) by {
                            assert(earlier[j].0 == slot);
                        }
                    }
                }
            }
            assert forall|i: int|
                0 <= i < accepted.len() && (#[trigger] accepted[i]).0 == slot implies !above(
                accepted[i].1,
                learnt->promised,
            ) by {
                if i < n {
                    assert(earlier[i].0 == slot);
                }
            }
            if learnt->promised != before->promised {
                assert(accepted[n].0 == slot && learnt->promised == Some(accepted[n].1));
            } else if is_reported(earlier, slot) && exists|i: int|
                0 <= i < n && (#[trigger] earlier[i]).0 == slot && before->promised == Some(
                    earlier[i].1,
                ) {
                let i = choose|i: int|
                    0 <= i < n && (#[trigger] earlier[i]).0 == slot && before->promised == Some(
                        earlier[i].1,
                    );
                assert(accepted[i].0 == slot && learnt->promised == Some(accepted[i].1));
            }
        }
    }
}

/// What a window learns.
proof fn lemma_learns(window: WindowView, accepted: Seq<(Slot, Ballot, Seq<u8>)>)
    requires
        window.valid(),
        forall|i: int| 0 <= i < accepted.len() ==> (#[trigger] accepted[i]).0 < u64::MAX,
    ensures
        learns(window, window.notice_all(accepted), accepted),
{
    let after = window.notice_all(accepted);
    lemma_notice_all_grows(window, accepted);
    windows_are_in_order(after);
    assert forall|s: Slot| #[trigger]
        after.slots.contains_key(s) <==> window.slots.contains_key(s) || is_reported(
            accepted,
            s,
        ) by {
        lemma_learns_of(window, accepted, s);
    }
    assert forall|s: Slot| #[trigger] after.slots.contains_key(s) implies if is_decided(window, s)
        || !is_reported(accepted, s) {
        after.slots[s] == window.slots[s]
    } else {
        learns_of(window, after.slots[s], accepted, s)
    } by {
        lemma_learns_of(window, accepted, s);
    }
    lemma_learns_of(window, accepted, 0);
}

/// A node that is not a candidate ignores promises.
pub proof fn promises_to_others_are_ignored(
    node: NodeView,
    from: NodeId,
    slot: Slot,
    ballot: Ballot,
    accepted: Seq<(Slot, Ballot, Seq<u8>)>,
)
    requires
        node.valid(),
        node.ready_for(CommandView::Promise { from, slot, ballot, accepted }),
        !(node.proposer.role is Candidate),
    ensures
        node.react(CommandView::Promise { from, slot, ballot, accepted }) == node,
{
}

/// A candidate learns the values that come with a promise, and counts the promise if it is for the
/// ballot of its candidacy. As long as those who have promised are no quorum it stays a candidate,
/// and nothing else changes.
pub proof fn promises_are_counted(
    node: NodeView,
    from: NodeId,
    slot: Slot,
    ballot: Ballot,
    accepted: Seq<(Slot, Ballot, Seq<u8>)>,
)
    requires
        node.valid(),
        node.ready_for(CommandView::Promise { from, slot, ballot, accepted }),
        node.proposer.role is Candidate,
        ballot == node.proposer.role->Candidate_proposal ==> node.proposer.role->promises.insert(
            from,
        ).len() < node.proposer.quorum,
    ensures
        ({
            let after = node.react(CommandView::Promise { from, slot, ballot, accepted });
            let (proposal, promises) = (
                node.proposer.role->Candidate_proposal,
                node.proposer.role->promises,
            );
            &&& learns(node.window, after.window, accepted)
            &&& asks(node, after, 0)
            &&& same_node(node, after)
            &&& after.proposer.highest == node.proposer.highest
            &&& after.proposer.queue == node.proposer.queue
            &&& after.proposer.role == (Role::Candidate {
                proposal,
                promises: if ballot == proposal {
                    promises.insert(from)
                } else {
                    promises
                },
            })
        }),
{
    lemma_learns(node.window, accepted);
}

/// The first slot that a new leader gives to its queued proposals: the last one of its open range,
/// if that awaits a decision and has no value, and else the one behind it.
pub open spec fn first_vacant(window: WindowView) -> int {
    let last = window.end - 1;
    if window.start < window.end && window.slots.contains_key(last as Slot) && (
    window.slots[last as Slot] matches AcceptorView::Open { accepted, .. } && accepted is None) {
        last
    } else {
        window.end as int
    }
}

/// The value that a new leader proposes for a slot: a queued proposal where it gives the slot to
/// one, else the value that it knows for the slot, and an empty one if it knows none.
pub open spec fn claimed_value(window: WindowView, queue: Seq<Seq<u8>>, slot: Slot) -> Seq<u8> {
    let first = first_vacant(window);
    if first <= slot < first + queue.len() {
        queue[slot - first]
    } else {
        match known_value(window, slot) {
            Some((_, value)) => value,
            None => Seq::empty(),
        }
    }
}

/// What a slot that awaits a decision knows once the node has taken a value for it under a ballot
/// of its own: the node promises the ballot and is the first to vote for the value, unless the
/// slot knows of higher ones.
pub open spec fn takes(
    before: WindowView,
    after: AcceptorView,
    slot: Slot,
    ballot: Ballot,
    value: Seq<u8>,
) -> bool {
    let known = known_value(before, slot);
    let (promised, voters) = if before.slots.contains_key(slot) {
        (before.slots[slot]->promised, before.slots[slot]->voters)
    } else {
        (None, Set::empty())
    };
    after == (AcceptorView::Open {
        promised: if above(ballot, promised) {
            Some(ballot)
        } else {
            promised
        },
        accepted: if above(ballot, ballot_of(known)) {
            Some((ballot, value))
        } else {
            known
        },
        voters: if above(ballot, ballot_of(known)) {
            Set::empty().insert(before.node)
        } else {
            voters
        },
    })
}

/// What placing values does: they are given the slots from the first vacant one on.
proof fn lemma_places(window: WindowView, ballot: Ballot, values: Seq<Seq<u8>>)
    requires
        window.valid(),
        window.end + values.len() <= u64::MAX,
    ensures
        ({
            let placed = window.place_all(ballot, values);
            let first = first_vacant(window);
            &&& placed.start == window.start
            &&& placed.node == window.node
            &&& placed.quorum == window.quorum
            &&& placed.end == if first + values.len() > window.end {
                first + values.len()
            } else {
                window.end as int
            }
            &&& forall|s: Slot| #[trigger]
                placed.slots.contains_key(s) <==> window.slots.contains_key(s) || first <= s < first
                    + values.len()
            &&& forall|s: Slot| #[trigger]
                placed.slots.contains_key(s) ==> if first <= s < first + values.len() {
                    takes(window, placed.slots[s], s, ballot, values[s - first])
                } else {
                    placed.slots[s] == window.slots[s]
                }
        }),
    decreases values.len(),
{
    if values.len() > 0 {
        let earlier = values.drop_last();
        let n = earlier.len() as int;
        let before = window.place_all(ballot, earlier);
        let placed = window.place_all(ballot, values);
        let first = first_vacant(window);
        lemma_places(window, ballot, earlier);
        lemma_place_all_grows(window, ballot, earlier);
        assert(before.next_slot() == first + n) by {
            if n > 0 {
                let last = (first + n - 1) as Slot;
                assert(before.slots.contains_key(last));
                assert(takes(window, before.slots[last], last, ballot, earlier[n - 1]));
            }
        }
        let slot = (first + n) as Slot;
        assert(before.acceptor(slot) == window.acceptor(slot)) by {
            if before.slots.contains_key(slot) {
                assert(window.slots.contains_key(slot));
            }
        }
        assert forall|s: Slot| #[trigger] placed.slots.contains_key(s) implies if first <= s < first
            + values.len() {
            takes(window, placed.slots[s], s, ballot, values[s - first])
        } else {
            placed.slots[s] == window.slots[s]
        } by {
            if s != slot {
                assert(before.slots.contains_key(s));
                if first <= s < first + n {
                    assert(earlier[s - first] == values[s - first]);
                }
            }
        }
    }
}

/// A candidate whose promises for the ballot of its candidacy have become a quorum is the leader.
/// It has learnt what came with the promise. It gives its queued proposals slots from the first
/// vacant one on, and takes every slot of its open range that is not decided under its ballot: with
/// the queued proposal, with the value that it knows, or with an empty one. Each of these slots,
/// and no other, is announced to all peers with an ACCEPT, in order. Nothing else changes.
pub proof fn elected_leaders_take_all_open_slots(
    node: NodeView,
    from: NodeId,
    asked: Slot,
    ballot: Ballot,
    accepted: Seq<(Slot, Ballot, Seq<u8>)>,
) -> (result: (WindowView, Seq<Slot>))
    requires
        node.valid(),
        node.ready_for(CommandView::Promise { from, slot: asked, ballot, accepted }),
        node.proposer.role is Candidate,
        ballot == node.proposer.role->Candidate_proposal,
        node.proposer.role->promises.insert(from).len() >= node.proposer.quorum,
    ensures
        ({
            let after = node.react(
                CommandView::Promise { from, slot: asked, ballot, accepted },
            );
            let (learnt, slots) = result;
            let queue = node.proposer.queue;
            let first = first_vacant(learnt);
            &&& learns(node.window, learnt, accepted)
            &&& same_node(node, after)
            &&& after.proposer.role == (Role::Leader { proposal: ballot })
            &&& after.proposer.highest == node.proposer.highest
            &&& after.proposer.queue.len() == 0
            &&& after.window.start == learnt.start
            &&& after.window.end == if first + queue.len() > learnt.end {
                first + queue.len()
            } else {
                learnt.end as int
            }
            &&& forall|s: Slot| #[trigger]
                after.window.slots.contains_key(s) <==> learnt.slots.contains_key(s)
                    || after.window.start <= s < after.window.end
            &&& forall|s: Slot| #[trigger]
                after.window.slots.contains_key(s) ==> if is_decided(learnt, s) {
                    after.window.slots[s] == learnt.slots[s]
                } else {
                    takes(
                        learnt,
                        after.window.slots[s],
                        s,
                        ballot,
                        claimed_value(learnt, queue, s),
                    )
                }
            &&& ascends(slots)
            &&& forall|s: Slot| #[trigger]
                slots.contains(s) <==> after.window.start <= s < after.window.end && !is_decided(
                    after.window,
                    s,
                )
            &&& announces(
                after,
                node.asked.len() as int,
                slots,
                ballot,
                Phase::Accept,
                slots.map_values(
                    |s: Slot|
                        CommandView::Accept {
                            slot: s,
                            ballot,
                            value: claimed_value(learnt, queue, s),
                        },
                ),
            )
            &&& asks(node, after, (slots.len() * (1 + node.peers.len())) as int)
        }),
{
    let command = CommandView::Promise { from, slot: asked, ballot, accepted };
    let after = node.react(command);
    let counted = node.count_promise(from, ballot, accepted);
    let learnt = counted.window;
    let queue = node.proposer.queue;
    let first = first_vacant(learnt);
    let placed = learnt.place_all(ballot, queue);
    let claimed = NodeView {
        proposer: counted.proposer.drained(),
        window: placed.claim(ballot, placed.end),
        ..counted
    };
    let slots = placed.missing();
    let value = |s: Slot|
        CommandView::Accept { slot: s, ballot, value: claimed_value(learnt, queue, s) };
    reactions_only_grow(node, command);
    lemma_learns(node.window, accepted);
    lemma_notice_all_grows(node.window, accepted);
    lemma_places(learnt, ballot, queue);
    lemma_place_all_grows(learnt, ballot, queue);
    lemma_open_slots(placed);
    lemma_filtered(placed.open_slots(), |s: Slot| !placed.is_resolved(s));
    assert forall|s: Slot| !is_decided(learnt, s) implies !#[trigger] is_decided(placed, s)
        && placed.claim_value(s) == claimed_value(learnt, queue, s) by {
        assert(placed.slots.contains_key(s) <==> learnt.slots.contains_key(s) || first <= s < first
            + queue.len());
        if first <= s < first + queue.len() {
            assert(takes(learnt, placed.slots[s], s, ballot, queue[s - first]));
            assert(known_value(learnt, s) is None) by {
                if learnt.slots.contains_key(s) {
                    assert(s < learnt.end);
                }
            }
        }
    }
    assert forall|s: Slot| is_decided(learnt, s) implies #[trigger] is_decided(placed, s) by {
        assert(placed.slots.contains_key(s));
    }
    assert forall|s: Slot| #[trigger] after.window.slots.contains_key(s) implies if is_decided(
        learnt,
        s,
    ) {
        after.window.slots[s] == learnt.slots[s]
    } else {
        takes(learnt, after.window.slots[s], s, ballot, claimed_value(learnt, queue, s))
    } by {
        assert(is_decided(placed, s) == is_decided(learnt, s));
        if !is_decided(learnt, s) && s < placed.start {
            assert(placed.is_resolved(s));
        }
    }
    let commands = slots.map_values(value);
    assert(commands =~= slots.map_values(
        |s: Slot| CommandView::Accept { slot: s, ballot, value: placed.claim_value(s) },
    )) by {
        assert forall|j: int| 0 <= j < slots.len() implies placed.claim_value(#[trigger] slots[j])
            == claimed_value(learnt, queue, slots[j]) by {
            assert(slots.contains(slots[j]));
            assert(is_decided(placed, slots[j]) == is_decided(learnt, slots[j]));
        }
    }
    assert(after == claimed.announce_all(commands));
    lemma_announces(claimed, slots, ballot, Phase::Accept, commands);
    assert forall|s: Slot| #[trigger] slots.contains(s) <==> after.window.start <= s
        < after.window.end && !is_decided(after.window, s) by {
        assert(is_decided(placed, s) == is_decided(learnt, s));
    }
    (learnt, slots)
}

} // verus!
