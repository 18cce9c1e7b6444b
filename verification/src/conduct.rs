//! What a node does on each command, said of what it knows before and after and of what it sends.

use crate::acceptor::AcceptorView;
use crate::ballot::{Ballot, NodeId, Slot};
use crate::comm::ActionView;
use crate::commands::CommandView;
use crate::growth::reactions_only_grow;
use crate::model::NodeView;
use crate::proposer::{ProposerView, Role};
use crate::round::{PaxosKey, PaxosRound, Phase};
use crate::window::{lemma_first_undecided, lemma_settle_valid, WindowView};
use vstd::prelude::*;

verus! {

// Words for the laws

/// Ballots are compared by their numbers, and by their nodes where the numbers are the same.
pub open spec fn below(a: Ballot, b: Ballot) -> bool {
    a.0 < b.0 || (a.0 == b.0 && a.1 < b.1)
}

/// Whether a ballot is above an optional one.
pub open spec fn above(ballot: Ballot, seen: Option<Ballot>) -> bool {
    seen matches Some(s) ==> below(s, ballot)
}

/// Whether a slot awaits a decision.
pub open spec fn awaits(window: WindowView, slot: Slot) -> bool {
    window.slots.contains_key(slot) && window.slots[slot] is Open
}

/// Whether a slot is decided as a value under a ballot.
pub open spec fn decided(window: WindowView, slot: Slot, ballot: Ballot, value: Seq<u8>) -> bool {
    window.slots.contains_key(slot) && window.slots[slot] == (AcceptorView::Resolved {
        ballot,
        value,
    })
}

/// Whether a slot is decided.
pub open spec fn is_decided(window: WindowView, slot: Slot) -> bool {
    window.slots.contains_key(slot) && window.slots[slot] is Resolved
}

/// Whether a sequence of slots is in strictly ascending order.
pub open spec fn ascends(slots: Seq<Slot>) -> bool {
    forall|i: int, j: int| 0 <= i < j < slots.len() ==> slots[i] < slots[j]
}

/// Whether what a node knows of its slots stays.
pub open spec fn same_slots(before: NodeView, after: NodeView) -> bool {
    &&& after.window.slots == before.window.slots
    &&& after.window.start == before.window.start
    &&& after.window.end == before.window.end
}

/// Whether a node stays the node that it is, in the group that it is in.
pub open spec fn same_node(before: NodeView, after: NodeView) -> bool {
    &&& after.current == before.current
    &&& after.peers == before.peers
    &&& after.proposer.node == before.proposer.node
    &&& after.proposer.quorum == before.proposer.quorum
    &&& after.window.node == before.window.node
    &&& after.window.quorum == before.window.quorum
}

/// Whether the actions asked for before are still asked for, and `more` new ones.
pub open spec fn asks(before: NodeView, after: NodeView, more: int) -> bool {
    &&& after.asked.len() == before.asked.len() + more
    &&& forall|i: int| 0 <= i < before.asked.len() ==> #[trigger] after.asked[i] == before.asked[i]
}

/// Whether from the action `at` on commands for slots are announced in turn: each has its key
/// moved to its round and is sent to all peers under that key.
pub open spec fn announces(
    node: NodeView,
    at: int,
    slots: Seq<Slot>,
    ballot: Ballot,
    phase: Phase,
    commands: Seq<CommandView>,
) -> bool {
    let turn = 1 + node.peers.len();
    &&& commands.len() == slots.len()
    &&& node.asked.len() == at + slots.len() * turn
    &&& forall|j: int| #![trigger slots[j]]
        0 <= j < slots.len() ==> node.asked[at + j * turn] == (ActionView::Enter {
            key: PaxosKey::Slot { slot: slots[j], proposer: ballot.1 },
            round: PaxosRound { ballot: ballot.0, phase },
        })
    &&& forall|j: int, k: int| #![trigger slots[j], node.peers[k]]
        0 <= j < slots.len() && 0 <= k < node.peers.len() ==> node.asked[at + j * turn + 1 + k] == (
        ActionView::Send {
            to: node.peers[k],
            key: PaxosKey::Slot { slot: slots[j], proposer: ballot.1 },
            command: commands[j],
        })
}

/// Whether the last two actions move the key of a slot to a round and send a command to a node
/// under that key.
pub open spec fn tells(
    node: NodeView,
    to: NodeId,
    slot: Slot,
    ballot: Ballot,
    phase: Phase,
    command: CommandView,
) -> bool {
    let key = PaxosKey::Slot { slot, proposer: ballot.1 };
    let n = node.asked.len();
    &&& n >= 2
    &&& node.asked[n - 2] == (ActionView::Enter {
        key,
        round: PaxosRound { ballot: ballot.0, phase },
    })
    &&& node.asked[n - 1] == (ActionView::Send { to, key, command })
}

/// Whether a proposer has noted a ballot: one above all that it has seen becomes the highest and
/// makes it a follower, and every other one changes nothing.
pub open spec fn notes(before: ProposerView, after: ProposerView, ballot: Ballot) -> bool {
    if above(ballot, before.highest) {
        after.highest == Some(ballot) && after.role is Follower
    } else {
        after.highest == before.highest && after.role == before.role
    }
}

/// The number of queued proposals that a node hands over to the node of the highest ballot.
pub open spec fn handed_over(before: NodeView, after: NodeView) -> int {
    if after.proposer.role is Follower && after.proposer.highest is Some
        && after.proposer.highest->Some_0.1 != before.current {
        before.proposer.queue.len() as int
    } else {
        0
    }
}

/// Whether a node that follows another one has sent it all its queued proposals, in order, and
/// keeps them otherwise.
pub open spec fn hands_over(before: NodeView, after: NodeView) -> bool {
    let count = handed_over(before, after);
    let leader = after.proposer.highest->Some_0.1;
    &&& after.proposer.queue == if count > 0 {
        Seq::empty()
    } else {
        before.proposer.queue
    }
    &&& forall|i: int|
        0 <= i < count ==> after.asked[before.asked.len() + i] == (ActionView::Send {
            to: leader,
            key: PaxosKey::ProposalTo(leader),
            command: CommandView::Proposal(#[trigger] before.proposer.queue[i]),
        })
}

// Announcements

/// What announcing commands of one ballot and phase asks for.
pub(crate) proof fn lemma_announces(
    node: NodeView,
    slots: Seq<Slot>,
    ballot: Ballot,
    phase: Phase,
    commands: Seq<CommandView>,
)
    requires
        commands.len() == slots.len(),
        forall|j: int|
            0 <= j < slots.len() ==> (#[trigger] commands[j]).stage() == Some(
                (slots[j], ballot, phase),
            ),
    ensures
        announces(
            node.announce_all(commands),
            node.asked.len() as int,
            slots,
            ballot,
            phase,
            commands,
        ),
        asks(
            node,
            node.announce_all(commands),
            (slots.len() * (1 + node.peers.len())) as int,
        ),
    decreases slots.len(),
{
    let turn = 1 + node.peers.len();
    let at = node.asked.len() as int;
    if slots.len() > 0 {
        let n = slots.len() - 1;
        let earlier = slots.drop_last();
        let before = node.announce_all(commands.drop_last());
        let after = node.announce_all(commands);
        let command = commands.last();
        lemma_announces(node, earlier, ballot, phase, commands.drop_last());
        assert(n * turn + turn == (n + 1) * turn) by (nonlinear_arith);
        assert(before.asked.len() == at + n * turn);
        assert(command == commands[n]);
        assert(after.asked.len() == before.asked.len() + turn);
        assert forall|j: int| #![trigger slots[j]] 0 <= j < slots.len() implies after.asked[at + j
            * turn] == (ActionView::Enter {
            key: PaxosKey::Slot { slot: slots[j], proposer: ballot.1 },
            round: PaxosRound { ballot: ballot.0, phase },
        }) by {
            if j < n {
                assert(earlier[j] == slots[j]);
                assert(0 <= j * turn && j * turn + turn <= n * turn) by (nonlinear_arith)
                    requires
                        0 <= j < n,
                        turn >= 1,
                ;
                assert(after.asked[at + j * turn] == before.asked[at + j * turn]);
            }
        }
        assert forall|j: int, k: int| #![trigger slots[j], node.peers[k]]
            0 <= j < slots.len() && 0 <= k < node.peers.len() implies after.asked[at + j * turn + 1
            + k] == (ActionView::Send {
            to: node.peers[k],
            key: PaxosKey::Slot { slot: slots[j], proposer: ballot.1 },
            command: commands[j],
        }) by {
            if j < n {
                assert(earlier[j] == slots[j]);
                assert(commands.drop_last()[j] == commands[j]);
                assert(0 <= j * turn && j * turn + turn <= n * turn) by (nonlinear_arith)
                    requires
                        0 <= j < n,
                        turn >= 1,
                ;
                assert(before.peers[k] == node.peers[k]);
                assert(after.asked[at + j * turn + 1 + k] == before.asked[at + j * turn + 1 + k]);
            }
        }
    }
}

/// A filtered sequence of slots stays in order, and holds the slots that are kept.
pub(crate) proof fn lemma_filtered(slots: Seq<Slot>, keep: spec_fn(Slot) -> bool)
    requires
        ascends(slots),
    ensures
        ascends(slots.filter(keep)),
        forall|s: Slot| #[trigger]
            slots.filter(keep).contains(s) <==> slots.contains(s) && keep(s),
    decreases slots.len(),
{
    reveal(Seq::filter);
    if slots.len() > 0 {
        let earlier = slots.drop_last();
        let last = slots.last();
        lemma_filtered(earlier, keep);
        let kept = earlier.filter(keep);
        let all = slots.filter(keep);
        assert(slots =~= earlier.push(last));
        assert forall|i: int| 0 <= i < kept.len() implies kept[i] < last by {
            assert(kept.contains(kept[i]));
            let k = earlier.index_of(kept[i]);
            assert(slots[k] < slots[slots.len() - 1]);
        }
        assert forall|s: Slot| #[trigger] all.contains(s) <==> slots.contains(s) && keep(s) by {
            if slots.contains(s) && s != last {
                let k = slots.index_of(s);
                assert(earlier[k] == s);
                assert(earlier.contains(s));
            }
            if earlier.contains(s) {
                assert(slots[earlier.index_of(s)] == s);
            }
            assert(slots[slots.len() - 1] == last);
            if kept.contains(s) {
                assert(all[kept.index_of(s)] == s);
            }
            if keep(last) {
                assert(all[kept.len() as int] == last);
                if all.contains(s) {
                    let k = all.index_of(s);
                    if k < kept.len() {
                        assert(kept[k] == s);
                    }
                }
            }
        }
    }
}

/// The slots of the open range are in order.
pub(crate) proof fn lemma_open_slots(window: WindowView)
    requires
        window.start <= window.end,
    ensures
        ascends(window.open_slots()),
        forall|s: Slot| #[trigger]
            window.open_slots().contains(s) <==> window.start <= s < window.end,
{
    assert forall|s: Slot| #[trigger] window.open_slots().contains(s) <==> window.start <= s
        < window.end by {
        if window.start <= s < window.end {
            assert(window.open_slots()[s - window.start] == s);
        }
    }
}

// Standing for leadership

/// A follower that stands for leadership becomes a candidate under a ballot of its own, numbered
/// one above the highest that it has seen; a candidate and a leader stay what they are. Then every
/// slot that awaits a decision, and no other, is announced to all peers, in order: with a PREPARE
/// under the ballot of the candidacy, or by a leader with an ACCEPT of an empty value.
pub proof fn standing_asks_for_all_slots_that_await(node: NodeView) -> (slots: Seq<Slot>)
    requires
        node.valid(),
        node.can_propose_leadership(),
    ensures
        ({
            let after = node.propose_leadership();
            let ballot = match node.proposer.role {
                Role::Follower => match node.proposer.highest {
                    Some(h) => Ballot((h.0 + 1) as u32, node.current),
                    None => Ballot(0, node.current),
                },
                Role::Candidate { proposal, .. } => proposal,
                Role::Leader { proposal } => proposal,
            };
            let leads = node.proposer.role is Leader;
            &&& ascends(slots)
            &&& forall|s: Slot| #[trigger] slots.contains(s) <==> awaits(node.window, s)
            &&& announces(
                after,
                node.asked.len() as int,
                slots,
                ballot,
                if leads {
                    Phase::Accept
                } else {
                    Phase::Prepare
                },
                slots.map_values(
                    |slot: Slot|
                        if leads {
                            CommandView::Accept { slot, ballot, value: Seq::empty() }
                        } else {
                            CommandView::Prepare { slot, ballot }
                        },
                ),
            )
            &&& asks(node, after, (slots.len() * (1 + node.peers.len())) as int)
            &&& same_node(node, after)
            &&& same_slots(node, after)
            &&& after.proposer.queue == node.proposer.queue
            &&& if node.proposer.role is Follower {
                &&& node.proposer.highest matches Some(h) ==> h.0 < u32::MAX
                &&& after.proposer.highest == Some(ballot)
                &&& after.proposer.role == (Role::Candidate {
                    proposal: ballot,
                    promises: Set::empty().insert(node.current),
                })
            } else {
                &&& after.proposer.highest == node.proposer.highest
                &&& after.proposer.role == node.proposer.role
            }
        }),
{
    let window = node.window;
    let slots = window.unresolved();
    let leads = node.proposer.role is Leader;
    lemma_open_slots(window);
    lemma_filtered(window.open_slots(), |slot: Slot| window.is_open(slot));
    assert forall|s: Slot| #[trigger] slots.contains(s) <==> awaits(window, s) by {
        if awaits(window, s) && s < window.start {
            assert(window.is_resolved(s));
        }
    }
    let standing = match node.proposer.role {
        Role::Follower => NodeView { proposer: node.proposer.prepare(), ..node },
        _ => node,
    };
    let ballot = match node.proposer.role {
        Role::Follower => node.proposer.next_ballot(),
        Role::Candidate { proposal, .. } => proposal,
        Role::Leader { proposal } => proposal,
    };
    let commands = slots.map_values(
        |slot: Slot|
            if leads {
                CommandView::Accept { slot, ballot, value: Seq::empty() }
            } else {
                CommandView::Prepare { slot, ballot }
            },
    );
    if leads {
        assert(commands =~= slots.map_values(
            |slot: Slot| CommandView::Accept { slot, ballot, value: Seq::empty() },
        ));
        lemma_announces(standing, slots, ballot, Phase::Accept, commands);
    } else {
        assert(commands =~= slots.map_values(|slot: Slot| CommandView::Prepare { slot, ballot }));
        lemma_announces(standing, slots, ballot, Phase::Prepare, commands);
    }
    assert(node.propose_leadership() == standing.announce_all(commands));
    slots
}

// Proposals

/// A follower that knows another node as the leader sends it the proposal, and that is all.
pub proof fn followers_pass_proposals_on(node: NodeView, value: Seq<u8>)
    requires
        node.valid(),
        node.ready_for(CommandView::Proposal(value)),
        node.proposer.role is Follower,
        node.proposer.highest matches Some(h) && h.1 != node.current,
    ensures
        ({
            let leader = node.proposer.highest->Some_0.1;
            node.react(CommandView::Proposal(value)) == (NodeView {
                asked: node.asked.push(
                    ActionView::Send {
                        to: leader,
                        key: PaxosKey::ProposalTo(leader),
                        command: CommandView::Proposal(value),
                    },
                ),
                ..node
            })
        }),
{
}

/// A candidate queues the proposal behind the others. So does a follower that knows no leader but
/// itself, which then stands for leadership.
pub proof fn other_proposals_are_queued(node: NodeView, value: Seq<u8>)
    requires
        node.valid(),
        node.ready_for(CommandView::Proposal(value)),
        !(node.proposer.role is Leader),
        node.proposer.role is Follower ==> (node.proposer.highest matches Some(h) ==> h.1
            == node.current),
    ensures
        ({
            let queued = NodeView {
                proposer: ProposerView {
                    queue: node.proposer.queue.push(value),
                    ..node.proposer
                },
                ..node
            };
            node.react(CommandView::Proposal(value)) == if node.proposer.role is Follower {
                queued.propose_leadership()
            } else {
                queued
            }
        }),
{
}

/// A leader proposes the value for the last slot of the open range, if that awaits a decision and
/// has no value, and else for the one behind it: it takes the value for its own under its ballot,
/// is the first to vote for it, and announces it. Nothing else changes.
pub proof fn leaders_take_the_next_slot(node: NodeView, value: Seq<u8>)
    requires
        node.valid(),
        node.ready_for(CommandView::Proposal(value)),
        node.proposer.role is Leader,
    ensures
        ({
            let ballot = node.proposer.role->Leader_proposal;
            let last = (node.window.end - 1) as Slot;
            let vacant = node.window.start < node.window.end && node.window.slots.contains_key(last)
                && (node.window.slots[last] matches AcceptorView::Open { accepted, .. }
                && accepted is None);
            let slot = if vacant {
                last
            } else {
                node.window.end
            };
            let after = node.react(CommandView::Proposal(value));
            &&& slot < u64::MAX
            &&& announces(
                after,
                node.asked.len() as int,
                seq![slot],
                ballot,
                Phase::Accept,
                seq![CommandView::Accept { slot, ballot, value }],
            )
            &&& asks(node, after, (1 + node.peers.len()) as int)
            &&& same_node(node, after)
            &&& after.proposer == node.proposer
            &&& after.window.start == node.window.start
            &&& after.window.end == slot + 1
            &&& after.window.slots.dom() == node.window.slots.dom().insert(slot)
            &&& forall|s: Slot|
                s != slot && node.window.slots.contains_key(s) ==> #[trigger] after.window.slots[s]
                    == node.window.slots[s]
            &&& after.window.slots[slot] matches AcceptorView::Open { promised, accepted, voters }
                && accepted == Some((ballot, value)) && voters == Set::empty().insert(node.current)
                && promised == if vacant && !above(
                ballot,
                node.window.slots[slot]->promised,
            ) {
                node.window.slots[slot]->promised
            } else {
                Some(ballot)
            }
        }),
{
    let ballot = node.proposer.role->Leader_proposal;
    let slot = node.window.next_slot();
    let noticed = NodeView { window: node.window.notice(slot, ballot, value), ..node };
    let command = CommandView::Accept { slot, ballot, value };
    lemma_announces_one(noticed, slot, ballot, Phase::Accept, command);
    assert(node.react(CommandView::Proposal(value)) == noticed.announce(command));
    assert(noticed.window.slots.dom() =~= node.window.slots.dom().insert(slot));
}

// PREPARE

/// Whether a slot has promised a higher ballot.
pub open spec fn refuses(window: WindowView, slot: Slot, ballot: Ballot) -> bool {
    awaits(window, slot) && (window.slots[slot]->promised matches Some(p) && below(ballot, p))
}

/// Whether a slot is asked by a PREPARE for the slot `asked`: those of the open range are, too.
pub open spec fn is_asked(window: WindowView, asked: Slot, slot: Slot) -> bool {
    window.start <= slot < window.end || slot == asked
}

/// The value that is known for a slot, decided or not.
pub open spec fn known_value(window: WindowView, slot: Slot) -> Option<(Ballot, Seq<u8>)> {
    if !window.slots.contains_key(slot) {
        None
    } else {
        match window.slots[slot] {
            AcceptorView::Open { accepted, .. } => accepted,
            AcceptorView::Resolved { ballot, value } => Some((ballot, value)),
        }
    }
}

/// Whether the slots that `asked` names and that await a decision have promised a ballot, and
/// nothing else has changed.
pub open spec fn promised_by(
    before: WindowView,
    after: WindowView,
    ballot: Ballot,
    asked: spec_fn(Slot) -> bool,
) -> bool {
    &&& after.start == before.start
    &&& after.end == before.end
    &&& after.slots.dom() == before.slots.dom()
    &&& forall|s: Slot|
        before.slots.contains_key(s) ==> #[trigger] after.slots[s] == if asked(s)
            && before.slots[s] is Open {
            AcceptorView::Open {
                promised: Some(ballot),
                accepted: before.slots[s]->accepted,
                voters: before.slots[s]->voters,
            }
        } else {
            before.slots[s]
        }
}

/// Whether a promise reports the values that are known for the slots that were asked, in order.
pub open spec fn reports_all(
    window: WindowView,
    accepted: Seq<(Slot, Ballot, Seq<u8>)>,
    asked: spec_fn(Slot) -> bool,
) -> bool {
    &&& forall|i: int, j: int|
        0 <= i < j < accepted.len() ==> (#[trigger] accepted[i]).0 < (#[trigger] accepted[j]).0
    &&& forall|s: Slot, b: Ballot, v: Seq<u8>| #[trigger]
        accepted.contains((s, b, v)) <==> asked(s) && known_value(window, s) == Some((b, v))
}

/// What a scan does: it ends at the first slot that refuses.
proof fn lemma_scan(window: WindowView, slots: Seq<Slot>, ballot: Ballot) -> (first: Option<Slot>)
    requires
        window.valid(),
        ascends(slots),
    ensures
        ({
            let scan = window.scan(slots, ballot);
            &&& match first {
                None => {
                    &&& scan.preempted is None
                    &&& forall|s: Slot| #[trigger]
                        slots.contains(s) ==> !refuses(window, s, ballot)
                    &&& promised_by(window, scan.window, ballot, |s: Slot| slots.contains(s))
                    &&& reports_all(window, scan.accepted, |s: Slot| slots.contains(s))
                },
                Some(f) => {
                    &&& slots.contains(f)
                    &&& refuses(window, f, ballot)
                    &&& scan.preempted == window.slots[f]->promised
                    &&& forall|s: Slot| #[trigger]
                        slots.contains(s) && s < f ==> !refuses(window, s, ballot)
                    &&& promised_by(
                        window,
                        scan.window,
                        ballot,
                        |s: Slot| slots.contains(s) && s < f,
                    )
                },
            }
            &&& scan.window.node == window.node
            &&& scan.window.quorum == window.quorum
        }),
    decreases slots.len(),
{
    if slots.len() == 0 {
        None
    } else {
        let earlier = slots.drop_last();
        let last = slots.last();
        let n = earlier.len() as int;
        let before = window.scan(earlier, ballot);
        let after = window.scan(slots, ballot);
        let first = lemma_scan(window, earlier, ballot);
        assert(slots =~= earlier.push(last));
        assert(slots[n] == last);
        assert forall|s: Slot| #[trigger] slots.contains(s) <==> earlier.contains(s) || s
            == last by {
            if earlier.contains(s) {
                assert(slots[earlier.index_of(s)] == s);
            }
            if slots.contains(s) && s != last {
                assert(earlier[slots.index_of(s)] == s);
            }
        }
        assert forall|s: Slot| #[trigger] earlier.contains(s) implies s < last by {
            assert(slots[earlier.index_of(s)] < slots[n]);
        }
        if let Some(f) = first {
            assert(after == before);
            first
        } else {
            assert(before.window.slots.contains_key(last) == window.slots.contains_key(last));
            assert(!earlier.contains(last));
            if window.slots.contains_key(last) {
                assert(before.window.slots[last] == window.slots[last]);
            }
            if refuses(window, last, ballot) {
                Some(last)
            } else {
                assert(after.window.slots.dom() =~= window.slots.dom());
                assert(promised_by(window, after.window, ballot, |s: Slot| slots.contains(s)));
                let known = known_value(window, last);
                assert(after.accepted == if let Some((b, v)) = known {
                    before.accepted.push((last, b, v))
                } else {
                    before.accepted
                });
                assert forall|i: int, j: int| 0 <= i < j < after.accepted.len() implies (
                #[trigger] after.accepted[i]).0 < (#[trigger] after.accepted[j]).0 by {
                    let (s, b, v) = after.accepted[i];
                    assert(before.accepted[i] == (s, b, v));
                    assert(before.accepted.contains((s, b, v)));
                    assert(earlier.contains(s));
                    if j < before.accepted.len() {
                        assert(before.accepted[j] == after.accepted[j]);
                    }
                }
                assert forall|s: Slot, b: Ballot, v: Seq<u8>| #[trigger]
                    after.accepted.contains((s, b, v)) <==> slots.contains(s) && known_value(
                    window,
                    s,
                ) == Some((b, v)) by {
                    let m = before.accepted.len() as int;
                    if before.accepted.contains((s, b, v)) {
                        assert(after.accepted[before.accepted.index_of((s, b, v))] == (s, b, v));
                    }
                    if let Some((kb, kv)) = known {
                        assert(after.accepted[m] == (last, kb, kv));
                    }
                    if after.accepted.contains((s, b, v)) {
                        let k = after.accepted.index_of((s, b, v));
                        if k < m {
                            assert(before.accepted[k] == (s, b, v));
                            assert(before.accepted.contains((s, b, v)));
                        }
                    }
                }
                None
            }
        }
    }
}

/// The slots that a PREPARE asks are in order.
proof fn lemma_asked_slots(window: WindowView, asked: Slot)
    requires
        window.valid(),
    ensures
        ascends(window.promise_slots(asked)),
        forall|s: Slot| #[trigger]
            window.promise_slots(asked).contains(s) <==> is_asked(window, asked, s),
{
    let slots = window.promise_slots(asked);
    let open = window.open_slots();
    lemma_open_slots(window);
    assert forall|s: Slot| #[trigger] slots.contains(s) <==> is_asked(window, asked, s) by {
        let shift: int = if asked < window.start {
            1
        } else {
            0
        };
        if window.start <= s < window.end {
            assert(open[s - window.start] == s);
            assert(slots[s - window.start + shift] == s);
        }
        if s == asked && s < window.start {
            assert(slots[0] == s);
        }
        if s == asked && s >= window.end {
            assert(slots[slots.len() - 1] == s);
        }
    }
}

/// On a PREPARE that no slot asked refuses, a node notes the ballot, has every slot asked that
/// awaits a decision promise it, and tells its proposer so, with the values known for the slots
/// asked. Nothing else changes.
pub proof fn prepares_are_promised(node: NodeView, asked: Slot, ballot: Ballot) -> (accepted: Seq<
    (Slot, Ballot, Seq<u8>),
>)
    requires
        node.valid(),
        node.ready_for(CommandView::Prepare { slot: asked, ballot }),
        forall|s: Slot| #[trigger]
            is_asked(node.window, asked, s) ==> !refuses(node.window, s, ballot),
    ensures
        ({
            let after = node.react(CommandView::Prepare { slot: asked, ballot });
            &&& reports_all(node.window, accepted, |s: Slot| is_asked(node.window, asked, s))
            &&& promised_by(
                node.window,
                after.window,
                ballot,
                |s: Slot| is_asked(node.window, asked, s),
            )
            &&& tells(
                after,
                ballot.1,
                asked,
                ballot,
                Phase::Promise,
                CommandView::Promise { from: node.current, slot: asked, ballot, accepted },
            )
            &&& asks(node, after, 2)
            &&& same_node(node, after)
            &&& notes(node.proposer, after.proposer, ballot)
            &&& after.proposer.queue == node.proposer.queue
        }),
{
    let slots = node.window.promise_slots(asked);
    lemma_asked_slots(node.window, asked);
    let first = lemma_scan(node.window, slots, ballot);
    if let Some(f) = first {
        assert(is_asked(node.window, asked, f));
    }
    let scan = node.window.scan(slots, ballot);
    assert(promised_by(node.window, scan.window, ballot, |s: Slot| slots.contains(s)));
    scan.accepted
}

/// On a PREPARE that a slot asked refuses, a node notes the ballot and tells its proposer which
/// ballot the first slot that refuses has promised. The slots before that one that await a
/// decision have promised the ballot, and nothing else changes.
pub proof fn prepares_are_refused(node: NodeView, asked: Slot, ballot: Ballot, slot: Slot) -> (first:
    Slot)
    requires
        node.valid(),
        node.ready_for(CommandView::Prepare { slot: asked, ballot }),
        is_asked(node.window, asked, slot),
        refuses(node.window, slot, ballot),
    ensures
        ({
            let after = node.react(CommandView::Prepare { slot: asked, ballot });
            &&& is_asked(node.window, asked, first)
            &&& refuses(node.window, first, ballot)
            &&& forall|s: Slot| #[trigger]
                is_asked(node.window, asked, s) && s < first ==> !refuses(node.window, s, ballot)
            &&& promised_by(
                node.window,
                after.window,
                ballot,
                |s: Slot| is_asked(node.window, asked, s) && s < first,
            )
            &&& tells(
                after,
                ballot.1,
                asked,
                ballot,
                Phase::Reject,
                CommandView::Reject {
                    from: node.current,
                    slot: asked,
                    proposed: ballot,
                    preempted: node.window.slots[first]->promised->Some_0,
                    phase: Phase::Prepare,
                },
            )
            &&& asks(node, after, 2)
            &&& same_node(node, after)
            &&& notes(node.proposer, after.proposer, ballot)
            &&& after.proposer.queue == node.proposer.queue
        }),
{
    let slots = node.window.promise_slots(asked);
    lemma_asked_slots(node.window, asked);
    let first = lemma_scan(node.window, slots, ballot);
    assert(slots.contains(slot));
    let f = first->Some_0;
    let scan = node.window.scan(slots, ballot);
    assert(promised_by(node.window, scan.window, ballot, |s: Slot| slots.contains(s) && s < f));
    assert forall|s: Slot| #[trigger]
        is_asked(node.window, asked, s) && s < f implies !refuses(node.window, s, ballot) by {
        assert(slots.contains(s));
    }
    assert forall|s: Slot| node.window.slots.contains_key(s) implies #[trigger] scan.window.slots[s]
        == if is_asked(node.window, asked, s) && s < f && node.window.slots[s] is Open {
        AcceptorView::Open {
            promised: Some(ballot),
            accepted: node.window.slots[s]->accepted,
            voters: node.window.slots[s]->voters,
        }
    } else {
        node.window.slots[s]
    } by {
        assert(slots.contains(s) <==> is_asked(node.window, asked, s));
    }
    f
}

// ACCEPT

/// On an ACCEPT a node notes the ballot and hands its queued proposals over if it follows another
/// node then. What happens to the slot is told by its state: a decided one stays, and the node
/// answers nothing; one that has promised a higher ballot stays, and the node tells the proposer
/// that ballot; every other one promises the ballot and takes the value, unless it has a value of
/// a ballot that is not lower, and the node tells the proposer so.
pub proof fn accepts_are_answered(node: NodeView, slot: Slot, ballot: Ballot, value: Seq<u8>)
    requires
        node.valid(),
        node.ready_for(CommandView::Accept { slot, ballot, value }),
    ensures
        ({
            let after = node.react(CommandView::Accept { slot, ballot, value });
            let handed = handed_over(node, after);
            let window = node.window;
            &&& same_node(node, after)
            &&& notes(node.proposer, after.proposer, ballot)
            &&& hands_over(node, after)
            &&& if is_decided(window, slot) {
                asks(node, after, handed) && same_slots(node, after)
            } else {
                &&& asks(node, after, handed + 2)
                &&& after.window.start == window.start
                &&& after.window.slots.dom() == window.slots.dom().insert(slot)
                &&& after.window.end == if slot < window.end {
                    window.end as int
                } else {
                    slot + 1
                }
                &&& forall|s: Slot|
                    s != slot && window.slots.contains_key(s) ==> #[trigger] after.window.slots[s]
                        == window.slots[s]
                &&& if refuses(window, slot, ballot) {
                    &&& after.window.slots[slot] == window.slots[slot]
                    &&& tells(
                        after,
                        ballot.1,
                        slot,
                        ballot,
                        Phase::Reject,
                        CommandView::Reject {
                            from: node.current,
                            slot,
                            proposed: ballot,
                            preempted: window.slots[slot]->promised->Some_0,
                            phase: Phase::Accept,
                        },
                    )
                } else {
                    let known = known_value(window, slot);
                    let takes = known matches Some((b, _)) ==> below(b, ballot);
                    &&& after.window.slots[slot] == (AcceptorView::Open {
                        promised: Some(ballot),
                        accepted: if takes {
                            Some((ballot, value))
                        } else {
                            known
                        },
                        voters: if takes {
                            Set::empty().insert(node.current)
                        } else {
                            window.slots[slot]->voters
                        },
                    })
                    &&& tells(
                        after,
                        ballot.1,
                        slot,
                        ballot,
                        Phase::Accepted,
                        CommandView::Accepted { from: node.current, slot, ballot },
                    )
                }
            }
        }),
{
    let after = node.react(CommandView::Accept { slot, ballot, value });
    if !is_decided(node.window, slot) {
        assert(after.window.slots.dom() =~= node.window.slots.dom().insert(slot));
    }
}

// REJECT

/// On a REJECT a node notes the ballot that preempts its own: one above all that it has seen, by
/// number or by node, becomes the highest and makes it a follower. A node that follows another
/// one then has sent it all its queued proposals, in order, and has none left. Nothing else
/// changes.
pub proof fn rejects_make_nodes_give_way(
    node: NodeView,
    from: NodeId,
    slot: Slot,
    proposed: Ballot,
    preempted: Ballot,
    phase: Phase,
)
    requires
        node.valid(),
        node.ready_for(CommandView::Reject { from, slot, proposed, preempted, phase }),
    ensures
        ({
            let after = node.react(
                CommandView::Reject { from, slot, proposed, preempted, phase },
            );
            &&& above(preempted, node.proposer.highest) ==> after.proposer.highest == Some(preempted)
                && after.proposer.role is Follower
            &&& above(preempted, node.proposer.highest) && preempted.1 != node.current
                ==> after.proposer.queue.len() == 0 && forall|i: int|
                0 <= i < node.proposer.queue.len() ==> after.asked[node.asked.len() + i] == (
                ActionView::Send {
                    to: preempted.1,
                    key: PaxosKey::ProposalTo(preempted.1),
                    command: CommandView::Proposal(#[trigger] node.proposer.queue[i]),
                })
            &&& notes(node.proposer, after.proposer, preempted)
            &&& hands_over(node, after)
            &&& asks(node, after, handed_over(node, after))
            &&& same_node(node, after)
            &&& same_slots(node, after)
        }),
{
}

// CATCHUP

/// A leader that has decided a slot answers the request for it with the decision, whatever the
/// ballot of the decision, and that is all that changes.
pub proof fn leaders_answer_catchups(
    node: NodeView,
    from: NodeId,
    slot: Slot,
    ballot: Ballot,
    value: Seq<u8>,
)
    requires
        node.valid(),
        node.ready_for(CommandView::Catchup { from, slot }),
        node.proposer.role is Leader,
        decided(node.window, slot, ballot, value),
    ensures
        ({
            let after = node.react(CommandView::Catchup { from, slot });
            &&& tells(
                after,
                from,
                slot,
                ballot,
                Phase::Resolution,
                CommandView::Resolution { slot, ballot, value },
            )
            &&& asks(node, after, 2)
            &&& after == (NodeView { asked: after.asked, ..node })
        }),
{
}

/// Every other request is left without an answer.
pub proof fn other_catchups_are_dropped(node: NodeView, from: NodeId, slot: Slot)
    requires
        node.valid(),
        node.ready_for(CommandView::Catchup { from, slot }),
        !(node.proposer.role is Leader) || !is_decided(node.window, slot),
    ensures
        node.react(CommandView::Catchup { from, slot }) == node,
{
}

// Decisions

/// Whether the slots of a window are in order: those below the open range are decided, its first
/// one is not, its last one is not empty, and those behind it are. It has no slot only where no
/// slot is left.
pub open spec fn in_order(window: WindowView) -> bool {
    &&& window.start <= window.end
    &&& window.start == window.end ==> window.end == u64::MAX
    &&& forall|s: Slot| s < window.start ==> #[trigger] is_decided(window, s)
    &&& window.start < window.end ==> !is_decided(window, window.start)
        && window.slots.contains_key((window.end - 1) as Slot)
    &&& forall|s: Slot| #[trigger] window.slots.contains_key(s) ==> s < window.end
}

/// The slots of a valid window are in order.
pub proof fn windows_are_in_order(window: WindowView)
    requires
        window.valid(),
    ensures
        in_order(window),
{
    assert forall|s: Slot| s < window.start implies #[trigger] is_decided(window, s) by {
        assert(window.is_resolved(s));
    }
}

/// Whether a slot has become decided as a value under a ballot, the open range has moved behind
/// what is decided at its start, and nothing else has changed. Where that leaves no slot, a new
/// one is opened.
pub open spec fn decides(
    before: WindowView,
    after: WindowView,
    slot: Slot,
    ballot: Ballot,
    value: Seq<u8>,
) -> bool {
    &&& in_order(after)
    &&& before.start <= after.start
    &&& decided(after, slot, ballot, value)
    &&& forall|s: Slot| #[trigger]
        before.slots.contains_key(s) && s != slot ==> after.slots.contains_key(s)
            && after.slots[s] == before.slots[s]
    &&& forall|s: Slot| #[trigger]
        after.slots.contains_key(s) && s != slot ==> before.slots.contains_key(s) || (s
            == after.start && s + 1 == after.end && after.slots[s] == (AcceptorView::Open {
            promised: None,
            accepted: None,
            voters: Set::empty(),
        }))
}

/// What deciding a slot does.
proof fn lemma_decides(window: WindowView, slot: Slot, ballot: Ballot, value: Seq<u8>)
    requires
        window.valid(),
        slot < u64::MAX,
        !window.is_resolved(slot),
    ensures
        decides(
            window,
            window.put(slot, AcceptorView::Resolved { ballot, value }).settle(),
            slot,
            ballot,
            value,
        ),
{
    let put = window.put(slot, AcceptorView::Resolved { ballot, value });
    lemma_settle_valid(window, slot, AcceptorView::Resolved { ballot, value });
    lemma_first_undecided(put.slots, put.start, put.end);
    windows_are_in_order(put.settle());
}

/// An ACCEPTED counts if the slot awaits a decision and its value is of that very ballot. Once the
/// nodes that have voted for the value are a quorum, the slot is decided as the value, and the
/// node announces that. It notes the ballot in any case, and nothing else changes.
pub proof fn votes_are_counted(node: NodeView, from: NodeId, slot: Slot, ballot: Ballot)
    requires
        node.valid(),
        node.ready_for(CommandView::Accepted { from, slot, ballot }),
    ensures
        ({
            let after = node.react(CommandView::Accepted { from, slot, ballot });
            let window = node.window;
            let known = known_value(window, slot);
            let voters = window.slots[slot]->voters.insert(from);
            let value = known->Some_0.1;
            &&& same_node(node, after)
            &&& notes(node.proposer, after.proposer, ballot)
            &&& after.proposer.queue == node.proposer.queue
            &&& if !awaits(window, slot) || known is None || known->Some_0.0 != ballot {
                same_slots(node, after) && asks(node, after, 0)
            } else if voters.len() < window.quorum {
                &&& asks(node, after, 0)
                &&& after.window.start == window.start
                &&& after.window.end == window.end
                &&& after.window.slots == window.slots.insert(
                    slot,
                    AcceptorView::Open {
                        promised: window.slots[slot]->promised,
                        accepted: known,
                        voters,
                    },
                )
            } else {
                &&& decides(window, after.window, slot, ballot, value)
                &&& announces(
                    after,
                    node.asked.len() as int,
                    seq![slot],
                    ballot,
                    Phase::Resolution,
                    seq![CommandView::Resolution { slot, ballot, value }],
                )
                &&& asks(node, after, (1 + node.peers.len()) as int)
            }
        }),
{
    let command = CommandView::Accepted { from, slot, ballot };
    let after = node.react(command);
    let window = node.window;
    if awaits(window, slot) {
        let voted = window.slots[slot].vote(window.quorum, from, ballot);
        let put = window.put(slot, voted);
        lemma_first_undecided(put.slots, put.start, put.end);
        if voted is Resolved {
            let value = voted->value;
            lemma_decides(window, slot, ballot, value);
            let learnt = NodeView {
                window: window.vote(slot, from, ballot),
                ..node.observe(ballot)
            };
            lemma_announces_one(
                learnt,
                slot,
                ballot,
                Phase::Resolution,
                CommandView::Resolution { slot, ballot, value },
            );
        } else {
            if slot == window.start {
                assert(put.slots[slot] is Open);
            }
            assert(put.settle() == put);
            if known_value(window, slot) is None || known_value(window, slot)->Some_0.0
                != ballot {
                assert(put.slots =~= window.slots);
            }
        }
    }
}

/// What announcing one command asks for.
proof fn lemma_announces_one(
    node: NodeView,
    slot: Slot,
    ballot: Ballot,
    phase: Phase,
    command: CommandView,
)
    requires
        command.stage() == Some((slot, ballot, phase)),
    ensures
        announces(
            node.announce(command),
            node.asked.len() as int,
            seq![slot],
            ballot,
            phase,
            seq![command],
        ),
        asks(node, node.announce(command), (1 + node.peers.len()) as int),
{
    let commands = seq![command];
    lemma_announces(node, seq![slot], ballot, phase, commands);
    assert(commands.drop_last() =~= Seq::empty());
    assert(node.announce_all(commands) == node.announce(command)) by {
        reveal_with_fuel(NodeView::announced, 2);
    }
}

/// Whether from the action `at` on the decisions of slots are asked for in turn: each has its
/// catchup key moved to the catchup round of the ballot, and the request sent to the leader.
pub open spec fn requests(node: NodeView, at: int, slots: Seq<Slot>, ballot: Ballot) -> bool {
    &&& node.asked.len() == at + 2 * slots.len()
    &&& forall|j: int| #![trigger slots[j]]
        0 <= j < slots.len() ==> {
            let key = PaxosKey::Catchup { slot: slots[j], leader: ballot.1 };
            &&& node.asked[at + 2 * j] == (ActionView::Enter {
                key,
                round: PaxosRound { ballot: ballot.0, phase: Phase::Catchup },
            })
            &&& node.asked[at + 2 * j + 1] == (ActionView::Send {
                to: ballot.1,
                key,
                command: CommandView::Catchup { from: node.current, slot: slots[j] },
            })
        }
}

/// What requests for decisions ask for.
proof fn lemma_requests(node: NodeView, ballot: Ballot, slots: Seq<Slot>)
    requires
        ballot.1 != node.current,
    ensures
        requests(
            node.request_all(ballot.1, ballot, slots),
            node.asked.len() as int,
            slots,
            ballot,
        ),
        asks(node, node.request_all(ballot.1, ballot, slots), (2 * slots.len()) as int),
    decreases slots.len(),
{
    if slots.len() > 0 {
        let earlier = slots.drop_last();
        let before = node.request_all(ballot.1, ballot, earlier);
        let after = node.request_all(ballot.1, ballot, slots);
        let at = node.asked.len() as int;
        lemma_requests(node, ballot, earlier);
        assert forall|j: int| #![trigger slots[j]] 0 <= j < slots.len() implies {
            let key = PaxosKey::Catchup { slot: slots[j], leader: ballot.1 };
            &&& after.asked[at + 2 * j] == (ActionView::Enter {
                key,
                round: PaxosRound { ballot: ballot.0, phase: Phase::Catchup },
            })
            &&& after.asked[at + 2 * j + 1] == (ActionView::Send {
                to: ballot.1,
                key,
                command: CommandView::Catchup { from: node.current, slot: slots[j] },
            })
        } by {
            if j < earlier.len() {
                assert(earlier[j] == slots[j]);
                assert(after.asked[at + 2 * j] == before.asked[at + 2 * j]);
                assert(after.asked[at + 2 * j + 1] == before.asked[at + 2 * j + 1]);
            }
        }
    }
}

/// A node does not ask itself.
proof fn lemma_requests_to_self(node: NodeView, ballot: Ballot, slots: Seq<Slot>)
    requires
        ballot.1 == node.current,
    ensures
        node.request_all(ballot.1, ballot, slots) == node,
    decreases slots.len(),
{
    if slots.len() > 0 {
        lemma_requests_to_self(node, ballot, slots.drop_last());
    }
}

/// On a RESOLUTION a node notes the ballot and hands its queued proposals over if it follows
/// another node then. A slot that is decided stays as it is, and every other one is decided as the
/// value. Where the open range then has more than one slot and the highest ballot seen is of
/// another node, that node is asked for the decision of every slot of the range that is not
/// decided, and of no other, in order. Nothing else changes.
pub proof fn resolutions_are_learnt(node: NodeView, slot: Slot, ballot: Ballot, value: Seq<u8>) -> (
missing: Seq<Slot>)
    requires
        node.valid(),
        node.ready_for(CommandView::Resolution { slot, ballot, value }),
    ensures
        ({
            let after = node.react(CommandView::Resolution { slot, ballot, value });
            let handed = handed_over(node, after);
            let window = after.window;
            let highest = after.proposer.highest->Some_0;
            &&& same_node(node, after)
            &&& notes(node.proposer, after.proposer, ballot)
            &&& after.proposer.highest is Some
            &&& hands_over(node, after)
            &&& if is_decided(node.window, slot) {
                same_slots(node, after)
            } else {
                decides(node.window, window, slot, ballot, value)
            }
            &&& ascends(missing)
            &&& forall|s: Slot| #[trigger]
                missing.contains(s) <==> window.start <= s < window.end && !is_decided(window, s)
            &&& if window.end - window.start > 1 && highest.1 != node.current {
                &&& requests(after, node.asked.len() + handed, missing, highest)
                &&& asks(node, after, handed + 2 * missing.len())
            } else {
                asks(node, after, handed)
            }
        }),
{
    let command = CommandView::Resolution { slot, ballot, value };
    let after = node.react(command);
    let learnt = node.learn(slot, ballot, value);
    let window = learnt.window;
    let highest = learnt.proposer.highest->Some_0;
    let missing = window.missing();
    reactions_only_grow(node, command);
    if !is_decided(node.window, slot) {
        lemma_decides(node.window, slot, ballot, value);
    }
    lemma_open_slots(window);
    lemma_filtered(window.open_slots(), |s: Slot| !window.is_resolved(s));
    if learnt.is_behind() {
        if highest.1 != node.current {
            lemma_requests(learnt, highest, missing);
            assert(hands_over(node, learnt));
            assert forall|i: int| 0 <= i < node.asked.len() + handed_over(node, after) implies #[trigger] after.asked[i]
                == learnt.asked[i] by {}
        } else {
            lemma_requests_to_self(learnt, highest, missing);
        }
    }
    missing
}

/// The decisions of a node are those of the slots below the open range, in order: one for each.
pub proof fn decisions_are_in_order(window: WindowView)
    requires
        window.valid(),
    ensures
        window.decisions().len() == window.start,
        forall|i: int|
            0 <= i < window.start ==> {
                let (slot, value) = #[trigger] window.decisions()[i];
                slot == i && window.slots.contains_key(slot) && (
                window.slots[slot] matches AcceptorView::Resolved { value: v, .. } && v == value)
            },
{
    assert forall|i: int| 0 <= i < window.start implies ({
        let (slot, value) = #[trigger] window.decisions()[i];
        slot == i && window.slots.contains_key(slot) && (
        window.slots[slot] matches AcceptorView::Resolved { value: v, .. } && v == value)
    }) by {
        assert(window.is_resolved(i as Slot));
    }
}

// Periodic steps

/// What the steps of slots are.
proof fn lemma_steps(node: NodeView, slots: Seq<Slot>)
    ensures
        node.steps(slots).len() == 2 * slots.len(),
        forall|k: int| #![trigger slots[k]]
            0 <= k < slots.len() ==> node.steps(slots)[2 * k] == (ActionView::Tick {
                key: PaxosKey::Slot { slot: slots[k], proposer: node.current },
            }) && node.steps(slots)[2 * k + 1] == (ActionView::Tick {
                key: PaxosKey::Catchup { slot: slots[k], leader: node.current },
            }),
    decreases slots.len(),
{
    if slots.len() > 0 {
        let earlier = slots.drop_last();
        lemma_steps(node, earlier);
        assert forall|k: int| #![trigger slots[k]] 0 <= k < slots.len() implies node.steps(slots)[2
            * k] == (ActionView::Tick {
            key: PaxosKey::Slot { slot: slots[k], proposer: node.current },
        }) && node.steps(slots)[2 * k + 1] == (ActionView::Tick {
            key: PaxosKey::Catchup { slot: slots[k], leader: node.current },
        }) by {
            if k < earlier.len() {
                assert(earlier[k] == slots[k]);
            }
        }
    }
}

/// Whether a periodic step has moved the two keys of a slot of the open range, at their turn.
pub open spec fn moves_keys(before: NodeView, after: NodeView, slot: Slot) -> bool {
    let at = before.asked.len() + 2 * (slot - before.window.start);
    &&& after.asked[at] == (ActionView::Tick {
        key: PaxosKey::Slot { slot, proposer: before.current },
    })
    &&& after.asked[at + 1] == (ActionView::Tick {
        key: PaxosKey::Catchup { slot, leader: before.current },
    })
}

/// In a periodic step a node moves the two keys of every slot of its open range one step on, those
/// that stand for its own ballots and for requests to itself, in order. Nothing else changes.
pub proof fn ticks_move_the_keys_of_the_open_range(node: NodeView)
    requires
        node.valid(),
    ensures
        ({
            let after = node.tick_all(node.window.open_slots());
            &&& after == (NodeView { asked: after.asked, ..node })
            &&& asks(node, after, 2 * (node.window.end - node.window.start))
            &&& forall|s: Slot|
                node.window.start <= s < node.window.end ==> #[trigger] moves_keys(node, after, s)
        }),
{
    let slots = node.window.open_slots();
    let after = node.tick_all(slots);
    lemma_steps(node, slots);
    assert(after.asked == node.asked + node.steps(slots));
    assert forall|s: Slot| node.window.start <= s < node.window.end implies #[trigger] moves_keys(
        node,
        after,
        s,
    ) by {
        assert(slots[s - node.window.start] == s);
    }
}

} // verus!
