//! Knowledge only grows: what every reaction of a node keeps.

use crate::acceptor::AcceptorView;
use crate::ballot::{opt_le, Ballot, NodeId, Slot};
use crate::comm::ActionView;
use crate::commands::CommandView;
use crate::model::NodeView;
use crate::proposer::Role;
use crate::window::{lemma_first_undecided, lemma_put_valid, lemma_settle_valid, WindowView};
use vstd::prelude::*;

verus! {

/// The ballot of an optional vote.
pub open spec fn vote_ballot(vote: Option<(Ballot, Seq<u8>)>) -> Option<Ballot> {
    match vote {
        Some((ballot, _)) => Some(ballot),
        None => None,
    }
}

/// Whether one sequence of actions continues another.
pub open spec fn extends(before: Seq<ActionView>, after: Seq<ActionView>) -> bool {
    &&& before.len() <= after.len()
    &&& forall|i: int| 0 <= i < before.len() ==> #[trigger] after[i] == before[i]
}

impl AcceptorView {
    /// Whether `after` knows at least as much: a decision stands, the promised ballot and the
    /// ballot of the accepted value do not fall, and under the same ballot the value stands.
    pub open spec fn grows_to(self, after: AcceptorView) -> bool {
        match (self, after) {
            (AcceptorView::Resolved { .. }, _) => after == self,
            (AcceptorView::Open { .. }, AcceptorView::Resolved { .. }) => true,
            (
                AcceptorView::Open { promised: p, accepted: a, .. },
                AcceptorView::Open { promised: q, accepted: b, .. },
            ) => {
                &&& opt_le(p, q)
                &&& opt_le(vote_ballot(a), vote_ballot(b))
                &&& a is Some && vote_ballot(a) == vote_ballot(b) ==> a == b
            },
        }
    }
}

impl WindowView {
    /// Whether `after` knows at least as much of every slot.
    pub open spec fn grows_to(self, after: WindowView) -> bool {
        &&& after.node == self.node
        &&& after.quorum == self.quorum
        &&& self.start <= after.start
        &&& self.end <= after.end
        &&& forall|slot: Slot| #[trigger]
            self.slots.contains_key(slot) ==> after.slots.contains_key(slot)
                && self.slots[slot].grows_to(after.slots[slot])
    }
}

impl NodeView {
    /// Whether `after` knows at least as much and has asked for more actions at most: the group
    /// and the quorums stay, the highest ballot seen does not fall, and no slot knows less.
    pub open spec fn grows_to(self, after: NodeView) -> bool {
        &&& after.current == self.current
        &&& after.peers == self.peers
        &&& after.proposer.node == self.proposer.node
        &&& after.proposer.quorum == self.proposer.quorum
        &&& opt_le(self.proposer.highest, after.proposer.highest)
        &&& self.window.grows_to(after.window)
        &&& extends(self.asked, after.asked)
    }

    /// Whether `after` differs in having asked for more actions alone.
    pub open spec fn only_asks(self, after: NodeView) -> bool {
        &&& after == (NodeView { asked: after.asked, ..self })
        &&& extends(self.asked, after.asked)
    }
}

/// Acceptors only grow, whatever they react to.
pub proof fn acceptors_only_grow(
    acceptor: AcceptorView,
    me: NodeId,
    quorum: nat,
    from: NodeId,
    ballot: Ballot,
    value: Seq<u8>,
)
    ensures
        acceptor.grows_to(acceptor),
        acceptor.grows_to(acceptor.prepare(ballot)),
        acceptor.grows_to(acceptor.accept(me, ballot, value)),
        acceptor.grows_to(acceptor.notice(me, ballot, value)),
        acceptor.grows_to(acceptor.vote(quorum, from, ballot)),
        acceptor.grows_to(acceptor.resolve(ballot, value)),
{
}

/// Growth of acceptors is transitive.
proof fn lemma_acceptor_growth(a: AcceptorView, b: AcceptorView, c: AcceptorView)
    requires
        a.grows_to(b),
        b.grows_to(c),
    ensures
        a.grows_to(c),
{
}

/// Growth of windows is transitive.
proof fn lemma_window_growth(a: WindowView, b: WindowView, c: WindowView)
    requires
        a.grows_to(b),
        b.grows_to(c),
    ensures
        a.grows_to(c),
{
    assert forall|slot: Slot| #[trigger] a.slots.contains_key(slot) implies c.slots.contains_key(
        slot,
    ) && a.slots[slot].grows_to(c.slots[slot]) by {
        assert(b.slots.contains_key(slot));
        lemma_acceptor_growth(a.slots[slot], b.slots[slot], c.slots[slot]);
    }
}

/// Growth of nodes is transitive.
pub proof fn growth_is_transitive(a: NodeView, b: NodeView, c: NodeView)
    requires
        a.grows_to(b),
        b.grows_to(c),
    ensures
        a.grows_to(c),
{
    lemma_window_growth(a.window, b.window, c.window);
    assert forall|i: int| 0 <= i < a.asked.len() implies #[trigger] c.asked[i] == a.asked[i] by {
        assert(b.asked[i] == a.asked[i]);
    }
}

// Windows

proof fn lemma_window_stays(window: WindowView)
    ensures
        window.grows_to(window),
{
}

/// A window in which an acceptor grows is one that grows, and it stays valid if no slot is newly
/// decided.
proof fn lemma_put_grows(window: WindowView, slot: Slot, acceptor: AcceptorView)
    requires
        window.valid(),
        slot < u64::MAX,
        window.acceptor(slot).grows_to(acceptor),
    ensures
        window.grows_to(window.put(slot, acceptor)),
        window.is_resolved(slot) == acceptor.is_resolved() ==> window.put(slot, acceptor).valid(),
{
    if window.is_resolved(slot) == acceptor.is_resolved() {
        lemma_put_valid(window, slot, acceptor);
    }
}

/// A window in which an acceptor grows and that is then settled is one that grows and stays
/// valid.
proof fn lemma_settle_grows(window: WindowView, slot: Slot, acceptor: AcceptorView)
    requires
        window.valid(),
        slot < u64::MAX,
        window.acceptor(slot).grows_to(acceptor),
    ensures
        window.grows_to(window.put(slot, acceptor).settle()),
        window.put(slot, acceptor).settle().valid(),
{
    let put = window.put(slot, acceptor);
    lemma_put_grows(window, slot, acceptor);
    lemma_settle_valid(window, slot, acceptor);
    lemma_first_undecided(put.slots, put.start, put.end);
    assert(put.grows_to(put.settle()));
    lemma_window_growth(window, put, put.settle());
}

proof fn lemma_notice_grows(window: WindowView, slot: Slot, ballot: Ballot, value: Seq<u8>)
    requires
        window.valid(),
        slot < u64::MAX,
    ensures
        window.grows_to(window.notice(slot, ballot, value)),
        window.notice(slot, ballot, value).valid(),
{
    lemma_put_grows(window, slot, window.acceptor(slot).notice(window.node, ballot, value));
}

proof fn lemma_scan_grows(window: WindowView, slots: Seq<Slot>, ballot: Ballot)
    requires
        window.valid(),
    ensures
        window.grows_to(window.scan(slots, ballot).window),
        window.scan(slots, ballot).window.valid(),
    decreases slots.len(),
{
    if slots.len() > 0 {
        let before = window.scan(slots.drop_last(), ballot).window;
        let slot = slots.last();
        lemma_scan_grows(window, slots.drop_last(), ballot);
        lemma_window_stays(before);
        if before.slots.contains_key(slot) {
            lemma_put_grows(before, slot, before.acceptor(slot).prepare(ballot));
        }
        lemma_window_growth(window, before, window.scan(slots, ballot).window);
    }
}

pub(crate) proof fn lemma_notice_all_grows(
    window: WindowView,
    accepted: Seq<(Slot, Ballot, Seq<u8>)>,
)
    requires
        window.valid(),
        forall|i: int| 0 <= i < accepted.len() ==> (#[trigger] accepted[i]).0 < u64::MAX,
    ensures
        window.grows_to(window.notice_all(accepted)),
        window.notice_all(accepted).valid(),
    decreases accepted.len(),
{
    if accepted.len() > 0 {
        let before = window.notice_all(accepted.drop_last());
        let (slot, ballot, value) = accepted.last();
        assert forall|i: int| 0 <= i < accepted.drop_last().len() implies (
        #[trigger] accepted.drop_last()[i]).0 < u64::MAX by {
            assert(accepted[i].0 < u64::MAX);
        }
        assert(accepted[accepted.len() - 1].0 < u64::MAX);
        lemma_notice_all_grows(window, accepted.drop_last());
        lemma_notice_grows(before, slot, ballot, value);
        lemma_window_growth(window, before, window.notice_all(accepted));
    }
}

/// Placing values opens one slot for each at most.
pub(crate) proof fn lemma_place_all_grows(window: WindowView, ballot: Ballot, values: Seq<Seq<u8>>)
    requires
        window.valid(),
        window.end + values.len() <= u64::MAX,
    ensures
        window.grows_to(window.place_all(ballot, values)),
        window.place_all(ballot, values).valid(),
        window.place_all(ballot, values).end <= window.end + values.len(),
    decreases values.len(),
{
    if values.len() > 0 {
        let before = window.place_all(ballot, values.drop_last());
        lemma_place_all_grows(window, ballot, values.drop_last());
        lemma_notice_grows(before, before.next_slot(), ballot, values.last());
        lemma_window_growth(window, before, window.place_all(ballot, values));
    }
}

pub(crate) proof fn lemma_claim_grows(window: WindowView, ballot: Ballot)
    requires
        window.valid(),
    ensures
        window.grows_to(window.claim(ballot, window.end)),
        window.claim(ballot, window.end).valid(),
{
    let after = window.claim(ballot, window.end);
    assert forall|slot: Slot| slot < after.start implies #[trigger] after.is_resolved(slot) by {
        assert(window.is_resolved(slot));
    }
    assert forall|slot: Slot| #[trigger] after.slots.contains_key(slot) implies slot < after.end by {
        assert(window.slots.contains_key(slot) || window.start <= slot < window.end);
    }
}

// Actions

pub(crate) proof fn lemma_announce_all_asks(node: NodeView, commands: Seq<CommandView>)
    ensures
        node.only_asks(node.announce_all(commands)),
    decreases commands.len(),
{
    if commands.len() > 0 {
        lemma_announce_all_asks(node, commands.drop_last());
        let before = node.announce_all(commands.drop_last());
        assert(before.only_asks(before.announce(commands.last())));
    }
}

proof fn lemma_request_all_asks(node: NodeView, leader: NodeId, ballot: Ballot, slots: Seq<Slot>)
    ensures
        node.only_asks(node.request_all(leader, ballot, slots)),
    decreases slots.len(),
{
    if slots.len() > 0 {
        lemma_request_all_asks(node, leader, ballot, slots.drop_last());
    }
}

/// A node that only asks for more actions grows and stays valid.
proof fn lemma_asking_grows(node: NodeView, before: NodeView, after: NodeView)
    requires
        node.grows_to(before),
        before.valid(),
        before.only_asks(after),
    ensures
        node.grows_to(after),
        after.valid(),
{
    lemma_window_stays(before.window);
    growth_is_transitive(node, before, after);
}

proof fn lemma_forward_grows(node: NodeView)
    requires
        node.valid(),
    ensures
        node.grows_to(node.forward()),
        node.forward().valid(),
        node.forward().window == node.window,
        node.forward().proposer.highest == node.proposer.highest,
{
    lemma_window_stays(node.window);
}

proof fn lemma_observe_grows(node: NodeView, ballot: Ballot)
    requires
        node.valid(),
    ensures
        node.grows_to(node.observe(ballot)),
        node.observe(ballot).valid(),
{
    lemma_window_stays(node.window);
}

proof fn lemma_drive_accept_grows(node: NodeView)
    requires
        node.valid(),
        node.can_drive_accept(),
    ensures
        node.grows_to(node.drive_accept()),
        node.drive_accept().valid(),
{
    lemma_window_stays(node.window);
    if let Role::Leader { proposal } = node.proposer.role {
        let placed = node.window.place_all(proposal, node.proposer.queue);
        lemma_place_all_grows(node.window, proposal, node.proposer.queue);
        lemma_claim_grows(placed, proposal);
        lemma_window_growth(node.window, placed, placed.claim(proposal, placed.end));
        let claimed = NodeView {
            proposer: node.proposer.drained(),
            window: placed.claim(proposal, placed.end),
            ..node
        };
        let commands = placed.missing().map_values(
            |slot: Slot|
                CommandView::Accept { slot, ballot: proposal, value: placed.claim_value(slot) },
        );
        lemma_announce_all_asks(claimed, commands);
        lemma_asking_grows(node, claimed, node.drive_accept());
    }
}

/// Standing for leadership keeps a node valid, and it only grows by it.
pub proof fn standing_for_leadership_only_grows(node: NodeView)
    requires
        node.valid(),
        node.can_propose_leadership(),
    ensures
        node.grows_to(node.propose_leadership()),
        node.propose_leadership().valid(),
{
    lemma_window_stays(node.window);
    match node.proposer.role {
        Role::Candidate { proposal, .. } => {
            lemma_announce_all_asks(
                node,
                node.window.unresolved().map_values(
                    |slot: Slot| CommandView::Prepare { slot, ballot: proposal },
                ),
            );
        },
        Role::Follower => {
            let ballot = node.proposer.next_ballot();
            let standing = NodeView { proposer: node.proposer.prepare(), ..node };
            lemma_announce_all_asks(
                standing,
                standing.window.unresolved().map_values(
                    |slot: Slot| CommandView::Prepare { slot, ballot },
                ),
            );
        },
        Role::Leader { proposal } => {
            lemma_announce_all_asks(
                node,
                node.window.unresolved().map_values(
                    |slot: Slot|
                        CommandView::Accept { slot, ballot: proposal, value: Seq::empty() },
                ),
            );
        },
    }
}

/// A periodic step keeps a node valid, and changes nothing but the actions asked for.
pub proof fn ticks_only_ask(node: NodeView, slots: Seq<Slot>)
    requires
        node.valid(),
    ensures
        node.only_asks(node.tick_all(slots)),
        node.tick_all(slots).valid(),
{
}

/// Every reaction to a command keeps a node valid, and it only grows by it: decisions stand, the
/// promised ballots and those of the accepted values do not fall, nor does the highest ballot
/// seen, and no action asked for is taken back.
pub proof fn reactions_only_grow(node: NodeView, command: CommandView)
    requires
        node.valid(),
        node.ready_for(command),
    ensures
        node.grows_to(node.react(command)),
        node.react(command).valid(),
{
    let window = node.window;
    lemma_window_stays(window);
    match command {
        CommandView::Proposal(value) => match node.proposer.role {
            Role::Follower => {
                let queued = NodeView { proposer: node.proposer.push(value), ..node };
                match node.proposer.highest {
                    Some(h) if h.1 != node.current => {},
                    _ => {
                        standing_for_leadership_only_grows(queued);
                        growth_is_transitive(node, queued, queued.propose_leadership());
                    },
                }
            },
            Role::Candidate { .. } => {},
            Role::Leader { proposal } => {
                lemma_notice_grows(window, window.next_slot(), proposal, value);
            },
        },
        CommandView::Prepare { slot, ballot } => {
            lemma_observe_grows(node, ballot);
            lemma_scan_grows(window, window.promise_slots(slot), ballot);
        },
        CommandView::Promise { from, ballot, accepted, .. } => {
            if node.proposer.role is Candidate {
                let counted = node.count_promise(from, ballot, accepted);
                lemma_notice_all_grows(window, accepted);
                lemma_drive_accept_grows(counted);
                growth_is_transitive(node, counted, counted.drive_accept());
            }
        },
        CommandView::Accept { slot, ballot, value } => {
            let seen = node.observe(ballot);
            lemma_observe_grows(node, ballot);
            lemma_forward_grows(seen);
            growth_is_transitive(node, seen, seen.forward());
            if !window.is_resolved(slot) {
                let after = NodeView {
                    window: window.accept(slot, ballot, value),
                    ..seen.forward()
                };
                lemma_put_grows(
                    window,
                    slot,
                    window.acceptor(slot).accept(window.node, ballot, value),
                );
                lemma_asking_grows(node, after, node.react(command));
            }
        },
        CommandView::Reject { preempted, .. } => {
            let seen = node.observe(preempted);
            lemma_observe_grows(node, preempted);
            lemma_forward_grows(seen);
            growth_is_transitive(node, seen, seen.forward());
        },
        CommandView::Accepted { from, slot, ballot } => {
            lemma_observe_grows(node, ballot);
            if window.is_open(slot) {
                let after = NodeView {
                    window: window.vote(slot, from, ballot),
                    ..node.observe(ballot)
                };
                lemma_settle_grows(
                    window,
                    slot,
                    window.acceptor(slot).vote(window.quorum, from, ballot),
                );
                lemma_asking_grows(node, after, node.react(command));
            }
        },
        CommandView::Resolution { slot, ballot, value } => {
            let seen = node.observe(ballot);
            let learnt = node.learn(slot, ballot, value);
            lemma_observe_grows(node, ballot);
            lemma_forward_grows(seen);
            growth_is_transitive(node, seen, seen.forward());
            if !window.is_resolved(slot) {
                lemma_settle_grows(window, slot, window.acceptor(slot).resolve(ballot, value));
            }
            if learnt.is_behind() {
                lemma_request_all_asks(
                    learnt,
                    learnt.proposer.highest->Some_0.1,
                    learnt.proposer.highest->Some_0,
                    learnt.window.missing(),
                );
            }
            lemma_asking_grows(node, learnt, node.react(command));
        },
        CommandView::Catchup { .. } => {},
    }
}

/// Decisions are final: what is decided for a slot stays decided, and a node that has grown has
/// the same decisions as before, and perhaps more behind them.
pub proof fn decisions_are_final(before: NodeView, after: NodeView, slot: Slot)
    requires
        before.valid(),
        after.valid(),
        before.grows_to(after),
    ensures
        before.window.is_resolved(slot) ==> after.window.is_resolved(slot)
            && after.window.slots[slot].resolution() == before.window.slots[slot].resolution(),
        before.window.decisions() == after.window.decisions().take(before.window.start as int),
{
    assert forall|i: int| 0 <= i < before.window.start implies before.window.decisions()[i]
        == after.window.decisions()[i] by {
        assert(before.window.is_resolved(i as Slot));
        assert(before.window.slots.contains_key(i as Slot));
    }
    assert(before.window.decisions() =~= after.window.decisions().take(
        before.window.start as int,
    ));
}

} // verus!
