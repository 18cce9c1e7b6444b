//! What holds of the actions that nodes ask for: whom they send to, and under which rounds.

use crate::ballot::{opt_le, Ballot, NodeId, Slot};
use crate::comm::ActionView;
use crate::commands::CommandView;
use crate::growth::{
    extends,
    lemma_announce_all_asks,
    reactions_only_grow,
    standing_for_leadership_only_grows,
};
use crate::model::{NodeView, StampCheck};
use crate::proposer::Role;
use crate::round::{PaxosKey, PaxosRound, Phase};
use vstd::prelude::*;

verus! {

/// The round to which the first `upto` actions have moved a key, if they leave no doubt of it.
pub open spec fn round_before(asked: Seq<ActionView>, upto: int, key: PaxosKey) -> Option<
    PaxosRound,
>
    decreases upto,
{
    if upto <= 0 {
        None
    } else {
        match asked[upto - 1] {
            ActionView::Enter { key: k, round } if k == key => Some(round),
            ActionView::Tick { key: k } if k == key => None,
            _ => round_before(asked, upto - 1, key),
        }
    }
}

impl NodeView {
    /// Whether an action may come behind those asked for: a command goes to a peer, under the key
    /// it has to have, and its key has been moved to the round it belongs to.
    pub open spec fn may_ask(self, action: ActionView) -> bool {
        action matches ActionView::Send { to, key, command } ==> {
            &&& self.is_peer(to)
            &&& key == command.key_for(to)
            &&& command.stamp() matches Some((k, round)) ==> round_before(
                self.asked,
                self.asked.len() as int,
                k,
            ) == Some(round)
        }
    }

    /// The state of the node when it had asked for the first `upto` of its actions.
    pub open spec fn asked_upto(self, upto: int) -> NodeView {
        NodeView { asked: self.asked.take(upto), ..self }
    }

    /// Whether each action could come behind those before it.
    pub open spec fn orderly(self) -> bool {
        forall|i: int| 0 <= i < self.asked.len() ==> self.asked_upto(i).may_ask(self.asked[i])
    }
}

/// Later actions do not change what round a key had.
proof fn lemma_round_before(
    before: Seq<ActionView>,
    after: Seq<ActionView>,
    upto: int,
    key: PaxosKey,
)
    requires
        extends(before, after),
        upto <= before.len(),
    ensures
        round_before(after, upto, key) == round_before(before, upto, key),
    decreases upto,
{
    if upto > 0 {
        assert(after[upto - 1] == before[upto - 1]);
        lemma_round_before(before, after, upto - 1, key);
    }
}

/// One more action that may come keeps a node orderly.
proof fn lemma_ask_orderly(node: NodeView, action: ActionView)
    requires
        node.orderly(),
        node.may_ask(action),
    ensures
        node.ask(action).orderly(),
{
    let after = node.ask(action);
    assert forall|i: int| 0 <= i < after.asked.len() implies after.asked_upto(i).may_ask(
        after.asked[i],
    ) by {
        if i < node.asked.len() {
            assert(after.asked_upto(i).asked =~= node.asked_upto(i).asked);
            assert(node.asked_upto(i).may_ask(node.asked[i]));
        } else {
            assert(after.asked_upto(i).asked =~= node.asked);
        }
    }
}

/// After the round of a command has been entered, its key is in that round.
proof fn lemma_enter_orderly(node: NodeView, command: CommandView)
    requires
        node.orderly(),
    ensures
        node.enter(command).orderly(),
        command.stamp() matches Some((key, round)) ==> round_before(
            node.enter(command).asked,
            node.enter(command).asked.len() as int,
            key,
        ) == Some(round),
{
    if let Some((key, round)) = command.stamp() {
        lemma_ask_orderly(node, ActionView::Enter { key, round });
    }
}

proof fn lemma_tell_orderly(node: NodeView, to: NodeId, command: CommandView)
    requires
        node.orderly(),
        node.is_peer(to),
    ensures
        node.tell(to, command).orderly(),
{
    lemma_enter_orderly(node, command);
    lemma_ask_orderly(
        node.enter(command),
        ActionView::Send { to, key: command.key_for(to), command },
    );
}

/// Sends of one command keep a node orderly that is in the round of the command.
proof fn lemma_sends_orderly(node: NodeView, command: CommandView, receivers: Seq<NodeId>)
    requires
        node.orderly(),
        command.stamp() matches Some((key, round)) ==> round_before(
            node.asked,
            node.asked.len() as int,
            key,
        ) == Some(round),
        forall|i: int| 0 <= i < receivers.len() ==> node.is_peer(#[trigger] receivers[i]),
    ensures
        ({
            let after = node.ask_all(
                receivers.map_values(
                    |to: NodeId| ActionView::Send { to, key: command.key_for(to), command },
                ),
            );
            &&& after.orderly()
            &&& command.stamp() matches Some((key, round)) ==> round_before(
                after.asked,
                after.asked.len() as int,
                key,
            ) == Some(round)
        }),
    decreases receivers.len(),
{
    let send = |to: NodeId| ActionView::Send { to, key: command.key_for(to), command };
    let after = node.ask_all(receivers.map_values(send));
    if receivers.len() == 0 {
        assert(after.asked =~= node.asked);
    } else {
        let earlier = receivers.drop_last();
        assert forall|i: int| 0 <= i < earlier.len() implies node.is_peer(#[trigger] earlier[i]) by {
            assert(node.is_peer(receivers[i]));
        }
        lemma_sends_orderly(node, command, earlier);
        let before = node.ask_all(earlier.map_values(send));
        let action = send(receivers.last());
        assert(node.is_peer(receivers[receivers.len() - 1]));
        assert(after.asked =~= before.asked.push(action));
        assert(after == before.ask(action));
        lemma_ask_orderly(before, action);
        if let Some((key, _)) = command.stamp() {
            lemma_round_before(before.asked, after.asked, before.asked.len() as int, key);
        }
    }
}

proof fn lemma_announce_orderly(node: NodeView, command: CommandView)
    requires
        node.orderly(),
    ensures
        node.announce(command).orderly(),
{
    lemma_enter_orderly(node, command);
    lemma_sends_orderly(node.enter(command), command, node.peers);
}

proof fn lemma_announce_all_orderly(node: NodeView, commands: Seq<CommandView>)
    requires
        node.orderly(),
    ensures
        node.announce_all(commands).orderly(),
    decreases commands.len(),
{
    if commands.len() > 0 {
        lemma_announce_all_orderly(node, commands.drop_last());
        lemma_announce_orderly(node.announce_all(commands.drop_last()), commands.last());
    }
}

proof fn lemma_request_all_orderly(
    node: NodeView,
    leader: NodeId,
    ballot: Ballot,
    slots: Seq<Slot>,
)
    requires
        node.orderly(),
        leader == node.current || node.is_peer(leader),
    ensures
        node.request_all(leader, ballot, slots).orderly(),
        node.request_all(leader, ballot, slots).current == node.current,
        node.request_all(leader, ballot, slots).peers == node.peers,
    decreases slots.len(),
{
    if slots.len() > 0 {
        let before = node.request_all(leader, ballot, slots.drop_last());
        let slot = slots.last();
        lemma_request_all_orderly(node, leader, ballot, slots.drop_last());
        if leader != node.current {
            let enter = ActionView::Enter {
                key: PaxosKey::Catchup { slot, leader },
                round: PaxosRound { ballot: ballot.0, phase: Phase::Catchup },
            };
            let command = CommandView::Catchup { from: node.current, slot };
            lemma_ask_orderly(before, enter);
            lemma_ask_orderly(
                before.ask(enter),
                ActionView::Send { to: leader, key: command.key_for(leader), command },
            );
        }
    }
}

proof fn lemma_forward_orderly(node: NodeView)
    requires
        node.orderly(),
        node.can_forward(),
    ensures
        node.forward().orderly(),
{
    if node.proposer.role is Follower && node.proposer.queue.len() > 0 {
        if let Some(h) = node.proposer.highest {
            if h.1 != node.current {
                let drained = NodeView { proposer: node.proposer.drained(), ..node };
                assert(drained.orderly()) by {
                    assert forall|i: int| 0 <= i < drained.asked.len() implies drained.asked_upto(
                        i,
                    ).may_ask(drained.asked[i]) by {
                        assert(node.asked_upto(i).may_ask(node.asked[i]));
                    }
                }
                lemma_proposals_orderly(drained, h.1, node.proposer.queue);
            }
        } else {
            lemma_same_actions_orderly(node, node.forward());
        }
    }
}

/// Sends of proposals to a peer keep a node orderly.
proof fn lemma_proposals_orderly(node: NodeView, to: NodeId, values: Seq<Seq<u8>>)
    requires
        node.orderly(),
        node.is_peer(to),
    ensures
        node.ask_all(
            values.map_values(
                |value: Seq<u8>|
                    ActionView::Send {
                        to,
                        key: PaxosKey::ProposalTo(to),
                        command: CommandView::Proposal(value),
                    },
            ),
        ).orderly(),
    decreases values.len(),
{
    let send = |value: Seq<u8>|
        ActionView::Send {
            to,
            key: PaxosKey::ProposalTo(to),
            command: CommandView::Proposal(value),
        };
    let after = node.ask_all(values.map_values(send));
    if values.len() == 0 {
        assert(after.asked =~= node.asked);
    } else {
        lemma_proposals_orderly(node, to, values.drop_last());
        let before = node.ask_all(values.drop_last().map_values(send));
        assert(after.asked =~= before.asked.push(send(values.last())));
        lemma_ask_orderly(before, send(values.last()));
    }
}

/// Whether a node is orderly depends on its peers and its actions alone.
proof fn lemma_same_actions_orderly(node: NodeView, other: NodeView)
    requires
        node.orderly(),
        other.peers == node.peers,
        other.asked == node.asked,
    ensures
        other.orderly(),
{
    assert forall|i: int| 0 <= i < other.asked.len() implies other.asked_upto(i).may_ask(
        other.asked[i],
    ) by {
        assert(node.asked_upto(i).may_ask(node.asked[i]));
    }
}

/// Standing for leadership keeps a node orderly.
pub proof fn standing_for_leadership_stays_orderly(node: NodeView)
    requires
        node.orderly(),
    ensures
        node.propose_leadership().orderly(),
{
    match node.proposer.role {
        Role::Candidate { proposal, .. } => {
            lemma_announce_all_orderly(
                node,
                node.window.unresolved().map_values(
                    |slot: Slot| CommandView::Prepare { slot, ballot: proposal },
                ),
            );
        },
        Role::Follower => {
            let ballot = node.proposer.next_ballot();
            let standing = NodeView { proposer: node.proposer.prepare(), ..node };
            lemma_same_actions_orderly(node, standing);
            lemma_announce_all_orderly(
                standing,
                standing.window.unresolved().map_values(
                    |slot: Slot| CommandView::Prepare { slot, ballot },
                ),
            );
        },
        Role::Leader { proposal } => {
            lemma_announce_all_orderly(
                node,
                node.window.unresolved().map_values(
                    |slot: Slot|
                        CommandView::Accept { slot, ballot: proposal, value: Seq::empty() },
                ),
            );
        },
    }
}

/// A periodic step keeps a node orderly.
pub proof fn ticks_stay_orderly(node: NodeView, slots: Seq<Slot>)
    requires
        node.orderly(),
    ensures
        node.tick_all(slots).orderly(),
    decreases slots.len(),
{
    if slots.len() > 0 {
        let before = node.tick_all(slots.drop_last());
        let slot = slots.last();
        let tick = ActionView::Tick { key: PaxosKey::Slot { slot, proposer: node.current } };
        ticks_stay_orderly(node, slots.drop_last());
        lemma_ask_orderly(before, tick);
        lemma_ask_orderly(
            before.ask(tick),
            ActionView::Tick { key: PaxosKey::Catchup { slot, leader: node.current } },
        );
    }
}

/// Every reaction to a command keeps a node orderly: it sends to peers only and never to itself,
/// each command under the key it has to have, and a command that belongs to a round only once its
/// key has been moved to that very round.
pub proof fn reactions_stay_orderly(node: NodeView, command: CommandView)
    requires
        node.valid(),
        node.ready_for(command),
        node.orderly(),
    ensures
        node.react(command).orderly(),
{
    match command {
        CommandView::Proposal(value) => {
            let queued = NodeView { proposer: node.proposer.push(value), ..node };
            lemma_same_actions_orderly(node, queued);
            match node.proposer.role {
                Role::Follower => match node.proposer.highest {
                    Some(h) if h.1 != node.current => {
                        lemma_ask_orderly(
                            node,
                            ActionView::Send { to: h.1, key: command.key_for(h.1), command },
                        );
                    },
                    _ => {
                        standing_for_leadership_stays_orderly(queued);
                    },
                },
                Role::Candidate { .. } => {},
                Role::Leader { proposal } => {
                    let slot = node.window.next_slot();
                    let noticed = NodeView {
                        window: node.window.notice(slot, proposal, value),
                        ..node
                    };
                    lemma_same_actions_orderly(node, noticed);
                    lemma_announce_orderly(
                        noticed,
                        CommandView::Accept { slot, ballot: proposal, value },
                    );
                },
            }
        },
        CommandView::Prepare { slot, ballot } => {
            let scan = node.window.scan(node.window.promise_slots(slot), ballot);
            let after = NodeView { window: scan.window, ..node.observe(ballot) };
            lemma_same_actions_orderly(node, after);
            let answer = match scan.preempted {
                Some(preempted) => CommandView::Reject {
                    from: node.current,
                    slot,
                    proposed: ballot,
                    preempted,
                    phase: Phase::Prepare,
                },
                None => CommandView::Promise {
                    from: node.current,
                    slot,
                    ballot,
                    accepted: scan.accepted,
                },
            };
            lemma_tell_orderly(after, ballot.1, answer);
        },
        CommandView::Promise { from, ballot, accepted, .. } => {
            let counted = node.count_promise(from, ballot, accepted);
            if node.proposer.role is Candidate {
                lemma_same_actions_orderly(node, counted);
                if let Role::Leader { proposal } = counted.proposer.role {
                    let placed = counted.window.place_all(proposal, counted.proposer.queue);
                    let claimed = NodeView {
                        proposer: counted.proposer.drained(),
                        window: placed.claim(proposal, placed.end),
                        ..counted
                    };
                    lemma_same_actions_orderly(counted, claimed);
                    lemma_announce_all_orderly(
                        claimed,
                        placed.missing().map_values(
                            |slot: Slot|
                                CommandView::Accept {
                                    slot,
                                    ballot: proposal,
                                    value: placed.claim_value(slot),
                                },
                        ),
                    );
                }
            }
        },
        CommandView::Accept { slot, ballot, value } => {
            let seen = node.observe(ballot);
            lemma_same_actions_orderly(node, seen);
            lemma_forward_orderly(seen);
            if !node.window.is_resolved(slot) {
                let after = NodeView {
                    window: node.window.accept(slot, ballot, value),
                    ..seen.forward()
                };
                lemma_same_actions_orderly(seen.forward(), after);
                match node.window.acceptor(slot).preempting(ballot) {
                    Some(preempted) => {
                        lemma_tell_orderly(
                            after,
                            ballot.1,
                            CommandView::Reject {
                                from: node.current,
                                slot,
                                proposed: ballot,
                                preempted,
                                phase: Phase::Accept,
                            },
                        );
                    },
                    None => {
                        lemma_tell_orderly(
                            after,
                            ballot.1,
                            CommandView::Accepted { from: node.current, slot, ballot },
                        );
                    },
                }
            }
        },
        CommandView::Reject { preempted, .. } => {
            lemma_same_actions_orderly(node, node.observe(preempted));
            lemma_forward_orderly(node.observe(preempted));
        },
        CommandView::Accepted { from, slot, ballot } => {
            let seen = node.observe(ballot);
            lemma_same_actions_orderly(node, seen);
            if node.window.is_open(slot) {
                let after = NodeView { window: node.window.vote(slot, from, ballot), ..seen };
                let voted = node.window.acceptor(slot).vote(node.window.quorum, from, ballot);
                lemma_same_actions_orderly(seen, after);
                if let Some((_, value)) = voted.resolution() {
                    lemma_announce_orderly(
                        after,
                        CommandView::Resolution { slot, ballot, value },
                    );
                }
            }
        },
        CommandView::Resolution { slot, ballot, value } => {
            let seen = node.observe(ballot);
            let learnt = node.learn(slot, ballot, value);
            lemma_same_actions_orderly(node, seen);
            lemma_forward_orderly(seen);
            lemma_same_actions_orderly(seen.forward(), learnt);
            if learnt.is_behind() {
                lemma_request_all_orderly(
                    learnt,
                    learnt.proposer.highest->Some_0.1,
                    learnt.proposer.highest->Some_0,
                    learnt.window.missing(),
                );
            }
        },
        CommandView::Catchup { from, slot } => {
            if node.is_leader() && node.window.is_resolved(slot) {
                let (ballot, value) = node.window.slots[slot].resolution()->Some_0;
                lemma_tell_orderly(node, from, CommandView::Resolution { slot, ballot, value });
            }
        },
    }
}

/// What an orderly node sends passes the check of its receiver: a command that belongs to a round
/// arrives with the stamp it has to have, and of the others the round does not matter.
pub proof fn sent_commands_pass_the_check(
    sender: NodeView,
    i: int,
    receiver: NodeView,
    round: PaxosRound,
)
    requires
        sender.orderly(),
        0 <= i < sender.asked.len(),
        sender.asked[i] is Send,
        sender.asked[i]->to == receiver.current,
        round_before(sender.asked, i, sender.asked[i]->Send_key) is Some ==> round_before(
            sender.asked,
            i,
            sender.asked[i]->Send_key,
        ) == Some(round),
    ensures
        ({
            let (key, command) = (sender.asked[i]->Send_key, sender.asked[i]->command);
            let check = receiver.check_stamp(key, round, command);
            check == if command.stamp() is Some {
                StampCheck::InRound
            } else {
                StampCheck::Free
            }
        }),
{
    let action = sender.asked[i];
    assert(sender.asked_upto(i).may_ask(action));
    lemma_round_before(sender.asked.take(i), sender.asked, i, action->Send_key);
}

/// The stamp of a command that belongs to a round holds the key under which the command travels,
/// whoever receives it, and the round that it belongs to.
pub proof fn stamps_hold_the_travel_key(command: CommandView, receiver: NodeId)
    ensures
        command.stamp() matches Some((key, round)) ==> key == command.key_for(receiver)
            && command.round() == Some(round),
        command.stamp() is None <==> command.round() is None,
        command.stamp() is None <==> command is Proposal || command is Catchup,
{
}

// Rounds do not go back

/// The rounds that announcements enter are those of the announced commands.
proof fn lemma_announced_rounds(node: NodeView, commands: Seq<CommandView>, i: int) -> (j: int)
    requires
        node.asked.len() <= i < node.announce_all(commands).asked.len(),
        node.announce_all(commands).asked[i] is Enter,
    ensures
        0 <= j < commands.len(),
        commands[j].stamp() == Some(
            (
                node.announce_all(commands).asked[i]->Enter_key,
                node.announce_all(commands).asked[i]->round,
            ),
        ),
    decreases commands.len(),
{
    let before = node.announce_all(commands.drop_last());
    let command = commands.last();
    lemma_announce_all_asks(node, commands.drop_last());
    if i < before.asked.len() {
        assert(before.asked[i] == node.announce_all(commands).asked[i]);
        lemma_announced_rounds(node, commands.drop_last(), i)
    } else {
        commands.len() - 1
    }
}

/// The rounds that catchup requests enter are those of the ballot and of the catchup keys of the
/// leader.
proof fn lemma_requested_rounds(
    node: NodeView,
    leader: NodeId,
    ballot: Ballot,
    slots: Seq<Slot>,
    i: int,
)
    requires
        node.asked.len() <= i < node.request_all(leader, ballot, slots).asked.len(),
        node.request_all(leader, ballot, slots).asked[i] is Enter,
    ensures
        node.request_all(leader, ballot, slots).asked[i]->Enter_key is Catchup,
        node.request_all(leader, ballot, slots).asked[i]->Enter_key.node() == leader,
        node.request_all(leader, ballot, slots).asked[i]->round == (PaxosRound {
            ballot: ballot.0,
            phase: Phase::Catchup,
        }),
    decreases slots.len(),
{
    if slots.len() > 0 {
        let before = node.request_all(leader, ballot, slots.drop_last());
        if i < before.asked.len() {
            lemma_requested_rounds(node, leader, ballot, slots.drop_last(), i);
        }
    }
}

/// A reaction does not move the key of the command into the past: whatever round of that key it
/// enters, that round is not before the one that the command belongs to.
pub proof fn reactions_do_not_go_back(node: NodeView, command: CommandView, i: int)
    requires
        node.valid(),
        node.ready_for(command),
        command.stamp() is Some,
        node.asked.len() <= i < node.react(command).asked.len(),
        node.react(command).asked[i] is Enter,
        node.react(command).asked[i]->Enter_key == command.stamp()->Some_0.0,
    ensures
        !node.react(command).asked[i]->round.lt(command.stamp()->Some_0.1),
{
    match command {
        CommandView::Promise { from, ballot, accepted, .. } => {
            let counted = node.count_promise(from, ballot, accepted);
            if let Role::Leader { proposal } = counted.proposer.role {
                let placed = counted.window.place_all(proposal, counted.proposer.queue);
                let claimed = NodeView {
                    proposer: counted.proposer.drained(),
                    window: placed.claim(proposal, placed.end),
                    ..counted
                };
                let j = lemma_announced_rounds(
                    claimed,
                    placed.missing().map_values(
                        |slot: Slot|
                            CommandView::Accept {
                                slot,
                                ballot: proposal,
                                value: placed.claim_value(slot),
                            },
                    ),
                    i,
                );
            }
        },
        CommandView::Resolution { slot, ballot, value } => {
            let learnt = node.learn(slot, ballot, value);
            if learnt.is_behind() && i >= learnt.asked.len() {
                lemma_requested_rounds(
                    learnt,
                    learnt.proposer.highest->Some_0.1,
                    learnt.proposer.highest->Some_0,
                    learnt.window.missing(),
                    i,
                );
            } else if learnt.is_behind() {
                lemma_request_all_extends(
                    learnt,
                    learnt.proposer.highest->Some_0.1,
                    learnt.proposer.highest->Some_0,
                    learnt.window.missing(),
                );
            }
        },
        _ => {},
    }
}

pub(crate) proof fn lemma_request_all_extends(
    node: NodeView,
    leader: NodeId,
    ballot: Ballot,
    slots: Seq<Slot>,
)
    ensures
        extends(node.asked, node.request_all(leader, ballot, slots).asked),
    decreases slots.len(),
{
    if slots.len() > 0 {
        lemma_request_all_extends(node, leader, ballot, slots.drop_last());
    }
}

/// Whether an action that moves a catchup key moves it to the catchup round of a ballot of the
/// leader that has been seen.
pub open spec fn catchup_seen(action: ActionView, highest: Option<Ballot>) -> bool {
    action is Enter && action->Enter_key is Catchup ==> {
        &&& action->round.phase == Phase::Catchup
        &&& opt_le(Some(Ballot(action->round.ballot, action->Enter_key.node())), highest)
    }
}

impl NodeView {
    /// Whether the catchup keys have been moved to rounds of ballots alone that the node has seen.
    pub open spec fn catchups_seen(self) -> bool {
        forall|i: int|
            0 <= i < self.asked.len() ==> catchup_seen(
                #[trigger] self.asked[i],
                self.proposer.highest,
            )
    }
}

/// A reaction moves a catchup key to the round of the highest ballot seen alone, and that is one
/// of the leader it asks.
pub proof fn catchups_enter_the_highest_round(node: NodeView, command: CommandView, i: int)
    requires
        node.valid(),
        node.ready_for(command),
        node.asked.len() <= i < node.react(command).asked.len(),
        node.react(command).asked[i] is Enter,
        node.react(command).asked[i]->Enter_key is Catchup,
    ensures
        ({
            let after = node.react(command);
            after.proposer.highest == Some(
                Ballot(after.asked[i]->round.ballot, after.asked[i]->Enter_key.node()),
            ) && after.asked[i]->round.phase == Phase::Catchup
        }),
{
    match command {
        CommandView::Proposal(value) => {
            let queued = NodeView { proposer: node.proposer.push(value), ..node };
            match node.proposer.role {
                Role::Follower => match node.proposer.highest {
                    Some(h) if h.1 != node.current => {},
                    _ => {
                        standing_requests_nothing(queued, i);
                    },
                },
                _ => {},
            }
        },
        CommandView::Promise { from, ballot, accepted, .. } => {
            let counted = node.count_promise(from, ballot, accepted);
            if let Role::Leader { proposal } = counted.proposer.role {
                let placed = counted.window.place_all(proposal, counted.proposer.queue);
                let claimed = NodeView {
                    proposer: counted.proposer.drained(),
                    window: placed.claim(proposal, placed.end),
                    ..counted
                };
                let j = lemma_announced_rounds(
                    claimed,
                    placed.missing().map_values(
                        |slot: Slot|
                            CommandView::Accept {
                                slot,
                                ballot: proposal,
                                value: placed.claim_value(slot),
                            },
                    ),
                    i,
                );
            }
        },
        CommandView::Resolution { slot, ballot, value } => {
            let learnt = node.learn(slot, ballot, value);
            if learnt.is_behind() {
                let highest = learnt.proposer.highest->Some_0;
                let missing = learnt.window.missing();
                lemma_request_all_extends(learnt, highest.1, highest, missing);
                if i >= learnt.asked.len() {
                    lemma_requested_rounds(learnt, highest.1, highest, missing, i);
                }
            }
        },
        _ => {},
    }
}

/// Standing for leadership moves no catchup key.
pub proof fn standing_requests_nothing(node: NodeView, i: int)
    requires
        node.asked.len() <= i < node.propose_leadership().asked.len(),
        node.propose_leadership().asked[i] is Enter,
    ensures
        node.propose_leadership().asked[i]->Enter_key is Slot,
{
    let slots = node.window.unresolved();
    match node.proposer.role {
        Role::Candidate { proposal, .. } => {
            let j = lemma_announced_rounds(
                node,
                slots.map_values(|slot: Slot| CommandView::Prepare { slot, ballot: proposal }),
                i,
            );
        },
        Role::Follower => {
            let ballot = node.proposer.next_ballot();
            let j = lemma_announced_rounds(
                NodeView { proposer: node.proposer.prepare(), ..node },
                slots.map_values(|slot: Slot| CommandView::Prepare { slot, ballot }),
                i,
            );
        },
        Role::Leader { proposal } => {
            let j = lemma_announced_rounds(
                node,
                slots.map_values(
                    |slot: Slot|
                        CommandView::Accept { slot, ballot: proposal, value: Seq::empty() },
                ),
                i,
            );
        },
    }
}

/// In all that a node does, its catchup keys move to rounds of ballots alone that it has seen: in
/// its reactions, when it stands for leadership, and in its periodic steps.
pub proof fn catchups_stay_seen(node: NodeView, command: CommandView, slots: Seq<Slot>)
    requires
        node.valid(),
        node.catchups_seen(),
    ensures
        node.ready_for(command) ==> node.react(command).catchups_seen(),
        node.can_propose_leadership() ==> node.propose_leadership().catchups_seen(),
        node.tick_all(slots).catchups_seen(),
{
    if node.ready_for(command) {
        let after = node.react(command);
        reactions_only_grow(node, command);
        assert forall|i: int| 0 <= i < after.asked.len() implies catchup_seen(
            #[trigger] after.asked[i],
            after.proposer.highest,
        ) by {
            if i < node.asked.len() {
                assert(after.asked[i] == node.asked[i]);
            } else if after.asked[i] is Enter && after.asked[i]->Enter_key is Catchup {
                catchups_enter_the_highest_round(node, command, i);
            }
        }
    }
    if node.can_propose_leadership() {
        let after = node.propose_leadership();
        standing_for_leadership_only_grows(node);
        assert forall|i: int| 0 <= i < after.asked.len() implies catchup_seen(
            #[trigger] after.asked[i],
            after.proposer.highest,
        ) by {
            if i < node.asked.len() {
                assert(after.asked[i] == node.asked[i]);
            } else if after.asked[i] is Enter {
                standing_requests_nothing(node, i);
            }
        }
    }
    lemma_steps_only_tick(node, slots);
    let after = node.tick_all(slots);
    assert forall|i: int| 0 <= i < after.asked.len() implies catchup_seen(
        #[trigger] after.asked[i],
        after.proposer.highest,
    ) by {
        if i < node.asked.len() {
            assert(after.asked[i] == node.asked[i]);
        } else {
            assert(after.asked[i] == node.steps(slots)[i - node.asked.len()]);
        }
    }
}

pub(crate) proof fn lemma_steps_only_tick(node: NodeView, slots: Seq<Slot>)
    ensures
        forall|i: int| 0 <= i < node.steps(slots).len() ==> (#[trigger] node.steps(slots)[i]) is Tick,
    decreases slots.len(),
{
    if slots.len() > 0 {
        lemma_steps_only_tick(node, slots.drop_last());
    }
}

/// A reaction does not move a catchup key into the past: whatever round of such a key it enters,
/// that round is not before one that the key was moved to earlier, by an action that still waits
/// or by one that was taken over.
pub proof fn catchups_do_not_go_back(
    node: NodeView,
    command: CommandView,
    earlier: ActionView,
    i: int,
)
    requires
        node.valid(),
        node.ready_for(command),
        catchup_seen(earlier, node.proposer.highest),
        node.asked.len() <= i < node.react(command).asked.len(),
        node.react(command).asked[i] is Enter,
        node.react(command).asked[i]->Enter_key is Catchup,
        earlier is Enter,
        earlier->Enter_key == node.react(command).asked[i]->Enter_key,
    ensures
        !node.react(command).asked[i]->round.lt(earlier->round),
{
    reactions_only_grow(node, command);
    catchups_enter_the_highest_round(node, command, i);
}

/// Rounds are totally ordered: by ballot number first and by phase second.
pub proof fn rounds_are_totally_ordered(a: PaxosRound, b: PaxosRound, c: PaxosRound)
    ensures
        !a.lt(a),
        a.lt(b) && b.lt(c) ==> a.lt(c),
        a == b || a.lt(b) || b.lt(a),
        !(a.lt(b) && b.lt(a)),
{
}

} // verus!
