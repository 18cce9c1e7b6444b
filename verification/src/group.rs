//! Agreement in a group: nodes that send each other commands, which may be delayed, lost, repeated
//! and reordered, do not decide different values for a slot.
//!
//! That rests on three things that a run of the group has to keep to for the slot. A leader does
//! not renew its leadership while the slot is open at it, unless it has proposed the empty value
//! there: renewing would give its ballot a second value. A node does not vote for a ballot that
//! is lower than one it has promised, as it would where the slot was empty when it promised. And
//! a candidate that has not decided the slot does not count a promise of a node that had decided
//! it and kept that to itself.

use crate::acceptor::AcceptorView;
use crate::agreement::{
    chosen_values_agree,
    events_keep_instances_safe,
    highest_report,
    instances_start_safe,
    Event,
    Instance,
};
use crate::ballot::{opt_le, Ballot, NodeId, Slot};
use crate::comm::ActionView;
use crate::commands::CommandView;
use crate::events::{
    leaders_propose,
    lemma_place_all_slot,
    promises_cover_the_slots,
    promises_with,
};
use crate::growth::{
    extends,
    lemma_announce_all_asks,
    lemma_notice_all_grows,
    lemma_place_all_grows,
    reactions_only_grow,
    standing_for_leadership_only_grows,
    ticks_only_ask,
    vote_ballot,
};
use crate::model::NodeView;
use crate::proposer::Role;
use crate::quorum::highest_reported_value_stays;
use crate::stamps::{lemma_request_all_extends, lemma_steps_only_tick};
use crate::window::WindowView;
use vstd::prelude::*;

verus! {

/// A group of nodes.
pub struct Group {
    pub members: Set<NodeId>,
    pub nodes: Map<NodeId, NodeView>,
    /// The promises of a ballot that a node has given without reporting its decision of a slot.
    pub withheld: Set<(NodeId, Ballot, Slot)>,
}

/// What can happen in a group.
pub enum Step {
    /// A command reaches a node.
    Receive { node: NodeId, command: CommandView },
    /// A node stands for leadership.
    Stand { node: NodeId },
    /// A node makes a periodic step.
    Tick { node: NodeId, slots: Seq<Slot> },
}

/// Whether a node that answers a PREPARE for the slot `asked` with a promise has decided `slot`
/// and does not report it.
pub open spec fn withholds(node: NodeView, asked: Slot, ballot: Ballot, slot: Slot) -> bool {
    &&& node.window.is_resolved(slot)
    &&& slot < node.window.start
    &&& slot != asked
    &&& node.window.scan(node.window.promise_slots(asked), ballot).preempted is None
}

/// Whether the peers of a node are the other members.
pub open spec fn knows_members(node: NodeView, members: Set<NodeId>, id: NodeId) -> bool {
    &&& node.peers.no_duplicates()
    &&& forall|m: NodeId| #[trigger] node.is_peer(m) <==> members.contains(m) && m != id
}

/// Whether standing for leadership gives no ballot a second value in a slot: a leader renews its
/// leadership while the slot is not open at it, or has proposed the empty value there.
pub open spec fn renews_safely(node: NodeView, slot: Slot) -> bool {
    node.is_leader() && node.window.is_open(slot) ==> node.window.acceptor(slot).highest_value()
        == Some((node.proposer.role->Leader_proposal, Seq::<u8>::empty()))
}

/// Whether a node has sent a promise for a higher ballot than `ballot`.
pub open spec fn has_promised_higher(node: NodeView, ballot: Ballot) -> bool {
    exists|i: int|
        0 <= i < node.asked.len() && is_promise(#[trigger] node.asked[i]) && ballot.lt(
            node.asked[i]->command->Promise_ballot,
        )
}

/// Whether an action sends a promise.
pub open spec fn is_promise(action: ActionView) -> bool {
    action is Send && action->command is Promise
}

/// Whether a report for a slot is what a promise says of it.
pub open spec fn reports(
    accepted: Seq<(Slot, Ballot, Seq<u8>)>,
    slot: Slot,
    report: Option<(Ballot, Seq<u8>)>,
) -> bool {
    forall|b: Ballot, v: Seq<u8>| #[trigger]
        accepted.contains((slot, b, v)) <==> report == Some((b, v))
}

impl Step {
    /// The node that makes the step.
    pub open spec fn node(self) -> NodeId {
        match self {
            Step::Receive { node, .. } => node,
            Step::Stand { node } => node,
            Step::Tick { node, .. } => node,
        }
    }
}

impl Group {
    /// Whether nothing has happened yet.
    pub open spec fn starting(self) -> bool {
        &&& self.members.finite()
        &&& self.withheld.is_empty()
        &&& forall|n: NodeId| #[trigger]
            self.members.contains(n) ==> knows_members(self.nodes[n], self.members, n)
                && self.nodes[n] == NodeView::fresh(n, self.nodes[n].peers, Seq::empty())
    }

    /// Whether a member has sent a command to a node.
    pub open spec fn has_sent(self, to: NodeId, command: CommandView) -> bool {
        exists|from: NodeId, i: int|
            self.members.contains(from) && 0 <= i < self.nodes[from].asked.len() && carries(
                #[trigger] self.nodes[from].asked[i],
                to,
                command,
            )
    }

    /// Whether a step can be made. Proposals may come from outside; every other command that
    /// reaches a node has been sent to it.
    pub open spec fn can(self, step: Step) -> bool {
        &&& self.members.contains(step.node())
        &&& match step {
            Step::Receive { node, command } => self.nodes[node].ready_for(command) && (
            command is Proposal || self.has_sent(node, command)),
            Step::Stand { node } => self.nodes[node].can_propose_leadership(),
            Step::Tick { .. } => true,
        }
    }

    /// The group after a step.
    pub open spec fn after(self, step: Step) -> Group {
        match step {
            Step::Receive { node, command } => Group {
                nodes: self.nodes.insert(node, self.nodes[node].react(command)),
                withheld: match command {
                    CommandView::Prepare { slot: asked, ballot } => self.withheld.union(
                        Set::new(
                            |w: (NodeId, Ballot, Slot)|
                                w.0 == node && w.1 == ballot && withholds(
                                    self.nodes[node],
                                    asked,
                                    ballot,
                                    w.2,
                                ),
                        ),
                    ),
                    _ => self.withheld,
                },
                ..self
            },
            Step::Stand { node } => Group {
                nodes: self.nodes.insert(node, self.nodes[node].propose_leadership()),
                ..self
            },
            Step::Tick { node, slots } => Group {
                nodes: self.nodes.insert(node, self.nodes[node].tick_all(slots)),
                ..self
            },
        }
    }

    /// Whether a step keeps to what agreement on a slot rests on.
    pub open spec fn keeps_to(self, step: Step, slot: Slot) -> bool {
        let node = self.nodes[step.node()];
        match step {
            // a leader does not renew its leadership while the slot is open at it, unless it has
            // proposed the empty value there
            Step::Stand { .. } => renews_safely(node, slot),
            // a node does not vote for a lower ballot than one it has promised
            Step::Receive { command: CommandView::Accept { slot: s, ballot, .. }, .. } => s == slot
                && node.window.acceptor(slot).accept_reply(ballot) is Accepted
                ==> !has_promised_higher(node, ballot),
            // a candidate that has not decided the slot does not count a promise that says
            // nothing of it while its sender had decided it
            Step::Receive { command: CommandView::Promise { from, ballot, accepted, .. }, .. } => (
            node.proposer.role matches Role::Candidate { proposal, .. } && proposal == ballot)
                && self.withheld.contains((from, ballot, slot)) && reports(accepted, slot, None)
                ==> node.window.is_resolved(slot),
            _ => true,
        }
    }

    /// The group after steps one after the other.
    pub open spec fn after_all(self, steps: Seq<Step>) -> Group
        decreases steps.len(),
    {
        if steps.len() == 0 {
            self
        } else {
            self.after_all(steps.drop_last()).after(steps.last())
        }
    }

    /// Whether steps can be made one after the other, and keep to what agreement on a slot rests
    /// on.
    pub open spec fn runs(self, steps: Seq<Step>, slot: Slot) -> bool
        decreases steps.len(),
    {
        steps.len() > 0 ==> {
            let before = self.after_all(steps.drop_last());
            &&& self.runs(steps.drop_last(), slot)
            &&& before.can(steps.last())
            &&& before.keeps_to(steps.last(), slot)
        }
    }
}

/// Whether an action sends a command to a node.
pub open spec fn carries(action: ActionView, to: NodeId, command: CommandView) -> bool {
    action is Send && action->to == to && action->command == command
}

// How the nodes stand to what happens to the slot

/// Whether a promise says of the slot what was reported with it, or keeps a decision to itself.
spec fn speaks_for(
    instance: Instance,
    withheld: Set<(NodeId, Ballot, Slot)>,
    slot: Slot,
    from: NodeId,
    ballot: Ballot,
    accepted: Seq<(Slot, Ballot, Seq<u8>)>,
    report: Option<(Ballot, Seq<u8>)>,
) -> bool {
    &&& reports(accepted, slot, report)
    &&& instance.promises.contains((from, ballot, report)) || (report is None && withheld.contains(
        (from, ballot, slot),
    ))
}

/// What holds of a command on its way to a node.
spec fn message_ok(
    instance: Instance,
    withheld: Set<(NodeId, Ballot, Slot)>,
    slot: Slot,
    to: NodeId,
    command: CommandView,
) -> bool {
    match command {
        CommandView::Promise { from, ballot, accepted, .. } => {
            &&& instance.members.contains(from)
            &&& forall|b: Ballot, v: Seq<u8>| #[trigger]
                accepted.contains((slot, b, v)) ==> instance.proposed(b, v)
            &&& exists|r: Option<(Ballot, Seq<u8>)>| #[trigger]
                speaks_for(instance, withheld, slot, from, ballot, accepted, r)
        },
        CommandView::Accept { slot: s, ballot, value } => s == slot ==> instance.proposed(
            ballot,
            value,
        ),
        CommandView::Accepted { from, slot: s, ballot } => s == slot ==> instance.votes.contains(
            (from, ballot),
        ) && to == ballot.1,
        CommandView::Resolution { slot: s, ballot, value } => s == slot ==> instance.chosen(ballot)
            && instance.proposed(ballot, value),
        _ => true,
    }
}

/// What holds of an action that a node has asked for.
spec fn action_ok(
    instance: Instance,
    withheld: Set<(NodeId, Ballot, Slot)>,
    slot: Slot,
    action: ActionView,
) -> bool {
    action is Send ==> message_ok(instance, withheld, slot, action->to, action->command)
}

/// Whether a node has sent a promise for a ballot.
spec fn has_promised(node: NodeView, ballot: Option<Ballot>) -> bool {
    exists|i: int|
        0 <= i < node.asked.len() && is_promise(#[trigger] node.asked[i]) && ballot == Some(
            node.asked[i]->command->Promise_ballot,
        )
}

/// Whether the acceptor of a node stands for what has happened to it. What the node has promised
/// while the slot was empty it does not know any more.
spec fn linked(acceptor: AcceptorView, history: AcceptorView, node: NodeView) -> bool {
    match (acceptor, history) {
        (
            AcceptorView::Open { promised: p, accepted: a, voters: v },
            AcceptorView::Open { promised: q, accepted: b, voters: w },
        ) => {
            &&& a == b
            &&& v == w
            &&& opt_le(p, q)
            &&& p == q || has_promised(node, q)
            &&& opt_le(q, node.proposer.highest) || opt_le(q, vote_ballot(b))
        },
        _ => acceptor == history && acceptor.is_resolved(),
    }
}

/// Whether a member backs a ballot of a node: it has promised it, and the node knows a value at
/// least as high as what it reported.
spec fn backs(
    instance: Instance,
    known: Option<(Ballot, Seq<u8>)>,
    ballot: Ballot,
    member: NodeId,
) -> bool {
    member == ballot.1 || exists|r: Option<(Ballot, Seq<u8>)>| #[trigger]
        instance.promises.contains((member, ballot, r)) && opt_le(
            vote_ballot(r),
            vote_ballot(known),
        )
}

/// Whether members back a ballot of a node, the node among them.
spec fn all_back(
    instance: Instance,
    known: Option<(Ballot, Seq<u8>)>,
    ballot: Ballot,
    nodes: Set<NodeId>,
) -> bool {
    &&& nodes.contains(ballot.1)
    &&& nodes.subset_of(instance.members)
    &&& forall|m: NodeId| #[trigger] nodes.contains(m) ==> backs(instance, known, ballot, m)
}

/// What holds of the candidacy or the leadership of a node.
spec fn role_ok(instance: Instance, acceptor: AcceptorView, role: Role) -> bool {
    match role {
        Role::Follower => true,
        Role::Candidate { proposal, promises } => {
            &&& !instance.proposals.contains_key(proposal)
            &&& acceptor.is_resolved() || all_back(
                instance,
                acceptor.highest_value(),
                proposal,
                promises,
            )
        },
        Role::Leader { proposal } => {
            ||| acceptor.is_resolved()
            ||| instance.proposals.contains_key(proposal)
            ||| exists|nodes: Set<NodeId>|
                {
                    &&& nodes.len() >= instance.quorum()
                    &&& #[trigger] all_back(
                        instance,
                        acceptor.highest_value(),
                        proposal,
                        nodes,
                    )
                }
        },
    }
}

/// What holds of a node.
spec fn node_ok(
    instance: Instance,
    withheld: Set<(NodeId, Ballot, Slot)>,
    slot: Slot,
    node: NodeView,
    id: NodeId,
) -> bool {
    &&& instance.members.contains(id)
    &&& node.valid()
    &&& node.current == id
    &&& knows_members(node, instance.members, id)
    &&& node.window.quorum == instance.quorum()
    &&& node.proposer.quorum == instance.quorum()
    &&& linked(node.window.acceptor(slot), instance.acceptors[id], node)
    &&& role_ok(instance, node.window.acceptor(slot), node.proposer.role)
    &&& forall|i: int|
        0 <= i < node.asked.len() ==> action_ok(instance, withheld, slot, #[trigger] node.asked[i])
    &&& forall|b: Ballot| #[trigger]
        instance.proposals.contains_key(b) && b.1 == id ==> opt_le(
            Some(b),
            node.proposer.highest,
        )
}

/// What holds of a group.
spec fn group_ok(instance: Instance, slot: Slot, group: Group) -> bool {
    &&& instance.safe()
    &&& instance.members == group.members
    &&& forall|n: NodeId| #[trigger]
        group.members.contains(n) ==> node_ok(instance, group.withheld, slot, group.nodes[n], n)
}

/// Whether an instance has become another one by events of a node.
spec fn leads_to(before: Instance, after: Instance, node: NodeId) -> bool {
    &&& after.safe()
    &&& after.members == before.members
    &&& before.promises.subset_of(after.promises)
    &&& before.votes.subset_of(after.votes)
    &&& forall|b: Ballot| #[trigger]
        before.proposals.contains_key(b) ==> after.proposals.contains_key(b)
            && after.proposals[b] == before.proposals[b]
    &&& forall|b: Ballot| #[trigger]
        after.proposals.contains_key(b) ==> before.proposals.contains_key(b) || b.1 == node
    &&& forall|m: NodeId| m != node ==> #[trigger] after.acceptors[m] == before.acceptors[m]
}

/// What is chosen stays chosen.
proof fn lemma_chosen_stays(before: Instance, after: Instance, node: NodeId, ballot: Ballot)
    requires
        leads_to(before, after, node),
        before.chosen(ballot),
    ensures
        after.chosen(ballot),
{
    let voters = choose|voters: Set<NodeId>| #[trigger] before.elects(voters, ballot);
    assert(after.elects(voters, ballot));
}

/// What holds of an action keeps holding.
proof fn lemma_action_stays(
    before: Instance,
    after: Instance,
    node: NodeId,
    withheld: Set<(NodeId, Ballot, Slot)>,
    more: Set<(NodeId, Ballot, Slot)>,
    slot: Slot,
    action: ActionView,
)
    requires
        leads_to(before, after, node),
        withheld.subset_of(more),
        action_ok(before, withheld, slot, action),
    ensures
        action_ok(after, more, slot, action),
{
    if action is Send {
        match action->command {
            CommandView::Resolution { slot: s, ballot, .. } => {
                if s == slot {
                    lemma_chosen_stays(before, after, node, ballot);
                }
            },
            CommandView::Promise { from, ballot, accepted, .. } => {
                let r = choose|r: Option<(Ballot, Seq<u8>)>| #[trigger]
                    speaks_for(before, withheld, slot, from, ballot, accepted, r);
                assert(speaks_for(after, more, slot, from, ballot, accepted, r));
            },
            _ => {},
        }
    }
}

/// What holds of members that back a ballot keeps holding.
proof fn lemma_backing_stays(
    before: Instance,
    after: Instance,
    node: NodeId,
    known: Option<(Ballot, Seq<u8>)>,
    more: Option<(Ballot, Seq<u8>)>,
    ballot: Ballot,
    nodes: Set<NodeId>,
)
    requires
        leads_to(before, after, node),
        all_back(before, known, ballot, nodes),
        opt_le(vote_ballot(known), vote_ballot(more)),
    ensures
        all_back(after, more, ballot, nodes),
{
    assert forall|m: NodeId| #[trigger] nodes.contains(m) implies backs(
        after,
        more,
        ballot,
        m,
    ) by {
        assert(backs(before, known, ballot, m));
        if m != ballot.1 {
            let r = choose|r: Option<(Ballot, Seq<u8>)>| #[trigger]
                before.promises.contains((m, ballot, r)) && opt_le(
                    vote_ballot(r),
                    vote_ballot(known),
                );
            assert(after.promises.contains((m, ballot, r)));
        }
    }
}

/// What holds of a role keeps holding, as long as a candidate has not proposed.
proof fn lemma_role_stays(
    before: Instance,
    after: Instance,
    node: NodeId,
    acceptor: AcceptorView,
    grown: AcceptorView,
    role: Role,
)
    requires
        leads_to(before, after, node),
        role_ok(before, acceptor, role),
        acceptor.grows_to(grown),
        role matches Role::Candidate { proposal, .. } ==> !after.proposals.contains_key(proposal),
    ensures
        role_ok(after, grown, role),
{
    if !grown.is_resolved() {
        match role {
            Role::Follower => {},
            Role::Candidate { proposal, promises } => {
                lemma_backing_stays(
                    before,
                    after,
                    node,
                    acceptor.highest_value(),
                    grown.highest_value(),
                    proposal,
                    promises,
                );
            },
            Role::Leader { proposal } => {
                if !before.proposals.contains_key(proposal) {
                    let nodes = choose|nodes: Set<NodeId>|
                        {
                            &&& nodes.len() >= before.quorum()
                            &&& #[trigger] all_back(
                                before,
                                acceptor.highest_value(),
                                proposal,
                                nodes,
                            )
                        };
                    lemma_backing_stays(
                        before,
                        after,
                        node,
                        acceptor.highest_value(),
                        grown.highest_value(),
                        proposal,
                        nodes,
                    );
                }
            },
        }
    }
}

/// What holds of a node keeps holding while another one makes a step.
proof fn lemma_other_node(
    before: Instance,
    after: Instance,
    node: NodeId,
    withheld: Set<(NodeId, Ballot, Slot)>,
    more: Set<(NodeId, Ballot, Slot)>,
    slot: Slot,
    other: NodeView,
    id: NodeId,
)
    requires
        leads_to(before, after, node),
        withheld.subset_of(more),
        id != node,
        node_ok(before, withheld, slot, other, id),
    ensures
        node_ok(after, more, slot, other, id),
{
    let acceptor = other.window.acceptor(slot);
    assert forall|i: int| 0 <= i < other.asked.len() implies action_ok(
        after,
        more,
        slot,
        #[trigger] other.asked[i],
    ) by {
        lemma_action_stays(before, after, node, withheld, more, slot, other.asked[i]);
    }
    assert(after.acceptors[id] == before.acceptors[id]);
    lemma_role_stays(before, after, node, acceptor, acceptor, other.proposer.role);
}

/// What holds of the node that makes a step.
proof fn lemma_stepping_node(
    before: Instance,
    after: Instance,
    withheld: Set<(NodeId, Ballot, Slot)>,
    more: Set<(NodeId, Ballot, Slot)>,
    slot: Slot,
    node: NodeView,
    stepped: NodeView,
    id: NodeId,
)
    requires
        leads_to(before, after, id),
        withheld.subset_of(more),
        node_ok(before, withheld, slot, node, id),
        node.grows_to(stepped),
        stepped.valid(),
        linked(stepped.window.acceptor(slot), after.acceptors[id], stepped),
        role_ok(after, stepped.window.acceptor(slot), stepped.proposer.role),
        forall|i: int|
            node.asked.len() <= i < stepped.asked.len() ==> action_ok(
                after,
                more,
                slot,
                #[trigger] stepped.asked[i],
            ),
        forall|b: Ballot| #[trigger]
            after.proposals.contains_key(b) && b.1 == id ==> before.proposals.contains_key(b)
                || opt_le(Some(b), stepped.proposer.highest),
    ensures
        node_ok(after, more, slot, stepped, id),
{
    assert forall|i: int| 0 <= i < stepped.asked.len() implies action_ok(
        after,
        more,
        slot,
        #[trigger] stepped.asked[i],
    ) by {
        if i < node.asked.len() {
            assert(stepped.asked[i] == node.asked[i]);
            lemma_action_stays(before, after, id, withheld, more, slot, node.asked[i]);
        }
    }
    assert forall|m: NodeId| #[trigger] stepped.is_peer(m) <==> after.members.contains(m) && m
        != id by {
        assert(node.is_peer(m) <==> before.members.contains(m) && m != id);
    }
}

/// An instance leads to itself, and by an event of a node to what it is after the event.
proof fn lemma_leads(instance: Instance, event: Event, id: NodeId)
    requires
        instance.safe(),
    ensures
        leads_to(instance, instance, id),
        instance.can(event) && of_node(event, id) ==> leads_to(instance, instance.after(event), id),
{
    if instance.can(event) && of_node(event, id) {
        events_keep_instances_safe(instance, event);
    }
}

/// Whether an event happens to a node.
spec fn of_node(event: Event, id: NodeId) -> bool {
    match event {
        Event::Promise { node, .. } => node == id,
        Event::Propose { ballot, .. } => ballot.1 == id,
        Event::Accept { node, .. } => node == id,
        Event::Notice { node, .. } => node == id,
        Event::Count { ballot, .. } => ballot.1 == id,
        Event::Resolve { node, .. } => node == id,
    }
}

/// Events of a node one after the other.
proof fn lemma_leads_on(a: Instance, b: Instance, c: Instance, id: NodeId)
    requires
        leads_to(a, b, id),
        leads_to(b, c, id),
    ensures
        leads_to(a, c, id),
{
    assert forall|m: NodeId| m != id implies #[trigger] c.acceptors[m] == a.acceptors[m] by {
        assert(b.acceptors[m] == a.acceptors[m]);
    }
}

/// A node that has grown still stands for what has happened to its acceptor.
proof fn lemma_linked_stays(
    acceptor: AcceptorView,
    history: AcceptorView,
    node: NodeView,
    grown: NodeView,
)
    requires
        linked(acceptor, history, node),
        opt_le(node.proposer.highest, grown.proposer.highest),
        extends(node.asked, grown.asked),
    ensures
        linked(acceptor, history, grown),
{
    if let AcceptorView::Open { promised: q, .. } = history {
        if has_promised(node, q) {
            let i = choose|i: int|
                0 <= i < node.asked.len() && is_promise(#[trigger] node.asked[i]) && q == Some(
                    node.asked[i]->command->Promise_ballot,
                );
            assert(grown.asked[i] == node.asked[i]);
        }
    }
}

/// A step that changes nothing for the slot.
proof fn lemma_quiet_step(
    instance: Instance,
    withheld: Set<(NodeId, Ballot, Slot)>,
    more: Set<(NodeId, Ballot, Slot)>,
    slot: Slot,
    node: NodeView,
    stepped: NodeView,
    id: NodeId,
)
    requires
        instance.safe(),
        withheld.subset_of(more),
        node_ok(instance, withheld, slot, node, id),
        node.grows_to(stepped),
        stepped.valid(),
        stepped.window.acceptor(slot) == node.window.acceptor(slot),
        stepped.proposer.role is Follower || stepped.proposer.role == node.proposer.role,
        forall|i: int|
            node.asked.len() <= i < stepped.asked.len() ==> action_ok(
                instance,
                more,
                slot,
                #[trigger] stepped.asked[i],
            ),
    ensures
        leads_to(instance, instance, id),
        node_ok(instance, more, slot, stepped, id),
{
    let acceptor = node.window.acceptor(slot);
    lemma_leads(instance, Event::Promise { node: id, ballot: Ballot(0, 0) }, id);
    lemma_linked_stays(acceptor, instance.acceptors[id], node, stepped);
    lemma_stepping_node(instance, instance, withheld, more, slot, node, stepped, id);
}

/// Settling leaves the acceptors as they are.
proof fn lemma_settle_keeps(window: WindowView, slot: Slot)
    requires
        forall|s: Slot| #[trigger] window.slots.contains_key(s) ==> s < window.end,
    ensures
        window.settle().acceptor(slot) == window.acceptor(slot),
{
}

/// What a vote and a decision do to the acceptor of a slot.
proof fn lemma_settled_acceptors(
    window: WindowView,
    changed: Slot,
    acceptor: AcceptorView,
    slot: Slot,
)
    requires
        window.valid(),
        changed < u64::MAX,
    ensures
        window.put(changed, acceptor).settle().acceptor(slot) == if slot == changed {
            acceptor
        } else {
            window.acceptor(slot)
        },
{
    lemma_settle_keeps(window.put(changed, acceptor), slot);
}

/// What an announcement sends.
proof fn lemma_announced_sends(node: NodeView, commands: Seq<CommandView>, i: int) -> (j: int)
    requires
        node.asked.len() <= i < node.announce_all(commands).asked.len(),
        node.announce_all(commands).asked[i] is Send,
    ensures
        0 <= j < commands.len(),
        node.announce_all(commands).asked[i]->command == commands[j],
    decreases commands.len(),
{
    let before = node.announce_all(commands.drop_last());
    lemma_announce_all_asks(node, commands.drop_last());
    if i < before.asked.len() {
        assert(before.asked[i] == node.announce_all(commands).asked[i]);
        lemma_announced_sends(node, commands.drop_last(), i)
    } else {
        commands.len() - 1
    }
}

/// What catchup requests send.
proof fn lemma_requested_sends(
    node: NodeView,
    leader: NodeId,
    ballot: Ballot,
    slots: Seq<Slot>,
    i: int,
)
    requires
        node.asked.len() <= i < node.request_all(leader, ballot, slots).asked.len(),
        node.request_all(leader, ballot, slots).asked[i] is Send,
    ensures
        node.request_all(leader, ballot, slots).asked[i]->command is Catchup,
    decreases slots.len(),
{
    if slots.len() > 0 {
        let before = node.request_all(leader, ballot, slots.drop_last());
        if i < before.asked.len() {
            lemma_requested_sends(node, leader, ballot, slots.drop_last(), i);
        }
    }
}

// The steps

proof fn lemma_tick(
    instance: Instance,
    withheld: Set<(NodeId, Ballot, Slot)>,
    slot: Slot,
    node: NodeView,
    id: NodeId,
    slots: Seq<Slot>,
)
    requires
        instance.safe(),
        node_ok(instance, withheld, slot, node, id),
    ensures
        leads_to(instance, instance, id),
        node_ok(instance, withheld, slot, node.tick_all(slots), id),
{
    let stepped = node.tick_all(slots);
    ticks_only_ask(node, slots);
    lemma_steps_only_tick(node, slots);
    assert(node.window.grows_to(node.window));
    assert forall|i: int| node.asked.len() <= i < stepped.asked.len() implies action_ok(
        instance,
        withheld,
        slot,
        #[trigger] stepped.asked[i],
    ) by {
        assert(stepped.asked[i] == node.steps(slots)[i - node.asked.len()]);
    }
    lemma_quiet_step(instance, withheld, withheld, slot, node, stepped, id);
}

proof fn lemma_stand(
    instance: Instance,
    withheld: Set<(NodeId, Ballot, Slot)>,
    slot: Slot,
    node: NodeView,
    id: NodeId,
)
    requires
        instance.safe(),
        node_ok(instance, withheld, slot, node, id),
        node.can_propose_leadership(),
        renews_safely(node, slot),
    ensures
        leads_to(instance, instance, id),
        node_ok(instance, withheld, slot, node.propose_leadership(), id),
{
    let stepped = node.propose_leadership();
    let slots = node.window.unresolved();
    let acceptor = node.window.acceptor(slot);
    standing_for_leadership_only_grows(node);
    assert(instance.acceptor_safe(id));
    assert forall|i: int| node.asked.len() <= i < stepped.asked.len() implies action_ok(
        instance,
        withheld,
        slot,
        #[trigger] stepped.asked[i],
    ) by {
        if stepped.asked[i] is Send {
            match node.proposer.role {
                Role::Candidate { proposal, .. } => {
                    let commands = slots.map_values(
                        |s: Slot| CommandView::Prepare { slot: s, ballot: proposal },
                    );
                    let j = lemma_announced_sends(node, commands, i);
                },
                Role::Follower => {
                    let ballot = node.proposer.next_ballot();
                    let commands = slots.map_values(
                        |s: Slot| CommandView::Prepare { slot: s, ballot },
                    );
                    let j = lemma_announced_sends(
                        NodeView { proposer: node.proposer.prepare(), ..node },
                        commands,
                        i,
                    );
                },
                Role::Leader { proposal } => {
                    let commands = slots.map_values(
                        |s: Slot|
                            CommandView::Accept {
                                slot: s,
                                ballot: proposal,
                                value: Seq::empty(),
                            },
                    );
                    let j = lemma_announced_sends(node, commands, i);
                    let open = node.window.open_slots();
                    open.lemma_filter_contains_rev(|s: Slot| node.window.is_open(s), slots[j]);
                },
            }
        }
    }
    if node.proposer.role is Follower {
        let ballot = node.proposer.next_ballot();
        lemma_leads(instance, Event::Promise { node: id, ballot }, id);
        lemma_linked_stays(acceptor, instance.acceptors[id], node, stepped);
        assert(!instance.proposals.contains_key(ballot));
        lemma_stepping_node(instance, instance, withheld, withheld, slot, node, stepped, id);
    } else {
        lemma_quiet_step(instance, withheld, withheld, slot, node, stepped, id);
    }
}

/// What a scan does to the acceptor of a slot.
proof fn lemma_scan_acceptor(window: WindowView, slots: Seq<Slot>, ballot: Ballot, slot: Slot)
    ensures
        ({
            let before = window.acceptor(slot);
            let after = window.scan(slots, ballot).window.acceptor(slot);
            after == before || (before.preempting(ballot) is None && after == before.prepare(
                ballot,
            ))
        }),
    decreases slots.len(),
{
    if slots.len() > 0 {
        lemma_scan_acceptor(window, slots.drop_last(), ballot, slot);
    }
}

/// What holds of a promise on its way.
proof fn lemma_promise_message(
    instance: Instance,
    withheld: Set<(NodeId, Ballot, Slot)>,
    slot: Slot,
    action: ActionView,
    report: Option<(Ballot, Seq<u8>)>,
)
    requires
        is_promise(action),
        instance.members.contains(action->command->Promise_from),
        report matches Some((b, v)) ==> instance.proposed(b, v),
        speaks_for(
            instance,
            withheld,
            slot,
            action->command->Promise_from,
            action->command->Promise_ballot,
            action->command->Promise_accepted,
            report,
        ),
    ensures
        action_ok(instance, withheld, slot, action),
{
}

proof fn lemma_receive_prepare(
    instance: Instance,
    withheld: Set<(NodeId, Ballot, Slot)>,
    more: Set<(NodeId, Ballot, Slot)>,
    slot: Slot,
    node: NodeView,
    id: NodeId,
    asked: Slot,
    ballot: Ballot,
) -> (after: Instance)
    requires
        instance.safe(),
        node_ok(instance, withheld, slot, node, id),
        node.ready_for(CommandView::Prepare { slot: asked, ballot }),
        withheld.subset_of(more),
        withholds(node, asked, ballot, slot) ==> more.contains((id, ballot, slot)),
    ensures
        leads_to(instance, after, id),
        node_ok(
            after,
            more,
            slot,
            node.react(CommandView::Prepare { slot: asked, ballot }),
            id,
        ),
{
    let command = CommandView::Prepare { slot: asked, ballot };
    let stepped = node.react(command);
    let scan = node.window.scan(node.window.promise_slots(asked), ballot);
    let acceptor = node.window.acceptor(slot);
    let pledge = Event::Promise { node: id, ballot };
    let promises = scan.preempted is None;
    reactions_only_grow(node, command);
    lemma_scan_acceptor(node.window, node.window.promise_slots(asked), ballot, slot);
    lemma_leads(instance, pledge, id);
    assert(instance.acceptor_safe(id));
    let last = stepped.asked.len() - 1;
    if promises {
        assert(promises_with(node, asked, ballot, scan.accepted));
        promises_cover_the_slots(node, asked, ballot, scan.accepted, slot);
    }
    let quiet = if promises {
        withholds(node, asked, ballot, slot)
    } else {
        stepped.window.acceptor(slot) == acceptor
    };
    let after = if quiet {
        instance
    } else {
        instance.after(pledge)
    };
    if promises {
        let report = if quiet {
            None
        } else {
            acceptor.highest_value()
        };
        assert(reports(scan.accepted, slot, report));
        assert(stepped.asked[last] is Send);
        assert(is_promise(stepped.asked[last]));
        assert(has_promised(stepped, Some(ballot)));
        assert(instance.acceptors[id].highest_value() == acceptor.highest_value());
        assert(!quiet ==> after.promises.contains((id, ballot, report)));
        assert(speaks_for(after, more, slot, id, ballot, scan.accepted, report));
        lemma_promise_message(after, more, slot, stepped.asked[last], report);
    }
    lemma_linked_stays(acceptor, instance.acceptors[id], node, stepped);
    assert(linked(stepped.window.acceptor(slot), after.acceptors[id], stepped));
    lemma_role_stays(
        instance,
        after,
        id,
        acceptor,
        stepped.window.acceptor(slot),
        node.proposer.role,
    );
    lemma_stepping_node(instance, after, withheld, more, slot, node, stepped, id);
    after
}

proof fn lemma_receive_accept(
    instance: Instance,
    withheld: Set<(NodeId, Ballot, Slot)>,
    slot: Slot,
    node: NodeView,
    id: NodeId,
    command: CommandView,
) -> (after: Instance)
    requires
        instance.safe(),
        node_ok(instance, withheld, slot, node, id),
        node.ready_for(command),
        message_ok(instance, withheld, slot, id, command),
        command is Accept,
        command->Accept_slot == slot && node.window.acceptor(slot).accept_reply(
            command->Accept_ballot,
        ) is Accepted ==> !has_promised_higher(node, command->Accept_ballot),
    ensures
        leads_to(instance, after, id),
        node_ok(after, withheld, slot, node.react(command), id),
{
    let (s, ballot, value) = (
        command->Accept_slot,
        command->Accept_ballot,
        command->Accept_value,
    );
    let stepped = node.react(command);
    let acceptor = node.window.acceptor(slot);
    let event = Event::Accept { node: id, ballot };
    reactions_only_grow(node, command);
    lemma_leads(instance, event, id);
    assert(instance.acceptor_safe(id));
    let votes = s == slot && acceptor.accept_reply(ballot) is Accepted;
    let after = if votes {
        instance.after(event)
    } else {
        instance
    };
    lemma_linked_stays(acceptor, instance.acceptors[id], node, stepped);
    if votes {
        assert(instance.acceptors[id].preempting(ballot) is None) by {
            if let AcceptorView::Open { promised: Some(q), .. } = instance.acceptors[id] {
                if ballot.lt(q) {
                    assert(has_promised(node, Some(q)));
                    assert(has_promised_higher(node, ballot));
                }
            }
        }
    }
    lemma_role_stays(
        instance,
        after,
        id,
        acceptor,
        stepped.window.acceptor(slot),
        node.proposer.role,
    );
    lemma_stepping_node(instance, after, withheld, withheld, slot, node, stepped, id);
    after
}

proof fn lemma_receive_accepted(
    instance: Instance,
    withheld: Set<(NodeId, Ballot, Slot)>,
    slot: Slot,
    node: NodeView,
    id: NodeId,
    command: CommandView,
) -> (after: Instance)
    requires
        instance.safe(),
        node_ok(instance, withheld, slot, node, id),
        node.ready_for(command),
        message_ok(instance, withheld, slot, id, command),
        command is Accepted,
    ensures
        leads_to(instance, after, id),
        node_ok(after, withheld, slot, node.react(command), id),
{
    let (from, s, ballot) = (
        command->Accepted_from,
        command->Accepted_slot,
        command->Accepted_ballot,
    );
    let stepped = node.react(command);
    let acceptor = node.window.acceptor(slot);
    let event = Event::Count { from, ballot };
    reactions_only_grow(node, command);
    lemma_leads(instance, event, id);
    let after = if s == slot {
        instance.after(event)
    } else {
        instance
    };
    if node.window.is_open(s) {
        lemma_settled_acceptors(
            node.window,
            s,
            node.window.acceptor(s).vote(node.window.quorum, from, ballot),
            slot,
        );
    }
    assert(after.acceptor_safe(id));
    lemma_linked_stays(acceptor, instance.acceptors[id], node, stepped);
    lemma_role_stays(
        instance,
        after,
        id,
        acceptor,
        stepped.window.acceptor(slot),
        node.proposer.role,
    );
    lemma_stepping_node(instance, after, withheld, withheld, slot, node, stepped, id);
    after
}

proof fn lemma_receive_resolution(
    instance: Instance,
    withheld: Set<(NodeId, Ballot, Slot)>,
    slot: Slot,
    node: NodeView,
    id: NodeId,
    command: CommandView,
) -> (after: Instance)
    requires
        instance.safe(),
        node_ok(instance, withheld, slot, node, id),
        node.ready_for(command),
        message_ok(instance, withheld, slot, id, command),
        command is Resolution,
    ensures
        leads_to(instance, after, id),
        node_ok(after, withheld, slot, node.react(command), id),
{
    let (s, ballot, value) = (
        command->Resolution_slot,
        command->Resolution_ballot,
        command->Resolution_value,
    );
    let stepped = node.react(command);
    let learnt = node.learn(s, ballot, value);
    let acceptor = node.window.acceptor(slot);
    let event = Event::Resolve { node: id, ballot };
    reactions_only_grow(node, command);
    lemma_leads(instance, event, id);
    let after = if s == slot {
        instance.after(event)
    } else {
        instance
    };
    if !node.window.is_resolved(s) {
        lemma_settled_acceptors(
            node.window,
            s,
            node.window.acceptor(s).resolve(ballot, value),
            slot,
        );
    }
    assert forall|i: int| node.asked.len() <= i < stepped.asked.len() implies action_ok(
        after,
        withheld,
        slot,
        #[trigger] stepped.asked[i],
    ) by {
        if learnt.is_behind() {
            let highest = learnt.proposer.highest->Some_0;
            let missing = learnt.window.missing();
            lemma_request_all_extends(learnt, highest.1, highest, missing);
            if i >= learnt.asked.len() && stepped.asked[i] is Send {
                lemma_requested_sends(learnt, highest.1, highest, missing, i);
            }
        }
    }
    lemma_linked_stays(acceptor, instance.acceptors[id], node, stepped);
    lemma_role_stays(
        instance,
        after,
        id,
        acceptor,
        stepped.window.acceptor(slot),
        node.proposer.role,
    );
    lemma_stepping_node(instance, after, withheld, withheld, slot, node, stepped, id);
    after
}

proof fn lemma_receive_catchup_or_reject(
    instance: Instance,
    withheld: Set<(NodeId, Ballot, Slot)>,
    slot: Slot,
    node: NodeView,
    id: NodeId,
    command: CommandView,
)
    requires
        instance.safe(),
        node_ok(instance, withheld, slot, node, id),
        node.ready_for(command),
        command is Catchup || command is Reject,
    ensures
        leads_to(instance, instance, id),
        node_ok(instance, withheld, slot, node.react(command), id),
{
    reactions_only_grow(node, command);
    assert(instance.acceptor_safe(id));
    lemma_quiet_step(instance, withheld, withheld, slot, node, node.react(command), id);
}

/// A node that leads under a ballot proposes a value for the slot.
proof fn lemma_propose(
    instance: Instance,
    node: NodeView,
    acceptor: AcceptorView,
    ballot: Ballot,
    value: Seq<u8>,
    nodes: Set<NodeId>,
) -> (after: Instance)
    requires
        instance.safe(),
        instance.members.contains(ballot.1),
        linked(acceptor, instance.acceptors[ballot.1], node),
        !acceptor.is_resolved(),
        node.proposer.highest == Some(ballot),
        !instance.proposals.contains_key(ballot),
        nodes.len() >= instance.quorum(),
        all_back(instance, acceptor.highest_value(), ballot, nodes),
        acceptor.highest_value() matches Some((_, v)) ==> value == v,
    ensures
        leads_to(instance, after, ballot.1),
        after.proposed(ballot, value),
        forall|b: Ballot| #[trigger]
            after.proposals.contains_key(b) ==> instance.proposals.contains_key(b) || b == ballot,
        linked(acceptor.notice(ballot.1, ballot, value), after.acceptors[ballot.1], node),
{
    let id = ballot.1;
    let known = acceptor.highest_value();
    let report = |m: NodeId|
        if m == id {
            known
        } else {
            choose|r: Option<(Ballot, Seq<u8>)>| #[trigger]
                instance.promises.contains((m, ballot, r)) && opt_le(
                    vote_ballot(r),
                    vote_ballot(known),
                )
        };
    let backers = Map::new(|m: NodeId| nodes.contains(m), report);
    let event = Event::Propose { ballot, value, backers };
    assert(backers.dom() =~= nodes);
    assert forall|m: NodeId| #[trigger] backers.contains_key(m) implies opt_le(
        vote_ballot(backers[m]),
        vote_ballot(known),
    ) && (m != id ==> instance.promises.contains((m, ballot, backers[m]))) by {
        assert(nodes.contains(m));
        assert(backs(instance, known, ballot, m));
    }
    assert(instance.acceptor_safe(id));
    assert(backers.contains_key(id));
    assert(highest_report(backers, value)) by {
        if known is Some {
            assert(backers[id] == known);
        } else {
            assert(forall|m: NodeId| #[trigger] backers.contains_key(m) ==> backers[m] is None);
        }
    }
    assert(instance.can(event));
    lemma_leads(instance, event, id);
    instance.after(event)
}

/// A candidate learns the values that come with a promise.
proof fn lemma_notices(
    instance: Instance,
    slot: Slot,
    node: NodeView,
    accepted: Seq<(Slot, Ballot, Seq<u8>)>,
    id: NodeId,
) -> (after: Instance)
    requires
        instance.safe(),
        instance.members.contains(id),
        node.window.node == id,
        linked(node.window.acceptor(slot), instance.acceptors[id], node),
        forall|b: Ballot, v: Seq<u8>| #[trigger]
            accepted.contains((slot, b, v)) ==> instance.proposed(b, v),
    ensures
        leads_to(instance, after, id),
        after.proposals == instance.proposals,
        after.promises == instance.promises,
        linked(node.window.notice_all(accepted).acceptor(slot), after.acceptors[id], node),
        node.window.notice_all(accepted).node == id,
    decreases accepted.len(),
{
    lemma_leads(instance, Event::Notice { node: id, ballot: Ballot(0, 0) }, id);
    if accepted.len() == 0 {
        instance
    } else {
        let earlier = accepted.drop_last();
        let (s, ballot, value) = accepted.last();
        assert forall|b: Ballot, v: Seq<u8>| #[trigger]
            earlier.contains((slot, b, v)) implies instance.proposed(b, v) by {
            let k = earlier.index_of((slot, b, v));
            assert(accepted[k] == (slot, b, v));
            assert(accepted.contains((slot, b, v)));
        }
        let middle = lemma_notices(instance, slot, node, earlier, id);
        if s == slot {
            let event = Event::Notice { node: id, ballot };
            assert(accepted[accepted.len() - 1] == (slot, ballot, value));
            assert(accepted.contains((slot, ballot, value)));
            assert(instance.proposed(ballot, value));
            assert(middle.acceptor_safe(id));
            lemma_leads(middle, event, id);
            lemma_leads_on(instance, middle, middle.after(event), id);
            middle.after(event)
        } else {
            middle
        }
    }
}

/// What a candidate knows once it has counted a promise is at least what was reported.
proof fn lemma_counted_backs(
    instance: Instance,
    withheld: Set<(NodeId, Ballot, Slot)>,
    slot: Slot,
    node: NodeView,
    id: NodeId,
    command: CommandView,
)
    requires
        command is Promise,
        message_ok(instance, withheld, slot, id, command),
        !node.window.is_resolved(slot),
        withheld.contains((command->Promise_from, command->Promise_ballot, slot)) ==> !reports(
            command->Promise_accepted,
            slot,
            None,
        ),
    ensures
        backs(
            instance,
            node.window.notice_all(command->Promise_accepted).acceptor(slot).highest_value(),
            command->Promise_ballot,
            command->Promise_from,
        ),
{
    let (from, ballot, accepted) = (
        command->Promise_from,
        command->Promise_ballot,
        command->Promise_accepted,
    );
    let r = choose|r: Option<(Ballot, Seq<u8>)>| #[trigger]
        speaks_for(instance, withheld, slot, from, ballot, accepted, r);
    assert(speaks_for(instance, withheld, slot, from, ballot, accepted, r));
    highest_reported_value_stays(node.window, accepted, slot);
    assert(instance.promises.contains((from, ballot, r)));
    if let Some((b, v)) = r {
        assert(accepted.contains((slot, b, v)));
        let k = accepted.index_of((slot, b, v));
        assert(accepted[k].0 == slot);
    }
}

proof fn lemma_receive_promise(
    instance: Instance,
    withheld: Set<(NodeId, Ballot, Slot)>,
    slot: Slot,
    node: NodeView,
    id: NodeId,
    command: CommandView,
) -> (after: Instance)
    requires
        instance.safe(),
        node_ok(instance, withheld, slot, node, id),
        node.ready_for(command),
        message_ok(instance, withheld, slot, id, command),
        command is Promise,
        node.proposer.role is Candidate && node.proposer.role->Candidate_proposal
            == command->Promise_ballot && withheld.contains(
            (command->Promise_from, command->Promise_ballot, slot),
        ) && reports(command->Promise_accepted, slot, None) ==> node.window.is_resolved(slot),
    ensures
        leads_to(instance, after, id),
        node_ok(after, withheld, slot, node.react(command), id),
{
    let (from, ballot, accepted) = (
        command->Promise_from,
        command->Promise_ballot,
        command->Promise_accepted,
    );
    let stepped = node.react(command);
    let acceptor = node.window.acceptor(slot);
    reactions_only_grow(node, command);
    lemma_leads(instance, Event::Promise { node: id, ballot }, id);
    if let Role::Candidate { proposal, promises } = node.proposer.role {
        let counted = node.count_promise(from, ballot, accepted);
        let learnt = counted.window.acceptor(slot);
        let middle = lemma_notices(instance, slot, node, accepted, id);
        lemma_notice_all_grows(node.window, accepted);
        assert(acceptor.grows_to(learnt)) by {
            if node.window.slots.contains_key(slot) {
                assert(counted.window.slots.contains_key(slot));
            }
        }
        lemma_role_stays(instance, middle, id, acceptor, learnt, node.proposer.role);
        let backed = promises.insert(from);
        if proposal == ballot && !learnt.is_resolved() {
            lemma_counted_backs(instance, withheld, slot, node, id, command);
            assert(backs(middle, learnt.highest_value(), ballot, from));
            assert(all_back(middle, learnt.highest_value(), ballot, backed));
        }
        if counted.is_leader() {
            lemma_elected(instance, middle, withheld, slot, node, id, command, backed)
        } else {
            assert(stepped == counted);
            lemma_linked_stays(learnt, middle.acceptors[id], node, stepped);
            lemma_stepping_node(instance, middle, withheld, withheld, slot, node, stepped, id);
            middle
        }
    } else {
        lemma_quiet_step(instance, withheld, withheld, slot, node, stepped, id);
        instance
    }
}

/// A candidate that has become the leader proposes for the slot, or leaves it for later.
proof fn lemma_elected(
    instance: Instance,
    middle: Instance,
    withheld: Set<(NodeId, Ballot, Slot)>,
    slot: Slot,
    node: NodeView,
    id: NodeId,
    command: CommandView,
    backed: Set<NodeId>,
) -> (after: Instance)
    requires
        command is Promise,
        node_ok(instance, withheld, slot, node, id),
        node.ready_for(command),
        leads_to(instance, middle, id),
        middle.proposals == instance.proposals,
        node.proposer.role is Candidate,
        backed == node.proposer.role->promises.insert(command->Promise_from),
        ({
            let counted = node.count_promise(
                command->Promise_from,
                command->Promise_ballot,
                command->Promise_accepted,
            );
            let learnt = counted.window.acceptor(slot);
            &&& counted.is_leader()
            &&& linked(learnt, middle.acceptors[id], node)
            &&& learnt.is_resolved() || all_back(
                middle,
                learnt.highest_value(),
                command->Promise_ballot,
                backed,
            )
        }),
    ensures
        leads_to(instance, after, id),
        node_ok(after, withheld, slot, node.react(command), id),
{
    let (from, ballot, accepted) = (
        command->Promise_from,
        command->Promise_ballot,
        command->Promise_accepted,
    );
    let stepped = node.react(command);
    let counted = node.count_promise(from, ballot, accepted);
    let queue = counted.proposer.queue;
    let learnt = counted.window.acceptor(slot);
    let placed = counted.window.place_all(ballot, queue);
    let claimed = NodeView {
        proposer: counted.proposer.drained(),
        window: placed.claim(ballot, placed.end),
        ..counted
    };
    let commands = placed.missing().map_values(
        |s: Slot| CommandView::Accept { slot: s, ballot, value: placed.claim_value(s) },
    );
    reactions_only_grow(node, command);
    lemma_notice_all_grows(node.window, accepted);
    lemma_place_all_grows(counted.window, ballot, queue);
    lemma_place_all_slot(counted.window, ballot, queue, slot);
    assert(counted.proposer.role == Role::Leader { proposal: ballot });
    assert(stepped == claimed.announce_all(commands));
    assert(ballot.1 == id && node.proposer.highest == Some(ballot));
    let taken = placed.start <= slot < placed.end && !placed.is_resolved(slot);
    let value = placed.claim_value(slot);
    let after = if taken {
        lemma_propose(middle, node, learnt, ballot, value, backed)
    } else {
        middle
    };
    lemma_leads(middle, Event::Promise { node: id, ballot }, id);
    lemma_leads_on(instance, middle, after, id);
    assert(slot < placed.start ==> placed.is_resolved(slot));
    assert(!taken ==> placed.acceptor(slot) == learnt) by {
        if placed.is_empty(slot) {
            assert(!counted.window.slots.contains_key(slot));
        }
    }
    assert(stepped.window.acceptor(slot) == claimed.window.acceptor(slot));
    assert(taken ==> claimed.window.acceptor(slot) == placed.acceptor(slot).notice(
        id,
        ballot,
        value,
    ));
    assert(!taken ==> claimed.window.acceptor(slot) == placed.acceptor(slot));
    assert(stepped.window.acceptor(slot) == if taken {
        learnt.notice(id, ballot, value)
    } else {
        learnt
    });
    lemma_linked_stays(stepped.window.acceptor(slot), after.acceptors[id], node, stepped);
    assert(role_ok(after, stepped.window.acceptor(slot), stepped.proposer.role));
    assert forall|i: int| node.asked.len() <= i < stepped.asked.len() implies action_ok(
        after,
        withheld,
        slot,
        #[trigger] stepped.asked[i],
    ) by {
        if stepped.asked[i] is Send {
            let j = lemma_announced_sends(claimed, commands, i);
            let open = placed.open_slots();
            open.lemma_filter_contains_rev(
                |s: Slot| !placed.is_resolved(s),
                placed.missing()[j],
            );
        }
    }
    lemma_stepping_node(instance, after, withheld, withheld, slot, node, stepped, id);
    after
}

proof fn lemma_receive_proposal(
    instance: Instance,
    withheld: Set<(NodeId, Ballot, Slot)>,
    slot: Slot,
    node: NodeView,
    id: NodeId,
    value: Seq<u8>,
) -> (after: Instance)
    requires
        instance.safe(),
        node_ok(instance, withheld, slot, node, id),
        node.ready_for(CommandView::Proposal(value)),
    ensures
        leads_to(instance, after, id),
        node_ok(after, withheld, slot, node.react(CommandView::Proposal(value)), id),
{
    let command = CommandView::Proposal(value);
    let stepped = node.react(command);
    let acceptor = node.window.acceptor(slot);
    reactions_only_grow(node, command);
    lemma_leads(instance, Event::Promise { node: id, ballot: Ballot(0, 0) }, id);
    match node.proposer.role {
        Role::Leader { proposal } => {
            leaders_propose(node, value);
            if node.window.next_slot() == slot {
                assert(instance.acceptor_safe(id));
                assert(!instance.proposals.contains_key(proposal));
                let nodes = choose|nodes: Set<NodeId>|
                    {
                        &&& nodes.len() >= instance.quorum()
                        &&& #[trigger] all_back(
                            instance,
                            acceptor.highest_value(),
                            proposal,
                            nodes,
                        )
                    };
                let after = lemma_propose(instance, node, acceptor, proposal, value, nodes);
                lemma_linked_stays(
                    stepped.window.acceptor(slot),
                    after.acceptors[id],
                    node,
                    stepped,
                );
                lemma_stepping_node(
                    instance,
                    after,
                    withheld,
                    withheld,
                    slot,
                    node,
                    stepped,
                    id,
                );
                after
            } else {
                lemma_quiet_step(instance, withheld, withheld, slot, node, stepped, id);
                instance
            }
        },
        Role::Candidate { .. } => {
            lemma_quiet_step(instance, withheld, withheld, slot, node, stepped, id);
            instance
        },
        Role::Follower => {
            let queued = NodeView { proposer: node.proposer.push(value), ..node };
            match node.proposer.highest {
                Some(h) if h.1 != node.current => {
                    lemma_quiet_step(instance, withheld, withheld, slot, node, stepped, id);
                },
                _ => {
                    assert(node.window.grows_to(node.window));
                    lemma_quiet_step(instance, withheld, withheld, slot, node, queued, id);
                    lemma_stand(instance, withheld, slot, queued, id);
                },
            }
            instance
        },
    }
}

/// What holds of a command that reaches a node.
proof fn lemma_delivered(
    instance: Instance,
    slot: Slot,
    group: Group,
    node: NodeId,
    command: CommandView,
)
    requires
        group_ok(instance, slot, group),
        group.has_sent(node, command),
    ensures
        message_ok(instance, group.withheld, slot, node, command),
{
    let (from, i) = choose|from: NodeId, i: int|
        group.members.contains(from) && 0 <= i < group.nodes[from].asked.len() && carries(
            #[trigger] group.nodes[from].asked[i],
            node,
            command,
        );
    assert(node_ok(instance, group.withheld, slot, group.nodes[from], from));
    assert(action_ok(instance, group.withheld, slot, group.nodes[from].asked[i]));
}

/// What holds of a group keeps holding.
proof fn lemma_step(instance: Instance, slot: Slot, group: Group, step: Step) -> (after: Instance)
    requires
        group_ok(instance, slot, group),
        group.can(step),
        group.keeps_to(step, slot),
    ensures
        group_ok(after, slot, group.after(step)),
{
    let id = step.node();
    let node = group.nodes[id];
    let stepped = group.after(step);
    let (withheld, more) = (group.withheld, stepped.withheld);
    assert(node_ok(instance, withheld, slot, node, id));
    let after = match step {
        Step::Receive { command, .. } => {
            if !(command is Proposal) {
                lemma_delivered(instance, slot, group, id, command);
            }
            match command {
                CommandView::Proposal(value) => lemma_receive_proposal(
                    instance,
                    withheld,
                    slot,
                    node,
                    id,
                    value,
                ),
                CommandView::Prepare { slot: asked, ballot } => lemma_receive_prepare(
                    instance,
                    withheld,
                    more,
                    slot,
                    node,
                    id,
                    asked,
                    ballot,
                ),
                CommandView::Promise { .. } => lemma_receive_promise(
                    instance,
                    withheld,
                    slot,
                    node,
                    id,
                    command,
                ),
                CommandView::Accept { .. } => lemma_receive_accept(
                    instance,
                    withheld,
                    slot,
                    node,
                    id,
                    command,
                ),
                CommandView::Accepted { .. } => lemma_receive_accepted(
                    instance,
                    withheld,
                    slot,
                    node,
                    id,
                    command,
                ),
                CommandView::Resolution { .. } => lemma_receive_resolution(
                    instance,
                    withheld,
                    slot,
                    node,
                    id,
                    command,
                ),
                _ => {
                    lemma_receive_catchup_or_reject(instance, withheld, slot, node, id, command);
                    instance
                },
            }
        },
        Step::Stand { .. } => {
            lemma_stand(instance, withheld, slot, node, id);
            instance
        },
        Step::Tick { slots, .. } => {
            lemma_tick(instance, withheld, slot, node, id, slots);
            instance
        },
    };
    assert(leads_to(instance, after, id));
    assert(node_ok(after, more, slot, stepped.nodes[id], id));
    assert forall|n: NodeId| #[trigger] stepped.members.contains(n) implies node_ok(
        after,
        more,
        slot,
        stepped.nodes[n],
        n,
    ) by {
        if n != id {
            assert(node_ok(instance, withheld, slot, group.nodes[n], n));
            lemma_other_node(instance, after, id, withheld, more, slot, group.nodes[n], n);
        }
    }
    after
}

/// What holds of a group holds at its start.
proof fn lemma_start(slot: Slot, group: Group)
    requires
        group.starting(),
    ensures
        group_ok(Instance::fresh(group.members), slot, group),
{
    let instance = Instance::fresh(group.members);
    instances_start_safe(group.members);
    assert forall|n: NodeId| #[trigger] group.members.contains(n) implies node_ok(
        instance,
        group.withheld,
        slot,
        group.nodes[n],
        n,
    ) by {
        let node = group.nodes[n];
        assert(knows_members(node, group.members, n));
        assert(!node.is_peer(n));
        node.peers.unique_seq_to_set();
        assert(node.peers.to_set() =~= group.members.remove(n)) by {
            assert forall|m: NodeId| node.peers.to_set().contains(m) <==> group.members.remove(
                n,
            ).contains(m) by {
                assert(node.is_peer(m) <==> group.members.contains(m) && m != n);
            }
        }
        assert(node.window.acceptor(slot) == AcceptorView::fresh());
    }
}

/// What holds of a group holds after every run.
proof fn lemma_run(slot: Slot, group: Group, steps: Seq<Step>) -> (after: Instance)
    requires
        group.starting(),
        group.runs(steps, slot),
    ensures
        group_ok(after, slot, group.after_all(steps)),
        group.after_all(steps).members == group.members,
    decreases steps.len(),
{
    if steps.len() == 0 {
        lemma_start(slot, group);
        Instance::fresh(group.members)
    } else {
        let before = lemma_run(slot, group, steps.drop_last());
        lemma_step(before, slot, group.after_all(steps.drop_last()), steps.last())
    }
}

/// Agreement: after every run of a group that keeps to what agreement on a slot rests on, no two
/// nodes have decided different values for the slot.
pub proof fn groups_agree(group: Group, steps: Seq<Step>, slot: Slot, a: NodeId, b: NodeId)
    requires
        group.starting(),
        group.runs(steps, slot),
        group.members.contains(a),
        group.members.contains(b),
        group.after_all(steps).nodes[a].window.is_resolved(slot),
        group.after_all(steps).nodes[b].window.is_resolved(slot),
    ensures
        ({
            let nodes = group.after_all(steps).nodes;
            nodes[a].window.acceptor(slot).resolution()->Some_0.1 == nodes[b].window.acceptor(
                slot,
            ).resolution()->Some_0.1
        }),
{
    let after = group.after_all(steps);
    let instance = lemma_run(slot, group, steps);
    assert(node_ok(instance, after.withheld, slot, after.nodes[a], a));
    assert(node_ok(instance, after.withheld, slot, after.nodes[b], b));
    assert(instance.acceptor_safe(a) && instance.acceptor_safe(b));
    chosen_values_agree(
        instance,
        instance.acceptors[a].resolution()->Some_0.0,
        instance.acceptors[b].resolution()->Some_0.0,
    );
}

} // verus!
