//! The window of slots that a node has opened, and the decisions that lie behind it.

use crate::acceptor::{AcceptResponse, Acceptor, AcceptorView, PrepareResponse};
use crate::ballot::{Ballot, NodeId, Slot};
use crate::value::{contents, duplicate, vote_view};
use bytes::Bytes;
use std::collections::BTreeMap;
use vstd::prelude::*;

verus! {

broadcast use vstd::std_specs::btree::group_btree_axioms;

/// The slots of a node: those below `start` are decided, those from `start` up to `end` are
/// the open range, and nothing is known of those from `end` on.
#[verifier::ext_equal]
pub struct WindowView {
    pub node: NodeId,
    /// Number of nodes, its own included, whose acceptance decides a slot.
    pub quorum: nat,
    /// The acceptors of the slots that are not empty.
    pub slots: Map<Slot, AcceptorView>,
    pub start: Slot,
    pub end: Slot,
}

/// The first slot from `from` on that is not decided, or `end` if all below it are.
pub open spec fn first_undecided(slots: Map<Slot, AcceptorView>, from: Slot, end: Slot) -> Slot
    decreases end - from,
{
    if from < end && slots.contains_key(from) && slots[from].is_resolved() {
        first_undecided(slots, (from + 1) as Slot, end)
    } else {
        from
    }
}

impl WindowView {
    /// Window of a node whose first slot is open.
    pub open spec fn fresh(node: NodeId, quorum: nat) -> WindowView {
        WindowView {
            node,
            quorum,
            slots: map![0u64 => AcceptorView::fresh()],
            start: 0,
            end: 1,
        }
    }

    pub open spec fn is_empty(self, slot: Slot) -> bool {
        !self.slots.contains_key(slot)
    }

    pub open spec fn is_resolved(self, slot: Slot) -> bool {
        self.slots.contains_key(slot) && self.slots[slot].is_resolved()
    }

    pub open spec fn is_open(self, slot: Slot) -> bool {
        self.slots.contains_key(slot) && !self.slots[slot].is_resolved()
    }

    /// All slots below the open range are decided, its first one is not, its last one is not
    /// empty, and all from its end on are empty. The range has no slot only if no slot number is
    /// left.
    pub open spec fn valid(self) -> bool {
        &&& self.start <= self.end
        &&& self.start == self.end ==> self.end == u64::MAX
        &&& self.start < self.end ==> !self.is_resolved(self.start)
        &&& self.start < self.end ==> self.slots.contains_key((self.end - 1) as Slot)
        &&& forall|slot: Slot| slot < self.start ==> #[trigger] self.is_resolved(slot)
        &&& forall|slot: Slot| #[trigger] self.slots.contains_key(slot) ==> slot < self.end
    }

    /// The slots of the open range, in order.
    pub open spec fn open_slots(self) -> Seq<Slot> {
        Seq::new((self.end - self.start) as nat, |i: int| (self.start + i) as Slot)
    }

    /// The slots of the open range that are neither empty nor decided, in order.
    pub open spec fn unresolved(self) -> Seq<Slot> {
        self.open_slots().filter(|slot: Slot| self.is_open(slot))
    }

    /// The slots of the open range that are not decided, in order.
    pub open spec fn missing(self) -> Seq<Slot> {
        self.open_slots().filter(|slot: Slot| !self.is_resolved(slot))
    }

    /// The decided slots below the open range with their values, in order.
    pub open spec fn decisions(self) -> Seq<(Slot, Seq<u8>)> {
        Seq::new(
            self.start as nat,
            |i: int| (i as Slot, self.slots[i as Slot].resolution()->Some_0.1),
        )
    }

    /// The acceptor of a slot; that of an empty slot knows nothing.
    pub open spec fn acceptor(self, slot: Slot) -> AcceptorView {
        if self.slots.contains_key(slot) {
            self.slots[slot]
        } else {
            AcceptorView::fresh()
        }
    }

    /// The window with the acceptor of a slot replaced.
    pub open spec fn put(self, slot: Slot, acceptor: AcceptorView) -> WindowView {
        WindowView {
            slots: self.slots.insert(slot, acceptor),
            end: if slot < self.end { self.end } else { (slot + 1) as Slot },
            ..self
        }
    }

    /// The window with its open range moved behind the decided slots at its start. Where that
    /// leaves no slot, the next one is opened.
    pub open spec fn settle(self) -> WindowView {
        let start = first_undecided(self.slots, self.start, self.end);
        if start == self.end && self.end < u64::MAX {
            WindowView {
                slots: self.slots.insert(self.end, AcceptorView::fresh()),
                start,
                end: (self.end + 1) as Slot,
                ..self
            }
        } else {
            WindowView { start, ..self }
        }
    }

    /// Effect of a PREPARE on a slot that is not empty.
    pub open spec fn prepare(self, slot: Slot, ballot: Ballot) -> WindowView {
        self.put(slot, self.acceptor(slot).prepare(ballot))
    }

    /// Effect of an ACCEPT on a slot; an empty one is opened for it.
    pub open spec fn accept(self, slot: Slot, ballot: Ballot, value: Seq<u8>) -> WindowView {
        self.put(slot, self.acceptor(slot).accept(self.node, ballot, value))
    }

    /// Effect of learning that a value was proposed for a slot; an empty one is opened for it.
    pub open spec fn notice(self, slot: Slot, ballot: Ballot, value: Seq<u8>) -> WindowView {
        self.put(slot, self.acceptor(slot).notice(self.node, ballot, value))
    }

    /// Effect of an ACCEPTED on a slot that is not empty.
    pub open spec fn vote(self, slot: Slot, from: NodeId, ballot: Ballot) -> WindowView {
        self.put(slot, self.acceptor(slot).vote(self.quorum, from, ballot)).settle()
    }

    /// Effect of learning the decision of a slot; an empty one is opened for it.
    pub open spec fn resolve(self, slot: Slot, ballot: Ballot, value: Seq<u8>) -> WindowView {
        self.put(slot, self.acceptor(slot).resolve(ballot, value)).settle()
    }

    /// The slot for the next proposal: the last one of the open range as long as it has no
    /// value, else the one that follows.
    pub open spec fn next_slot(self) -> Slot {
        let last = (self.end - 1) as Slot;
        if self.start < self.end && self.is_open(last) && self.slots[last].highest_value() is None {
            last
        } else {
            self.end
        }
    }
}

/// A replaced acceptor that decides nothing new leaves the window valid.
pub proof fn lemma_put_valid(window: WindowView, slot: Slot, acceptor: AcceptorView)
    requires
        window.valid(),
        slot < u64::MAX,
        window.is_resolved(slot) == acceptor.is_resolved(),
    ensures
        window.put(slot, acceptor).valid(),
{
    let after = window.put(slot, acceptor);
    assert forall|s: Slot| s < after.start implies #[trigger] after.is_resolved(s) by {
        assert(window.is_resolved(s));
    }
}

/// What `first_undecided` returns.
pub proof fn lemma_first_undecided(slots: Map<Slot, AcceptorView>, from: Slot, end: Slot)
    requires
        from <= end,
    ensures
        from <= first_undecided(slots, from, end) <= end,
        forall|s: Slot|
            from <= s < first_undecided(slots, from, end) ==> #[trigger] slots.contains_key(s)
                && slots[s].is_resolved(),
        ({
            let first = first_undecided(slots, from, end);
            first < end ==> !(slots.contains_key(first) && slots[first].is_resolved())
        }),
    decreases end - from,
{
    if from < end && slots.contains_key(from) && slots[from].is_resolved() {
        lemma_first_undecided(slots, (from + 1) as Slot, end);
    }
}

/// A replaced acceptor that keeps a decided slot decided leaves the window valid, once it is
/// settled.
pub proof fn lemma_settle_valid(window: WindowView, slot: Slot, acceptor: AcceptorView)
    requires
        window.valid(),
        slot < u64::MAX,
        window.is_resolved(slot) ==> acceptor.is_resolved(),
    ensures
        window.put(slot, acceptor).settle().valid(),
{
    let mid = window.put(slot, acceptor);
    let after = mid.settle();
    lemma_first_undecided(mid.slots, mid.start, mid.end);
    assert forall|s: Slot| s < after.start implies #[trigger] after.is_resolved(s) by {
        if s < window.start {
            assert(window.is_resolved(s));
        }
        assert(mid.slots.contains_key(s));
    }
}

/// What is known of a slot.
pub enum SlotRef {
    /// Nothing.
    Empty,
    /// It awaits a decision.
    Open,
    /// It is decided.
    Resolved(Ballot, Bytes),
}

/// The decisions of a node, in the order of their slots and without gaps.
pub struct DecisionSet {
    pub decisions: Vec<(Slot, Bytes)>,
}

impl View for DecisionSet {
    type V = Seq<(Slot, Seq<u8>)>;

    open spec fn view(&self) -> Seq<(Slot, Seq<u8>)> {
        self.decisions@.map_values(|d: (Slot, Bytes)| (d.0, contents(d.1)))
    }
}

impl DecisionSet {
    /// The decided slots and their values, in order.
    pub fn iter(&self) -> (decisions: &Vec<(Slot, Bytes)>)
        ensures
            *decisions == self.decisions,
            decisions@.map_values(|d: (Slot, Bytes)| (d.0, contents(d.1))) == self@,
    {
        &self.decisions
    }

    /// The decided slots from `start` on and their values, in order.
    pub fn range(&self, start: Slot) -> (decisions: Vec<(Slot, Bytes)>)
        ensures
            decisions@.map_values(|d: (Slot, Bytes)| (d.0, contents(d.1))) == self@.filter(
                is_from(start),
            ),
    {
        let mut decisions: Vec<(Slot, Bytes)> = Vec::new();
        let ghost view = |d: (Slot, Bytes)| (d.0, contents(d.1));
        assert(decisions@.map_values(view) =~= self@.take(0).filter(is_from(start))) by {
            reveal(Seq::filter);
        }
        for i in 0..self.decisions.len()
            invariant
                view == (|d: (Slot, Bytes)| (d.0, contents(d.1))),
                decisions@.map_values(view) == self@.take(i as int).filter(is_from(start)),
        {
            let ghost before = decisions@;
            let slot: Slot = self.decisions[i].0;
            proof {
                reveal(Seq::filter);
                assert(self@.take(i + 1).drop_last() =~= self@.take(i as int));
                assert(self@[i as int] == view(self.decisions@[i as int]));
            }
            if slot >= start {
                decisions.push((slot, duplicate(&self.decisions[i].1)));
                assert(decisions@.map_values(view) =~= before.map_values(view).push(
                    self@[i as int],
                ));
            }
        }
        assert(self@.take(self.decisions@.len() as int) =~= self@);
        decisions
    }
}

/// Whether a decision is for a slot from `start` on.
pub open spec fn is_from(start: Slot) -> spec_fn((Slot, Seq<u8>)) -> bool {
    |d: (Slot, Seq<u8>)| d.0 >= start
}

/// Window of open slots of a node.
pub struct SlotWindow {
    pub node: NodeId,
    pub quorum: usize,
    pub slots: BTreeMap<Slot, Acceptor>,
    pub start: Slot,
    pub end: Slot,
}

impl View for SlotWindow {
    type V = WindowView;

    open spec fn view(&self) -> WindowView {
        WindowView {
            node: self.node,
            quorum: self.quorum as nat,
            slots: self.slots@.map_values(|a: Acceptor| a@),
            start: self.start,
            end: self.end,
        }
    }
}

impl SlotWindow {
    /// The window is valid and its acceptors belong to it.
    pub open spec fn wf(self) -> bool {
        &&& self@.valid()
        &&& self.acceptors_match()
    }

    /// The acceptors count the votes of this node against the quorum of this window.
    pub open spec fn acceptors_match(self) -> bool {
        forall|slot: Slot| #[trigger]
            self.slots@.contains_key(slot) ==> self.slots@[slot].node == self.node
                && self.slots@[slot].quorum == self.quorum
    }

    /// Window of `node` in which `quorum` nodes decide a slot.
    pub fn new(node: NodeId, quorum: usize) -> (window: SlotWindow)
        ensures
            window.wf(),
            window@ == WindowView::fresh(node, quorum as nat),
    {
        let mut slots: BTreeMap<Slot, Acceptor> = BTreeMap::new();
        slots.insert(0, Acceptor::new(node, quorum));
        let window = SlotWindow { node, quorum, slots, start: 0, end: 1 };
        assert(window@ =~= WindowView::fresh(node, quorum as nat));
        window
    }

    /// First slot of the open range.
    pub fn start(&self) -> (start: Slot)
        ensures
            start == self@.start,
    {
        self.start
    }

    /// End of the open range.
    pub fn end(&self) -> (end: Slot)
        ensures
            end == self@.end,
    {
        self.end
    }

    /// What is known of a slot.
    pub fn slot(&self, slot: Slot) -> (state: SlotRef)
        ensures
            match state {
                SlotRef::Empty => self@.is_empty(slot),
                SlotRef::Open => self@.is_open(slot),
                SlotRef::Resolved(ballot, value) => self@.is_resolved(slot)
                    && self@.slots[slot].resolution() == Some((ballot, contents(value))),
            },
    {
        match self.slots.get(&slot) {
            Some(acceptor) => match acceptor.resolution() {
                Some((ballot, value)) => SlotRef::Resolved(ballot, value),
                None => SlotRef::Open,
            },
            None => SlotRef::Empty,
        }
    }

    /// Value of the highest ballot known for a slot.
    pub fn highest_value(&self, slot: Slot) -> (value: Option<(Ballot, Bytes)>)
        ensures
            vote_view(value) == self@.acceptor(slot).highest_value(),
    {
        match self.slots.get(&slot) {
            Some(acceptor) => acceptor.highest_value(),
            None => None,
        }
    }

    /// The slots of the open range, in order.
    pub fn open_slots(&self) -> (slots: Vec<Slot>)
        requires
            self.wf(),
        ensures
            slots@ == self@.open_slots(),
    {
        let mut slots: Vec<Slot> = Vec::new();
        let mut next: Slot = self.start;
        while next < self.end
            invariant
                self.start <= next <= self.end,
                slots@ =~= self@.open_slots().take(next - self.start),
                self.start <= self.end,
            decreases self.end - next,
        {
            slots.push(next);
            next = next + 1;
        }
        assert(self@.open_slots().take(next - self.start) =~= self@.open_slots());
        slots
    }

    /// The slots of the open range that are neither empty nor decided, in order.
    pub fn unresolved(&self) -> (slots: Vec<Slot>)
        requires
            self.wf(),
        ensures
            slots@ == self@.unresolved(),
    {
        let open: Vec<Slot> = self.open_slots();
        let mut slots: Vec<Slot> = Vec::new();
        let ghost keep = |slot: Slot| self@.is_open(slot);
        assert(open@.take(0).filter(keep) =~= Seq::empty()) by {
            reveal(Seq::filter);
        }
        for i in 0..open.len()
            invariant
                slots@ == open@.take(i as int).filter(keep),
                keep == (|slot: Slot| self@.is_open(slot)),
        {
            proof {
                reveal(Seq::filter);
                assert(open@.take(i + 1).drop_last() =~= open@.take(i as int));
            }
            if let SlotRef::Open = self.slot(open[i]) {
                slots.push(open[i]);
            }
        }
        assert(open@.take(open@.len() as int) =~= open@);
        slots
    }

    /// The slots of the open range that are not decided, in order.
    pub fn missing(&self) -> (slots: Vec<Slot>)
        requires
            self.wf(),
        ensures
            slots@ == self@.missing(),
    {
        let open: Vec<Slot> = self.open_slots();
        let mut slots: Vec<Slot> = Vec::new();
        let ghost keep = |slot: Slot| !self@.is_resolved(slot);
        assert(open@.take(0).filter(keep) =~= Seq::empty()) by {
            reveal(Seq::filter);
        }
        for i in 0..open.len()
            invariant
                slots@ == open@.take(i as int).filter(keep),
                keep == (|slot: Slot| !self@.is_resolved(slot)),
        {
            proof {
                reveal(Seq::filter);
                assert(open@.take(i + 1).drop_last() =~= open@.take(i as int));
            }
            match self.slot(open[i]) {
                SlotRef::Resolved(..) => {},
                _ => {
                    slots.push(open[i]);
                },
            }
        }
        assert(open@.take(open@.len() as int) =~= open@);
        slots
    }

    /// Takes the acceptor of a slot out of the window; that of an empty slot is new.
    fn take(&mut self, slot: Slot) -> (acceptor: Acceptor)
        requires
            old(self).wf(),
        ensures
            acceptor@ == old(self)@.acceptor(slot),
            acceptor.node == old(self).node,
            acceptor.quorum == old(self).quorum,
            final(self).acceptors_match(),
            final(self)@ == (WindowView {
                slots: old(self)@.slots.remove(slot),
                ..old(self)@
            }),
    {
        let taken = self.slots.remove(&slot);
        assert(self@.slots =~= old(self)@.slots.remove(slot));
        match taken {
            Some(acceptor) => acceptor,
            None => Acceptor::new(self.node, self.quorum),
        }
    }

    /// Puts the acceptor of a slot into the window.
    fn put(&mut self, slot: Slot, acceptor: Acceptor)
        requires
            slot < u64::MAX,
            old(self).acceptors_match(),
            acceptor.node == old(self).node,
            acceptor.quorum == old(self).quorum,
        ensures
            final(self).acceptors_match(),
            final(self)@ == old(self)@.put(slot, acceptor@),
    {
        self.slots.insert(slot, acceptor);
        if slot >= self.end {
            self.end = slot + 1;
        }
        assert(self@.slots =~= old(self)@.slots.insert(slot, acceptor@));
    }

    /// Moves the open range behind the decided slots at its start.
    fn settle(&mut self)
        requires
            old(self).acceptors_match(),
            old(self).start <= old(self).end,
        ensures
            final(self).acceptors_match(),
            final(self)@ == old(self)@.settle(),
    {
        let ghost slots = self@.slots;
        while self.start < self.end
            invariant_except_break
                first_undecided(slots, self.start, self.end) == first_undecided(
                    slots,
                    old(self).start,
                    self.end,
                ),
            invariant
                self.acceptors_match(),
                self.start <= self.end,
                self.end == old(self).end,
                self.node == old(self).node,
                self.quorum == old(self).quorum,
                slots == old(self)@.slots,
                self@.slots == slots,
            ensures
                self.start == first_undecided(slots, old(self).start, old(self).end),
            decreases self.end - self.start,
        {
            match self.slot(self.start) {
                SlotRef::Resolved(..) => {
                    self.start = self.start + 1;
                },
                _ => {
                    break;
                },
            }
        }
        if self.start == self.end && self.end < u64::MAX {
            self.slots.insert(self.end, Acceptor::new(self.node, self.quorum));
            self.end = self.end + 1;
            assert(self@.slots =~= slots.insert(old(self).end, AcceptorView::fresh()));
        }
        assert(self@ =~= old(self)@.settle());
    }

    /// Hands a PREPARE to the acceptor of a slot that is not empty.
    pub fn receive_prepare(&mut self, slot: Slot, ballot: Ballot) -> (response: PrepareResponse)
        requires
            old(self).wf(),
            !old(self)@.is_empty(slot),
        ensures
            final(self).wf(),
            final(self)@ == old(self)@.prepare(slot, ballot),
            response.gives(ballot, old(self)@.acceptor(slot).prepare_reply(ballot)),
    {
        let mut acceptor = self.take(slot);
        let response = acceptor.receive_prepare(ballot);
        self.put(slot, acceptor);
        proof {
            assert(self@ =~= old(self)@.prepare(slot, ballot));
            lemma_put_valid(old(self)@, slot, acceptor@);
        }
        response
    }

    /// Hands an ACCEPT to the acceptor of a slot; an empty slot is opened for it.
    pub fn receive_accept(&mut self, slot: Slot, ballot: Ballot, value: Bytes) -> (response:
        AcceptResponse)
        requires
            old(self).wf(),
            slot < u64::MAX,
        ensures
            final(self).wf(),
            final(self)@ == old(self)@.accept(slot, ballot, contents(value)),
            response.gives(ballot, old(self)@.acceptor(slot).accept_reply(ballot)),
    {
        let mut acceptor = self.take(slot);
        let ghost bytes = contents(value);
        let response = acceptor.receive_accept(ballot, value);
        self.put(slot, acceptor);
        proof {
            assert(self@ =~= old(self)@.accept(slot, ballot, bytes));
            lemma_put_valid(old(self)@, slot, acceptor@);
        }
        response
    }

    /// Learns that a value was proposed for a slot; an empty slot is opened for it.
    pub fn notice_value(&mut self, slot: Slot, ballot: Ballot, value: Bytes)
        requires
            old(self).wf(),
            slot < u64::MAX,
        ensures
            final(self).wf(),
            final(self)@ == old(self)@.notice(slot, ballot, contents(value)),
    {
        let mut acceptor = self.take(slot);
        let ghost bytes = contents(value);
        acceptor.notice_value(ballot, value);
        self.put(slot, acceptor);
        proof {
            assert(self@ =~= old(self)@.notice(slot, ballot, bytes));
            lemma_put_valid(old(self)@, slot, acceptor@);
        }
    }

    /// Hands an ACCEPTED to the acceptor of a slot that is not empty, and returns the decision
    /// of the slot, if there is one then.
    pub fn receive_accepted(&mut self, slot: Slot, from: NodeId, ballot: Ballot) -> (resolution:
        Option<(Ballot, Bytes)>)
        requires
            old(self).wf(),
            !old(self)@.is_empty(slot),
        ensures
            final(self).wf(),
            final(self)@ == old(self)@.vote(slot, from, ballot),
            vote_view(resolution) == old(self)@.acceptor(slot).vote(
                old(self)@.quorum,
                from,
                ballot,
            ).resolution(),
    {
        let mut acceptor = self.take(slot);
        acceptor.receive_accepted(from, ballot);
        let resolution = acceptor.resolution();
        self.put(slot, acceptor);
        proof {
            assert(self@ =~= old(self)@.put(slot, acceptor@));
            lemma_settle_valid(old(self)@, slot, acceptor@);
        }
        self.settle();
        resolution
    }

    /// Learns the decision of a slot; an empty slot is opened for it.
    pub fn resolve(&mut self, slot: Slot, ballot: Ballot, value: Bytes)
        requires
            old(self).wf(),
            slot < u64::MAX,
        ensures
            final(self).wf(),
            final(self)@ == old(self)@.resolve(slot, ballot, contents(value)),
    {
        let mut acceptor = self.take(slot);
        acceptor.resolve(ballot, value);
        self.put(slot, acceptor);
        proof {
            assert(self@ =~= old(self)@.put(slot, acceptor@));
            lemma_settle_valid(old(self)@, slot, acceptor@);
        }
        self.settle();
    }

    /// The slot for the next proposal.
    pub fn next_slot(&self) -> (slot: Slot)
        requires
            self.wf(),
        ensures
            slot == self@.next_slot(),
    {
        if self.start < self.end {
            let last: Slot = self.end - 1;
            if let SlotRef::Open = self.slot(last) {
                if self.highest_value(last).is_none() {
                    return last;
                }
            }
        }
        self.end
    }

    /// The decisions below the open range.
    pub fn decisions(&self) -> (decisions: DecisionSet)
        requires
            self.wf(),
        ensures
            decisions@ == self@.decisions(),
    {
        let mut set = DecisionSet { decisions: Vec::new() };
        let mut slot: Slot = 0;
        while slot < self.start
            invariant
                self.wf(),
                slot <= self.start,
                set@ =~= self@.decisions().take(slot as int),
            decreases self.start - slot,
        {
            assert(self@.is_resolved(slot));
            if let SlotRef::Resolved(_, value) = self.slot(slot) {
                let ghost before = set@;
                set.decisions.push((slot, value));
                assert(set@ =~= before.push((slot, contents(value))));
                assert(self@.decisions()[slot as int] == (slot, contents(value)));
            }
            slot = slot + 1;
        }
        assert(self@.decisions().take(self.start as int) =~= self@.decisions());
        set
    }
}

/// What is read of the decisions from a slot on is what is decided for that slot and those behind
/// it, in the order of all decisions, and all of that.
pub proof fn ranges_start_at_their_slot(decisions: Seq<(Slot, Seq<u8>)>, start: Slot)
    requires
        forall|i: int| 0 <= i < decisions.len() ==> (#[trigger] decisions[i]).0 == i,
    ensures
        decisions.filter(is_from(start)) == if start <= decisions.len() {
            decisions.skip(start as int)
        } else {
            Seq::empty()
        },
    decreases decisions.len(),
{
    reveal(Seq::filter);
    if decisions.len() > 0 {
        let earlier = decisions.drop_last();
        assert forall|i: int| 0 <= i < earlier.len() implies (#[trigger] earlier[i]).0 == i by {
            assert(decisions[i].0 == i);
        }
        ranges_start_at_their_slot(earlier, start);
        assert(decisions[decisions.len() - 1].0 == decisions.len() - 1);
        if start < decisions.len() {
            assert(earlier.skip(start as int).push(decisions.last()) =~= decisions.skip(
                start as int,
            ));
        } else {
            assert(decisions.filter(is_from(start)) =~= Seq::empty());
            if start == decisions.len() {
                assert(decisions.skip(start as int) =~= Seq::empty());
            }
        }
    } else {
        assert(decisions.filter(is_from(start)) =~= Seq::empty());
        assert(decisions.skip(0) =~= Seq::empty());
    }
}

} // verus!
