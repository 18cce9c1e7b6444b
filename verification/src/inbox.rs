//! Commands as they come from the transport: stamped with a key and a round, or collected in the
//! inbox of a round.

use crate::ballot::{Ballot, Slot};
use crate::comm::ActionView;
use crate::commands::{Command, CommandView, Receiver};
use crate::model::{promises, selected, votes, NodeView, StampCheck};
use crate::node::Node;
use crate::round::{PaxosKey, PaxosRound, Phase};
use vstd::prelude::*;

verus! {

/// What the messages of an inbox say.
pub open spec fn inbox_view(messages: Seq<Option<Command>>) -> Seq<Option<CommandView>> {
    messages.map_values(
        |message: Option<Command>|
            match message {
                Some(command) => Some(command@),
                None => None,
            },
    )
}

/// Receiver of commands that come with the key and the round under which they were sent.
pub trait StampedReceiver: Receiver + Sized {
    /// Whether a command is received, given whether its key could be moved to its round.
    spec fn takes(
        &self,
        key: PaxosKey,
        round: PaxosRound,
        command: CommandView,
        entered: bool,
    ) -> bool;

    /// Receives a stamped command if its stamp is right, and reports whether it did. `entered`
    /// tells whether the key of a command that belongs to a round could be moved to that round.
    fn try_receive_stamped(
        &mut self,
        key: PaxosKey,
        round: PaxosRound,
        cmd: Command,
        entered: bool,
    ) -> (taken: bool)
        requires
            old(self).takes(key, round, cmd@, entered) ==> old(self).receivable(cmd@),
        ensures
            taken == old(self).takes(key, round, cmd@, entered),
            taken ==> old(self).received(cmd@, final(self)),
            !taken ==> *final(self) == *old(self),
    ;
}

impl<A> Node<A> {
    /// Whether a command arrived with the key and the round it has to have.
    pub fn check_stamp(&self, key: PaxosKey, round: PaxosRound, cmd: &Command) -> (check:
        StampCheck)
        ensures
            check == self@.check_stamp(key, round, cmd@),
    {
        if key != cmd.key_for(self.config.current()) {
            return StampCheck::Mismatch;
        }
        match cmd.protocol_stamp() {
            Some((protocol_key, protocol_round)) => if key != protocol_key || round
                != protocol_round {
                StampCheck::Mismatch
            } else {
                StampCheck::InRound
            },
            None => StampCheck::Free,
        }
    }

    /// Receives a stamped command whose stamp is right. The transport first moves the key of a
    /// command that belongs to a round to that round, which it refuses for a round in the past of
    /// the key; `entered` tells whether it did, and no such command is received otherwise. The
    /// round of another command moves nothing.
    pub fn receive_stamped(
        &mut self,
        key: PaxosKey,
        round: PaxosRound,
        cmd: Command,
        entered: bool,
    )
        requires
            old(self).wf(),
            old(self)@.check_stamp(key, round, cmd@).admits(entered),
            old(self)@.ready_for(cmd@),
        ensures
            final(self).wf(),
            final(self).config == old(self).config,
            final(self)@ == old(self)@.react(cmd@),
    {
        self.receive(cmd);
    }

    /// Receives a stamped command if its stamp is right and its key could be moved to its round.
    fn receive_stamped_checked(
        &mut self,
        key: PaxosKey,
        round: PaxosRound,
        cmd: Command,
        entered: bool,
    ) -> (taken: bool)
        requires
            old(self)@.check_stamp(key, round, cmd@).admits(entered) ==> old(self).wf()
                && old(self)@.ready_for(cmd@),
        ensures
            taken == old(self)@.check_stamp(key, round, cmd@).admits(entered),
            taken ==> final(self).wf() && final(self).config == old(self).config && final(self)@
                == old(self)@.react(cmd@),
            !taken ==> *final(self) == *old(self),
    {
        match self.check_stamp(key, round, &cmd) {
            StampCheck::Mismatch => {
                return false;
            },
            StampCheck::InRound => {
                if !entered {
                    return false;
                }
            },
            StampCheck::Free => {},
        }
        self.receive(cmd);
        true
    }

    /// Moves the key of a slot to the round in which the promises for a ballot are collected.
    pub fn enter_promise_inbox(&mut self, slot: Slot, ballot: Ballot)
        ensures
            final(self).same_but_asked(*old(self)),
            final(self)@ == old(self)@.ask(
                ActionView::Enter {
                    key: PaxosKey::Slot { slot, proposer: ballot.1 },
                    round: PaxosRound { ballot: ballot.0, phase: Phase::Promise },
                },
            ),
    {
        self.enter_round(PaxosKey::Slot { slot, proposer: ballot.1 }, ballot, Phase::Promise);
    }

    /// Receives the promises among the messages of an inbox and returns their number.
    pub fn collect_promise_inbox(&mut self, messages: Vec<Option<Command>>) -> (count: usize)
        requires
            old(self).wf(),
            old(self)@.ready_for_all(promises(inbox_view(messages@))),
        ensures
            final(self).wf(),
            final(self).config == old(self).config,
            final(self)@ == old(self)@.react_all(promises(inbox_view(messages@))),
            count == promises(inbox_view(messages@)).len(),
    {
        let ghost views = inbox_view(messages@);
        let mut count: usize = 0;
        for i in 0..messages.len()
            invariant
                views == inbox_view(messages@),
                count == promises(views.take(i as int)).len(),
                count <= i,
                old(self)@.ready_for_all(promises(views)),
                self.wf(),
                self.config == old(self).config,
                self@ == old(self)@.react_all(promises(views.take(i as int))),
        {
            assert(views.take(i + 1).drop_last() =~= views.take(i as int));
            if let Some(msg) = &messages[i] {
                if let Command::Promise { .. } = msg {
                    proof {
                        let keep = |command: CommandView| command is Promise;
                        lemma_ready_for_earlier(old(self)@, views, i + 1, keep);
                        let taken = promises(views.take(i + 1));
                        assert(taken =~= promises(views.take(i as int)).push(msg@));
                        assert(taken.drop_last() =~= promises(views.take(i as int)));
                    }
                    count = count + 1;
                    self.receive(msg.clone());
                }
            }
        }
        assert(views.take(messages@.len() as int) =~= views);
        count
    }

    /// Moves the key of a slot to the round in which the votes for a ballot are collected.
    pub fn enter_accepted_inbox(&mut self, slot: Slot, ballot: Ballot)
        ensures
            final(self).same_but_asked(*old(self)),
            final(self)@ == old(self)@.ask(
                ActionView::Enter {
                    key: PaxosKey::Slot { slot, proposer: ballot.1 },
                    round: PaxosRound { ballot: ballot.0, phase: Phase::Accepted },
                },
            ),
    {
        self.enter_round(PaxosKey::Slot { slot, proposer: ballot.1 }, ballot, Phase::Accepted);
    }

    /// Receives the votes among the messages of an inbox and returns their number.
    pub fn collect_accepted_inbox(&mut self, messages: Vec<Option<Command>>) -> (count: usize)
        requires
            old(self).wf(),
        ensures
            final(self).wf(),
            final(self).config == old(self).config,
            final(self)@ == old(self)@.react_all(votes(inbox_view(messages@))),
            count == votes(inbox_view(messages@)).len(),
    {
        let ghost views = inbox_view(messages@);
        let mut count: usize = 0;
        for i in 0..messages.len()
            invariant
                views == inbox_view(messages@),
                count == votes(views.take(i as int)).len(),
                count <= i,
                self.wf(),
                self.config == old(self).config,
                self@ == old(self)@.react_all(votes(views.take(i as int))),
        {
            assert(views.take(i + 1).drop_last() =~= views.take(i as int));
            if let Some(msg) = &messages[i] {
                if let Command::Accepted { .. } = msg {
                    proof {
                        let taken = votes(views.take(i + 1));
                        assert(taken =~= votes(views.take(i as int)).push(msg@));
                        assert(taken.drop_last() =~= votes(views.take(i as int)));
                    }
                    count = count + 1;
                    self.receive(msg.clone());
                }
            }
        }
        assert(views.take(messages@.len() as int) =~= views);
        count
    }
}

/// A node that can react to the selected commands of an inbox can react to those of its
/// beginning.
proof fn lemma_ready_for_earlier(
    node: NodeView,
    messages: Seq<Option<CommandView>>,
    upto: int,
    keep: spec_fn(CommandView) -> bool,
)
    requires
        0 <= upto <= messages.len(),
        node.ready_for_all(selected(messages, keep)),
    ensures
        node.ready_for_all(selected(messages.take(upto), keep)),
    decreases messages.len(),
{
    if upto == messages.len() {
        assert(messages.take(upto) =~= messages);
    } else {
        let before = selected(messages.drop_last(), keep);
        if let Some(command) = messages.last() {
            if keep(command) {
                assert(selected(messages, keep).drop_last() =~= before);
            }
        }
        assert(messages.drop_last().take(upto) =~= messages.take(upto));
        lemma_ready_for_earlier(node, messages.drop_last(), upto, keep);
    }
}

impl<A> StampedReceiver for Node<A> {
    open spec fn takes(
        &self,
        key: PaxosKey,
        round: PaxosRound,
        command: CommandView,
        entered: bool,
    ) -> bool {
        self@.check_stamp(key, round, command).admits(entered)
    }

    fn try_receive_stamped(
        &mut self,
        key: PaxosKey,
        round: PaxosRound,
        cmd: Command,
        entered: bool,
    ) -> (taken: bool) {
        self.receive_stamped_checked(key, round, cmd, entered)
    }
}

} // verus!
