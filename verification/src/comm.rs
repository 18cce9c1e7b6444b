//! What a node asks of the transport.

use crate::ballot::NodeId;
use crate::commands::{Command, CommandView};
use crate::round::{PaxosKey, PaxosRound};
use vstd::prelude::*;

verus! {

/// What an action says.
#[verifier::ext_equal]
pub enum ActionView {
    Enter { key: PaxosKey, round: PaxosRound },
    Tick { key: PaxosKey },
    Send { to: NodeId, key: PaxosKey, command: CommandView },
}

/// Request of a node to the transport. Actions are carried out in the order in which they were
/// asked for.
pub enum Action {
    /// Move a key to a round, which must not lie in the past of the key.
    Enter { key: PaxosKey, round: PaxosRound },
    /// Move a key one step on, if it can be.
    Tick { key: PaxosKey },
    /// Send a command to a peer under a key, stamped with the round of that key.
    Send { to: NodeId, key: PaxosKey, command: Command },
}

impl View for Action {
    type V = ActionView;

    open spec fn view(&self) -> ActionView {
        match *self {
            Action::Enter { key, round } => ActionView::Enter { key, round },
            Action::Tick { key } => ActionView::Tick { key },
            Action::Send { to, key, command } => ActionView::Send { to, key, command: command@ },
        }
    }
}

/// What a sequence of actions says.
pub open spec fn actions_view(actions: Seq<Action>) -> Seq<ActionView> {
    actions.map_values(|action: Action| action@)
}

/// The actions that a node has asked for and that nobody has taken over yet.
pub struct Comm {
    pub actions: Vec<Action>,
}

impl View for Comm {
    type V = Seq<ActionView>;

    open spec fn view(&self) -> Seq<ActionView> {
        actions_view(self.actions@)
    }
}

impl Comm {
    /// No actions.
    pub fn new() -> (comm: Comm)
        ensures
            comm@ == Seq::<ActionView>::empty(),
    {
        let comm = Comm { actions: Vec::new() };
        assert(comm@ =~= Seq::empty());
        comm
    }

    /// Asks for an action.
    pub fn push(&mut self, action: Action)
        ensures
            final(self)@ == old(self)@.push(action@),
    {
        self.actions.push(action);
        assert(self@ =~= old(self)@.push(action@));
    }

    /// Takes over all actions, in the order in which they were asked for.
    pub fn take(&mut self) -> (actions: Vec<Action>)
        ensures
            actions_view(actions@) == old(self)@,
            final(self)@ == Seq::<ActionView>::empty(),
    {
        let mut actions: Vec<Action> = Vec::new();
        std::mem::swap(&mut actions, &mut self.actions);
        assert(self@ =~= Seq::empty());
        actions
    }
}

} // verus!
