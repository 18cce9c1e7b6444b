//! The traits of replicas.

use crate::commands::Receiver;
use crate::window::DecisionSet;
use vstd::prelude::*;

verus! {

/// A replica: a receiver of commands that can stand for leadership and that collects decisions.
pub trait Replica: Receiver + Sized {
    /// Whether the replica is in a state from which it can go on.
    spec fn sound(&self) -> bool;

    /// Whether the replica can stand for leadership in its present state.
    spec fn electable(&self) -> bool;

    /// Whether `after` is what the replica becomes by standing for leadership.
    spec fn elected(&self, after: &Self) -> bool;

    /// Whether the replica can make a periodic step in its present state.
    spec fn tickable(&self) -> bool;

    /// Whether `after` is what the replica becomes by a periodic step.
    spec fn ticked(&self, after: &Self) -> bool;

    /// Whether the replica leads.
    spec fn leads(&self) -> bool;

    /// Whether these are the decisions of the replica.
    spec fn has_decided(&self, decisions: &DecisionSet) -> bool;

    /// Stands for leadership
    fn propose_leadership(&mut self)
        requires
            old(self).electable(),
        ensures
            old(self).elected(final(self)),
    ;

    /// Whether the replica leads
    fn is_leader(&self) -> (leader: bool)
        ensures
            leader == self.leads(),
    ;

    /// Makes a periodic step
    fn tick(&mut self)
        requires
            old(self).tickable(),
        ensures
            old(self).ticked(final(self)),
    ;

    /// The decisions of the replica
    fn decisions(&self) -> (decisions: DecisionSet)
        requires
            self.sound(),
        ensures
            self.has_decided(&decisions),
    ;
}

} // verus!
