//! Node and slot identifiers, and the ballots that order proposals.

use vstd::prelude::*;

verus! {

/// Identifier of a node of the cluster.
pub type NodeId = u32;

/// Index of an instance in the replicated log.
pub type Slot = u64;

/// Ballot number, made unique by the node that proposes it.
///
/// Ballots are ordered by number first and by node second.
#[derive(Clone, Copy, PartialEq, Eq, Structural, Debug)]
pub struct Ballot(pub u32, pub NodeId);

impl Ballot {
    /// Strict order of ballots.
    pub open spec fn lt(self, other: Ballot) -> bool {
        self.0 < other.0 || (self.0 == other.0 && self.1 < other.1)
    }

    /// Order of ballots.
    pub open spec fn le(self, other: Ballot) -> bool {
        self == other || self.lt(other)
    }

    /// Whether this ballot is ordered strictly below `other`.
    pub fn precedes(&self, other: &Ballot) -> (below: bool)
        ensures
            below == self.lt(*other),
    {
        self.0 < other.0 || (self.0 == other.0 && self.1 < other.1)
    }
}

/// The greater of two optional ballots, `None` being below every ballot.
pub open spec fn raise(known: Option<Ballot>, ballot: Ballot) -> Option<Ballot> {
    match known {
        Some(b) => if b.lt(ballot) { Some(ballot) } else { Some(b) },
        None => Some(ballot),
    }
}

/// Order of optional ballots, `None` being below every ballot.
pub open spec fn opt_le(low: Option<Ballot>, high: Option<Ballot>) -> bool {
    match low {
        Some(l) => high matches Some(h) && l.le(h),
        None => true,
    }
}

/// Ballots are totally ordered: the order is irreflexive, transitive, and compares any two
/// distinct ballots.
pub proof fn ballots_are_totally_ordered(a: Ballot, b: Ballot, c: Ballot)
    ensures
        !a.lt(a),
        a.lt(b) && b.lt(c) ==> a.lt(c),
        a == b || a.lt(b) || b.lt(a),
        !(a.lt(b) && b.lt(a)),
{
}

/// Ballots are ordered by number, and by node where the numbers are the same; an optional ballot
/// that is missing is below all others.
pub proof fn ballots_are_ordered_by_number_and_node(a: Ballot, b: Ballot, known: Option<Ballot>)
    ensures
        a.lt(b) <==> a.0 < b.0 || (a.0 == b.0 && a.1 < b.1),
        a.le(b) <==> a.0 < b.0 || (a.0 == b.0 && a.1 <= b.1),
        opt_le(None, known),
        opt_le(Some(a), Some(b)) <==> a.0 < b.0 || (a.0 == b.0 && a.1 <= b.1),
        !opt_le(Some(a), None),
        raise(None, a) == Some(a),
        a.0 < b.0 || (a.0 == b.0 && a.1 <= b.1) ==> raise(Some(a), b) == Some(b) && raise(
            Some(b),
            a,
        ) == Some(b),
{
}

} // verus!
