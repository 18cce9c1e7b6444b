//! The byte strings that replicas agree on, held in the `Bytes` of the `bytes` crate.

use crate::ballot::Ballot;
use bytes::Bytes;
use vstd::prelude::*;

verus! {

#[verifier::external_type_specification]
#[verifier::external_body]
pub struct ExBytes(Bytes);

/// The bytes that a `Bytes` holds, in order.
pub uninterp spec fn contents(value: Bytes) -> Seq<u8>;

/// Calls `<Bytes as Clone>::clone`: the result holds the same bytes.
#[verifier::external_body]
pub(crate) fn duplicate(value: &Bytes) -> (copy: Bytes)
    ensures
        contents(copy) == contents(*value),
{
    value.clone()
}

/// Calls `Bytes::default`: the result holds no bytes.
#[verifier::external_body]
pub(crate) fn empty_value() -> (value: Bytes)
    ensures
        contents(value) == Seq::<u8>::empty(),
{
    Bytes::default()
}

/// What an optional ballot and value hold.
pub open spec fn vote_view(vote: Option<(Ballot, Bytes)>) -> Option<(Ballot, Seq<u8>)> {
    match vote {
        Some((ballot, value)) => Some((ballot, contents(value))),
        None => None,
    }
}

/// What a sequence of values holds.
pub open spec fn values_view(values: Seq<Bytes>) -> Seq<Seq<u8>> {
    values.map_values(|value: Bytes| contents(value))
}

/// A copy of an optional ballot and value.
pub(crate) fn duplicate_vote(vote: &Option<(Ballot, Bytes)>) -> (copy: Option<(Ballot, Bytes)>)
    ensures
        vote_view(copy) == vote_view(*vote),
{
    match vote {
        Some((ballot, value)) => Some((*ballot, duplicate(value))),
        None => None,
    }
}

} // verus!
