//! Rounds of the protocol and the keys under which they run.

use crate::ballot::{NodeId, Slot};
use vstd::prelude::*;

verus! {

/// Step of the protocol within a ballot, in the order in which a key moves through them.
#[derive(Clone, Copy, PartialEq, Eq, Structural, Debug)]
pub enum Phase {
    Prepare,
    Promise,
    Accept,
    Accepted,
    Reject,
    Resolution,
    Catchup,
}

impl Phase {
    /// Position of the phase in the order of phases.
    pub open spec fn position(self) -> int {
        match self {
            Phase::Prepare => 0,
            Phase::Promise => 1,
            Phase::Accept => 2,
            Phase::Accepted => 3,
            Phase::Reject => 4,
            Phase::Resolution => 5,
            Phase::Catchup => 6,
        }
    }

    /// Rank of the phase in the order of phases.
    pub fn rank(&self) -> (rank: u8)
        ensures
            rank == self.position(),
    {
        match self {
            Phase::Prepare => 0,
            Phase::Promise => 1,
            Phase::Accept => 2,
            Phase::Accepted => 3,
            Phase::Reject => 4,
            Phase::Resolution => 5,
            Phase::Catchup => 6,
        }
    }
}

/// Key of a communication channel; each key moves through its own rounds.
#[derive(Clone, Copy, PartialEq, Eq, Structural, Hash, Debug)]
pub enum PaxosKey {
    /// Proposals sent to a node.
    ProposalTo(NodeId),
    /// Protocol messages of a slot under the ballots of one proposer.
    Slot { slot: Slot, proposer: NodeId },
    /// Catchup requests for a slot sent to a leader.
    Catchup { slot: Slot, leader: NodeId },
}

/// The two words of a slot, most significant first.
pub open spec fn slot_words(slot: Slot) -> Seq<u32> {
    seq![(slot as int / 0x1_0000_0000) as u32, (slot as int % 0x1_0000_0000) as u32]
}

impl PaxosKey {
    /// Number of words of an encoded key.
    pub const LEN: usize = 4;

    /// The word that tells the kinds of keys apart.
    pub open spec fn tag(self) -> u32 {
        match self {
            PaxosKey::ProposalTo(_) => 0,
            PaxosKey::Slot { .. } => 1,
            PaxosKey::Catchup { .. } => 2,
        }
    }

    /// The node that a key names.
    pub open spec fn node(self) -> NodeId {
        match self {
            PaxosKey::ProposalTo(node) => node,
            PaxosKey::Slot { proposer, .. } => proposer,
            PaxosKey::Catchup { leader, .. } => leader,
        }
    }

    /// The slot of a key; proposals are not tied to one and count as slot zero.
    pub open spec fn slot(self) -> Slot {
        match self {
            PaxosKey::ProposalTo(_) => 0,
            PaxosKey::Slot { slot, .. } => slot,
            PaxosKey::Catchup { slot, .. } => slot,
        }
    }

    /// The words that encode a key.
    pub open spec fn words(self) -> Seq<u32> {
        seq![self.tag(), self.node()] + slot_words(self.slot())
    }

    /// Appends the words of this key to `out`.
    pub fn encode(&self, out: &mut Vec<u32>)
        ensures
            final(out)@ == old(out)@ + self.words(),
    {
        match self {
            PaxosKey::ProposalTo(node) => {
                out.push(0);
                out.push(*node);
                encode_slot(0, out);
            },
            PaxosKey::Slot { slot, proposer } => {
                out.push(1);
                out.push(*proposer);
                encode_slot(*slot, out);
            },
            PaxosKey::Catchup { slot, leader } => {
                out.push(2);
                out.push(*leader);
                encode_slot(*slot, out);
            },
        }
        assert(out@ =~= old(out)@ + self.words());
    }

    /// The key that `raw` encodes, if there is one. So decoding gives back what was encoded.
    pub fn decode(raw: &[u32]) -> (key: Option<PaxosKey>)
        ensures
            forall|k: PaxosKey| #[trigger] k.words() == raw@ <==> key == Some(k),
    {
        if raw.len() != Self::LEN {
            assert(forall|k: PaxosKey| (#[trigger] k.words()).len() == 4);
            return None;
        }
        let node: u32 = raw[1];
        let high: u32 = raw[2];
        let low: u32 = raw[3];
        let slot: u64 = ((high as u64) << 32) | low as u64;
        proof {
            assert(((high as u64) << 32) | (low as u64) == high as u64 * 0x1_0000_0000 + low as u64)
                by (bit_vector);
            assert(slot_words(slot) =~= seq![high, low]);
            assert(slot_words(0) =~= seq![0u32, 0u32]);
            assert forall|k: PaxosKey| #[trigger] k.words() == raw@ implies {
                ||| raw[0] == 0 && slot == 0
                ||| raw[0] == 1
                ||| raw[0] == 2
            } by {
                assert(k.words()[0] == raw@[0]);
                assert(k.words()[2] == raw@[2]);
                assert(k.words()[3] == raw@[3]);
            }
        }
        let key: Option<PaxosKey> = match raw[0] {
            0 => if slot == 0 {
                Some(PaxosKey::ProposalTo(node))
            } else {
                None
            },
            1 => Some(PaxosKey::Slot { slot, proposer: node }),
            2 => Some(PaxosKey::Catchup { slot, leader: node }),
            _ => None,
        };
        proof {
            if let Some(found) = key {
                assert(found.words() =~= raw@);
                assert forall|k: PaxosKey| #[trigger] k.words() == raw@ implies k == found by {
                    key_words_determine_key(k, found);
                }
            }
        }
        key
    }
}

/// Appends the two words of `slot` to `out`, most significant first.
pub fn encode_slot(slot: Slot, out: &mut Vec<u32>)
    ensures
        final(out)@ == old(out)@ + slot_words(slot),
{
    let high: u32 = (slot >> 32) as u32;
    let low: u32 = (slot & 0xffff_ffff) as u32;
    proof {
        assert(slot >> 32 == slot / 0x1_0000_0000) by (bit_vector);
        assert(slot & 0xffff_ffff == slot % 0x1_0000_0000) by (bit_vector);
    }
    out.push(high);
    out.push(low);
    assert(out@ =~= old(out)@ + slot_words(slot));
}

/// Two slots with the same words are the same slot.
proof fn slot_words_determine_slot(a: Slot, b: Slot)
    requires
        slot_words(a)[0] == slot_words(b)[0],
        slot_words(a)[1] == slot_words(b)[1],
    ensures
        a == b,
{
    assert(0 <= a as int / 0x1_0000_0000 <= u32::MAX);
    assert(0 <= b as int / 0x1_0000_0000 <= u32::MAX);
}

/// Encoding is injective: two keys with the same words are the same key.
pub proof fn key_words_determine_key(a: PaxosKey, b: PaxosKey)
    requires
        a.words() == b.words(),
    ensures
        a == b,
{
    let (x, y) = (slot_words(a.slot()), slot_words(b.slot()));
    assert(a.words() =~= seq![a.tag(), a.node(), x[0], x[1]]);
    assert(b.words() =~= seq![b.tag(), b.node(), y[0], y[1]]);
    assert(a.words()[0] == a.tag() && a.words()[1] == a.node());
    assert(a.words()[2] == x[0] && a.words()[3] == x[1]);
    slot_words_determine_slot(a.slot(), b.slot());
}

/// Every encoded key has the same number of words.
pub proof fn key_words_have_fixed_length(key: PaxosKey)
    ensures
        key.words().len() == PaxosKey::LEN,
{
}

/// Round of a key: a ballot number and a phase within it.
#[derive(Clone, Copy, PartialEq, Eq, Structural, Debug)]
pub struct PaxosRound {
    pub ballot: u32,
    pub phase: Phase,
}

impl PaxosRound {
    /// Strict order of rounds: by ballot number first and by phase second.
    pub open spec fn lt(self, other: PaxosRound) -> bool {
        self.ballot < other.ballot || (self.ballot == other.ballot && self.phase.position()
            < other.phase.position())
    }

    pub fn new(ballot: u32, phase: Phase) -> (round: PaxosRound)
        ensures
            round == (PaxosRound { ballot, phase }),
    {
        PaxosRound { ballot, phase }
    }

    /// Ballot number of the round.
    pub fn ballot(&self) -> (ballot: u32)
        ensures
            ballot == self.ballot,
    {
        self.ballot
    }

    /// Phase of the round.
    pub fn phase(&self) -> (phase: Phase)
        ensures
            phase == self.phase,
    {
        self.phase
    }

    /// Whether this round and `remote` both are the round of a phase in the same ballot.
    pub fn meets(&self, remote: &PaxosRound, phase: Phase) -> (meets: bool)
        ensures
            meets == (self.ballot == remote.ballot && self.phase == phase && remote.phase == phase),
    {
        self.ballot == remote.ballot && self.phase == phase && remote.phase == phase
    }

    /// Whether this round lies in the past of `other`.
    pub fn precedes(&self, other: &PaxosRound) -> (past: bool)
        ensures
            past == self.lt(*other),
    {
        self.ballot < other.ballot || (self.ballot == other.ballot && self.phase.rank()
            < other.phase.rank())
    }
}

/// Rounds are ordered by ballot number, and by phase where the numbers are the same. The phases of
/// a ballot follow each other: PREPARE, promise, ACCEPT, vote, rejection, resolution, catchup.
pub proof fn rounds_are_ordered_by_ballot_and_phase(a: PaxosRound, b: PaxosRound)
    ensures
        a.ballot < b.ballot ==> a.lt(b) && !b.lt(a),
        a.ballot == b.ballot ==> (a.lt(b) <==> a.phase.position() < b.phase.position()),
        Phase::Prepare.position() < Phase::Promise.position(),
        Phase::Promise.position() < Phase::Accept.position(),
        Phase::Accept.position() < Phase::Accepted.position(),
        Phase::Accepted.position() < Phase::Reject.position(),
        Phase::Reject.position() < Phase::Resolution.position(),
        Phase::Resolution.position() < Phase::Catchup.position(),
{
}

/// A key is encoded as four words: what it is a key of, the node it names, and the two halves of
/// its slot, the upper one first. Proposals have no slot and count as slot zero.
pub proof fn keys_are_encoded_by_kind_node_and_slot(node: NodeId, slot: Slot)
    ensures
        PaxosKey::ProposalTo(node).words() == seq![0u32, node, 0u32, 0u32],
        ({
            let words = PaxosKey::Slot { slot, proposer: node }.words();
            words.len() == 4 && words[0] == 1 && words[1] == node && words[2] * 0x1_0000_0000
                + words[3] == slot
        }),
        ({
            let words = PaxosKey::Catchup { slot, leader: node }.words();
            words.len() == 4 && words[0] == 2 && words[1] == node && words[2] * 0x1_0000_0000
                + words[3] == slot
        }),
{
    assert(PaxosKey::ProposalTo(node).words() =~= seq![0u32, node, 0u32, 0u32]);
    assert(0 <= slot as int / 0x1_0000_0000 <= u32::MAX);
}

} // verus!
