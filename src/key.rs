//! Entity keys: generational slot-map handles carried as plain integers.
use vstd::prelude::*;

verus! {

/// `2^32`: the low half of a key holds the slot index, the high half its version.
pub const VERSION_UNIT: u64 = 0x1_0000_0000;

/// The slot index that marks the null key.
pub const NULL_INDEX: u64 = 0xFFFF_FFFF;

pub open spec fn key_index(b: u64) -> u64 {
    b & 0xFFFF_FFFF
}

/// A key as the slot map reads it back: the version is forced to be odd.
pub open spec fn normalized(b: u64) -> u64 {
    b | VERSION_UNIT
}

/// A key that a slot map hands out for an occupied slot.
pub open spec fn is_live_key(b: u64) -> bool {
    (b >> 32u64) & 1 == 1 && key_index(b) != NULL_INDEX
}

/// A stable, generation-tagged handle to one entity of a scene.
///
/// `bits` is the slot map's integer encoding of the key (version in the high
/// half, slot index in the low half). A freed slot is reused under a new
/// version, so a stale key never aliases a new entity.
#[derive(Clone, Copy, Debug, PartialEq, Eq, Hash)]
pub struct EntityKey {
    pub bits: u64,
}

impl View for EntityKey {
    type V = u64;

    open spec fn view(&self) -> u64 {
        normalized(self.bits)
    }
}

pub proof fn lemma_live_key_normalized(b: u64)
    requires
        is_live_key(b),
    ensures
        normalized(b) == b,
        (EntityKey { bits: b })@ == b,
{
    assert((b >> 32u64) & 1 == 1 ==> b | 0x1_0000_0000u64 == b) by (bit_vector);
}

impl EntityKey {
    /// The encoding under which the tables store this key.
    pub fn stored_bits(&self) -> (r: u64)
        ensures
            r == self@,
    {
        self.bits | VERSION_UNIT
    }
}

} // verus!
