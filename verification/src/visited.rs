//! Visited-node bitsets for the graph searches, backed by the
//! `fixedbitset` crate behind trusted wrappers.

use fixedbitset::FixedBitSet;
use vstd::prelude::*;

verus! {

#[verifier::external_type_specification]
#[verifier::external_body]
pub struct ExFixedBitSet(FixedBitSet);

/// The set of bit positions currently set in a `FixedBitSet`.
pub uninterp spec fn bits_of(s: FixedBitSet) -> Set<usize>;

/// The number of bits the set was created with.
pub uninterp spec fn bit_capacity(s: FixedBitSet) -> nat;

/// Relies on `FixedBitSet::with_capacity`: a fresh set of `bits` zeroed
/// bits.
#[verifier::external_body]
pub fn bitset_with_capacity(bits: usize) -> (r: FixedBitSet)
    ensures
        bits_of(r) == Set::<usize>::empty(),
        bit_capacity(r) == bits,
{
    FixedBitSet::with_capacity(bits)
}

/// Relies on `FixedBitSet::insert`: sets one bit, keeping the capacity;
/// it panics at or above the capacity, so that range is excluded.
#[verifier::external_body]
pub fn bitset_insert(s: &mut FixedBitSet, bit: usize)
    requires
        bit < bit_capacity(*old(s)),
    ensures
        bits_of(*final(s)) == bits_of(*old(s)).insert(bit),
        bit_capacity(*final(s)) == bit_capacity(*old(s)),
{
    s.insert(bit)
}

/// Relies on `FixedBitSet::contains`: whether the bit is set (false
/// beyond the capacity).
#[verifier::external_body]
pub fn bitset_contains(s: &FixedBitSet, bit: usize) -> (r: bool)
    ensures
        r == bits_of(*s).contains(bit),
{
    s.contains(bit)
}

} // verus!
