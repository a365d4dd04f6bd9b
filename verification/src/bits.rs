//! Trusted interface to `hibitset::BitSet`, the bit vector behind each
//! component index.
//!
//! A `BitSet` is modelled by the set of indices it contains, named by the
//! uninterpreted function [`bitset_bits`]. Every contract here states only
//! what `hibitset`'s source shows of the corresponding operation.

use vstd::prelude::*;
use hibitset::BitSet;
use hibitset::BitSetLike;

verus! {

/// The largest number of indices a `hibitset::BitSet` supports on a 64-bit
/// target; adding an index at or above this bound may panic.
pub const BIT_INDEX_LIMIT: u32 = 0x0100_0000;

#[verifier::external_type_specification]
#[verifier::external_body]
pub struct ExBitSet(BitSet);

/// The set of indices a `hibitset::BitSet` currently contains.
pub uninterp spec fn bitset_bits(b: BitSet) -> Set<u32>;

/// Relies on hibitset::BitSet::new: a newly created bit set is empty.
#[verifier::external_body]
pub fn bitset_new() -> (b: BitSet)
    ensures
        bitset_bits(b) == Set::<u32>::empty(),
{
    BitSet::new()
}

/// Relies on hibitset::BitSet::add: the index is inserted, and the return
/// value says whether it was already present. Indices must stay below the
/// structure's fixed four-layer capacity, or `add` panics.
#[verifier::external_body]
pub fn bitset_add(b: &mut BitSet, id: u32) -> (was: bool)
    requires
        id < BIT_INDEX_LIMIT,
    ensures
        bitset_bits(*final(b)) == bitset_bits(*old(b)).insert(id),
        was == bitset_bits(*old(b)).contains(id),
{
    b.add(id)
}

/// Relies on hibitset::BitSet::remove: the index is removed, and the return
/// value says whether it was present.
#[verifier::external_body]
pub fn bitset_remove(b: &mut BitSet, id: u32) -> (was: bool)
    ensures
        bitset_bits(*final(b)) == bitset_bits(*old(b)).remove(id),
        was == bitset_bits(*old(b)).contains(id),
{
    b.remove(id)
}

/// Relies on hibitset's `BitIter` (reached through `BitSetLike::iter`): it
/// yields each contained index exactly once, in ascending order.
#[verifier::external_body]
pub fn bitset_elements(b: &BitSet) -> (r: Vec<u32>)
    ensures
        forall|i: int, j: int| 0 <= i < j < r@.len() ==> r@[i] < r@[j],
        forall|i: int| 0 <= i < r@.len() ==> bitset_bits(*b).contains(r@[i]),
        forall|x: u32| bitset_bits(*b).contains(x) ==> r@.contains(x),
{
    b.iter().collect()
}

} // verus!
