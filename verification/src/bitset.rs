//! Hierarchical bit sets (from `hibitset`) that record which entity indices
//! a resource holds data for.

use hibitset::{BitSet, BitSetAnd, BitSetLike};
use vstd::prelude::*;

verus! {

#[verifier::external_type_specification]
#[verifier::external_body]
pub struct ExBitSet(BitSet);

/// The indices held by a bit set.
pub uninterp spec fn bitset_contents(b: BitSet) -> Set<u32>;

/// The number of indices a bit set can hold: `usize::BITS` to the fourth
/// power. Every index it holds is below it.
pub open spec fn bitset_max_index() -> int {
    if usize::BITS == 64 {
        0x0100_0000
    } else {
        0x0010_0000
    }
}

/// A sequence of indices in strictly increasing order.
pub open spec fn strictly_increasing(s: Seq<u32>) -> bool {
    forall|i: int, j: int| 0 <= i < j < s.len() ==> s[i] < s[j]
}

/// `BitSet::new`: an empty set.
#[verifier::external_body]
pub(crate) fn bitset_new() -> (b: BitSet)
    ensures
        bitset_contents(b) == Set::<u32>::empty(),
{
    BitSet::new()
}

/// `BitSet::add`: inserts `id`; returns whether it was already present.
/// The source holds only indices below `usize::BITS` to the fourth power.
#[verifier::external_body]
pub(crate) fn bitset_add(b: &mut BitSet, id: u32) -> (was_present: bool)
    requires
        (id as int) < bitset_max_index(),
    ensures
        bitset_contents(*final(b)) == bitset_contents(*old(b)).insert(id),
        was_present == bitset_contents(*old(b)).contains(id),
{
    b.add(id)
}

/// `BitSet::remove`: removes `id`; returns whether it was present.
#[verifier::external_body]
pub(crate) fn bitset_remove(b: &mut BitSet, id: u32) -> (was_present: bool)
    ensures
        bitset_contents(*final(b)) == bitset_contents(*old(b)).remove(id),
        was_present == bitset_contents(*old(b)).contains(id),
{
    b.remove(id)
}

/// `BitSet::contains`.
#[verifier::external_body]
pub(crate) fn bitset_contains(b: &BitSet, id: u32) -> (r: bool)
    ensures
        r == bitset_contents(*b).contains(id),
{
    b.contains(id)
}

/// `BitSetLike::iter` on a bit set, collected: every index of the set,
/// in increasing order.
#[verifier::external_body]
pub(crate) fn bitset_indices(b: &BitSet) -> (v: Vec<u32>)
    requires
        forall|i: u32| #[trigger] bitset_contents(*b).contains(i) ==> (i as int) < bitset_max_index(),
    ensures
        strictly_increasing(v@),
        v@.to_set() == bitset_contents(*b),
{
    b.iter().collect()
}

/// `BitSetLike::iter` on the `BitSetAnd` of two bit sets, collected: every
/// index held by both, in increasing order.
#[verifier::external_body]
pub(crate) fn bitset_and_indices(a: &BitSet, b: &BitSet) -> (v: Vec<u32>)
    requires
        forall|i: u32| #[trigger] bitset_contents(*a).contains(i) ==> (i as int) < bitset_max_index(),
        forall|i: u32| #[trigger] bitset_contents(*b).contains(i) ==> (i as int) < bitset_max_index(),
    ensures
        strictly_increasing(v@),
        v@.to_set() == bitset_contents(*a).intersect(bitset_contents(*b)),
{
    BitSetAnd(a, b).iter().collect()
}

} // verus!
