//! Trusted view of `bit_set::BitSet`: the candidate sets are bit sets, seen
//! by the proofs as finite sets of integers.

use vstd::prelude::*;

verus! {

#[verifier::external_type_specification]
#[verifier::external_body]
#[verifier::reject_recursive_types(B)]
pub struct ExBitSet<B>(bit_set::BitSet<B>);

/// The set of integers a `bit_set::BitSet` holds.
pub uninterp spec fn bitset_view(s: &bit_set::BitSet) -> Set<int>;

/// Relies on bit_set::BitSet::with_capacity: a new set holds nothing.
#[verifier::external_body]
pub fn bitset_with_capacity(nbits: usize) -> (r: bit_set::BitSet)
    ensures
        bitset_view(&r) == Set::<int>::empty(),
{
    bit_set::BitSet::with_capacity(nbits)
}

/// Relies on bit_set::BitSet::insert: adds the value, reports whether it was
/// new.
#[verifier::external_body]
pub fn bitset_insert(s: &mut bit_set::BitSet, value: usize) -> (r: bool)
    ensures
        bitset_view(final(s)) == bitset_view(old(s)).insert(value as int),
        r == !bitset_view(old(s)).contains(value as int),
{
    s.insert(value)
}

/// Relies on bit_set::BitSet::len: the number of set bits.
#[verifier::external_body]
pub fn bitset_len(s: &bit_set::BitSet) -> (r: usize)
    requires
        bitset_view(s).finite(),
    ensures
        r == bitset_view(s).len(),
{
    s.len()
}

/// Relies on bit_set::BitSet::iter: every held value exactly once, in
/// ascending order.
#[verifier::external_body]
pub fn bitset_to_vec(s: &bit_set::BitSet) -> (r: Vec<usize>)
    requires
        bitset_view(s).finite(),
    ensures
        r@.len() == bitset_view(s).len(),
        forall|i: int, j: int| 0 <= i < j < r@.len() ==> r@[i] < r@[j],
        forall|i: int| 0 <= i < r@.len() ==> bitset_view(s).contains(#[trigger] r@[i] as int),
        forall|v: int| bitset_view(s).contains(v) ==> exists|i: int|
            0 <= i < r@.len() && #[trigger] r@[i] == v,
{
    s.iter().collect()
}

} // verus!
