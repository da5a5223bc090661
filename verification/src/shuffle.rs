//! Trusted shuffle: the order candidates are examined in is randomized, and
//! the proofs rely only on the result being a permutation.

use vstd::prelude::*;

use rand::seq::SliceRandom;

verus! {

/// Relies on rand::seq::SliceRandom::shuffle: an in-place permutation of the
/// slice; which permutation comes out depends on the thread's generator.
#[verifier::external_body]
pub fn shuffle_indices(v: &mut Vec<usize>)
    ensures
        final(v)@.to_multiset() == old(v)@.to_multiset(),
{
    v.as_mut_slice().shuffle(&mut rand::thread_rng());
}

} // verus!
