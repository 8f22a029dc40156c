//! The seeded random permutation used by draw generation.
//!
//! Randomness is injected through a seed so that draw generation is
//! reproducible; the engine relies only on the result being a permutation.

use vstd::prelude::*;
use rand::SeedableRng;
use rand::seq::SliceRandom;

verus! {

/// Relies on rand's `SliceRandom::shuffle` (a Fisher-Yates shuffle driven by a
/// `StdRng` seeded from `seed`): it permutes the elements in place by swaps,
/// so the multiset of elements and the length are unchanged.
#[verifier::external_body]
pub(crate) fn shuffle_seeded<T>(v: &mut Vec<T>, seed: u64)
    ensures
        final(v)@.len() == old(v)@.len(),
        final(v)@.to_multiset() == old(v)@.to_multiset(),
{
    let mut rng = rand::rngs::StdRng::seed_from_u64(seed);
    v.as_mut_slice().shuffle(&mut rng);
}

} // verus!
