//! Trusted boundary to the `fastrand` crate.
//!
//! The engine uses randomness only for tie-breaking and for shuffling
//! visitation order; correctness never depends on which permutation
//! comes back, so the shuffle contract states only that the contents
//! are permuted.

use vstd::prelude::*;

verus! {

/// `fastrand::Rng` as an opaque type for the verifier.
#[verifier::external_type_specification]
#[verifier::external_body]
pub struct ExRng(fastrand::Rng);

/// Relies on `fastrand::Rng::new`: a generator seeded from the thread-local
/// source.  Nothing is promised of the seed.
#[verifier::external_body]
pub fn rng_new() -> fastrand::Rng {
    fastrand::Rng::new()
}

/// Relies on `fastrand::Rng::with_seed`: a generator with the given seed,
/// so that a fixed seed makes the engine deterministic.
#[verifier::external_body]
pub fn rng_with_seed(seed: u64) -> fastrand::Rng {
    fastrand::Rng::with_seed(seed)
}

/// Relies on `fastrand::Rng::shuffle`: the slice is permuted in place, so
/// the multiset of elements (and hence the length) is unchanged.
#[verifier::external_body]
pub fn shuffle_vec<T>(rng: &mut fastrand::Rng, v: &mut Vec<T>)
    ensures
        final(v)@.to_multiset() == old(v)@.to_multiset(),
        final(v)@.len() == old(v)@.len(),
{
    rng.shuffle(v.as_mut_slice());
}

} // verus!
