//! The random choices that maze generation makes, drawn through `rand`.

use rand::seq::SliceRandom;
use rand::Rng;
use rand::SeedableRng;
use vstd::prelude::*;

verus! {

#[verifier::external_type_specification]
#[verifier::external_body]
pub struct ExStdRng(rand::rngs::StdRng);

/// Relies on `rand::random::<u64>`: a seed drawn from the thread's generator.
#[verifier::external_body]
pub(crate) fn fresh_seed() -> (r: u64) {
    rand::random::<u64>()
}

/// Relies on `SeedableRng::seed_from_u64` for `StdRng`: a generator whose
/// stream depends on the seed alone.
#[verifier::external_body]
pub(crate) fn seeded_rng(seed: u64) -> (r: rand::rngs::StdRng) {
    rand::rngs::StdRng::seed_from_u64(seed)
}

/// Relies on `Rng::random_range` over `0..n`, which panics only on an empty
/// range: a number below `n`.
#[verifier::external_body]
pub(crate) fn below(rng: &mut rand::rngs::StdRng, n: usize) -> (r: usize)
    requires
        n > 0,
    ensures
        r < n,
{
    rng.random_range(0..n)
}

/// Relies on `SliceRandom::shuffle`, which only swaps elements: the result is
/// a permutation of the input.
#[verifier::external_body]
pub(crate) fn shuffle(v: &mut Vec<usize>, rng: &mut rand::rngs::StdRng)
    ensures
        final(v)@.len() == old(v)@.len(),
        final(v)@.to_multiset() == old(v)@.to_multiset(),
{
    v.shuffle(rng)
}

} // verus!
