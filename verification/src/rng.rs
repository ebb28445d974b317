//! Random-number generators, declared for the verifier and reached only
//! through the wrappers below. The engine uses a seeded generator to build
//! the Zobrist key table and the thread-local generator to draw pieces.

use vstd::prelude::*;

verus! {

#[verifier::external_type_specification]
#[verifier::external_body]
pub struct ExSmallRng(rand::rngs::SmallRng);

#[verifier::external_type_specification]
#[verifier::external_body]
pub struct ExThreadRng(rand::rngs::ThreadRng);

/// Relies on rand's `SeedableRng::seed_from_u64`: builds a small generator
/// deterministically from the seed.
#[verifier::external_body]
pub(crate) fn small_rng_from_seed(seed: u64) -> rand::rngs::SmallRng {
    <rand::rngs::SmallRng as rand::SeedableRng>::seed_from_u64(seed)
}

/// Relies on rand's `Rng::gen`: draws the generator's next 64-bit value.
/// Nothing is promised of the value.
#[verifier::external_body]
pub(crate) fn next_u64(rng: &mut rand::rngs::SmallRng) -> u64 {
    rand::Rng::gen::<u64>(rng)
}

/// Relies on rand's `thread_rng`: a handle to the thread-local generator.
#[verifier::external_body]
pub(crate) fn fresh_rng() -> rand::rngs::ThreadRng {
    rand::thread_rng()
}

/// Relies on rand's `Rng::gen_range` over a half-open range: the result
/// lies in `[lo, hi)`; the call panics only on an empty range, which the
/// precondition excludes. Which value comes back is not promised.
#[verifier::external_body]
pub(crate) fn roll_range(rng: &mut rand::rngs::ThreadRng, lo: u8, hi: u8) -> (r: u8)
    requires
        lo < hi,
    ensures
        lo <= r < hi,
{
    rand::Rng::gen_range(rng, lo..hi)
}

} // verus!
