//! Trusted boundary to the `rand` crate: the engine's single random source.
//!
//! Board generation and combat draw their randomness from one seedable
//! generator, `rand::rngs::StdRng`, so that a game can be reproduced from
//! its seed.

use vstd::prelude::*;

verus! {

/// Declares `rand::rngs::StdRng` so that engine state can hold one.
#[verifier::external_type_specification]
#[verifier::external_body]
pub struct ExStdRng(rand::rngs::StdRng);

/// Relies on `rand::SeedableRng::seed_from_u64`: builds a generator from a
/// 64-bit seed.
#[verifier::external_body]
pub(crate) fn rng_from_seed(seed: u64) -> rand::rngs::StdRng {
    <rand::rngs::StdRng as rand::SeedableRng>::seed_from_u64(seed)
}

/// Relies on `rand::random`: draws a seed from the system's entropy-backed
/// generator, for games that do not fix one.
#[verifier::external_body]
pub(crate) fn random_seed() -> u64 {
    rand::random::<u64>()
}

/// Relies on `rand::Rng::gen_range`: a sample from `lo..hi` lies in that
/// half-open range. The call panics on an empty range, which the
/// precondition rules out. Nothing more is assumed of the sample.
#[verifier::external_body]
pub(crate) fn gen_range(rng: &mut rand::rngs::StdRng, lo: usize, hi: usize) -> (r: usize)
    requires
        lo < hi,
    ensures
        lo <= r < hi,
{
    rand::Rng::gen_range(rng, lo..hi)
}

} // verus!
