//! The random source behind terrain generation.
//!
//! Generation is reproducible: the source is seeded explicitly and
//! passed in by the caller rather than hidden global state. The draws
//! themselves come from the `rand` crate behind trusted wrappers; the
//! contracts state only the bounds the documentation promises, so every
//! consumer is verified for every value a draw could take.

use vstd::prelude::*;

verus! {

#[verifier::external_type_specification]
#[verifier::external_body]
pub struct ExStdRng(rand::rngs::StdRng);

/// A seedable stream of bounded fixed-point perturbations.
pub struct RandomSource {
    rng: rand::rngs::StdRng,
}

/// Relies on `rand::SeedableRng::seed_from_u64`: builds a `StdRng`
/// deterministically from the given seed.
#[verifier::external_body]
fn seeded_std_rng(seed: u64) -> rand::rngs::StdRng {
    <rand::rngs::StdRng as rand::SeedableRng>::seed_from_u64(seed)
}

/// Relies on `rand::Rng::gen_range` over `-bound..bound`: a uniform
/// sample from that half-open range; the range is non-empty, so the
/// call does not panic.
#[verifier::external_body]
fn draw_in_range(rng: &mut rand::rngs::StdRng, bound: i64) -> (r: i64)
    requires
        bound >= 1,
    ensures
        -bound <= r < bound,
{
    rand::Rng::gen_range(rng, -bound..bound)
}

impl RandomSource {
    /// Build a source whose whole stream is determined by `seed`.
    pub fn from_seed(seed: u64) -> RandomSource {
        RandomSource { rng: seeded_std_rng(seed) }
    }

    /// Draw one perturbation in `[-ONE, ONE)`: the fixed-point image of
    /// a uniform sample from `[-1.0, 1.0)`.
    pub fn next_unit(&mut self) -> (r: i64)
        ensures
            -crate::ONE <= r < crate::ONE,
    {
        draw_in_range(&mut self.rng, crate::ONE)
    }
}

} // verus!
