use vstd::prelude::*;

verus! {

#[verifier::external_type_specification]
#[verifier::external_body]
pub struct ExStdRng(rand::rngs::StdRng);

/// The solver's stream of uniformly distributed integers.
///
/// The solver draws from it at two points per observation: once to pick a
/// cell among those of minimum entropy, once to pick a pattern from that
/// cell's domain. Nothing is assumed of a draw beyond its range, so every
/// contract downstream holds for every possible stream.
pub struct RandomSource {
    rng: rand::rngs::StdRng,
}

impl RandomSource {
    /// Relies on `rand::SeedableRng::seed_from_u64` to build a
    /// `rand::rngs::StdRng` from a word-sized seed.
    #[verifier::external_body]
    pub fn from_seed(seed: u64) -> RandomSource {
        RandomSource { rng: <rand::rngs::StdRng as rand::SeedableRng>::seed_from_u64(seed) }
    }

    /// Relies on `rand::SeedableRng::from_entropy` to build a
    /// `rand::rngs::StdRng` seeded from the operating system.
    #[verifier::external_body]
    pub fn from_entropy() -> RandomSource {
        RandomSource { rng: <rand::rngs::StdRng as rand::SeedableRng>::from_entropy() }
    }

    /// Relies on `rand::Rng::gen_range` over `0..n`: the result is uniformly
    /// distributed in `[0, n)`; the call panics on an empty range, which the
    /// precondition rules out.
    #[verifier::external_body]
    pub fn next_below(&mut self, n: usize) -> (r: usize)
        requires
            n >= 1,
        ensures
            r < n,
    {
        rand::Rng::gen_range(&mut self.rng, 0..n)
    }
}

} // verus!
