//! The random stream that every algorithm draws from. The stream is seeded
//! explicitly so that a generation run can be reproduced; nothing is promised
//! about the values drawn beyond their range.

use vstd::prelude::*;

verus! {

/// Standard random number generator of the `rand` crate, carried opaquely.
#[verifier::external_type_specification]
#[verifier::external_body]
pub struct ExStdRng(rand::rngs::StdRng);

/// A seeded stream of random draws, owned by one generation run.
pub struct RandomSource {
    inner: rand::rngs::StdRng,
}

impl RandomSource {
    /// Relies on `rand::rngs::StdRng::seed_from_u64` (via `SeedableRng`): it
    /// builds a generator from the seed and never fails.
    #[verifier::external_body]
    pub fn seeded(seed: u64) -> (r: RandomSource) {
        RandomSource { inner: <rand::rngs::StdRng as rand::SeedableRng>::seed_from_u64(seed) }
    }

    /// Relies on `rand::Rng::gen_range`: for a non-empty half-open range it
    /// returns a value in `[lo, hi)` and panics only on an empty range,
    /// which the precondition rules out.
    #[verifier::external_body]
    pub fn rand_range(&mut self, lo: i32, hi: i32) -> (r: i32)
        requires
            lo < hi,
        ensures
            lo <= r < hi,
    {
        rand::Rng::gen_range(&mut self.inner, lo..hi)
    }

    /// An unbiased coin flip.
    pub fn coin_flip(&mut self) -> bool {
        let v = self.rand_range(0, 2);
        v == 0
    }

    /// True with probability `percent` out of 100 (clamped: always false for
    /// `percent <= 0`, always true for `percent >= 100`).
    pub fn percent_roll(&mut self, percent: i32) -> (r: bool)
        ensures
            percent <= 0 ==> !r,
            percent >= 100 ==> r,
    {
        let v = self.rand_range(0, 100);
        v < percent
    }
}

} // verus!
