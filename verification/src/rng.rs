//! The random stream: a seeded generator threaded explicitly through every
//! call that needs randomness, so that a render is reproducible from its seed.

use vstd::prelude::*;
use rand::Rng;
use rand::SeedableRng;

verus! {

#[verifier::external_type_specification]
#[verifier::external_body]
pub struct ExStdRng(rand::rngs::StdRng);

/// A deterministic stream of uniform draws, owned by one unit of work
/// (one row of the image, or the scene builder).
pub struct RngStream {
    inner: rand::rngs::StdRng,
}

impl RngStream {
    /// Relies on rand's `StdRng::seed_from_u64`: builds a generator whose
    /// draws are a fixed function of the seed.
    #[verifier::external_body]
    pub fn from_seed(seed: u64) -> (r: RngStream) {
        RngStream { inner: rand::rngs::StdRng::seed_from_u64(seed) }
    }

    /// Relies on rand's `Rng::gen_range` on a half-open `i64` range: returns
    /// a value of that range, and panics only on an empty range, which the
    /// precondition rules out. Nothing more is assumed of the draw.
    #[verifier::external_body]
    pub fn gen_range_i64(&mut self, lo: i64, hi: i64) -> (r: i64)
        requires
            lo < hi,
        ensures
            lo <= r < hi,
    {
        self.inner.gen_range(lo..hi)
    }
}

} // verus!
