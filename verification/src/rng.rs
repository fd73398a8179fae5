use vstd::prelude::*;
use rand::RngExt;
use rand::SeedableRng;

verus! {

#[verifier::external_type_specification]
#[verifier::external_body]
pub struct ExStdRng(rand::rngs::StdRng);

/// Relies on rand::rngs::StdRng::seed_from_u64 (rand_core::SeedableRng):
/// builds a generator from a plain seed; documented never to panic.
#[verifier::external_body]
fn stdrng_from_seed(seed: u64) -> (r: rand::rngs::StdRng) {
    rand::rngs::StdRng::seed_from_u64(seed)
}

/// Relies on rand::make_rng::<StdRng>: a generator seeded from the
/// thread-local generator; nothing is promised of its state.
#[verifier::external_body]
fn stdrng_from_entropy() -> (r: rand::rngs::StdRng) {
    rand::make_rng()
}

/// Relies on rand::RngExt::random_range over an inclusive u32 range: returns
/// a value of the range, which is non-empty because lo <= hi.
#[verifier::external_body]
fn stdrng_range(rng: &mut rand::rngs::StdRng, lo: u32, hi: u32) -> (r: u32)
    requires
        lo <= hi,
    ensures
        lo <= r <= hi,
{
    rng.random_range(lo..=hi)
}

/// The stream of random values that drives generation. It can be seeded, so
/// that a run can be reproduced, and it records in ghost state every value it
/// has handed out.
pub struct RngSource {
    inner: rand::rngs::StdRng,
    log: Ghost<Seq<u32>>,
}

impl RngSource {
    /// Every value this source has produced so far, oldest first.
    pub closed spec fn log(self) -> Seq<u32> {
        self.log@
    }

    pub fn from_seed(seed: u64) -> (r: RngSource)
        ensures
            r.log() == Seq::<u32>::empty(),
    {
        RngSource { inner: stdrng_from_seed(seed), log: Ghost(Seq::empty()) }
    }

    pub fn from_entropy() -> (r: RngSource)
        ensures
            r.log() == Seq::<u32>::empty(),
    {
        RngSource { inner: stdrng_from_entropy(), log: Ghost(Seq::empty()) }
    }

    /// Draw one value, uniformly from the inclusive range [lo, hi].
    pub(crate) fn next_in_range(&mut self, lo: u32, hi: u32) -> (r: u32)
        requires
            lo <= hi,
        ensures
            lo <= r <= hi,
            final(self).log() == old(self).log().push(r),
    {
        let r = stdrng_range(&mut self.inner, lo, hi);
        self.log = Ghost(self.log@.push(r));
        r
    }
}

} // verus!
