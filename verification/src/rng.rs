//! The seeded pseudo-random source used by the world generator, wrapped so
//! that every draw is pinned to the seed and to the draws made before it:
//! generation from a given seed is reproducible.

use vstd::prelude::*;
use rand::Rng;
use rand::SeedableRng;

verus! {

#[verifier::external_type_specification]
#[verifier::external_body]
pub struct ExStdRng(rand::rngs::StdRng);

/// The value drawn from the range `lo .. hi` by a generator seeded with
/// `seed`, after the draws whose bounds are listed in `history`. Named,
/// not stated: the stream is a deterministic function of these arguments
/// alone, and nothing more is assumed of it.
pub uninterp spec fn rng_draw_of(seed: u64, history: Seq<(u64, u64)>, lo: u64, hi: u64) -> u64;

/// A pseudo-random source seeded once, tracking (in ghost state) the seed
/// it was built from and the bounds of the draws made so far.
pub struct SeededRng {
    rng: rand::rngs::StdRng,
    seed: u64,
    history: Ghost<Seq<(u64, u64)>>,
}

impl SeededRng {
    /// The seed this source was built from.
    pub closed spec fn seed_val(&self) -> u64 {
        self.seed
    }

    /// The bounds of the draws made so far, oldest first.
    pub closed spec fn draws(&self) -> Seq<(u64, u64)> {
        self.history@
    }

    /// A fresh source seeded with `seed`, with no draws made yet.
    pub fn new(seed: u64) -> (r: SeededRng)
        ensures
            r.seed_val() == seed,
            r.draws() == Seq::<(u64, u64)>::empty(),
    {
        SeededRng { rng: seeded_std_rng(seed), seed, history: Ghost(Seq::empty()) }
    }

    /// Relies on `rand::Rng::gen_range` on a `StdRng`: the draw lies in
    /// `lo .. hi` and is a deterministic function of the seed and of the
    /// bounds of the draws made before it.
    #[verifier::external_body]
    pub fn draw(&mut self, lo: u64, hi: u64) -> (v: u64)
        requires
            lo < hi,
        ensures
            final(self).seed_val() == old(self).seed_val(),
            final(self).draws() == old(self).draws().push((lo, hi)),
            lo <= v < hi,
            v == rng_draw_of(old(self).seed_val(), old(self).draws(), lo, hi),
    {
        self.rng.gen_range(lo..hi)
    }
}

/// Relies on `rand::rngs::StdRng` and `SeedableRng::seed_from_u64`:
/// seeding is a deterministic function of the seed value.
#[verifier::external_body]
fn seeded_std_rng(seed: u64) -> rand::rngs::StdRng {
    rand::rngs::StdRng::seed_from_u64(seed)
}

/// Relies on `rand::random`: a seed drawn from the thread-local generator.
/// Nothing is promised of the value; callers treat every outcome alike.
#[verifier::external_body]
pub fn fresh_seed() -> u64 {
    rand::random::<u64>()
}

} // verus!
