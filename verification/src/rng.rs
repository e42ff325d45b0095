//! The seeded pseudo-random generator used by the permutation table, the random block
//! sampler and the random pixels.

use rand::{RngExt, SeedableRng};
use rand_xoshiro::Xoshiro256PlusPlus;
use vstd::prelude::*;

verus! {

/// The xoshiro256++ generator of `rand_xoshiro`, carried through as an opaque value.
#[verifier::external_type_specification]
#[verifier::external_body]
pub struct ExXoshiro256PlusPlus(Xoshiro256PlusPlus);

/// The `u32` that `random::<u32>()` returns at draw number `position` (counting from 0) of a
/// `Xoshiro256PlusPlus` made by `seed_from_u64(seed)`: the generator is deterministic, so the
/// value depends on the seed and the position alone.
pub uninterp spec fn xoshiro_draw(seed: u64, position: nat) -> u32;

/// A `Xoshiro256PlusPlus` together with the seed it was made from and the number of values drawn
/// from it so far. Only [`SeededRng::new`] makes one and only [`SeededRng::next_u32`] draws from
/// it, so the two counters always describe the generator's state.
pub struct SeededRng {
    rng: Xoshiro256PlusPlus,
    seed: Ghost<u64>,
    drawn: Ghost<nat>,
}

/// Trusted: `Xoshiro256PlusPlus::seed_from_u64` (rand_xoshiro, via `SeedableRng`). Claims only
/// that the generator it returns is the one seeded with `seed`, with nothing drawn yet.
#[verifier::external_body]
fn seed_xoshiro(seed: u64) -> (r: SeededRng)
    ensures
        r.seed() == seed,
        r.drawn() == 0,
{
    SeededRng { rng: Xoshiro256PlusPlus::seed_from_u64(seed), seed: Ghost(seed), drawn: Ghost(0nat) }
}

/// Trusted: `RngExt::random::<u32>` (rand) on the generator. Claims that the value is the next
/// one of the seeded sequence, [`xoshiro_draw`] at the current position, and that one more value
/// has been drawn.
#[verifier::external_body]
fn draw_xoshiro_u32(r: &mut SeededRng) -> (v: u32)
    ensures
        v == xoshiro_draw(old(r).seed(), old(r).drawn()),
        final(r).seed() == old(r).seed(),
        final(r).drawn() == old(r).drawn() + 1,
{
    r.rng.random::<u32>()
}

impl SeededRng {
    /// The seed the generator was made from.
    pub closed spec fn seed(&self) -> u64 {
        self.seed@
    }

    /// How many values have been drawn so far.
    pub closed spec fn drawn(&self) -> nat {
        self.drawn@
    }

    /// A xoshiro256++ generator seeded from `seed` (through `seed_from_u64`).
    pub fn new(seed: u64) -> (r: SeededRng)
        ensures
            r.seed() == seed,
            r.drawn() == 0,
    {
        seed_xoshiro(seed)
    }

    /// The next uniformly distributed `u32` of the seeded sequence.
    pub fn next_u32(&mut self) -> (v: u32)
        ensures
            v == xoshiro_draw(old(self).seed(), old(self).drawn()),
            final(self).seed() == old(self).seed(),
            final(self).drawn() == old(self).drawn() + 1,
    {
        draw_xoshiro_u32(self)
    }

    /// The next uniformly distributed `u8`: the low byte of the next `u32`, which is how `rand`
    /// samples a `u8` from this generator.
    pub fn next_u8(&mut self) -> (v: u8)
        ensures
            v == xoshiro_draw(old(self).seed(), old(self).drawn()) as u8,
            final(self).seed() == old(self).seed(),
            final(self).drawn() == old(self).drawn() + 1,
    {
        let x = draw_xoshiro_u32(self);
        x as u8
    }
}

} // verus!
