//! A minimal linear congruential generator, reproducible from its seed.
use vstd::prelude::*;

verus! {

/// The modulus of the recurrence, 2^31 - 1. Every state after the first step
/// is below it.
pub const MODULUS: u64 = 2147483647;

/// The multiplier of the recurrence.
pub const MULTIPLIER: u64 = 16807;

/// The state that follows `seed`: the product with the multiplier, in 64-bit
/// wrapping arithmetic, reduced by the modulus.
pub open spec fn next_seed(seed: u64) -> u64 {
    (((MULTIPLIER as int * seed as int) % 0x1_0000_0000_0000_0000) % (MODULUS as int)) as u64
}

/// The generator: its state is the current seed.
#[derive(Clone, Debug, PartialEq, Eq)]
pub struct LCGRng {
    seed: u64,
}

impl View for LCGRng {
    type V = u64;

    closed spec fn view(&self) -> u64 {
        self.seed
    }
}

impl LCGRng {
    pub fn new(seed: u64) -> (rng: Self)
        ensures
            rng@ == seed,
    {
        LCGRng { seed }
    }

    /// The current state.
    pub fn seed(&self) -> (seed: u64)
        ensures
            seed == self@,
    {
        self.seed
    }

    /// Advances the generator by one step and returns the new state. Over
    /// `MODULUS` it is the next uniform value in [0, 1).
    pub fn next_draw(&mut self) -> (draw: u64)
        ensures
            draw == next_seed(old(self)@),
            final(self)@ == draw,
            draw < MODULUS,
    {
        let product: u64 = MULTIPLIER.wrapping_mul(self.seed);
        self.seed = product % MODULUS;
        self.seed
    }
}

} // verus!
