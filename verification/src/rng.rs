//! The random source for growth decisions. A small linear-congruential
//! generator is threaded explicitly through the growth pass, so a caller can
//! seed it deterministically for tests; the convenience path seeds it from
//! the process-wide random source.

use vstd::prelude::*;

verus! {

/// Relies on rand::random: draws a value of `T` from the thread-local
/// generator; nothing can be promised of the value drawn.
pub assume_specification<T>[ rand::random::<T> ]() -> (r: T)
    where
        rand::distributions::Standard: rand::distributions::Distribution<T>,
;

/// The next state of the linear-congruential generator.
pub open spec fn lcg_next(s: int) -> int {
    (s * 6364136223846793005 + 1442695040888963407) % 18446744073709551616
}

/// A deterministic pseudo-random source for growth decisions.
#[derive(Clone, Copy, Debug, PartialEq, Eq, Structural)]
pub struct GrowthRng {
    pub state: u64,
}

impl GrowthRng {
    /// A generator starting from the given seed.
    pub fn new(seed: u64) -> (r: GrowthRng)
        ensures
            r.state == seed,
    {
        GrowthRng { state: seed }
    }

    /// A generator seeded from the process-wide random source; growth driven
    /// by it is not reproducible across runs.
    pub fn from_entropy() -> (r: GrowthRng)
    {
        GrowthRng { state: rand::random::<u64>() }
    }

    fn step(&mut self)
        ensures
            final(self).state as int == lcg_next(old(self).state as int),
    {
        let wide: u128 = (self.state as u128) * 6364136223846793005u128 + 1442695040888963407u128;
        self.state = (wide % 18446744073709551616u128) as u64;
    }

    /// A draw in `[0, 1_000_000)`: a probability in millionths.
    pub fn next_ppm(&mut self) -> (r: u32)
        ensures
            final(self).state as int == lcg_next(old(self).state as int),
            r as int == lcg_next(old(self).state as int) % 1_000_000,
            r < 1_000_000,
    {
        self.step();
        (self.state % 1_000_000u64) as u32
    }

    /// A draw in `[-500_000, 500_000]`: a fixed-point angle within half a
    /// radian of zero, for the orientation of a new branch.
    pub fn next_angle(&mut self) -> (r: i64)
        ensures
            final(self).state as int == lcg_next(old(self).state as int),
            r as int == lcg_next(old(self).state as int) % 1_000_001 - 500_000,
            -500_000 <= r <= 500_000,
    {
        self.step();
        (self.state % 1_000_001u64) as i64 - 500_000
    }
}

} // verus!
