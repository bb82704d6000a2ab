//! The linear congruential generator shared by the games.
use vstd::prelude::*;

verus! {

/// The generator's successor function: `state * 1664525 + 1013904223` modulo 2^32.
pub open spec fn lcg_next(state: u32) -> u32 {
    vstd::wrapping::u32_specs::wrapping_add(
        vstd::wrapping::u32_specs::wrapping_mul(state, 1664525u32),
        1013904223u32,
    )
}

/// A linear congruential pseudo-random generator.
pub struct Prng {
    /// The last value produced (or the seed).
    pub state: u32,
}

impl Prng {
    /// Advances the generator and returns the new state.
    pub fn next(&mut self) -> (r: u32)
        ensures
            r == lcg_next(old(self).state),
            final(self).state == r,
    {
        self.state = self.state.wrapping_mul(1664525).wrapping_add(1013904223);
        self.state
    }

    /// A value in `min..max` drawn from the next state.
    pub fn next_range(&mut self, min: u32, max: u32) -> (r: u32)
        requires
            min < max,
        ensures
            final(self).state == lcg_next(old(self).state),
            r == min + lcg_next(old(self).state) % ((max - min) as u32),
            min <= r < max,
    {
        min + (self.next() % (max - min))
    }
}

} // verus!
