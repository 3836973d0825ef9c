//! The multiply-with-carry generator with an eagerly filled table.
use vstd::prelude::*;

use crate::mwc::{fill_table, mwc_draw, mwc_output, mwc_step, seeded_state, state_of, MwcState};
use crate::mwc::{DEFAULT_SEED, INITIAL_CARRY, INITIAL_INDEX};

verus! {

/// MWC256 random number generator, the random int generator suggested by
/// Marsaglia in his DIEHARD suite.
pub struct Mwc256 {
    q: [u32; 256],
    carry: u32,
    i: u8,
}

impl View for Mwc256 {
    type V = MwcState;

    closed spec fn view(&self) -> MwcState {
        state_of(self.q, self.carry, self.i)
    }
}

impl Mwc256 {
    /// A generator seeded with the default seed 123456789.
    pub fn new() -> (rng: Self)
        ensures
            rng@ == seeded_state(DEFAULT_SEED),
    {
        Self::with_seed(DEFAULT_SEED)
    }

    /// A generator seeded with `seed`.
    pub fn with_seed(seed: u32) -> (rng: Self)
        ensures
            rng@ == seeded_state(seed),
    {
        let mut q = [0u32; 256];
        fill_table(&mut q, seed);
        Mwc256 { q, carry: INITIAL_CARRY, i: INITIAL_INDEX }
    }

    /// Draws the next 32-bit word.
    pub fn rand32(&mut self) -> (word: u32)
        ensures
            word == mwc_output(old(self)@),
            final(self)@ == mwc_step(old(self)@),
            word == final(self)@.q[final(self)@.i as int],
    {
        mwc_draw(&mut self.q, &mut self.carry, &mut self.i)
    }
}

impl Default for Mwc256 {
    fn default() -> (rng: Self)
        ensures
            rng@ == seeded_state(DEFAULT_SEED),
    {
        Self::new()
    }
}

} // verus!
