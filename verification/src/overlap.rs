//! Integer parts of the overlap tools.
use vstd::prelude::*;

use crate::mwc::{effective_state, lazy_draw, lazy_fresh, lazy_fresh_fields, lazy_reseed};
use crate::mwc::{lazy_state_of, lazy_step, mwc_output, LazyMwcState};

verus! {

/// Random number generator of the overlap study: Marsaglia's MWC256 with a table filled on the first draw after seeding.
pub struct RNG {
    q: [u32; 256],
    carry: u32,
    initialized: bool,
    seed: u32,
    i: u8,
}

impl View for RNG {
    type V = LazyMwcState;

    closed spec fn view(&self) -> LazyMwcState {
        lazy_state_of(self.q, self.carry, self.i, self.initialized, self.seed)
    }
}

impl RNG {
    /// A generator that will fill its table from the default seed 123456789.
    pub fn new() -> (rng: Self)
        ensures
            rng@ == lazy_fresh(),
    {
        let (q, carry, i, initialized, seed) = lazy_fresh_fields();
        RNG { q, carry, initialized, seed, i }
    }

    /// Sets the seed; the table is refilled from it on the next draw, while
    /// the carry and the index are kept.
    pub fn seed(&mut self, iseed: u32)
        ensures
            final(self)@ == lazy_reseed(old(self)@, iseed),
    {
        self.seed = iseed;
        self.initialized = false;
    }

    /// Draws the next 32-bit word.
    pub fn rand32m(&mut self) -> (word: u32)
        ensures
            word == mwc_output(effective_state(old(self)@)),
            final(self)@ == lazy_step(old(self)@),
    {
        lazy_draw(&mut self.q, &mut self.carry, &mut self.i, &mut self.initialized, self.seed)
    }
}

} // verus!
