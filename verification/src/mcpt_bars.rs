//! Integer parts of the Monte Carlo permutation test on bars: the generator,
//! and the shuffles that permute the relative price changes.
use vstd::prelude::*;

use crate::mwc::{effective_state, lazy_draw, lazy_fresh, lazy_fresh_fields, lazy_reseed};
use crate::mwc::{lazy_state_of, lazy_step, mwc_output, LazyMwcState};
use crate::qsorts::{id_perm, lemma_id_perm, lemma_swap_perm, permutes, rearranged, swap_entries, swap_perm, swapped};

verus! {

/// Random number generator of the bar permutation test: Marsaglia's MWC256 with a table filled on the first draw after seeding.
pub struct RNG {
    q: [u32; 256],
    carry: u32,
    initialized: bool,
    seed: u32,
    i: u8,
}

impl View for RNG {
    type V = LazyMwcState;

    closed spec fn view(&self) -> LazyMwcState {
        lazy_state_of(self.q, self.carry, self.i, self.initialized, self.seed)
    }
}

impl RNG {
    /// A generator that will fill its table from the default seed 123456789.
    pub fn new() -> (rng: Self)
        ensures
            rng@ == lazy_fresh(),
    {
        let (q, carry, i, initialized, seed) = lazy_fresh_fields();
        RNG { q, carry, initialized, seed, i }
    }

    /// Sets the seed; the table is refilled from it on the next draw, while
    /// the carry and the index are kept.
    pub fn seed(&mut self, iseed: u32)
        ensures
            final(self)@ == lazy_reseed(old(self)@, iseed),
    {
        self.seed = iseed;
        self.initialized = false;
    }

    /// Draws the next 32-bit word.
    pub fn rand32m(&mut self) -> (word: u32)
        ensures
            word == mwc_output(effective_state(old(self)@)),
            final(self)@ == lazy_step(old(self)@),
    {
        lazy_draw(&mut self.q, &mut self.carry, &mut self.i, &mut self.initialized, self.seed)
    }
}


/// The position that step `k` (counting from 1) of a shuffle pass over `m`
/// entries exchanges with the last position still in play: the draw,
/// clamped below that position.
pub open spec fn shuffle_partner(m: int, draws: Seq<usize>, k: int) -> int {
    let i = m - (k - 1);
    if draws[k - 1] >= i {
        i - 1
    } else {
        draws[k - 1] as int
    }
}

/// The entries after `k` steps of a shuffle pass over the `m` entries that
/// start at `offset`: step `k` exchanges the entry at `offset + m - k` with
/// the entry at `offset + shuffle_partner(m, draws, k)`.
pub open spec fn shuffled<T>(s: Seq<T>, offset: int, m: int, draws: Seq<usize>, k: int) -> Seq<T>
    decreases k,
{
    if k <= 0 {
        s
    } else {
        swapped(
            shuffled(s, offset, m, draws, k - 1),
            offset + m - k,
            offset + shuffle_partner(m, draws, k),
        )
    }
}

/// The permutation of positions made by the first `k` steps of a shuffle
/// pass; it depends on the draws only, not on the entries.
pub open spec fn shuffle_perm(offset: int, m: int, draws: Seq<usize>, k: int) -> spec_fn(int) -> int
    decreases k,
{
    if k <= 0 {
        id_perm()
    } else {
        swap_perm(
            shuffle_perm(offset, m, draws, k - 1),
            offset + m - k,
            offset + shuffle_partner(m, draws, k),
        )
    }
}

/// The number of steps of a shuffle pass over `m` entries.
pub open spec fn shuffle_steps(m: int) -> int {
    if m >= 2 {
        m - 1
    } else {
        0
    }
}

/// One shuffle pass of the permutation test over the `m` entries that start
/// at `offset`: for `i` from `m` down to 2, the draw for that step (the
/// integer part of a uniform deviate times `i`), clamped below `i`, picks
/// the partner of position `i - 1`, and the two entries are exchanged.
pub fn shuffle_pass<T: Copy>(values: &mut [T], offset: usize, m: usize, draws: &[usize])
    requires
        m >= 2 ==> offset + m <= old(values)@.len() && draws@.len() >= m - 1,
    ensures
        final(values)@ == shuffled(old(values)@, offset as int, m as int, draws@, shuffle_steps(m as int)),
{
    let ghost s0 = values@;
    let n: usize = values.len();
    let mut i: usize = m;
    let mut k: usize = 0;
    while i > 1
        invariant
            m >= 2 ==> offset + m <= s0.len() && draws@.len() >= m - 1,
            values@.len() == s0.len(),
            n == s0.len(),
            i + k == m,
            i >= 1 || m == 0,
            values@ == shuffled(s0, offset as int, m as int, draws@, k as int),
        decreases i,
    {
        let d = draws[k];
        let j: usize = if d >= i {
            i - 1
        } else {
            d
        };
        i = i - 1;
        swap_entries(values, i + offset, j + offset);
        k = k + 1;
    }
}

/// Law: a shuffle pass only permutes: it rearranges the `m` entries that
/// start at `offset` by a permutation that depends on the draws alone, so
/// no relative change is lost or repeated, and arrays shuffled with the
/// same draws (the high, low and close changes of the bars) stay aligned.
pub proof fn lemma_shuffle_permutes<T>(s: Seq<T>, offset: int, m: int, draws: Seq<usize>, k: int)
    requires
        0 <= offset,
        2 <= m,
        offset + m <= s.len(),
        0 <= k <= m - 1,
        draws.len() >= m - 1,
    ensures
        permutes(shuffle_perm(offset, m, draws, k), offset, offset + m - 1),
        rearranged(
            shuffled(s, offset, m, draws, k),
            s,
            shuffle_perm(offset, m, draws, k),
            offset,
            offset + m - 1,
        ),
    decreases k,
{
    if k == 0 {
        lemma_id_perm(s, offset, offset + m - 1);
    } else {
        lemma_shuffle_permutes(s, offset, m, draws, k - 1);
        lemma_swap_perm(
            shuffled(s, offset, m, draws, k - 1),
            s,
            shuffle_perm(offset, m, draws, k - 1),
            offset,
            offset + m - 1,
            offset + m - k,
            offset + shuffle_partner(m, draws, k),
        );
    }
}

} // verus!
