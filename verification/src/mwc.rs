//! Marsaglia's multiply-with-carry generator (MWC256), shared by every
//! generator of the library.
//!
//! The state is a table of 256 words, a carry and an index. A seed fills the
//! table with successive values of the congruential recurrence
//! `j <- 69069 * j + 12345 (mod 2^32)`; each draw then advances the index by
//! one (mod 256), forms `t = 809430660 * q[i] + carry`, keeps the low word of
//! `t` in the table and returns it, and keeps the high word as the new carry.
use vstd::prelude::*;

verus! {

/// Multiplier of the congruential recurrence that fills the table.
pub const LCG_MULT: u32 = 69069;

/// Increment of the congruential recurrence that fills the table.
pub const LCG_INC: u32 = 12345;

/// Multiplier of the multiply-with-carry step.
pub const MWC_MULT: u64 = 809430660;

/// Carry of a freshly seeded generator.
pub const INITIAL_CARRY: u32 = 362436;

/// Index of a freshly seeded generator; the first draw uses entry 0.
pub const INITIAL_INDEX: u8 = 255;

/// Seed used when none is given.
pub const DEFAULT_SEED: u32 = 123456789;

/// 2^32, the modulus of a 32-bit word.
pub open spec fn word_modulus() -> int {
    0x1_0000_0000
}

/// One step of the recurrence `j -> 69069 * j + 12345 (mod 2^32)`.
pub open spec fn lcg_next(j: u32) -> u32 {
    ((j as int * 69069 + 12345) % word_modulus()) as u32
}

/// The recurrence applied `n` times to `seed`.
pub open spec fn lcg_iter(seed: u32, n: nat) -> u32
    decreases n,
{
    if n == 0 {
        seed
    } else {
        lcg_next(lcg_iter(seed, (n - 1) as nat))
    }
}

/// The table that `seed` gives: entry `k` is the recurrence applied `k + 1` times.
pub open spec fn seeded_table(seed: u32) -> Seq<u32> {
    Seq::new(256, |k: int| lcg_iter(seed, (k + 1) as nat))
}

/// The abstract state of a multiply-with-carry generator.
pub struct MwcState {
    pub q: Seq<u32>,
    pub carry: u32,
    pub i: u8,
}

/// A state whose table has the 256 entries the generator indexes.
pub open spec fn mwc_wf(s: MwcState) -> bool {
    s.q.len() == 256
}

/// The state right after seeding with `seed`.
pub open spec fn seeded_state(seed: u32) -> MwcState {
    MwcState { q: seeded_table(seed), carry: INITIAL_CARRY, i: INITIAL_INDEX }
}

/// The index that the next draw from `s` uses.
pub open spec fn next_index(s: MwcState) -> u8 {
    ((s.i + 1) % 256) as u8
}

/// The 64-bit product `809430660 * q[i] + carry` formed by the next draw.
pub open spec fn mwc_product(s: MwcState) -> int {
    809430660 * (s.q[next_index(s) as int] as int) + s.carry as int
}

/// The word that the next draw from `s` returns: the low word of the product.
pub open spec fn mwc_output(s: MwcState) -> u32 {
    (mwc_product(s) % word_modulus()) as u32
}

/// The state after one draw from `s`.
pub open spec fn mwc_step(s: MwcState) -> MwcState {
    MwcState {
        q: s.q.update(next_index(s) as int, mwc_output(s)),
        carry: (mwc_product(s) / word_modulus()) as u32,
        i: next_index(s),
    }
}

/// The state after `n` draws from `s`.
pub open spec fn mwc_advance(s: MwcState, n: nat) -> MwcState
    decreases n,
{
    if n == 0 {
        s
    } else {
        mwc_step(mwc_advance(s, (n - 1) as nat))
    }
}

/// The `n`-th word (counting from 0) drawn from a generator in state `s`.
pub open spec fn mwc_nth_output(s: MwcState, n: nat) -> u32 {
    mwc_output(mwc_advance(s, n))
}

/// The abstract state held by an array table, a carry and an index.
pub open spec fn state_of(q: [u32; 256], carry: u32, i: u8) -> MwcState {
    MwcState { q: q@, carry, i }
}

/// One step of the recurrence on machine words.
pub fn lcg_step(j: u32) -> (next: u32)
    ensures
        next == lcg_next(j),
{
    let m = j.wrapping_mul(LCG_MULT);
    let r = m.wrapping_add(LCG_INC);
    assert(r == lcg_next(j)) by {
        assert(m == (j as int * 69069) % word_modulus());
        vstd::arithmetic::div_mod::lemma_add_mod_noop(j as int * 69069, 12345int, word_modulus());
        vstd::arithmetic::div_mod::lemma_small_mod(12345nat, word_modulus() as nat);
        let y: int = m + 12345;
        if y >= word_modulus() {
            vstd::arithmetic::div_mod::lemma_fundamental_div_mod(y, word_modulus());
            vstd::arithmetic::div_mod::lemma_div_pos_is_pos(y, word_modulus());
            assert(y / word_modulus() == 1) by (nonlinear_arith)
                requires
                    y == word_modulus() * (y / word_modulus()) + y % (word_modulus()),
                    0 <= y % (word_modulus()) < word_modulus(),
                    word_modulus() <= y < 2 * word_modulus(),
            ;
        } else {
            vstd::arithmetic::div_mod::lemma_small_mod(y as nat, word_modulus() as nat);
        }
    }
    r
}

/// Fills `q` with the table that `seed` gives.
pub fn fill_table(q: &mut [u32; 256], seed: u32)
    ensures
        final(q)@ == seeded_table(seed),
{
    let mut j: u32 = seed;
    let mut k: usize = 0;
    while k < 256
        invariant
            0 <= k <= 256,
            q@.len() == 256,
            j == lcg_iter(seed, k as nat),
            forall|m: int| 0 <= m < k ==> q@[m] == lcg_iter(seed, (m + 1) as nat),
        decreases 256 - k,
    {
        j = lcg_step(j);
        q[k] = j;
        k = k + 1;
    }
    assert(q@ =~= seeded_table(seed));
}

/// One multiply-with-carry draw on a table, carry and index held in place.
pub fn mwc_draw(q: &mut [u32; 256], carry: &mut u32, i: &mut u8) -> (out: u32)
    ensures
        state_of(*final(q), *final(carry), *final(i)) == mwc_step(
            state_of(*old(q), *old(carry), *old(i)),
        ),
        out == mwc_output(state_of(*old(q), *old(carry), *old(i))),
        out == final(q)@[*final(i) as int],
{
    let ghost s = state_of(*q, *carry, *i);
    let ni: u8 = i.wrapping_add(1);
    assert(ni == next_index(s));
    let qv: u64 = q[ni as usize] as u64;
    let c: u64 = *carry as u64;
    assert(qv <= 0xFFFF_FFFFu64);
    assert(MWC_MULT * qv <= 809430660u64 * 0xFFFF_FFFFu64) by (nonlinear_arith)
        requires
            qv <= 0xFFFF_FFFFu64,
            MWC_MULT == 809430660u64,
    ;
    let t: u64 = MWC_MULT * qv + c;
    assert(t == mwc_product(s));
    let hi: u64 = t >> 32;
    let lo: u64 = t & 0xFFFF_FFFF;
    assert((t >> 32u64) == t / 0x1_0000_0000u64) by (bit_vector);
    assert((t & 0xFFFF_FFFFu64) == t % 0x1_0000_0000u64) by (bit_vector);
    assert((t >> 32u64) <= 0xFFFF_FFFFu64) by (bit_vector);
    *carry = hi as u32;
    q[ni as usize] = lo as u32;
    *i = ni;
    assert(q@ =~= mwc_step(s).q);
    lo as u32
}


/// The abstract state of a generator that fills its table lazily: the table
/// is (re)filled from `seed` on the first draw after seeding.
pub struct LazyMwcState {
    pub mwc: MwcState,
    pub initialized: bool,
    pub seed: u32,
}

/// The state of a freshly made lazy generator: an empty table, the initial
/// carry and index, and the default seed still to be applied.
pub open spec fn lazy_fresh() -> LazyMwcState {
    LazyMwcState {
        mwc: MwcState { q: Seq::new(256, |k: int| 0u32), carry: INITIAL_CARRY, i: INITIAL_INDEX },
        initialized: false,
        seed: DEFAULT_SEED,
    }
}

/// The state after giving a lazy generator a new seed: the carry and index
/// are kept; the table is refilled on the next draw.
pub open spec fn lazy_reseed(s: LazyMwcState, seed: u32) -> LazyMwcState {
    LazyMwcState { mwc: s.mwc, initialized: false, seed }
}

/// The state that the next draw of a lazy generator works from.
pub open spec fn effective_state(s: LazyMwcState) -> MwcState {
    if s.initialized {
        s.mwc
    } else {
        MwcState { q: seeded_table(s.seed), carry: s.mwc.carry, i: s.mwc.i }
    }
}

/// The state of a lazy generator after one draw.
pub open spec fn lazy_step(s: LazyMwcState) -> LazyMwcState {
    LazyMwcState { mwc: mwc_step(effective_state(s)), initialized: true, seed: s.seed }
}

/// The abstract state held by the fields of a lazy generator.
pub open spec fn lazy_state_of(
    q: [u32; 256],
    carry: u32,
    i: u8,
    initialized: bool,
    seed: u32,
) -> LazyMwcState {
    LazyMwcState { mwc: state_of(q, carry, i), initialized, seed }
}

/// The fields of a freshly made lazy generator.
pub fn lazy_fresh_fields() -> (fields: ([u32; 256], u32, u8, bool, u32))
    ensures
        lazy_state_of(fields.0, fields.1, fields.2, fields.3, fields.4) == lazy_fresh(),
{
    let q = [0u32; 256];
    assert(q@ =~= lazy_fresh().mwc.q);
    (q, INITIAL_CARRY, INITIAL_INDEX, false, DEFAULT_SEED)
}

/// One draw of a lazy generator: fills the table from `seed` when it has
/// not been filled since the last seeding, then does a multiply-with-carry draw.
pub fn lazy_draw(
    q: &mut [u32; 256],
    carry: &mut u32,
    i: &mut u8,
    initialized: &mut bool,
    seed: u32,
) -> (out: u32)
    ensures
        lazy_state_of(*final(q), *final(carry), *final(i), *final(initialized), seed) == lazy_step(
            lazy_state_of(*old(q), *old(carry), *old(i), *old(initialized), seed),
        ),
        out == mwc_output(
            effective_state(lazy_state_of(*old(q), *old(carry), *old(i), *old(initialized), seed)),
        ),
{
    if !*initialized {
        *initialized = true;
        fill_table(q, seed);
    }
    mwc_draw(q, carry, i)
}


/// The state of a lazy generator after `n` draws.
pub open spec fn lazy_advance(s: LazyMwcState, n: nat) -> LazyMwcState
    decreases n,
{
    if n == 0 {
        s
    } else {
        lazy_step(lazy_advance(s, (n - 1) as nat))
    }
}

/// Law: a freshly made lazy generator draws what an eager generator seeded
/// with the default seed draws, and so does one given seed `seed` right after
/// it was made and an eager generator seeded with `seed`.
pub proof fn lemma_fresh_lazy_matches_seeded(seed: u32)
    ensures
        effective_state(lazy_fresh()) == seeded_state(DEFAULT_SEED),
        effective_state(lazy_reseed(lazy_fresh(), seed)) == seeded_state(seed),
{
}

/// Law: the `n`-th draw of a lazy generator (counting from 0) is the `n`-th
/// word of the multiply-with-carry stream from the state it draws from next;
/// seeding only decides that state, after which the two streams agree.
pub proof fn lemma_lazy_stream(s: LazyMwcState, n: nat)
    ensures
        effective_state(lazy_advance(s, n)) == mwc_advance(effective_state(s), n),
        mwc_output(effective_state(lazy_advance(s, n))) == mwc_nth_output(effective_state(s), n),
    decreases n,
{
    if n > 0 {
        lemma_lazy_stream(s, (n - 1) as nat);
    }
}

/// Law: every draw keeps a table of 256 entries, advances the index by one
/// modulo 256, and leaves a carry of at most the multiplier 809430660.
pub proof fn lemma_step_bounds(s: MwcState)
    requires
        mwc_wf(s),
    ensures
        mwc_wf(mwc_step(s)),
        mwc_step(s).i == (s.i + 1) % 256,
        mwc_step(s).carry <= MWC_MULT,
{
    let t = mwc_product(s);
    let q = s.q[next_index(s) as int];
    assert(t <= 809430660 * 0xFFFF_FFFF + 0xFFFF_FFFF) by (nonlinear_arith)
        requires
            t == 809430660 * (q as int) + s.carry as int,
            0 <= q <= 0xFFFF_FFFF,
            0 <= s.carry <= 0xFFFF_FFFF,
    ;
    assert(t / word_modulus() <= 809430660) by (nonlinear_arith)
        requires
            0 <= t <= 809430660 * 0xFFFF_FFFF + 0xFFFF_FFFF,
            word_modulus() == 0x1_0000_0000,
    ;
}

/// Law: after `n` draws the index has moved `n` places around the table,
/// and the table still has 256 entries.
pub proof fn lemma_index_cycles(s: MwcState, n: nat)
    requires
        mwc_wf(s),
    ensures
        mwc_wf(mwc_advance(s, n)),
        mwc_advance(s, n).i == (s.i + n) % 256,
    decreases n,
{
    if n > 0 {
        lemma_index_cycles(s, (n - 1) as nat);
        lemma_step_bounds(mwc_advance(s, (n - 1) as nat));
        vstd::arithmetic::div_mod::lemma_add_mod_noop(s.i + n - 1, 1, 256);
        vstd::arithmetic::div_mod::lemma_mod_twice(s.i + n - 1, 256);
        vstd::arithmetic::div_mod::lemma_add_mod_noop((s.i + n - 1) % 256, 1, 256);
    }
}


/// Law: generators in the same state (in particular two generators seeded
/// with the same seed) draw the same words and reach the same states, draw
/// after draw.
pub proof fn lemma_same_state_same_stream(a: MwcState, b: MwcState, n: nat)
    requires
        a == b,
    ensures
        mwc_advance(a, n) == mwc_advance(b, n),
        mwc_nth_output(a, n) == mwc_nth_output(b, n),
{
}

} // verus!
