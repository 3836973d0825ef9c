//! Integer parts of the CSCV tools.
use vstd::prelude::*;
use vstd::arithmetic::power2::{lemma_pow2_strictly_increases, lemma_pow2_unfold, pow2};

use crate::mwc::{effective_state, lazy_draw, lazy_fresh, lazy_fresh_fields, lazy_reseed};
use crate::mwc::{lazy_state_of, lazy_step, mwc_output, LazyMwcState};

verus! {

/// Random number generator of the CSCV tools: Marsaglia's MWC256 with a table filled on the first draw after seeding.
pub struct Rng {
    q: [u32; 256],
    carry: u32,
    initialized: bool,
    seed: u32,
    i: u8,
}

impl View for Rng {
    type V = LazyMwcState;

    closed spec fn view(&self) -> LazyMwcState {
        lazy_state_of(self.q, self.carry, self.i, self.initialized, self.seed)
    }
}

impl Rng {
    /// A generator that will fill its table from the default seed 123456789.
    pub fn new() -> (rng: Self)
        ensures
            rng@ == lazy_fresh(),
    {
        let (q, carry, i, initialized, seed) = lazy_fresh_fields();
        Rng { q, carry, initialized, seed, i }
    }

    /// Sets the seed; the table is refilled from it on the next draw, while
    /// the carry and the index are kept.
    pub fn seed(&mut self, iseed: u32)
        ensures
            final(self)@ == lazy_reseed(old(self)@, iseed),
    {
        self.seed = iseed;
        self.initialized = false;
    }

    /// Draws the next 32-bit word.
    pub fn next(&mut self) -> (word: u32)
        ensures
            word == mwc_output(effective_state(old(self)@)),
            final(self)@ == lazy_step(old(self)@),
    {
        lazy_draw(&mut self.q, &mut self.carry, &mut self.i, &mut self.initialized, self.seed)
    }
}


/// Half of the blocks, the number of training blocks of every combination.
pub open spec fn half(n: int) -> int {
    n / 2
}

/// Block `i` of a split of `ncases` cases into `n_blocks` blocks starts at
/// `starts[i]` and holds `lengths[i]` cases: each block takes the cases that
/// remain after the blocks before it, divided by the number of blocks left
/// (rounded down), so the blocks are consecutive and cover every case.
pub open spec fn is_block_layout(starts: Seq<usize>, lengths: Seq<usize>, ncases: int, n_blocks: int) -> bool {
    &&& starts.len() == n_blocks
    &&& lengths.len() == n_blocks
    &&& n_blocks > 0 ==> starts[0] == 0
    &&& forall|i: int| 0 <= i < n_blocks ==> #[trigger] lengths[i] == (ncases - starts[i]) / (n_blocks - i)
    &&& forall|i: int| 0 <= i < n_blocks - 1 ==> #[trigger] starts[i + 1] == starts[i] + lengths[i]
    &&& n_blocks > 0 ==> starts[n_blocks - 1] + lengths[n_blocks - 1] == ncases
}

/// Splits `ncases` cases into `n_blocks` consecutive blocks of nearly equal
/// length; returns the start and the length of each block.
pub fn block_layout(ncases: usize, n_blocks: usize) -> (layout: (Vec<usize>, Vec<usize>))
    ensures
        is_block_layout(layout.0@, layout.1@, ncases as int, n_blocks as int),
{
    let mut starts: Vec<usize> = Vec::new();
    let mut lengths: Vec<usize> = Vec::new();
    let mut istart: usize = 0;
    let mut i: usize = 0;
    while i < n_blocks
        invariant
            i <= n_blocks,
            starts@.len() == i,
            lengths@.len() == i,
            istart <= ncases,
            i > 0 ==> starts@[0] == 0,
            i == 0 ==> istart == 0,
            i > 0 ==> istart == starts@[i - 1] + lengths@[i - 1],
            forall|k: int| 0 <= k < i ==> #[trigger] lengths@[k] == (ncases - starts@[k]) / (n_blocks - k),
            forall|k: int| 0 <= k < i - 1 ==> #[trigger] starts@[k + 1] == starts@[k] + lengths@[k],
        decreases n_blocks - i,
    {
        let len: usize = (ncases - istart) / (n_blocks - i);
        assert(len <= ncases - istart) by (nonlinear_arith)
            requires
                len == (ncases - istart) / (n_blocks - i) as int,
                n_blocks - i >= 1,
                ncases - istart >= 0,
        ;
        starts.push(istart);
        lengths.push(len);
        istart = istart + len;
        i = i + 1;
    }
    proof {
        if n_blocks > 0 {
            let last = n_blocks - 1;
            assert(lengths@[last as int] == (ncases - starts@[last as int]) / 1);
        }
    }
    (starts, lengths)
}

/// The cases `start, start + 1, ..., start + len - 1` of one block.
pub open spec fn block_range(start: usize, len: usize) -> Seq<usize> {
    Seq::new(len as nat, |j: int| (start + j) as usize)
}

/// The cases of the first `k` blocks whose flag is `flag`, block after
/// block, each block's cases in increasing order.
pub open spec fn cases_of(starts: Seq<usize>, lengths: Seq<usize>, flags: Seq<u8>, flag: u8, k: int) -> Seq<usize>
    decreases k,
{
    if k <= 0 {
        Seq::empty()
    } else if flags[k - 1] == flag {
        cases_of(starts, lengths, flags, flag, k - 1) + block_range(starts[k - 1], lengths[k - 1])
    } else {
        cases_of(starts, lengths, flags, flag, k - 1)
    }
}

/// The cases of the blocks whose flag is `flag` (1 for the training set, 0
/// for the test set), in the order in which the criteria read them.
pub fn block_cases(starts: &[usize], lengths: &[usize], flags: &[u8], flag: u8) -> (cases: Vec<usize>)
    requires
        lengths@.len() == starts@.len(),
        flags@.len() == starts@.len(),
        forall|i: int| 0 <= i < starts@.len() ==> starts@[i] + lengths@[i] <= usize::MAX,
    ensures
        cases@ == cases_of(starts@, lengths@, flags@, flag, starts@.len() as int),
{
    let mut cases: Vec<usize> = Vec::new();
    let mut ic: usize = 0;
    while ic < starts.len()
        invariant
            ic <= starts@.len(),
            lengths@.len() == starts@.len(),
            flags@.len() == starts@.len(),
            forall|i: int| 0 <= i < starts@.len() ==> starts@[i] + lengths@[i] <= usize::MAX,
            cases@ == cases_of(starts@, lengths@, flags@, flag, ic as int),
        decreases starts@.len() - ic,
    {
        if flags[ic] == flag {
            let ghost before = cases@;
            let start = starts[ic];
            let stop = start + lengths[ic];
            let mut i: usize = start;
            while i < stop
                invariant
                    start <= i <= stop,
                    stop == start + lengths@[ic as int],
                    start == starts@[ic as int],
                    cases@ == before + block_range(start, (i - start) as usize),
                decreases stop - i,
            {
                cases.push(i);
                i = i + 1;
                assert(cases@ =~= before + block_range(start, (i - start) as usize));
            }
            assert(cases@ =~= before + block_range(starts@[ic as int], lengths@[ic as int]));
        }
        ic = ic + 1;
    }
    cases
}

/// The first combination of blocks: the first half of the `n_blocks` blocks
/// (flag 1) are the training set, the rest (flag 0) the test set.
pub fn first_combination(n_blocks: usize) -> (flags: Vec<u8>)
    ensures
        flags@.len() == n_blocks,
        forall|k: int| 0 <= k < n_blocks ==> #[trigger] flags@[k] == if k < half(n_blocks as int) {
            1u8
        } else {
            0u8
        },
{
    let mut flags: Vec<u8> = Vec::new();
    let mut i: usize = 0;
    while i < n_blocks
        invariant
            i <= n_blocks,
            flags@.len() == i,
            forall|k: int| 0 <= k < i ==> #[trigger] flags@[k] == if k < half(n_blocks as int) {
                1u8
            } else {
                0u8
            },
        decreases n_blocks - i,
    {
        if i < n_blocks / 2 {
            flags.push(1);
        } else {
            flags.push(0);
        }
        i = i + 1;
    }
    flags
}

/// The number of flags equal to 1 among the first `k` flags.
pub open spec fn ones_before(flags: Seq<u8>, k: int) -> nat
    decreases k,
{
    if k <= 0 {
        0
    } else {
        ones_before(flags, k - 1) + if flags[k - 1] == 1 {
            1nat
        } else {
            0nat
        }
    }
}

/// Position `r` holds a 1 followed by a 0.
pub open spec fn is_rise(flags: Seq<u8>, r: int) -> bool {
    0 <= r < flags.len() - 1 && flags[r] == 1 && flags[r + 1] == 0
}

/// `r` is the first position that holds a 1 followed by a 0.
pub open spec fn is_first_rise(flags: Seq<u8>, r: int) -> bool {
    is_rise(flags, r) && forall|k: int| 0 <= k < r ==> !#[trigger] is_rise(flags, k)
}

/// The next combination after `flags`, given its first rise `r`: the 1 at
/// `r` moves to `r + 1`, and the other 1s before `r` move down to the
/// lowest positions.
pub open spec fn advanced_at(flags: Seq<u8>, r: int) -> Seq<u8> {
    Seq::new(
        flags.len(),
        |k: int|
            if k < r {
                if k < ones_before(flags, r) {
                    1u8
                } else {
                    0u8
                }
            } else if k == r {
                0u8
            } else if k == r + 1 {
                1u8
            } else {
                flags[k]
            },
    )
}

/// Moves to the next combination of training blocks (the next choice, in
/// colexicographic order, of as many blocks as there are 1s). Returns false,
/// leaving the flags as they are, when `flags` was the last combination,
/// that is, when no 1 is followed by a 0.
pub fn next_combination(flags: &mut Vec<u8>) -> (found_next: bool)
    ensures
        found_next == has_next(old(flags)@),
        final(flags)@ == walk(old(flags)@, 1),
        found_next ==> final(flags)@ == advanced_at(
            old(flags)@,
            choose|r: int| #[trigger] is_first_rise(old(flags)@, r),
        ),
        !found_next ==> final(flags)@ == old(flags)@,
{
    let ghost f0 = flags@;
    proof {
        reveal_with_fuel(walk, 2);
    }
    let n = flags.len();
    if n < 2 {
        return false;
    }
    let mut n_ones: usize = 0;
    let mut iradix: usize = 0;
    while iradix < n - 1
        invariant
            n == f0.len() >= 2,
            flags@ == f0,
            f0 == old(flags)@,
            iradix <= n - 1,
            n_ones == ones_before(f0, iradix as int),
            n_ones <= iradix,
            forall|k: int| 0 <= k < iradix ==> !#[trigger] is_rise(f0, k),
        decreases n - 1 - iradix,
    {
        if flags[iradix] == 1 {
            if flags[iradix + 1] == 0 {
                let ghost r = iradix as int;
                assert(is_first_rise(f0, r));
                assert forall|r2: int| is_first_rise(f0, r2) implies r2 == r by {
                    if r2 < r {
                        assert(!is_rise(f0, r2));
                    } else if r2 > r {
                        assert(!is_rise(f0, r));
                    }
                }
                flags.set(iradix, 0);
                flags.set(iradix + 1, 1);
                let mut i: usize = 0;
                while i < iradix
                    invariant
                        n == f0.len(),
                        f0 == old(flags)@,
                        is_first_rise(f0, r),
                        r == iradix as int,
                        iradix < n - 1,
                        i <= iradix,
                        n_ones == ones_before(f0, r),
                        flags@.len() == n,
                        forall|k: int| 0 <= k < i ==> #[trigger] flags@[k] == if k < n_ones {
                            1u8
                        } else {
                            0u8
                        },
                        forall|k: int| i <= k < n && k != r && k != r + 1 ==> #[trigger] flags@[k] == f0[k],
                        flags@[r] == 0,
                        flags@[r + 1] == 1,
                    decreases iradix - i,
                {
                    if i < n_ones {
                        flags.set(i, 1);
                    } else {
                        flags.set(i, 0);
                    }
                    i = i + 1;
                }
                assert(flags@ =~= advanced_at(f0, r));
                assert(is_first_rise(f0, r));
                assert((choose|r2: int| #[trigger] is_first_rise(f0, r2)) == r);
                assert(has_next(f0));
                proof {
                    reveal_with_fuel(walk, 2);
                }
                return true;
            }
        }
        if flags[iradix] == 1 {
            n_ones = n_ones + 1;
        }
        iradix = iradix + 1;
    }
    assert forall|r: int| !#[trigger] is_first_rise(f0, r) by {
        if is_first_rise(f0, r) {
            assert(!is_rise(f0, r));
        }
    }
    false
}


/// There are never more 1s among the first `k` flags than `k`.
pub proof fn lemma_ones_before_bound(flags: Seq<u8>, k: int)
    ensures
        ones_before(flags, k) <= if k < 0 {
            0
        } else {
            k
        },
    decreases k,
{
    if k > 0 {
        lemma_ones_before_bound(flags, k - 1);
    }
}

/// Law: moving to the next combination keeps the number of training blocks
/// (flags equal to 1), so every combination visited chooses the same number
/// of blocks as the first one.
pub proof fn lemma_next_combination_keeps_ones(flags: Seq<u8>, r: int)
    requires
        is_first_rise(flags, r),
    ensures
        ones_before(advanced_at(flags, r), flags.len() as int) == ones_before(
            flags,
            flags.len() as int,
        ),
{
    let g = advanced_at(flags, r);
    let c = ones_before(flags, r);
    lemma_ones_before_bound(flags, r);
    assert forall|k: int| 0 <= k <= r implies #[trigger] ones_before(g, k) == if k < c {
        k
    } else {
        c as int
    } by {
        lemma_prefix_ones(g, c as int, k);
    }
    assert(ones_before(g, r) == c);
    assert(g[r] == 0u8);
    assert(ones_before(g, r + 1) == c);
    assert(g[r + 1] == 1u8);
    assert(ones_before(g, r + 2) == c + 1);
    assert(ones_before(flags, r + 1) == c + 1);
    assert(ones_before(flags, r + 2) == c + 1);
    lemma_ones_after_agree(g, flags, r + 2, flags.len() as int);
}

/// The first `k` flags of a sequence whose first `c` flags are 1 and the
/// next ones 0 hold min(k, c) ones.
proof fn lemma_prefix_ones(g: Seq<u8>, c: int, k: int)
    requires
        0 <= k <= g.len(),
        0 <= c,
        forall|j: int| 0 <= j < k ==> g[j] == if j < c {
            1u8
        } else {
            0u8
        },
    ensures
        ones_before(g, k) == if k < c {
            k
        } else {
            c
        },
    decreases k,
{
    if k > 0 {
        lemma_prefix_ones(g, c, k - 1);
    }
}

/// Two sequences with as many 1s before position `k` that agree from `k` on
/// have as many 1s before every later position.
proof fn lemma_ones_after_agree(a: Seq<u8>, b: Seq<u8>, k: int, m: int)
    requires
        0 <= k <= m,
        a.len() == b.len(),
        m <= a.len(),
        ones_before(a, k) == ones_before(b, k),
        forall|j: int| k <= j < a.len() ==> a[j] == b[j],
    ensures
        ones_before(a, m) == ones_before(b, m),
    decreases m - k,
{
    if m > k {
        lemma_ones_after_agree(a, b, k, m - 1);
    }
}


/// The colexicographic rank of the first `k` flags: the sum of `2^j` over
/// the positions `j < k` that hold a 1.
pub open spec fn colex_rank(flags: Seq<u8>, k: int) -> nat
    decreases k,
{
    if k <= 0 {
        0
    } else {
        colex_rank(flags, k - 1) + if flags[k - 1] == 1 {
            pow2((k - 1) as nat)
        } else {
            0nat
        }
    }
}

/// The rank of the first `k` flags is below `2^k`.
proof fn lemma_colex_rank_bound(flags: Seq<u8>, k: int)
    requires
        k >= 0,
    ensures
        colex_rank(flags, k) < pow2(k as nat),
    decreases k,
{
    if k == 0 {
        assert(pow2(0) == 1) by {
            vstd::arithmetic::power2::lemma2_to64();
        }
    } else {
        lemma_colex_rank_bound(flags, k - 1);
        lemma_pow2_unfold(k as nat);
    }
}

/// Sequences that agree from position `k` on gain as much rank there.
proof fn lemma_colex_rank_tail(a: Seq<u8>, b: Seq<u8>, k: int, m: int)
    requires
        0 <= k <= m,
        forall|j: int| k <= j < m ==> a[j] == b[j],
    ensures
        colex_rank(a, m) - colex_rank(a, k) == colex_rank(b, m) - colex_rank(b, k),
    decreases m - k,
{
    if m > k {
        lemma_colex_rank_tail(a, b, k, m - 1);
    }
}

/// Law: moving to the next combination strictly raises the colexicographic
/// rank, so the walk through the combinations never comes back to one it has
/// visited and ends after finitely many steps.
pub proof fn lemma_next_combination_raises_rank(flags: Seq<u8>, r: int)
    requires
        is_first_rise(flags, r),
    ensures
        colex_rank(advanced_at(flags, r), flags.len() as int) > colex_rank(flags, flags.len() as int),
{
    let g = advanced_at(flags, r);
    let n = flags.len() as int;
    lemma_colex_rank_bound(flags, r);
    lemma_pow2_unfold((r + 1) as nat);
    assert(colex_rank(flags, r + 1) == colex_rank(flags, r) + pow2(r as nat));
    assert(colex_rank(flags, r + 2) == colex_rank(flags, r + 1));
    assert(colex_rank(flags, r + 2) < pow2((r + 1) as nat));
    assert(colex_rank(g, r + 1) == colex_rank(g, r));
    assert(colex_rank(g, r + 2) == colex_rank(g, r + 1) + pow2((r + 1) as nat));
    lemma_colex_rank_tail(g, flags, r + 2, n);
}


/// Every flag is 0 or 1.
pub open spec fn is_binary(flags: Seq<u8>) -> bool {
    forall|k: int| 0 <= k < flags.len() ==> #[trigger] flags[k] == 0 || flags[k] == 1
}

/// The highest position below `m` where `a` and `b` differ, or -1.
pub open spec fn highest_difference(a: Seq<u8>, b: Seq<u8>, m: int) -> int
    decreases m,
{
    if m <= 0 {
        -1
    } else if a[m - 1] != b[m - 1] {
        m - 1
    } else {
        highest_difference(a, b, m - 1)
    }
}

proof fn lemma_highest_difference(a: Seq<u8>, b: Seq<u8>, m: int)
    requires
        m >= 0,
    ensures
        -1 <= highest_difference(a, b, m) < m,
        highest_difference(a, b, m) >= 0 ==> a[highest_difference(a, b, m)] != b[highest_difference(
            a,
            b,
            m,
        )],
        forall|j: int| highest_difference(a, b, m) < j < m ==> a[j] == b[j],
    decreases m,
{
    if m > 0 {
        lemma_highest_difference(a, b, m - 1);
    }
}

/// Sequences that agree from position `k` on gain as many 1s there.
proof fn lemma_ones_tail(a: Seq<u8>, b: Seq<u8>, k: int, m: int)
    requires
        0 <= k <= m,
        forall|j: int| k <= j < m ==> a[j] == b[j],
    ensures
        ones_before(a, m) - ones_before(a, k) == ones_before(b, m) - ones_before(b, k),
    decreases m - k,
{
    if m > k {
        lemma_ones_tail(a, b, k, m - 1);
    }
}

/// A 1 at the highest position where two sequences differ gives the higher rank.
proof fn lemma_rank_at_difference(a: Seq<u8>, b: Seq<u8>, t: int, m: int)
    requires
        0 <= t < m,
        a[t] == 1,
        b[t] != 1,
        forall|j: int| t < j < m ==> a[j] == b[j],
    ensures
        colex_rank(a, m) > colex_rank(b, m),
{
    lemma_colex_rank_bound(b, t);
    assert(colex_rank(b, t + 1) == colex_rank(b, t));
    assert(colex_rank(a, t + 1) == colex_rank(a, t) + pow2(t as nat));
    lemma_colex_rank_tail(a, b, t + 1, m);
}

/// Binary flags with `c` ones among the first `m` rank at least `2^c - 1`
/// there: the lowest rank goes to the 1s packed at the bottom.
proof fn lemma_min_rank(a: Seq<u8>, m: int)
    requires
        0 <= m <= a.len(),
        is_binary(a),
    ensures
        colex_rank(a, m) + 1 >= pow2(ones_before(a, m)),
    decreases m,
{
    if m == 0 {
        assert(pow2(0) == 1) by {
            vstd::arithmetic::power2::lemma2_to64();
        }
    } else {
        lemma_min_rank(a, m - 1);
        lemma_ones_before_bound(a, m - 1);
        let c = ones_before(a, m - 1);
        if a[m - 1] == 1 {
            lemma_pow2_unfold(c + 1);
            if c < m - 1 {
                lemma_pow2_strictly_increases(c, (m - 1) as nat);
            }
        }
    }
}

/// The rank of flags that hold `c` ones at the bottom and 0s above them.
proof fn lemma_packed_rank(g: Seq<u8>, c: int, m: int)
    requires
        0 <= c,
        0 <= m <= g.len(),
        forall|j: int| 0 <= j < m ==> g[j] == if j < c {
            1u8
        } else {
            0u8
        },
    ensures
        colex_rank(g, m) + 1 == pow2(
            if m < c {
                m as nat
            } else {
                c as nat
            },
        ),
    decreases m,
{
    if m == 0 {
        assert(pow2(0) == 1) by {
            vstd::arithmetic::power2::lemma2_to64();
        }
    } else {
        lemma_packed_rank(g, c, m - 1);
        if m - 1 < c {
            lemma_pow2_unfold(m as nat);
        }
    }
}

/// Flags without a rise below position `t` that hold a 0 at `t` hold 0s at
/// every position up to `t`.
proof fn lemma_zero_prefix(f: Seq<u8>, t: int, j: int)
    requires
        is_binary(f),
        0 <= j <= t < f.len(),
        f[t] == 0,
        forall|k: int| 0 <= k < t ==> !#[trigger] is_rise(f, k),
    ensures
        f[j] == 0,
    decreases t - j,
{
    if j < t {
        lemma_zero_prefix(f, t, j + 1);
        assert(!is_rise(f, j));
    }
}

/// Law: the combinations are visited in colexicographic order without
/// skipping any: no choice of as many blocks lies strictly between a
/// combination and the next one.
pub proof fn lemma_next_combination_is_successor(flags: Seq<u8>, r: int, other: Seq<u8>)
    requires
        is_binary(flags),
        is_binary(other),
        other.len() == flags.len(),
        is_first_rise(flags, r),
        ones_before(other, other.len() as int) == ones_before(flags, flags.len() as int),
        colex_rank(other, other.len() as int) > colex_rank(flags, flags.len() as int),
    ensures
        colex_rank(other, other.len() as int) >= colex_rank(
            advanced_at(flags, r),
            flags.len() as int,
        ),
{
    let n = flags.len() as int;
    let g = advanced_at(flags, r);
    let h = other;
    lemma_highest_difference(h, flags, n);
    let t = highest_difference(h, flags, n);
    if t < 0 {
        lemma_colex_rank_tail(h, flags, 0, n);
        assert(false);
    }
    assert(h[t] == 0 || h[t] == 1);
    assert(flags[t] == 0 || flags[t] == 1);
    if h[t] == 0 {
        lemma_rank_at_difference(flags, h, t, n);
        assert(false);
    }
    assert(h[t] == 1 && flags[t] == 0);
    let c = ones_before(flags, r);
    if t > r + 1 {
        assert forall|j: int| t < j < n implies h[j] == g[j] by {}
        lemma_rank_at_difference(h, g, t, n);
    } else if t == r + 1 {
        lemma_ones_tail(h, flags, r + 2, n);
        assert(ones_before(flags, r + 1) == c + 1);
        assert(ones_before(flags, r + 2) == c + 1);
        assert(ones_before(h, r + 2) == ones_before(h, r + 1) + 1);
        lemma_min_rank(h, r + 1);
        lemma_ones_before_bound(flags, r);
        assert forall|j: int| 0 <= j < r + 1 implies g[j] == if j < c {
            1u8
        } else {
            0u8
        } by {}
        lemma_packed_rank(g, c as int, r + 1);
        assert(colex_rank(h, r + 2) == colex_rank(h, r + 1) + pow2((r + 1) as nat));
        assert(colex_rank(g, r + 2) == colex_rank(g, r + 1) + pow2((r + 1) as nat));
        lemma_colex_rank_tail(h, g, r + 2, n);
    } else if t == r {
        assert(false);
    } else {
        assert forall|j: int| 0 <= j <= t implies flags[j] == 0 by {
            lemma_zero_prefix(flags, t, j);
        }
        lemma_prefix_ones(flags, 0, t + 1);
        lemma_ones_tail(h, flags, t + 1, n);
        assert(ones_before(h, t + 1) == ones_before(h, t) + 1);
        assert(false);
    }
}


/// Law: the first combination (the first half of the blocks) has the lowest
/// rank of all choices of that many blocks, so the walk starts at the start.
pub proof fn lemma_first_combination_is_lowest(first: Seq<u8>, other: Seq<u8>)
    requires
        is_binary(other),
        other.len() == first.len(),
        forall|k: int| 0 <= k < first.len() ==> #[trigger] first[k] == if k < half(first.len() as int) {
            1u8
        } else {
            0u8
        },
        ones_before(other, other.len() as int) == half(first.len() as int),
    ensures
        ones_before(first, first.len() as int) == half(first.len() as int),
        colex_rank(other, other.len() as int) >= colex_rank(first, first.len() as int),
{
    let n = first.len() as int;
    lemma_prefix_ones(first, half(n), n);
    lemma_packed_rank(first, half(n), n);
    lemma_min_rank(other, n);
}

/// Law: the walk stops (no 1 is followed by a 0) only at the combination of
/// highest rank among the choices of as many blocks, so it ends at the end.
pub proof fn lemma_last_combination_is_highest(flags: Seq<u8>, other: Seq<u8>)
    requires
        is_binary(flags),
        is_binary(other),
        other.len() == flags.len(),
        forall|r: int| !#[trigger] is_first_rise(flags, r),
        ones_before(other, other.len() as int) == ones_before(flags, flags.len() as int),
    ensures
        colex_rank(other, other.len() as int) <= colex_rank(flags, flags.len() as int),
{
    let n = flags.len() as int;
    assert forall|k: int| 0 <= k < n implies !#[trigger] is_rise(flags, k) by {
        if is_rise(flags, k) {
            let r = lemma_some_first_rise(flags, k);
            assert(is_first_rise(flags, r));
        }
    }
    if colex_rank(other, n) > colex_rank(flags, n) {
        lemma_highest_difference(other, flags, n);
        let t = highest_difference(other, flags, n);
        if t < 0 {
            lemma_colex_rank_tail(other, flags, 0, n);
            assert(false);
        }
        assert(other[t] == 0 || other[t] == 1);
        assert(flags[t] == 0 || flags[t] == 1);
        if other[t] == 0 {
            lemma_rank_at_difference(flags, other, t, n);
            assert(false);
        }
        assert forall|j: int| 0 <= j <= t implies flags[j] == 0 by {
            lemma_zero_prefix(flags, t, j);
        }
        lemma_prefix_ones(flags, 0, t + 1);
        lemma_ones_tail(other, flags, t + 1, n);
        assert(ones_before(other, t + 1) == ones_before(other, t) + 1);
        assert(false);
    }
}

/// A sequence with a rise at `k` has a first rise, at or below `k`.
proof fn lemma_some_first_rise(flags: Seq<u8>, k: int) -> (r: int)
    requires
        is_rise(flags, k),
    ensures
        is_first_rise(flags, r),
        r <= k,
    decreases k,
{
    if exists|j: int| 0 <= j < k && #[trigger] is_rise(flags, j) {
        let j = choose|j: int| 0 <= j < k && #[trigger] is_rise(flags, j);
        lemma_some_first_rise(flags, j)
    } else {
        k
    }
}


/// A 1 is followed by a 0 somewhere, so there is a next combination.
pub open spec fn has_next(flags: Seq<u8>) -> bool {
    exists|r: int| #[trigger] is_first_rise(flags, r)
}

/// The flags after `k` calls/// The flags after `k` calls of `next_combination` starting from `flags`.
pub open spec fn walk(flags: Seq<u8>, k: nat) -> Seq<u8>
    decreases k,
{
    if k == 0 {
        flags
    } else {
        let w = walk(flags, (k - 1) as nat);
        if has_next(w) {
            advanced_at(w, choose|r: int| #[trigger] is_first_rise(w, r))
        } else {
            w
        }
    }
}

/// Binary flags of one length and one rank are the same flags.
proof fn lemma_rank_injective(a: Seq<u8>, b: Seq<u8>)
    requires
        is_binary(a),
        is_binary(b),
        a.len() == b.len(),
        colex_rank(a, a.len() as int) == colex_rank(b, b.len() as int),
    ensures
        a == b,
{
    let n = a.len() as int;
    lemma_highest_difference(a, b, n);
    let t = highest_difference(a, b, n);
    if t >= 0 {
        assert(a[t] == 0 || a[t] == 1);
        assert(b[t] == 0 || b[t] == 1);
        if a[t] == 1 {
            lemma_rank_at_difference(a, b, t, n);
        } else {
            lemma_rank_at_difference(b, a, t, n);
        }
    }
    assert(a =~= b);
}

/// Moving to the next combination keeps the flags binary.
proof fn lemma_advanced_binary(flags: Seq<u8>, r: int)
    requires
        is_binary(flags),
        is_first_rise(flags, r),
    ensures
        is_binary(advanced_at(flags, r)),
        advanced_at(flags, r).len() == flags.len(),
{
}

/// Every step of the walk keeps the flags binary and the number of 1s.
proof fn lemma_walk_keeps(flags: Seq<u8>, k: nat)
    requires
        is_binary(flags),
    ensures
        is_binary(walk(flags, k)),
        walk(flags, k).len() == flags.len(),
        ones_before(walk(flags, k), flags.len() as int) == ones_before(flags, flags.len() as int),
    decreases k,
{
    if k > 0 {
        lemma_walk_keeps(flags, (k - 1) as nat);
        let w = walk(flags, (k - 1) as nat);
        if has_next(w) {
            let r = choose|r: int| #[trigger] is_first_rise(w, r);
            lemma_advanced_binary(w, r);
            lemma_next_combination_keeps_ones(w, r);
        }
    }
}

/// While the walk keeps finding a next combination, the rank grows by at
/// least one per step.
proof fn lemma_walk_rank_grows(flags: Seq<u8>, k: nat)
    requires
        forall|j: nat| j < k ==> #[trigger] has_next(walk(flags, j)),
    ensures
        colex_rank(walk(flags, k), flags.len() as int) >= colex_rank(flags, flags.len() as int) + k,
        walk(flags, k).len() == flags.len(),
    decreases k,
{
    if k > 0 {
        let j = (k - 1) as nat;
        lemma_walk_rank_grows(flags, j);
        assert(has_next(walk(flags, j)));
        let w = walk(flags, j);
        let r = choose|r: int| #[trigger] is_first_rise(w, r);
        lemma_next_combination_raises_rank(w, r);
    }
}

/// The walk reaches a combination without a next one.
proof fn lemma_walk_stops(flags: Seq<u8>) -> (k: nat)
    ensures
        !has_next(walk(flags, k)),
{
    let n = flags.len() as int;
    let bound = pow2(n as nat);
    if !has_next(walk(flags, 0)) {
        0
    } else {
        lemma_walk_stops_below(flags, bound)
    }
}

proof fn lemma_walk_stops_below(flags: Seq<u8>, bound: nat) -> (k: nat)
    requires
        bound == pow2(flags.len()),
    ensures
        !has_next(walk(flags, k)),
{
    if forall|j: nat| j < bound + 1 ==> #[trigger] has_next(walk(flags, j)) {
        lemma_walk_rank_grows(flags, bound + 1);
        lemma_colex_rank_bound(walk(flags, bound + 1), flags.len() as int);
        assert(false);
        0
    } else {
        choose|j: nat| !(j < bound + 1 ==> #[trigger] has_next(walk(flags, j)))
    }
}

/// Every combination of rank at most that of the `k`-th visited one is
/// visited within the first `k` steps.
proof fn lemma_walk_covers(first: Seq<u8>, other: Seq<u8>, k: nat)
    requires
        is_binary(other),
        other.len() == first.len(),
        forall|i: int| 0 <= i < first.len() ==> #[trigger] first[i] == if i < half(first.len() as int) {
            1u8
        } else {
            0u8
        },
        ones_before(other, other.len() as int) == half(first.len() as int),
        colex_rank(other, other.len() as int) <= colex_rank(walk(first, k), first.len() as int),
    ensures
        exists|j: nat| j <= k && #[trigger] walk(first, j) == other,
    decreases k,
{
    let n = first.len() as int;
    assert(is_binary(first));
    lemma_first_combination_is_lowest(first, other);
    lemma_walk_keeps(first, k);
    if k == 0 {
        lemma_rank_injective(other, first);
        assert(walk(first, 0) == other);
    } else {
        let j = (k - 1) as nat;
        let w = walk(first, j);
        lemma_walk_keeps(first, j);
        if colex_rank(other, n) <= colex_rank(w, n) {
            lemma_walk_covers(first, other, j);
            let i = choose|i: nat| i <= j && #[trigger] walk(first, i) == other;
            assert(walk(first, i) == other);
        } else {
            if has_next(w) {
                let r = choose|r: int| #[trigger] is_first_rise(w, r);
                lemma_next_combination_is_successor(w, r, other);
                lemma_rank_injective(other, walk(first, k));
                assert(walk(first, k) == other);
            } else {
                assert(walk(first, k) == w);
                assert(false);
            }
        }
    }
}

/// Law: starting from the first combination, repeated calls of
/// `next_combination` visit every choice of half of the blocks as training
/// set (each exactly once, by the rank that grows at every step).
pub proof fn lemma_walk_visits_every_combination(first: Seq<u8>, other: Seq<u8>)
    requires
        is_binary(other),
        other.len() == first.len(),
        forall|i: int| 0 <= i < first.len() ==> #[trigger] first[i] == if i < half(first.len() as int) {
            1u8
        } else {
            0u8
        },
        ones_before(other, other.len() as int) == half(first.len() as int),
    ensures
        exists|k: nat| #[trigger] walk(first, k) == other,
{
    let n = first.len() as int;
    assert(is_binary(first));
    let k = lemma_walk_stops(first);
    lemma_walk_keeps(first, k);
    lemma_first_combination_is_lowest(first, other);
    assert forall|r: int| !#[trigger] is_first_rise(walk(first, k), r) by {}
    lemma_last_combination_is_highest(walk(first, k), other);
    lemma_walk_covers(first, other, k);
    let j = choose|j: nat| j <= k && #[trigger] walk(first, j) == other;
    assert(walk(first, j) == other);
}


/// One block of the layout: with `rem` cases left for `m` blocks, between
/// `q` and `q + 1` cases per block, the block takes `q` or `q + 1` cases and
/// leaves between `q` and `q + 1` cases per remaining block.
proof fn lemma_block_step(rem: int, m: int, q: int)
    requires
        m >= 1,
        q >= 0,
        q * m <= rem <= (q + 1) * m,
    ensures
        q <= rem / m <= q + 1,
        q * (m - 1) <= rem - rem / m <= (q + 1) * (m - 1),
        rem == q * m ==> rem / m == q,
{
    let len = rem / m;
    vstd::arithmetic::div_mod::lemma_fundamental_div_mod(rem, m);
    let r = rem % m;
    assert(0 <= r < m);
    assert(rem == m * len + r);
    assert(q <= len) by (nonlinear_arith)
        requires
            q * m <= rem,
            rem == m * len + r,
            r < m,
            m >= 1,
    ;
    assert(len <= q + 1) by (nonlinear_arith)
        requires
            rem <= (q + 1) * m,
            rem == m * len + r,
            r >= 0,
            m >= 1,
    ;
    if len == q {
        assert(q * (m - 1) <= rem - len <= (q + 1) * (m - 1)) by (nonlinear_arith)
            requires
                len == q,
                rem == m * len + r,
                0 <= r < m,
        ;
    } else {
        assert(q * (m - 1) <= rem - len <= (q + 1) * (m - 1)) by (nonlinear_arith)
            requires
                len == q + 1,
                rem == m * len + r,
                0 <= r,
                rem <= (q + 1) * m,
                q >= 0,
                m >= 1,
        ;
    }
    if rem == q * m {
        assert(len == q) by (nonlinear_arith)
            requires
                rem == q * m,
                rem == m * len + r,
                0 <= r < m,
                q <= len <= q + 1,
        ;
    }
}

/// Law: the blocks are as equal as possible: with `q = ncases / n_blocks`,
/// every block holds `q` or `q + 1` cases, and exactly `q` when `n_blocks`
/// divides `ncases`.
pub proof fn lemma_blocks_balanced(starts: Seq<usize>, lengths: Seq<usize>, ncases: int, n_blocks: int)
    requires
        ncases >= 0,
        n_blocks >= 1,
        is_block_layout(starts, lengths, ncases, n_blocks),
    ensures
        forall|i: int|
            0 <= i < n_blocks ==> ncases / n_blocks <= #[trigger] lengths[i] <= ncases / n_blocks + 1,
        ncases % n_blocks == 0 ==> forall|i: int| 0 <= i < n_blocks ==> #[trigger] lengths[i] == ncases / n_blocks,
{
    let q = ncases / n_blocks;
    vstd::arithmetic::div_mod::lemma_fundamental_div_mod(ncases, n_blocks);
    assert(q >= 0) by {
        vstd::arithmetic::div_mod::lemma_div_pos_is_pos(ncases, n_blocks);
    }
    assert(q * n_blocks <= ncases <= (q + 1) * n_blocks) by (nonlinear_arith)
        requires
            ncases == n_blocks * q + ncases % n_blocks,
            0 <= ncases % n_blocks < n_blocks,
    ;
    lemma_blocks_balanced_from(starts, lengths, ncases, n_blocks, q, 0);
}

/// The blocks from block `i` on hold `q` or `q + 1` cases each, when the
/// cases left for them are between `q` and `q + 1` per block.
proof fn lemma_blocks_balanced_from(
    starts: Seq<usize>,
    lengths: Seq<usize>,
    ncases: int,
    n_blocks: int,
    q: int,
    i: int,
)
    requires
        0 <= i <= n_blocks,
        is_block_layout(starts, lengths, ncases, n_blocks),
        q >= 0,
        i < n_blocks ==> q * (n_blocks - i) <= ncases - starts[i] <= (q + 1) * (n_blocks - i),
    ensures
        forall|k: int| i <= k < n_blocks ==> q <= #[trigger] lengths[k] <= q + 1,
        (i < n_blocks ==> ncases - starts[i] == q * (n_blocks - i)) ==> forall|k: int|
            i <= k < n_blocks ==> #[trigger] lengths[k] == q,
    decreases n_blocks - i,
{
    if i < n_blocks {
        let rem = ncases - starts[i];
        let m = n_blocks - i;
        lemma_block_step(rem, m, q);
        assert(lengths[i] == rem / m);
        if i + 1 < n_blocks {
            assert(starts[i + 1] == starts[i] + lengths[i]);
            assert(q * (m - 1) == q * (n_blocks - (i + 1))) by (nonlinear_arith)
                requires
                    m == n_blocks - i,
            ;
            assert((q + 1) * (m - 1) == (q + 1) * (n_blocks - (i + 1))) by (nonlinear_arith)
                requires
                    m == n_blocks - i,
            ;
            if rem == q * m {
                assert(rem - rem / m == q * (m - 1)) by (nonlinear_arith)
                    requires
                        rem == q * m,
                        rem / m == q,
                ;
            }
        }
        lemma_blocks_balanced_from(starts, lengths, ncases, n_blocks, q, i + 1);
    }
}

/// The case just past the first `k` blocks.
pub open spec fn blocks_end(starts: Seq<usize>, lengths: Seq<usize>, k: int) -> int {
    if k <= 0 {
        0
    } else {
        starts[k - 1] + lengths[k - 1]
    }
}

/// Law: each combination splits the cases: every case lies in exactly one of
/// the training cases (flag 1) and the test cases (flag 0), the two lists
/// together hold `ncases` cases, and each list is strictly increasing, so no
/// case is read twice.
pub proof fn lemma_combination_splits_cases(
    starts: Seq<usize>,
    lengths: Seq<usize>,
    flags: Seq<u8>,
    ncases: usize,
    n_blocks: usize,
)
    requires
        n_blocks >= 1,
        is_block_layout(starts, lengths, ncases as int, n_blocks as int),
        flags.len() == n_blocks,
        is_binary(flags),
    ensures
        ({
            let train = cases_of(starts, lengths, flags, 1, n_blocks as int);
            let test = cases_of(starts, lengths, flags, 0, n_blocks as int);
            &&& train.len() + test.len() == ncases
            &&& forall|c: usize| c < ncases ==> (train.contains(c) <==> !test.contains(c))
            &&& forall|i: int| 0 <= i < train.len() ==> #[trigger] train[i] < ncases
            &&& forall|i: int| 0 <= i < test.len() ==> #[trigger] test[i] < ncases
            &&& forall|i: int, j: int| 0 <= i < j < train.len() ==> train[i] < train[j]
            &&& forall|i: int, j: int| 0 <= i < j < test.len() ==> test[i] < test[j]
        }),
{
    lemma_cases_upto(starts, lengths, flags, ncases, n_blocks, n_blocks as int);
}

/// Within a list of cases: every entry lies below `e`, and the entries
/// strictly increase.
pub open spec fn increasing_below(s: Seq<usize>, e: int) -> bool {
    &&& forall|i: int| 0 <= i < s.len() ==> #[trigger] s[i] < e
    &&& forall|i: int, j: int| 0 <= i < j < s.len() ==> s[i] < s[j]
}

/// Appending the cases of the block that starts where the list ends keeps
/// the list increasing, below the end of that block.
proof fn lemma_append_block(prev: Seq<usize>, start: usize, len: usize, e: int)
    requires
        increasing_below(prev, start as int),
        e == start + len,
        e <= usize::MAX,
    ensures
        increasing_below(prev + block_range(start, len), e),
        forall|c: usize| start <= c < e ==> (prev + block_range(start, len)).contains(c),
        forall|c: usize| c < start ==> ((prev + block_range(start, len)).contains(c) <==> prev.contains(c)),
        forall|c: usize| !prev.contains(c) && !block_range(start, len).contains(c)
            ==> !(prev + block_range(start, len)).contains(c),
{
    let r = block_range(start, len);
    let s = prev + r;
    assert forall|c: usize| start <= c < e implies s.contains(c) by {
        let i = prev.len() + (c - start);
        assert(s[i] == c);
    }
    assert forall|c: usize| c < start implies (s.contains(c) <==> prev.contains(c)) by {
        if s.contains(c) {
            let i = choose|i: int| 0 <= i < s.len() && s[i] == c;
            assert(i < prev.len());
            assert(prev[i] == c);
        }
        if prev.contains(c) {
            let i = choose|i: int| 0 <= i < prev.len() && prev[i] == c;
            assert(s[i] == c);
        }
    }
    assert forall|c: usize| !prev.contains(c) && !r.contains(c) implies !s.contains(c) by {
        if s.contains(c) {
            let i = choose|i: int| 0 <= i < s.len() && s[i] == c;
            if i < prev.len() {
                assert(prev[i] == c);
            } else {
                assert(r[i - prev.len()] == c);
            }
        }
    }
}

/// The split of the cases holds for the first `k` blocks, which end at
/// `blocks_end(starts, lengths, k)`.
proof fn lemma_cases_upto(
    starts: Seq<usize>,
    lengths: Seq<usize>,
    flags: Seq<u8>,
    ncases: usize,
    n_blocks: usize,
    k: int,
)
    requires
        n_blocks >= 1,
        is_block_layout(starts, lengths, ncases as int, n_blocks as int),
        flags.len() == n_blocks,
        is_binary(flags),
        0 <= k <= n_blocks,
    ensures
        ({
            let train = cases_of(starts, lengths, flags, 1, k);
            let test = cases_of(starts, lengths, flags, 0, k);
            let e = blocks_end(starts, lengths, k);
            &&& e <= ncases
            &&& k < n_blocks ==> e == starts[k]
            &&& k == n_blocks ==> e == ncases
            &&& train.len() + test.len() == e
            &&& increasing_below(train, e)
            &&& increasing_below(test, e)
            &&& forall|c: usize| c < e ==> (train.contains(c) <==> !test.contains(c))
        }),
    decreases k,
{
    if k > 0 {
        lemma_cases_upto(starts, lengths, flags, ncases, n_blocks, k - 1);
        let a0 = cases_of(starts, lengths, flags, 1, k - 1);
        let b0 = cases_of(starts, lengths, flags, 0, k - 1);
        let e0 = blocks_end(starts, lengths, k - 1);
        let start = starts[k - 1];
        let len = lengths[k - 1];
        let e = blocks_end(starts, lengths, k);
        assert(e0 == start);
        assert(len == (ncases - start) / (n_blocks - (k - 1)));
        assert(len <= ncases - start) by (nonlinear_arith)
            requires
                len == (ncases - start) / (n_blocks - (k - 1)),
                n_blocks - (k - 1) >= 1,
                ncases - start >= 0,
        ;
        if k < n_blocks {
            assert(starts[(k - 1) + 1] == starts[k - 1] + lengths[k - 1]);
        }
        let r = block_range(start, len);
        assert forall|c: usize| r.contains(c) implies start <= c < e by {
            let i = choose|i: int| 0 <= i < r.len() && r[i] == c;
        }
        assert forall|c: usize| c < start implies !r.contains(c) by {
            if r.contains(c) {
                let i = choose|i: int| 0 <= i < r.len() && r[i] == c;
            }
        }
        assert forall|c: usize| start <= c implies !a0.contains(c) && !b0.contains(c) by {
            if a0.contains(c) {
                let i = choose|i: int| 0 <= i < a0.len() && a0[i] == c;
            }
            if b0.contains(c) {
                let i = choose|i: int| 0 <= i < b0.len() && b0[i] == c;
            }
        }
        if flags[k - 1] == 1 {
            lemma_append_block(a0, start, len, e);
            assert(increasing_below(b0, e));
        } else {
            assert(flags[k - 1] == 0);
            lemma_append_block(b0, start, len, e);
            assert(increasing_below(a0, e));
        }
    }
}

} // verus!
