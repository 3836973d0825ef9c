//! Gap analysis: how long a series stays on one side of a threshold.
//!
//! The series is seen as a sequence of flags (above or below the threshold).
//! Every maximal run of equal flags is a gap; its length falls into the first
//! size class whose bound it does not exceed, or into the last class when it
//! exceeds them all.
use vstd::prelude::*;
use vstd::arithmetic::power2::pow2;

verus! {

/// Number of size classes of gaps; the last one takes every longer gap.
pub const NGAPS: usize = 11;

/// The bounds of the size classes: 1, 2, 4, ..., 512.
pub fn initialize_gap_sizes() -> (gap_size: Vec<usize>)
    ensures
        gap_size@.len() == NGAPS - 1,
        forall|k: int| 0 <= k < NGAPS - 1 ==> gap_size@[k] == pow2(k as nat),
{
    let mut gap_size: Vec<usize> = Vec::new();
    let mut k: usize = 1;
    let mut n: usize = 0;
    proof {
        vstd::arithmetic::power2::lemma2_to64();
    }
    while n < NGAPS - 1
        invariant
            n <= NGAPS - 1,
            gap_size@.len() == n,
            k == pow2(n as nat),
            forall|m: int| 0 <= m < n ==> gap_size@[m] == pow2(m as nat),
        decreases NGAPS - 1 - n,
    {
        proof {
            vstd::arithmetic::power2::lemma2_to64();
            vstd::arithmetic::power2::lemma_pow2_unfold((n + 1) as nat);
        }
        gap_size.push(k);
        k = k * 2;
        n = n + 1;
    }
    gap_size
}

/// A gap ends just before position `e` (1 <= e <= len): at the end of the
/// series, or where the flag changes.
pub open spec fn is_gap_end(flags: Seq<bool>, e: int) -> bool {
    e == flags.len() || flags[e] != flags[e - 1]
}

/// The length of the gap that holds position `e - 1`, counted up to and
/// including that position.
pub open spec fn gap_length_to(flags: Seq<bool>, e: int) -> nat
    decreases e,
{
    if e <= 1 {
        1
    } else if flags[e - 1] == flags[e - 2] {
        gap_length_to(flags, e - 1) + 1
    } else {
        1
    }
}

/// The size class of a gap of length `len`, searching from class `k`: the
/// first class whose bound is at least `len`, else the number of bounds.
pub open spec fn size_class_from(len: nat, sizes: Seq<usize>, k: int) -> nat
    decreases sizes.len() - k,
{
    if k >= sizes.len() {
        sizes.len()
    } else if len <= sizes[k] {
        k as nat
    } else {
        size_class_from(len, sizes, k + 1)
    }
}

/// The size class of a gap of length `len`.
pub open spec fn size_class(len: nat, sizes: Seq<usize>) -> nat {
    size_class_from(len, sizes, 0)
}

/// The number of gaps that end at or before position `m` and fall into
/// size class `c`.
pub open spec fn gaps_in_class(flags: Seq<bool>, sizes: Seq<usize>, c: nat, m: int) -> nat
    decreases m,
{
    if m <= 0 {
        0
    } else {
        gaps_in_class(flags, sizes, c, m - 1) + if is_gap_end(flags, m) && size_class(
            gap_length_to(flags, m),
            sizes,
        ) == c {
            1nat
        } else {
            0nat
        }
    }
}

/// Every gap of the series falls into one of the `NGAPS` classes.
pub open spec fn gaps_fit(flags: Seq<bool>, sizes: Seq<usize>) -> bool {
    forall|e: int|
        1 <= e <= flags.len() && #[trigger] is_gap_end(flags, e) ==> size_class(
            gap_length_to(flags, e),
            sizes,
        ) < NGAPS
}

/// Adds one gap of length `count` to the tally of its size class; returns
/// false, changing nothing, when its class is beyond the last one.
fn record_gap(gap_count: &mut Vec<usize>, count: usize, gap_size: &[usize]) -> (recorded: bool)
    requires
        old(gap_count)@.len() == NGAPS,
        forall|c: int| 0 <= c < NGAPS ==> old(gap_count)@[c] < usize::MAX,
    ensures
        recorded == (size_class(count as nat, gap_size@) < NGAPS),
        final(gap_count)@.len() == NGAPS,
        forall|c: int|
            0 <= c < NGAPS ==> final(gap_count)@[c] == old(gap_count)@[c] + if recorded && c
                == size_class(count as nat, gap_size@) {
                1int
            } else {
                0int
            },
{
    let mut j: usize = 0;
    while j < gap_size.len() && count > gap_size[j]
        invariant
            j <= gap_size@.len(),
            size_class_from(count as nat, gap_size@, 0) == size_class_from(
                count as nat,
                gap_size@,
                j as int,
            ),
        decreases gap_size@.len() - j,
    {
        j = j + 1;
    }
    if j >= NGAPS {
        return false;
    }
    gap_count[j] = gap_count[j] + 1;
    true
}

/// Counts the gaps of a series of above/below flags by size class: entry `c`
/// of the result is the number of maximal runs of equal flags whose length
/// falls into class `c` of `gap_size`. `None` when some gap is longer than
/// every class bound and there are `NGAPS` bounds or more, so that it has no
/// class.
pub fn count_gaps(flags: &[bool], gap_size: &[usize]) -> (gap_count: Option<Vec<usize>>)
    requires
        flags@.len() >= 1,
    ensures
        gap_count.is_some() == gaps_fit(flags@, gap_size@),
        gap_count matches Some(counts) ==> counts@.len() == NGAPS && forall|c: int|
            0 <= c < NGAPS ==> counts@[c] == gaps_in_class(
                flags@,
                gap_size@,
                c as nat,
                flags@.len() as int,
            ),
{
    let n = flags.len();
    let mut gap_count: Vec<usize> = Vec::new();
    let mut z: usize = 0;
    while z < NGAPS
        invariant
            z <= NGAPS,
            gap_count@.len() == z,
            forall|c: int| 0 <= c < z ==> gap_count@[c] == 0,
        decreases NGAPS - z,
    {
        gap_count.push(0);
        z = z + 1;
    }
    let mut count: usize = 1;
    let mut above_below: bool = flags[0];
    let mut i: usize = 1;
    proof {
        assert forall|c: int| 0 <= c < NGAPS implies gap_count@[c] == gaps_in_class(
            flags@,
            gap_size@,
            c as nat,
            0,
        ) by {}
    }
    while i < n
        invariant
            n == flags@.len(),
            1 <= i <= n,
            count == gap_length_to(flags@, i as int),
            above_below == flags@[i - 1],
            1 <= count <= i,
            forall|e: int|
                1 <= e < i && #[trigger] is_gap_end(flags@, e) ==> size_class(
                    gap_length_to(flags@, e),
                    gap_size@,
                ) < NGAPS,
            gap_count@.len() == NGAPS,
            forall|c: int|
                0 <= c < NGAPS ==> gap_count@[c] == gaps_in_class(
                    flags@,
                    gap_size@,
                    c as nat,
                    i - 1,
                ),
            forall|c: int| 0 <= c < NGAPS ==> gap_count@[c] <= i - 1,
        decreases n - i,
    {
        let new_above_below: bool = flags[i];
        let ghost e = i as int;
        if new_above_below == above_below {
            assert(!is_gap_end(flags@, e));
            count = count + 1;
        } else {
            assert(is_gap_end(flags@, e));
            if !record_gap(&mut gap_count, count, gap_size) {
                assert(!gaps_fit(flags@, gap_size@));
                return None;
            }
            count = 1;
            above_below = new_above_below;
        }
        proof {
            assert forall|c: int| 0 <= c < NGAPS implies gap_count@[c] == gaps_in_class(
                flags@,
                gap_size@,
                c as nat,
                e,
            ) by {}
        }
        i = i + 1;
    }
    assert(is_gap_end(flags@, n as int));
    if !record_gap(&mut gap_count, count, gap_size) {
        assert(!gaps_fit(flags@, gap_size@));
        return None;
    }
    proof {
        assert forall|c: int| 0 <= c < NGAPS implies gap_count@[c] == gaps_in_class(
            flags@,
            gap_size@,
            c as nat,
            n as int,
        ) by {}
        assert forall|e: int|
            1 <= e <= flags@.len() && #[trigger] is_gap_end(flags@, e) implies size_class(
            gap_length_to(flags@, e),
            gap_size@,
        ) < NGAPS by {}
    }
    Some(gap_count)
}

/// The number of gaps that end at or before position `m`.
pub open spec fn gap_ends(flags: Seq<bool>, m: int) -> nat
    decreases m,
{
    if m <= 0 {
        0
    } else {
        gap_ends(flags, m - 1) + if is_gap_end(flags, m) {
            1nat
        } else {
            0nat
        }
    }
}

/// The number of gaps that end at or before position `m` and fall into one
/// of the classes below `c`.
pub open spec fn gaps_below_class(flags: Seq<bool>, sizes: Seq<usize>, c: int, m: int) -> nat
    decreases c,
{
    if c <= 0 {
        0
    } else {
        gaps_below_class(flags, sizes, c - 1, m) + gaps_in_class(flags, sizes, (c - 1) as nat, m)
    }
}

/// Adding one position adds to the classes below `c` exactly when a gap of
/// such a class ends there.
proof fn lemma_below_class_step(flags: Seq<bool>, sizes: Seq<usize>, c: int, m: int)
    requires
        m >= 1,
        c >= 0,
    ensures
        gaps_below_class(flags, sizes, c, m) == gaps_below_class(flags, sizes, c, m - 1) + if is_gap_end(
            flags,
            m,
        ) && size_class(gap_length_to(flags, m), sizes) < c {
            1nat
        } else {
            0nat
        },
    decreases c,
{
    if c > 0 {
        lemma_below_class_step(flags, sizes, c - 1, m);
    }
}

/// No gap ends before the first position.
proof fn lemma_below_class_none(flags: Seq<bool>, sizes: Seq<usize>, c: int)
    ensures
        gaps_below_class(flags, sizes, c, 0) == 0,
    decreases c,
{
    if c > 0 {
        lemma_below_class_none(flags, sizes, c - 1);
    }
}

/// Law: every gap is counted in exactly one size class: the counts of all
/// `NGAPS` classes add up to the number of gaps that end by position `m`.
pub proof fn lemma_every_gap_counted_once(flags: Seq<bool>, sizes: Seq<usize>, m: int)
    requires
        0 <= m <= flags.len(),
        gaps_fit(flags, sizes),
    ensures
        gaps_below_class(flags, sizes, NGAPS as int, m) == gap_ends(flags, m),
    decreases m,
{
    if m == 0 {
        lemma_below_class_none(flags, sizes, NGAPS as int);
    } else {
        lemma_every_gap_counted_once(flags, sizes, m - 1);
        lemma_below_class_step(flags, sizes, NGAPS as int, m);
        if is_gap_end(flags, m) {
            assert(size_class(gap_length_to(flags, m), sizes) < NGAPS);
        }
    }
}

} // verus!
