//! Quick sorts of integer arrays, optionally carrying "slave" arrays along.
//!
//! Each sort orders `data[first..=last]` ascending in place (Hoare partition
//! around the middle element) and applies the same rearrangement to every
//! slave array, so that entries that stood at one position keep standing
//! together. Positions outside `first..=last` are left alone.
use vstd::prelude::*;
use vstd::set_lib::{lemma_int_range, lemma_len_subset, lemma_map_size, lemma_subset_equality, set_int_range};

verus! {

/// `p` maps the positions `lo..=hi` one-to-one into `lo..=hi`: a permutation
/// of that range of positions.
pub open spec fn permutes(p: spec_fn(int) -> int, lo: int, hi: int) -> bool {
    &&& forall|k: int| lo <= k <= hi ==> lo <= #[trigger] p(k) <= hi
    &&& forall|k1: int, k2: int|
        lo <= k1 <= hi && lo <= k2 <= hi && k1 != k2 ==> #[trigger] p(k1) != #[trigger] p(k2)
}

/// `new` is `old` with the entries at positions `lo..=hi` rearranged by `p`:
/// position `k` of `new` holds what position `p(k)` of `old` held, and every
/// other position is unchanged.
pub open spec fn rearranged<T>(new: Seq<T>, old: Seq<T>, p: spec_fn(int) -> int, lo: int, hi: int) -> bool {
    &&& new.len() == old.len()
    &&& forall|k: int| 0 <= k < new.len() && !(lo <= k <= hi) ==> new[k] == old[k]
    &&& forall|k: int| lo <= k <= hi ==> new[k] == old[p(k)]
}

/// The entries at positions `lo..=hi` of `s` are in ascending order.
pub open spec fn sorted_i32(s: Seq<i32>, lo: int, hi: int) -> bool {
    forall|a: int, b: int| lo <= a <= b <= hi ==> s[a] <= s[b]
}

/// The entries at positions `lo..=hi` of `s` are in ascending order.
pub open spec fn sorted_u64(s: Seq<u64>, lo: int, hi: int) -> bool {
    forall|a: int, b: int| lo <= a <= b <= hi ==> s[a] <= s[b]
}

/// The positions `a` and `b` of `s` exchanged.
pub open spec fn swapped<T>(s: Seq<T>, a: int, b: int) -> Seq<T> {
    s.update(a, s[b]).update(b, s[a])
}

/// The permutation `p` followed by the exchange of positions `a` and `b`.
pub open spec fn swap_perm(p: spec_fn(int) -> int, a: int, b: int) -> spec_fn(int) -> int {
    |k: int|
        if k == a {
            p(b)
        } else if k == b {
            p(a)
        } else {
            p(k)
        }
}

/// The permutation `p` of `lo..=hi` followed by the permutation `q` of the
/// sub-range `sub_lo..=sub_hi`.
pub open spec fn then_perm(
    p: spec_fn(int) -> int,
    q: spec_fn(int) -> int,
    sub_lo: int,
    sub_hi: int,
) -> spec_fn(int) -> int {
    |k: int|
        if sub_lo <= k <= sub_hi {
            p(q(k))
        } else {
            p(k)
        }
}

/// The identity permutation.
pub open spec fn id_perm() -> spec_fn(int) -> int {
    |k: int| k
}

/// The identity permutes every range and rearranges nothing.
pub proof fn lemma_id_perm<T>(s: Seq<T>, lo: int, hi: int)
    ensures
        permutes(id_perm(), lo, hi),
        rearranged(s, s, id_perm(), lo, hi),
{
}

/// Exchanging two positions of the range keeps a permutation of it, and the
/// exchanged sequence is rearranged by the extended permutation.
pub proof fn lemma_swap_perm<T>(
    s: Seq<T>,
    orig: Seq<T>,
    p: spec_fn(int) -> int,
    lo: int,
    hi: int,
    a: int,
    b: int,
)
    requires
        permutes(p, lo, hi),
        rearranged(s, orig, p, lo, hi),
        0 <= lo,
        lo <= a <= hi,
        lo <= b <= hi,
        hi < s.len(),
    ensures
        permutes(swap_perm(p, a, b), lo, hi),
        rearranged(swapped(s, a, b), orig, swap_perm(p, a, b), lo, hi),
{
    let q = swap_perm(p, a, b);
    assert forall|k1: int, k2: int|
        lo <= k1 <= hi && lo <= k2 <= hi && k1 != k2 implies #[trigger] q(k1) != #[trigger] q(k2) by {
        let j1 = if k1 == a {
            b
        } else if k1 == b {
            a
        } else {
            k1
        };
        let j2 = if k2 == a {
            b
        } else if k2 == b {
            a
        } else {
            k2
        };
        assert(q(k1) == p(j1));
        assert(q(k2) == p(j2));
        assert(j1 != j2);
        assert(p(j1) != p(j2));
    }
    assert forall|k: int| lo <= k <= hi implies lo <= #[trigger] q(k) <= hi by {
        if k == a {
            assert(lo <= p(b) <= hi);
        } else if k == b {
            assert(lo <= p(a) <= hi);
        } else {
            assert(lo <= p(k) <= hi);
        }
    }
    let t = swapped(s, a, b);
    assert forall|k: int| lo <= k <= hi implies t[k] == orig[#[trigger] q(k)] by {
        if k == b {
            assert(t[k] == s[a]);
        } else if k == a {
            assert(t[k] == s[b]);
        } else {
            assert(t[k] == s[k]);
        }
    }
}

/// Following a permutation of the whole range by a permutation of a
/// sub-range gives a permutation of the whole range, which rearranges the
/// starting sequence into the twice rearranged one.
pub proof fn lemma_then_perm<T>(
    s2: Seq<T>,
    s1: Seq<T>,
    orig: Seq<T>,
    p: spec_fn(int) -> int,
    q: spec_fn(int) -> int,
    lo: int,
    hi: int,
    sub_lo: int,
    sub_hi: int,
)
    requires
        permutes(p, lo, hi),
        rearranged(s1, orig, p, lo, hi),
        permutes(q, sub_lo, sub_hi),
        rearranged(s2, s1, q, sub_lo, sub_hi),
        0 <= lo <= sub_lo,
        sub_hi <= hi,
        hi < s1.len(),
    ensures
        permutes(then_perm(p, q, sub_lo, sub_hi), lo, hi),
        rearranged(s2, orig, then_perm(p, q, sub_lo, sub_hi), lo, hi),
{
    let r = then_perm(p, q, sub_lo, sub_hi);
    assert forall|k: int| lo <= k <= hi implies lo <= #[trigger] r(k) <= hi by {
        if sub_lo <= k <= sub_hi {
            assert(sub_lo <= q(k) <= sub_hi);
            assert(lo <= p(q(k)) <= hi);
        } else {
            assert(lo <= p(k) <= hi);
        }
    }
    assert forall|k1: int, k2: int|
        lo <= k1 <= hi && lo <= k2 <= hi && k1 != k2 implies #[trigger] r(k1) != #[trigger] r(k2) by {
        let j1 = if sub_lo <= k1 <= sub_hi {
            q(k1)
        } else {
            k1
        };
        let j2 = if sub_lo <= k2 <= sub_hi {
            q(k2)
        } else {
            k2
        };
        if sub_lo <= k1 <= sub_hi {
            assert(sub_lo <= q(k1) <= sub_hi);
        }
        if sub_lo <= k2 <= sub_hi {
            assert(sub_lo <= q(k2) <= sub_hi);
        }
        if sub_lo <= k1 <= sub_hi && sub_lo <= k2 <= sub_hi {
            assert(q(k1) != q(k2));
        }
        assert(j1 != j2);
        assert(r(k1) == p(j1));
        assert(r(k2) == p(j2));
        assert(p(j1) != p(j2));
    }
    assert forall|k: int| lo <= k <= hi implies s2[k] == orig[#[trigger] r(k)] by {
        if sub_lo <= k <= sub_hi {
            assert(s2[k] == s1[q(k)]);
            assert(sub_lo <= q(k) <= sub_hi);
            assert(s1[q(k)] == orig[p(q(k))]);
        } else {
            assert(s2[k] == s1[k]);
        }
    }
}

/// A rearrangement of a sub-range keeps every entry of that sub-range within
/// any bound that all of its old entries met.
pub proof fn lemma_rearranged_bounds_i32(
    new: Seq<i32>,
    old: Seq<i32>,
    q: spec_fn(int) -> int,
    lo: int,
    hi: int,
    bound: i32,
    below: bool,
)
    requires
        permutes(q, lo, hi),
        rearranged(new, old, q, lo, hi),
        below ==> forall|k: int| lo <= k <= hi ==> old[k] <= bound,
        !below ==> forall|k: int| lo <= k <= hi ==> old[k] >= bound,
    ensures
        below ==> forall|k: int| lo <= k <= hi ==> new[k] <= bound,
        !below ==> forall|k: int| lo <= k <= hi ==> new[k] >= bound,
{
    assert forall|k: int| lo <= k <= hi implies (below ==> new[k] <= bound) && (!below ==> new[k]
        >= bound) by {
        assert(lo <= q(k) <= hi);
        assert(new[k] == old[q(k)]);
    }
}

/// A rearrangement of a sub-range keeps every entry of that sub-range within
/// any bound that all of its old entries met.
pub proof fn lemma_rearranged_bounds_u64(
    new: Seq<u64>,
    old: Seq<u64>,
    q: spec_fn(int) -> int,
    lo: int,
    hi: int,
    bound: u64,
    below: bool,
)
    requires
        permutes(q, lo, hi),
        rearranged(new, old, q, lo, hi),
        below ==> forall|k: int| lo <= k <= hi ==> old[k] <= bound,
        !below ==> forall|k: int| lo <= k <= hi ==> old[k] >= bound,
    ensures
        below ==> forall|k: int| lo <= k <= hi ==> new[k] <= bound,
        !below ==> forall|k: int| lo <= k <= hi ==> new[k] >= bound,
{
    assert forall|k: int| lo <= k <= hi implies (below ==> new[k] <= bound) && (!below ==> new[k]
        >= bound) by {
        assert(lo <= q(k) <= hi);
        assert(new[k] == old[q(k)]);
    }
}


/// The positions of `lo..=hi`.
pub open spec fn positions(lo: int, hi: int) -> Set<int> {
    set_int_range(lo, hi + 1)
}

/// A permutation of `lo..=hi` reaches every position of the range.
proof fn lemma_perm_onto(p: spec_fn(int) -> int, lo: int, hi: int)
    requires
        lo <= hi + 1,
        permutes(p, lo, hi),
    ensures
        positions(lo, hi).map(p) == positions(lo, hi),
{
    let r = positions(lo, hi);
    lemma_int_range(lo, hi + 1);
    assert(vstd::relations::injective_on(p, r));
    lemma_map_size(r, r.map(p), p);
    assert(r.map(p).subset_of(r)) by {
        assert forall|x: int| r.map(p).contains(x) implies r.contains(x) by {
            let k = choose|k: int| r.contains(k) && p(k) == x;
        }
    }
    lemma_subset_equality(r.map(p), r);
}

/// The positions of `lo..=hi` whose entry is at most `bound`.
pub open spec fn at_most_i32(s: Seq<i32>, lo: int, hi: int, bound: i32) -> Set<int> {
    Set::new(|j: int| lo <= j <= hi && s[j] <= bound)
}

/// A rearrangement by a permutation puts as many entries at most `bound` in
/// the range as there were.
proof fn lemma_rearranged_counts_i32(
    new: Seq<i32>,
    old: Seq<i32>,
    p: spec_fn(int) -> int,
    lo: int,
    hi: int,
    bound: i32,
)
    requires
        lo <= hi + 1,
        permutes(p, lo, hi),
        rearranged(new, old, p, lo, hi),
    ensures
        at_most_i32(new, lo, hi, bound).finite(),
        at_most_i32(old, lo, hi, bound).finite(),
        at_most_i32(new, lo, hi, bound).len() == at_most_i32(old, lo, hi, bound).len(),
{
    let a = at_most_i32(new, lo, hi, bound);
    let b = at_most_i32(old, lo, hi, bound);
    let r = positions(lo, hi);
    lemma_int_range(lo, hi + 1);
    lemma_len_subset(a, r);
    lemma_len_subset(b, r);
    lemma_perm_onto(p, lo, hi);
    assert(a.map(p) =~= b) by {
        assert forall|x: int| a.map(p).contains(x) implies b.contains(x) by {
            let k = choose|k: int| a.contains(k) && p(k) == x;
            assert(new[k] == old[p(k)]);
        }
        assert forall|x: int| b.contains(x) implies a.map(p).contains(x) by {
            assert(r.map(p).contains(x));
            let k = choose|k: int| r.contains(k) && p(k) == x;
            assert(new[k] == old[x]);
            assert(a.contains(k));
        }
    }
    lemma_map_size(a, b, p);
}

/// Sorted entries at most the entry at `k` fill at least `lo..=k`; when the
/// entry at `k` exceeds `bound`, the entries at most `bound` lie before `k`.
proof fn lemma_sorted_counts_i32(s: Seq<i32>, lo: int, hi: int, k: int, bound: i32)
    requires
        sorted_i32(s, lo, hi),
        lo <= k <= hi,
    ensures
        at_most_i32(s, lo, hi, bound).finite(),
        s[k] <= bound ==> at_most_i32(s, lo, hi, bound).len() >= k - lo + 1,
        s[k] > bound ==> at_most_i32(s, lo, hi, bound).len() <= k - lo,
{
    let a = at_most_i32(s, lo, hi, bound);
    lemma_int_range(lo, hi + 1);
    lemma_len_subset(a, positions(lo, hi));
    if s[k] <= bound {
        lemma_int_range(lo, k + 1);
        lemma_len_subset(set_int_range(lo, k + 1), a);
    } else {
        lemma_int_range(lo, k);
        assert(a.subset_of(set_int_range(lo, k)));
        lemma_len_subset(a, set_int_range(lo, k));
    }
}

/// Law: sorting is determined by the keys: when a range is in order both
/// before and after a rearrangement of its entries, no key has moved. In
/// particular sorting a range that is already in order leaves its keys
/// where they are (equal keys may still exchange their slave entries).
pub proof fn lemma_sorted_rearrangement_unchanged_i32(
    new: Seq<i32>,
    old: Seq<i32>,
    p: spec_fn(int) -> int,
    lo: int,
    hi: int,
)
    requires
        0 <= lo,
        hi < old.len(),
        permutes(p, lo, hi),
        rearranged(new, old, p, lo, hi),
        sorted_i32(old, lo, hi),
        sorted_i32(new, lo, hi),
    ensures
        new == old,
{
    assert forall|k: int| lo <= k <= hi implies new[k] == old[k] by {
        if new[k] < old[k] {
            lemma_rearranged_counts_i32(new, old, p, lo, hi, new[k]);
            lemma_sorted_counts_i32(new, lo, hi, k, new[k]);
            lemma_sorted_counts_i32(old, lo, hi, k, new[k]);
        } else if new[k] > old[k] {
            lemma_rearranged_counts_i32(new, old, p, lo, hi, old[k]);
            lemma_sorted_counts_i32(new, lo, hi, k, old[k]);
            lemma_sorted_counts_i32(old, lo, hi, k, old[k]);
        }
    }
    assert(new =~= old);
}

/// The positions of `lo..=hi` whose entry is at most `bound`.
pub open spec fn at_most_u64(s: Seq<u64>, lo: int, hi: int, bound: u64) -> Set<int> {
    Set::new(|j: int| lo <= j <= hi && s[j] <= bound)
}

/// A rearrangement by a permutation puts as many entries at most `bound` in
/// the range as there were.
proof fn lemma_rearranged_counts_u64(
    new: Seq<u64>,
    old: Seq<u64>,
    p: spec_fn(int) -> int,
    lo: int,
    hi: int,
    bound: u64,
)
    requires
        lo <= hi + 1,
        permutes(p, lo, hi),
        rearranged(new, old, p, lo, hi),
    ensures
        at_most_u64(new, lo, hi, bound).finite(),
        at_most_u64(old, lo, hi, bound).finite(),
        at_most_u64(new, lo, hi, bound).len() == at_most_u64(old, lo, hi, bound).len(),
{
    let a = at_most_u64(new, lo, hi, bound);
    let b = at_most_u64(old, lo, hi, bound);
    let r = positions(lo, hi);
    lemma_int_range(lo, hi + 1);
    lemma_len_subset(a, r);
    lemma_len_subset(b, r);
    lemma_perm_onto(p, lo, hi);
    assert(a.map(p) =~= b) by {
        assert forall|x: int| a.map(p).contains(x) implies b.contains(x) by {
            let k = choose|k: int| a.contains(k) && p(k) == x;
            assert(new[k] == old[p(k)]);
        }
        assert forall|x: int| b.contains(x) implies a.map(p).contains(x) by {
            assert(r.map(p).contains(x));
            let k = choose|k: int| r.contains(k) && p(k) == x;
            assert(new[k] == old[x]);
            assert(a.contains(k));
        }
    }
    lemma_map_size(a, b, p);
}

/// Sorted entries at most the entry at `k` fill at least `lo..=k`; when the
/// entry at `k` exceeds `bound`, the entries at most `bound` lie before `k`.
proof fn lemma_sorted_counts_u64(s: Seq<u64>, lo: int, hi: int, k: int, bound: u64)
    requires
        sorted_u64(s, lo, hi),
        lo <= k <= hi,
    ensures
        at_most_u64(s, lo, hi, bound).finite(),
        s[k] <= bound ==> at_most_u64(s, lo, hi, bound).len() >= k - lo + 1,
        s[k] > bound ==> at_most_u64(s, lo, hi, bound).len() <= k - lo,
{
    let a = at_most_u64(s, lo, hi, bound);
    lemma_int_range(lo, hi + 1);
    lemma_len_subset(a, positions(lo, hi));
    if s[k] <= bound {
        lemma_int_range(lo, k + 1);
        lemma_len_subset(set_int_range(lo, k + 1), a);
    } else {
        lemma_int_range(lo, k);
        assert(a.subset_of(set_int_range(lo, k)));
        lemma_len_subset(a, set_int_range(lo, k));
    }
}

/// Law: sorting is determined by the keys: when a range is in order both
/// before and after a rearrangement of its entries, no key has moved. In
/// particular sorting a range that is already in order leaves its keys
/// where they are (equal keys may still exchange their slave entries).
pub proof fn lemma_sorted_rearrangement_unchanged_u64(
    new: Seq<u64>,
    old: Seq<u64>,
    p: spec_fn(int) -> int,
    lo: int,
    hi: int,
)
    requires
        0 <= lo,
        hi < old.len(),
        permutes(p, lo, hi),
        rearranged(new, old, p, lo, hi),
        sorted_u64(old, lo, hi),
        sorted_u64(new, lo, hi),
    ensures
        new == old,
{
    assert forall|k: int| lo <= k <= hi implies new[k] == old[k] by {
        if new[k] < old[k] {
            lemma_rearranged_counts_u64(new, old, p, lo, hi, new[k]);
            lemma_sorted_counts_u64(new, lo, hi, k, new[k]);
            lemma_sorted_counts_u64(old, lo, hi, k, new[k]);
        } else if new[k] > old[k] {
            lemma_rearranged_counts_u64(new, old, p, lo, hi, old[k]);
            lemma_sorted_counts_u64(new, lo, hi, k, old[k]);
            lemma_sorted_counts_u64(old, lo, hi, k, old[k]);
        }
    }
    assert(new =~= old);
}

/// Exchanges the entries at positions `a` and `b`.
pub(crate) fn swap_entries<T: Copy>(s: &mut [T], a: usize, b: usize)
    requires
        a < old(s)@.len(),
        b < old(s)@.len(),
    ensures
        final(s)@ == swapped(old(s)@, a as int, b as int),
{
    let x = s[a];
    let y = s[b];
    s[a] = y;
    s[b] = x;
}

/// QSORT for integers: sorts `data[first..=last]` ascending.
pub fn qsorti(first: usize, last: usize, data: &mut [i32])
    requires
        first < last ==> last < old(data)@.len(),
    ensures
        final(data)@.len() == old(data)@.len(),
        sorted_i32(final(data)@, first as int, last as int),
        exists|p: spec_fn(int) -> int|
            #[trigger] permutes(p, first as int, last as int) && rearranged(
                final(data)@,
                old(data)@,
                p,
                first as int,
                last as int,
            ),
    decreases last - first,
{
    let ghost d0 = data@;
    if first >= last {
        proof {
            lemma_id_perm(d0, first as int, last as int);
        }
        return;
    }
    let mut lower: usize = first;
    let mut upper: usize = last;
    let mid: usize = first + (last - first) / 2;
    let split: i32 = data[mid];
    let ghost mut p: spec_fn(int) -> int = id_perm();
    let ghost mut lw: int = mid as int;
    let ghost mut hw: int = mid as int;
    let ghost mut first_round: bool = true;
    proof {
        lemma_id_perm(d0, first as int, last as int);
    }
    loop
        invariant_except_break
            data@.len() == d0.len(),
            first < last < data@.len(),
            first <= lower <= upper <= last,
            first_round ==> lower == first && upper == last && lw == mid && hw == mid,
            !first_round ==> first < lower && upper < last,
            first <= mid < last,
            lower <= hw <= last,
            data@[hw] >= split,
            first <= lw <= upper,
            data@[lw] <= split,
            forall|k: int| first <= k < lower ==> data@[k] <= split,
            forall|k: int| upper < k <= last ==> data@[k] >= split,
            permutes(p, first as int, last as int),
            rearranged(data@, d0, p, first as int, last as int),
        ensures
            data@.len() == d0.len(),
            first < lower <= last + 1,
            upper < last,
            first <= upper + 1,
            upper < lower,
            forall|k: int| first <= k < lower ==> data@[k] <= split,
            forall|k: int| upper < k <= last ==> data@[k] >= split,
            permutes(p, first as int, last as int),
            rearranged(data@, d0, p, first as int, last as int),
        decreases upper - lower,
    {
        let ghost l0 = lower;
        let ghost u0 = upper;
        while lower < data.len() && split > data[lower]
            invariant
                data@.len() == d0.len(),
                first < last < data@.len(),
                l0 <= lower <= hw <= last,
                first <= l0,
                data@[hw] >= split,
                forall|k: int| first <= k < lower ==> data@[k] <= split,
            decreases hw - lower,
        {
            lower = lower + 1;
        }
        while upper > 0 && split < data[upper]
            invariant
                data@.len() == d0.len(),
                first < last < data@.len(),
                first <= lw <= upper <= u0 <= last,
                data@[lw] <= split,
                forall|k: int| upper < k <= last ==> data@[k] >= split,
            decreases upper - lw,
        {
            upper = upper - 1;
        }
        assert(data@[lower as int] >= split);
        assert(data@[upper as int] <= split);
        if lower == upper {
            assert(lower < last);
            if lower < data.len() - 1 {
                lower = lower + 1;
            }
            upper = upper.saturating_sub(1);
        } else if lower < upper {
            proof {
                lemma_swap_perm(data@, d0, p, first as int, last as int, lower as int, upper as int);
                p = swap_perm(p, lower as int, upper as int);
                lw = lower as int;
                hw = upper as int;
            }
            swap_entries(data, lower, upper);
            lower = lower + 1;
            upper = upper - 1;
        }
        proof {
            first_round = false;
        }
        if lower > upper {
            break;
        }
    }
    let ghost d1 = data@;
    let ghost p1 = p;
    if first < upper {
        qsorti(first, upper, data);
    }
    let ghost d2 = data@;
    proof {
        let q: spec_fn(int) -> int = if first < upper {
            choose|q: spec_fn(int) -> int|
                #[trigger] permutes(q, first as int, upper as int) && rearranged(
                    d2,
                    d1,
                    q,
                    first as int,
                    upper as int,
                )
        } else {
            id_perm()
        };
        if first >= upper {
            lemma_id_perm(d1, first as int, upper as int);
            assert(d2 == d1);
        }
        lemma_then_perm(d2, d1, d0, p1, q, first as int, last as int, first as int, upper as int);
        lemma_rearranged_bounds_i32(d2, d1, q, first as int, upper as int, split, true);
        p = then_perm(p1, q, first as int, upper as int);
    }
    if lower < last {
        qsorti(lower, last, data);
    }
    let ghost d3 = data@;
    proof {
        let q: spec_fn(int) -> int = if lower < last {
            choose|q: spec_fn(int) -> int|
                #[trigger] permutes(q, lower as int, last as int) && rearranged(
                    d3,
                    d2,
                    q,
                    lower as int,
                    last as int,
                )
        } else {
            id_perm()
        };
        if lower >= last {
            lemma_id_perm(d2, lower as int, last as int);
            assert(d3 == d2);
        }
        let p2 = p;
        lemma_then_perm(d3, d2, d0, p2, q, first as int, last as int, lower as int, last as int);
        lemma_rearranged_bounds_i32(d3, d2, q, lower as int, last as int, split, false);
        p = then_perm(p2, q, lower as int, last as int);
        assert forall|a: int, b: int| first <= a <= b <= last implies d3[a] <= d3[b] by {
            if b <= upper {
            } else if a >= lower {
            } else {
                assert(d3[a] <= split);
                assert(d3[b] >= split);
            }
        }
    }
}

/// QSORT for integers with an int slave: sorts `data[first..=last]` ascending
/// and moves the entries of `slave` along with them.
pub fn qsortisi(first: usize, last: usize, data: &mut [i32], slave: &mut [i32])
    requires
        first < last ==> last < old(data)@.len() && last < old(slave)@.len(),
    ensures
        final(data)@.len() == old(data)@.len(),
        final(slave)@.len() == old(slave)@.len(),
        sorted_i32(final(data)@, first as int, last as int),
        exists|p: spec_fn(int) -> int|
            #[trigger] permutes(p, first as int, last as int) && rearranged(
                final(data)@,
                old(data)@,
                p,
                first as int,
                last as int,
            ) && rearranged(
                final(slave)@,
                old(slave)@,
                p,
                first as int,
                last as int,
            ),
    decreases last - first,
{
    let ghost d0 = data@;
    let ghost slave0 = slave@;
    if first >= last {
        proof {
            lemma_id_perm(d0, first as int, last as int);
            lemma_id_perm(slave0, first as int, last as int);
        }
        return;
    }
    let mut lower: usize = first;
    let mut upper: usize = last;
    let mid: usize = first + (last - first) / 2;
    let split: i32 = data[mid];
    let ghost mut p: spec_fn(int) -> int = id_perm();
    let ghost mut lw: int = mid as int;
    let ghost mut hw: int = mid as int;
    let ghost mut first_round: bool = true;
    proof {
        lemma_id_perm(d0, first as int, last as int);
            lemma_id_perm(slave0, first as int, last as int);
    }
    loop
        invariant_except_break
            data@.len() == d0.len(),
            slave@.len() == slave0.len(),
            last < slave@.len(),
            rearranged(slave@, slave0, p, first as int, last as int),
            first < last < data@.len(),
            first <= lower <= upper <= last,
            first_round ==> lower == first && upper == last && lw == mid && hw == mid,
            !first_round ==> first < lower && upper < last,
            first <= mid < last,
            lower <= hw <= last,
            data@[hw] >= split,
            first <= lw <= upper,
            data@[lw] <= split,
            forall|k: int| first <= k < lower ==> data@[k] <= split,
            forall|k: int| upper < k <= last ==> data@[k] >= split,
            permutes(p, first as int, last as int),
            rearranged(data@, d0, p, first as int, last as int),
        ensures
            data@.len() == d0.len(),
            slave@.len() == slave0.len(),
            last < slave@.len(),
            rearranged(slave@, slave0, p, first as int, last as int),
            first < lower <= last + 1,
            upper < last,
            first <= upper + 1,
            upper < lower,
            forall|k: int| first <= k < lower ==> data@[k] <= split,
            forall|k: int| upper < k <= last ==> data@[k] >= split,
            permutes(p, first as int, last as int),
            rearranged(data@, d0, p, first as int, last as int),
        decreases upper - lower,
    {
        let ghost l0 = lower;
        let ghost u0 = upper;
        while lower < data.len() && split > data[lower]
            invariant
                data@.len() == d0.len(),
                first < last < data@.len(),
                l0 <= lower <= hw <= last,
                first <= l0,
                data@[hw] >= split,
                forall|k: int| first <= k < lower ==> data@[k] <= split,
            decreases hw - lower,
        {
            lower = lower + 1;
        }
        while upper > 0 && split < data[upper]
            invariant
                data@.len() == d0.len(),
                first < last < data@.len(),
                first <= lw <= upper <= u0 <= last,
                data@[lw] <= split,
                forall|k: int| upper < k <= last ==> data@[k] >= split,
            decreases upper - lw,
        {
            upper = upper - 1;
        }
        assert(data@[lower as int] >= split);
        assert(data@[upper as int] <= split);
        if lower == upper {
            assert(lower < last);
            if lower < data.len() - 1 {
                lower = lower + 1;
            }
            upper = upper.saturating_sub(1);
        } else if lower < upper {
            proof {
                lemma_swap_perm(data@, d0, p, first as int, last as int, lower as int, upper as int);
                lemma_swap_perm(slave@, slave0, p, first as int, last as int, lower as int, upper as int);
                p = swap_perm(p, lower as int, upper as int);
                lw = lower as int;
                hw = upper as int;
            }
            swap_entries(slave, lower, upper);
            swap_entries(data, lower, upper);
            lower = lower + 1;
            upper = upper - 1;
        }
        proof {
            first_round = false;
        }
        if lower > upper {
            break;
        }
    }
    let ghost d1 = data@;
    let ghost slave1 = slave@;
    let ghost p1 = p;
    if first < upper {
        qsortisi(first, upper, data, slave);
    }
    let ghost d2 = data@;
    let ghost slave2 = slave@;
    proof {
        let q: spec_fn(int) -> int = if first < upper {
            choose|q: spec_fn(int) -> int|
                #[trigger] permutes(q, first as int, upper as int) && rearranged(
                    d2,
                    d1,
                    q,
                    first as int,
                    upper as int,
                ) && rearranged(
                    slave2,
                    slave1,
                    q,
                    first as int,
                    upper as int,
                )
        } else {
            id_perm()
        };
        if first >= upper {
            lemma_id_perm(d1, first as int, upper as int);
            assert(d2 == d1);
            lemma_id_perm(slave1, first as int, upper as int);
            assert(slave2 == slave1);
        }
        lemma_then_perm(d2, d1, d0, p1, q, first as int, last as int, first as int, upper as int);
        lemma_then_perm(slave2, slave1, slave0, p1, q, first as int, last as int, first as int, upper as int);
        lemma_rearranged_bounds_i32(d2, d1, q, first as int, upper as int, split, true);
        p = then_perm(p1, q, first as int, upper as int);
    }
    if lower < last {
        qsortisi(lower, last, data, slave);
    }
    let ghost d3 = data@;
    let ghost slave3 = slave@;
    proof {
        let q: spec_fn(int) -> int = if lower < last {
            choose|q: spec_fn(int) -> int|
                #[trigger] permutes(q, lower as int, last as int) && rearranged(
                    d3,
                    d2,
                    q,
                    lower as int,
                    last as int,
                ) && rearranged(
                    slave3,
                    slave2,
                    q,
                    lower as int,
                    last as int,
                )
        } else {
            id_perm()
        };
        if lower >= last {
            lemma_id_perm(d2, lower as int, last as int);
            assert(d3 == d2);
            lemma_id_perm(slave2, lower as int, last as int);
            assert(slave3 == slave2);
        }
        let p2 = p;
        lemma_then_perm(d3, d2, d0, p2, q, first as int, last as int, lower as int, last as int);
        lemma_then_perm(slave3, slave2, slave0, p2, q, first as int, last as int, lower as int, last as int);
        lemma_rearranged_bounds_i32(d3, d2, q, lower as int, last as int, split, false);
        p = then_perm(p2, q, lower as int, last as int);
        assert forall|a: int, b: int| first <= a <= b <= last implies d3[a] <= d3[b] by {
            if b <= upper {
            } else if a >= lower {
            } else {
                assert(d3[a] <= split);
                assert(d3[b] >= split);
            }
        }
    }
}

/// QSORT for integers with a slave of any copyable type (doubles in the
/// statistics): sorts `data[first..=last]` ascending and moves the entries of
/// `slave` along with them.
pub fn qsortisd<T: Copy>(first: usize, last: usize, data: &mut [i32], slave: &mut [T])
    requires
        first < last ==> last < old(data)@.len() && last < old(slave)@.len(),
    ensures
        final(data)@.len() == old(data)@.len(),
        final(slave)@.len() == old(slave)@.len(),
        sorted_i32(final(data)@, first as int, last as int),
        exists|p: spec_fn(int) -> int|
            #[trigger] permutes(p, first as int, last as int) && rearranged(
                final(data)@,
                old(data)@,
                p,
                first as int,
                last as int,
            ) && rearranged(
                final(slave)@,
                old(slave)@,
                p,
                first as int,
                last as int,
            ),
    decreases last - first,
{
    let ghost d0 = data@;
    let ghost slave0 = slave@;
    if first >= last {
        proof {
            lemma_id_perm(d0, first as int, last as int);
            lemma_id_perm(slave0, first as int, last as int);
        }
        return;
    }
    let mut lower: usize = first;
    let mut upper: usize = last;
    let mid: usize = first + (last - first) / 2;
    let split: i32 = data[mid];
    let ghost mut p: spec_fn(int) -> int = id_perm();
    let ghost mut lw: int = mid as int;
    let ghost mut hw: int = mid as int;
    let ghost mut first_round: bool = true;
    proof {
        lemma_id_perm(d0, first as int, last as int);
            lemma_id_perm(slave0, first as int, last as int);
    }
    loop
        invariant_except_break
            data@.len() == d0.len(),
            slave@.len() == slave0.len(),
            last < slave@.len(),
            rearranged(slave@, slave0, p, first as int, last as int),
            first < last < data@.len(),
            first <= lower <= upper <= last,
            first_round ==> lower == first && upper == last && lw == mid && hw == mid,
            !first_round ==> first < lower && upper < last,
            first <= mid < last,
            lower <= hw <= last,
            data@[hw] >= split,
            first <= lw <= upper,
            data@[lw] <= split,
            forall|k: int| first <= k < lower ==> data@[k] <= split,
            forall|k: int| upper < k <= last ==> data@[k] >= split,
            permutes(p, first as int, last as int),
            rearranged(data@, d0, p, first as int, last as int),
        ensures
            data@.len() == d0.len(),
            slave@.len() == slave0.len(),
            last < slave@.len(),
            rearranged(slave@, slave0, p, first as int, last as int),
            first < lower <= last + 1,
            upper < last,
            first <= upper + 1,
            upper < lower,
            forall|k: int| first <= k < lower ==> data@[k] <= split,
            forall|k: int| upper < k <= last ==> data@[k] >= split,
            permutes(p, first as int, last as int),
            rearranged(data@, d0, p, first as int, last as int),
        decreases upper - lower,
    {
        let ghost l0 = lower;
        let ghost u0 = upper;
        while lower < data.len() && split > data[lower]
            invariant
                data@.len() == d0.len(),
                first < last < data@.len(),
                l0 <= lower <= hw <= last,
                first <= l0,
                data@[hw] >= split,
                forall|k: int| first <= k < lower ==> data@[k] <= split,
            decreases hw - lower,
        {
            lower = lower + 1;
        }
        while upper > 0 && split < data[upper]
            invariant
                data@.len() == d0.len(),
                first < last < data@.len(),
                first <= lw <= upper <= u0 <= last,
                data@[lw] <= split,
                forall|k: int| upper < k <= last ==> data@[k] >= split,
            decreases upper - lw,
        {
            upper = upper - 1;
        }
        assert(data@[lower as int] >= split);
        assert(data@[upper as int] <= split);
        if lower == upper {
            assert(lower < last);
            if lower < data.len() - 1 {
                lower = lower + 1;
            }
            upper = upper.saturating_sub(1);
        } else if lower < upper {
            proof {
                lemma_swap_perm(data@, d0, p, first as int, last as int, lower as int, upper as int);
                lemma_swap_perm(slave@, slave0, p, first as int, last as int, lower as int, upper as int);
                p = swap_perm(p, lower as int, upper as int);
                lw = lower as int;
                hw = upper as int;
            }
            swap_entries(slave, lower, upper);
            swap_entries(data, lower, upper);
            lower = lower + 1;
            upper = upper - 1;
        }
        proof {
            first_round = false;
        }
        if lower > upper {
            break;
        }
    }
    let ghost d1 = data@;
    let ghost slave1 = slave@;
    let ghost p1 = p;
    if first < upper {
        qsortisd(first, upper, data, slave);
    }
    let ghost d2 = data@;
    let ghost slave2 = slave@;
    proof {
        let q: spec_fn(int) -> int = if first < upper {
            choose|q: spec_fn(int) -> int|
                #[trigger] permutes(q, first as int, upper as int) && rearranged(
                    d2,
                    d1,
                    q,
                    first as int,
                    upper as int,
                ) && rearranged(
                    slave2,
                    slave1,
                    q,
                    first as int,
                    upper as int,
                )
        } else {
            id_perm()
        };
        if first >= upper {
            lemma_id_perm(d1, first as int, upper as int);
            assert(d2 == d1);
            lemma_id_perm(slave1, first as int, upper as int);
            assert(slave2 == slave1);
        }
        lemma_then_perm(d2, d1, d0, p1, q, first as int, last as int, first as int, upper as int);
        lemma_then_perm(slave2, slave1, slave0, p1, q, first as int, last as int, first as int, upper as int);
        lemma_rearranged_bounds_i32(d2, d1, q, first as int, upper as int, split, true);
        p = then_perm(p1, q, first as int, upper as int);
    }
    if lower < last {
        qsortisd(lower, last, data, slave);
    }
    let ghost d3 = data@;
    let ghost slave3 = slave@;
    proof {
        let q: spec_fn(int) -> int = if lower < last {
            choose|q: spec_fn(int) -> int|
                #[trigger] permutes(q, lower as int, last as int) && rearranged(
                    d3,
                    d2,
                    q,
                    lower as int,
                    last as int,
                ) && rearranged(
                    slave3,
                    slave2,
                    q,
                    lower as int,
                    last as int,
                )
        } else {
            id_perm()
        };
        if lower >= last {
            lemma_id_perm(d2, lower as int, last as int);
            assert(d3 == d2);
            lemma_id_perm(slave2, lower as int, last as int);
            assert(slave3 == slave2);
        }
        let p2 = p;
        lemma_then_perm(d3, d2, d0, p2, q, first as int, last as int, lower as int, last as int);
        lemma_then_perm(slave3, slave2, slave0, p2, q, first as int, last as int, lower as int, last as int);
        lemma_rearranged_bounds_i32(d3, d2, q, lower as int, last as int, split, false);
        p = then_perm(p2, q, lower as int, last as int);
        assert forall|a: int, b: int| first <= a <= b <= last implies d3[a] <= d3[b] by {
            if b <= upper {
            } else if a >= lower {
            } else {
                assert(d3[a] <= split);
                assert(d3[b] >= split);
            }
        }
    }
}

/// QSORT for integers with short int and int slaves: sorts `data[first..=last]`
/// ascending and moves the entries of both slaves along with them.
pub fn qsortissii(first: usize, last: usize, data: &mut [i32], slave1: &mut [i16], slave2: &mut [i32])
    requires
        first < last ==> last < old(data)@.len() && last < old(slave1)@.len() && last < old(slave2)@.len(),
    ensures
        final(data)@.len() == old(data)@.len(),
        final(slave1)@.len() == old(slave1)@.len(),
        final(slave2)@.len() == old(slave2)@.len(),
        sorted_i32(final(data)@, first as int, last as int),
        exists|p: spec_fn(int) -> int|
            #[trigger] permutes(p, first as int, last as int) && rearranged(
                final(data)@,
                old(data)@,
                p,
                first as int,
                last as int,
            ) && rearranged(
                final(slave1)@,
                old(slave1)@,
                p,
                first as int,
                last as int,
            ) && rearranged(
                final(slave2)@,
                old(slave2)@,
                p,
                first as int,
                last as int,
            ),
    decreases last - first,
{
    let ghost d0 = data@;
    let ghost slave10 = slave1@;
    let ghost slave20 = slave2@;
    if first >= last {
        proof {
            lemma_id_perm(d0, first as int, last as int);
            lemma_id_perm(slave10, first as int, last as int);
            lemma_id_perm(slave20, first as int, last as int);
        }
        return;
    }
    let mut lower: usize = first;
    let mut upper: usize = last;
    let mid: usize = first + (last - first) / 2;
    let split: i32 = data[mid];
    let ghost mut p: spec_fn(int) -> int = id_perm();
    let ghost mut lw: int = mid as int;
    let ghost mut hw: int = mid as int;
    let ghost mut first_round: bool = true;
    proof {
        lemma_id_perm(d0, first as int, last as int);
            lemma_id_perm(slave10, first as int, last as int);
            lemma_id_perm(slave20, first as int, last as int);
    }
    loop
        invariant_except_break
            data@.len() == d0.len(),
            slave1@.len() == slave10.len(),
            last < slave1@.len(),
            rearranged(slave1@, slave10, p, first as int, last as int),
            slave2@.len() == slave20.len(),
            last < slave2@.len(),
            rearranged(slave2@, slave20, p, first as int, last as int),
            first < last < data@.len(),
            first <= lower <= upper <= last,
            first_round ==> lower == first && upper == last && lw == mid && hw == mid,
            !first_round ==> first < lower && upper < last,
            first <= mid < last,
            lower <= hw <= last,
            data@[hw] >= split,
            first <= lw <= upper,
            data@[lw] <= split,
            forall|k: int| first <= k < lower ==> data@[k] <= split,
            forall|k: int| upper < k <= last ==> data@[k] >= split,
            permutes(p, first as int, last as int),
            rearranged(data@, d0, p, first as int, last as int),
        ensures
            data@.len() == d0.len(),
            slave1@.len() == slave10.len(),
            last < slave1@.len(),
            rearranged(slave1@, slave10, p, first as int, last as int),
            slave2@.len() == slave20.len(),
            last < slave2@.len(),
            rearranged(slave2@, slave20, p, first as int, last as int),
            first < lower <= last + 1,
            upper < last,
            first <= upper + 1,
            upper < lower,
            forall|k: int| first <= k < lower ==> data@[k] <= split,
            forall|k: int| upper < k <= last ==> data@[k] >= split,
            permutes(p, first as int, last as int),
            rearranged(data@, d0, p, first as int, last as int),
        decreases upper - lower,
    {
        let ghost l0 = lower;
        let ghost u0 = upper;
        while lower < data.len() && split > data[lower]
            invariant
                data@.len() == d0.len(),
                first < last < data@.len(),
                l0 <= lower <= hw <= last,
                first <= l0,
                data@[hw] >= split,
                forall|k: int| first <= k < lower ==> data@[k] <= split,
            decreases hw - lower,
        {
            lower = lower + 1;
        }
        while upper > 0 && split < data[upper]
            invariant
                data@.len() == d0.len(),
                first < last < data@.len(),
                first <= lw <= upper <= u0 <= last,
                data@[lw] <= split,
                forall|k: int| upper < k <= last ==> data@[k] >= split,
            decreases upper - lw,
        {
            upper = upper - 1;
        }
        assert(data@[lower as int] >= split);
        assert(data@[upper as int] <= split);
        if lower == upper {
            assert(lower < last);
            if lower < data.len() - 1 {
                lower = lower + 1;
            }
            upper = upper.saturating_sub(1);
        } else if lower < upper {
            proof {
                lemma_swap_perm(data@, d0, p, first as int, last as int, lower as int, upper as int);
                lemma_swap_perm(slave1@, slave10, p, first as int, last as int, lower as int, upper as int);
                lemma_swap_perm(slave2@, slave20, p, first as int, last as int, lower as int, upper as int);
                p = swap_perm(p, lower as int, upper as int);
                lw = lower as int;
                hw = upper as int;
            }
            swap_entries(slave1, lower, upper);
            swap_entries(slave2, lower, upper);
            swap_entries(data, lower, upper);
            lower = lower + 1;
            upper = upper - 1;
        }
        proof {
            first_round = false;
        }
        if lower > upper {
            break;
        }
    }
    let ghost d1 = data@;
    let ghost slave11 = slave1@;
    let ghost slave21 = slave2@;
    let ghost p1 = p;
    if first < upper {
        qsortissii(first, upper, data, slave1, slave2);
    }
    let ghost d2 = data@;
    let ghost slave12 = slave1@;
    let ghost slave22 = slave2@;
    proof {
        let q: spec_fn(int) -> int = if first < upper {
            choose|q: spec_fn(int) -> int|
                #[trigger] permutes(q, first as int, upper as int) && rearranged(
                    d2,
                    d1,
                    q,
                    first as int,
                    upper as int,
                ) && rearranged(
                    slave12,
                    slave11,
                    q,
                    first as int,
                    upper as int,
                ) && rearranged(
                    slave22,
                    slave21,
                    q,
                    first as int,
                    upper as int,
                )
        } else {
            id_perm()
        };
        if first >= upper {
            lemma_id_perm(d1, first as int, upper as int);
            assert(d2 == d1);
            lemma_id_perm(slave11, first as int, upper as int);
            assert(slave12 == slave11);
            lemma_id_perm(slave21, first as int, upper as int);
            assert(slave22 == slave21);
        }
        lemma_then_perm(d2, d1, d0, p1, q, first as int, last as int, first as int, upper as int);
        lemma_then_perm(slave12, slave11, slave10, p1, q, first as int, last as int, first as int, upper as int);
        lemma_then_perm(slave22, slave21, slave20, p1, q, first as int, last as int, first as int, upper as int);
        lemma_rearranged_bounds_i32(d2, d1, q, first as int, upper as int, split, true);
        p = then_perm(p1, q, first as int, upper as int);
    }
    if lower < last {
        qsortissii(lower, last, data, slave1, slave2);
    }
    let ghost d3 = data@;
    let ghost slave13 = slave1@;
    let ghost slave23 = slave2@;
    proof {
        let q: spec_fn(int) -> int = if lower < last {
            choose|q: spec_fn(int) -> int|
                #[trigger] permutes(q, lower as int, last as int) && rearranged(
                    d3,
                    d2,
                    q,
                    lower as int,
                    last as int,
                ) && rearranged(
                    slave13,
                    slave12,
                    q,
                    lower as int,
                    last as int,
                ) && rearranged(
                    slave23,
                    slave22,
                    q,
                    lower as int,
                    last as int,
                )
        } else {
            id_perm()
        };
        if lower >= last {
            lemma_id_perm(d2, lower as int, last as int);
            assert(d3 == d2);
            lemma_id_perm(slave12, lower as int, last as int);
            assert(slave13 == slave12);
            lemma_id_perm(slave22, lower as int, last as int);
            assert(slave23 == slave22);
        }
        let p2 = p;
        lemma_then_perm(d3, d2, d0, p2, q, first as int, last as int, lower as int, last as int);
        lemma_then_perm(slave13, slave12, slave10, p2, q, first as int, last as int, lower as int, last as int);
        lemma_then_perm(slave23, slave22, slave20, p2, q, first as int, last as int, lower as int, last as int);
        lemma_rearranged_bounds_i32(d3, d2, q, lower as int, last as int, split, false);
        p = then_perm(p2, q, lower as int, last as int);
        assert forall|a: int, b: int| first <= a <= b <= last implies d3[a] <= d3[b] by {
            if b <= upper {
            } else if a >= lower {
            } else {
                assert(d3[a] <= split);
                assert(d3[b] >= split);
            }
        }
    }
}

/// QSORT for u64 with short int and int slaves: sorts `data[first..=last]`
/// ascending and moves the entries of both slaves along with them.
pub fn qsort64ssii(first: usize, last: usize, data: &mut [u64], slave1: &mut [i16], slave2: &mut [i32])
    requires
        first < last ==> last < old(data)@.len() && last < old(slave1)@.len() && last < old(slave2)@.len(),
    ensures
        final(data)@.len() == old(data)@.len(),
        final(slave1)@.len() == old(slave1)@.len(),
        final(slave2)@.len() == old(slave2)@.len(),
        sorted_u64(final(data)@, first as int, last as int),
        exists|p: spec_fn(int) -> int|
            #[trigger] permutes(p, first as int, last as int) && rearranged(
                final(data)@,
                old(data)@,
                p,
                first as int,
                last as int,
            ) && rearranged(
                final(slave1)@,
                old(slave1)@,
                p,
                first as int,
                last as int,
            ) && rearranged(
                final(slave2)@,
                old(slave2)@,
                p,
                first as int,
                last as int,
            ),
    decreases last - first,
{
    let ghost d0 = data@;
    let ghost slave10 = slave1@;
    let ghost slave20 = slave2@;
    if first >= last {
        proof {
            lemma_id_perm(d0, first as int, last as int);
            lemma_id_perm(slave10, first as int, last as int);
            lemma_id_perm(slave20, first as int, last as int);
        }
        return;
    }
    let mut lower: usize = first;
    let mut upper: usize = last;
    let mid: usize = first + (last - first) / 2;
    let split: u64 = data[mid];
    let ghost mut p: spec_fn(int) -> int = id_perm();
    let ghost mut lw: int = mid as int;
    let ghost mut hw: int = mid as int;
    let ghost mut first_round: bool = true;
    proof {
        lemma_id_perm(d0, first as int, last as int);
            lemma_id_perm(slave10, first as int, last as int);
            lemma_id_perm(slave20, first as int, last as int);
    }
    loop
        invariant_except_break
            data@.len() == d0.len(),
            slave1@.len() == slave10.len(),
            last < slave1@.len(),
            rearranged(slave1@, slave10, p, first as int, last as int),
            slave2@.len() == slave20.len(),
            last < slave2@.len(),
            rearranged(slave2@, slave20, p, first as int, last as int),
            first < last < data@.len(),
            first <= lower <= upper <= last,
            first_round ==> lower == first && upper == last && lw == mid && hw == mid,
            !first_round ==> first < lower && upper < last,
            first <= mid < last,
            lower <= hw <= last,
            data@[hw] >= split,
            first <= lw <= upper,
            data@[lw] <= split,
            forall|k: int| first <= k < lower ==> data@[k] <= split,
            forall|k: int| upper < k <= last ==> data@[k] >= split,
            permutes(p, first as int, last as int),
            rearranged(data@, d0, p, first as int, last as int),
        ensures
            data@.len() == d0.len(),
            slave1@.len() == slave10.len(),
            last < slave1@.len(),
            rearranged(slave1@, slave10, p, first as int, last as int),
            slave2@.len() == slave20.len(),
            last < slave2@.len(),
            rearranged(slave2@, slave20, p, first as int, last as int),
            first < lower <= last + 1,
            upper < last,
            first <= upper + 1,
            upper < lower,
            forall|k: int| first <= k < lower ==> data@[k] <= split,
            forall|k: int| upper < k <= last ==> data@[k] >= split,
            permutes(p, first as int, last as int),
            rearranged(data@, d0, p, first as int, last as int),
        decreases upper - lower,
    {
        let ghost l0 = lower;
        let ghost u0 = upper;
        while lower < data.len() && split > data[lower]
            invariant
                data@.len() == d0.len(),
                first < last < data@.len(),
                l0 <= lower <= hw <= last,
                first <= l0,
                data@[hw] >= split,
                forall|k: int| first <= k < lower ==> data@[k] <= split,
            decreases hw - lower,
        {
            lower = lower + 1;
        }
        while upper > 0 && split < data[upper]
            invariant
                data@.len() == d0.len(),
                first < last < data@.len(),
                first <= lw <= upper <= u0 <= last,
                data@[lw] <= split,
                forall|k: int| upper < k <= last ==> data@[k] >= split,
            decreases upper - lw,
        {
            upper = upper - 1;
        }
        assert(data@[lower as int] >= split);
        assert(data@[upper as int] <= split);
        if lower == upper {
            assert(lower < last);
            if lower < data.len() - 1 {
                lower = lower + 1;
            }
            upper = upper.saturating_sub(1);
        } else if lower < upper {
            proof {
                lemma_swap_perm(data@, d0, p, first as int, last as int, lower as int, upper as int);
                lemma_swap_perm(slave1@, slave10, p, first as int, last as int, lower as int, upper as int);
                lemma_swap_perm(slave2@, slave20, p, first as int, last as int, lower as int, upper as int);
                p = swap_perm(p, lower as int, upper as int);
                lw = lower as int;
                hw = upper as int;
            }
            swap_entries(slave1, lower, upper);
            swap_entries(slave2, lower, upper);
            swap_entries(data, lower, upper);
            lower = lower + 1;
            upper = upper - 1;
        }
        proof {
            first_round = false;
        }
        if lower > upper {
            break;
        }
    }
    let ghost d1 = data@;
    let ghost slave11 = slave1@;
    let ghost slave21 = slave2@;
    let ghost p1 = p;
    if first < upper {
        qsort64ssii(first, upper, data, slave1, slave2);
    }
    let ghost d2 = data@;
    let ghost slave12 = slave1@;
    let ghost slave22 = slave2@;
    proof {
        let q: spec_fn(int) -> int = if first < upper {
            choose|q: spec_fn(int) -> int|
                #[trigger] permutes(q, first as int, upper as int) && rearranged(
                    d2,
                    d1,
                    q,
                    first as int,
                    upper as int,
                ) && rearranged(
                    slave12,
                    slave11,
                    q,
                    first as int,
                    upper as int,
                ) && rearranged(
                    slave22,
                    slave21,
                    q,
                    first as int,
                    upper as int,
                )
        } else {
            id_perm()
        };
        if first >= upper {
            lemma_id_perm(d1, first as int, upper as int);
            assert(d2 == d1);
            lemma_id_perm(slave11, first as int, upper as int);
            assert(slave12 == slave11);
            lemma_id_perm(slave21, first as int, upper as int);
            assert(slave22 == slave21);
        }
        lemma_then_perm(d2, d1, d0, p1, q, first as int, last as int, first as int, upper as int);
        lemma_then_perm(slave12, slave11, slave10, p1, q, first as int, last as int, first as int, upper as int);
        lemma_then_perm(slave22, slave21, slave20, p1, q, first as int, last as int, first as int, upper as int);
        lemma_rearranged_bounds_u64(d2, d1, q, first as int, upper as int, split, true);
        p = then_perm(p1, q, first as int, upper as int);
    }
    if lower < last {
        qsort64ssii(lower, last, data, slave1, slave2);
    }
    let ghost d3 = data@;
    let ghost slave13 = slave1@;
    let ghost slave23 = slave2@;
    proof {
        let q: spec_fn(int) -> int = if lower < last {
            choose|q: spec_fn(int) -> int|
                #[trigger] permutes(q, lower as int, last as int) && rearranged(
                    d3,
                    d2,
                    q,
                    lower as int,
                    last as int,
                ) && rearranged(
                    slave13,
                    slave12,
                    q,
                    lower as int,
                    last as int,
                ) && rearranged(
                    slave23,
                    slave22,
                    q,
                    lower as int,
                    last as int,
                )
        } else {
            id_perm()
        };
        if lower >= last {
            lemma_id_perm(d2, lower as int, last as int);
            assert(d3 == d2);
            lemma_id_perm(slave12, lower as int, last as int);
            assert(slave13 == slave12);
            lemma_id_perm(slave22, lower as int, last as int);
            assert(slave23 == slave22);
        }
        let p2 = p;
        lemma_then_perm(d3, d2, d0, p2, q, first as int, last as int, lower as int, last as int);
        lemma_then_perm(slave13, slave12, slave10, p2, q, first as int, last as int, lower as int, last as int);
        lemma_then_perm(slave23, slave22, slave20, p2, q, first as int, last as int, lower as int, last as int);
        lemma_rearranged_bounds_u64(d3, d2, q, lower as int, last as int, split, false);
        p = then_perm(p2, q, lower as int, last as int);
        assert forall|a: int, b: int| first <= a <= b <= last implies d3[a] <= d3[b] by {
            if b <= upper {
            } else if a >= lower {
            } else {
                assert(d3[a] <= split);
                assert(d3[b] >= split);
            }
        }
    }
}

/// QSORT for integers with four slaves of any copyable type (doubles in the
/// statistics): sorts `data[first..=last]` ascending and moves the entries of
/// all four slaves along with them.
pub fn qsortid4<T: Copy>(first: usize, last: usize, data: &mut [i32], slave1: &mut [T], slave2: &mut [T], slave3: &mut [T], slave4: &mut [T])
    requires
        first < last ==> last < old(data)@.len() && last < old(slave1)@.len() && last < old(slave2)@.len() && last < old(slave3)@.len() && last < old(slave4)@.len(),
    ensures
        final(data)@.len() == old(data)@.len(),
        final(slave1)@.len() == old(slave1)@.len(),
        final(slave2)@.len() == old(slave2)@.len(),
        final(slave3)@.len() == old(slave3)@.len(),
        final(slave4)@.len() == old(slave4)@.len(),
        sorted_i32(final(data)@, first as int, last as int),
        exists|p: spec_fn(int) -> int|
            #[trigger] permutes(p, first as int, last as int) && rearranged(
                final(data)@,
                old(data)@,
                p,
                first as int,
                last as int,
            ) && rearranged(
                final(slave1)@,
                old(slave1)@,
                p,
                first as int,
                last as int,
            ) && rearranged(
                final(slave2)@,
                old(slave2)@,
                p,
                first as int,
                last as int,
            ) && rearranged(
                final(slave3)@,
                old(slave3)@,
                p,
                first as int,
                last as int,
            ) && rearranged(
                final(slave4)@,
                old(slave4)@,
                p,
                first as int,
                last as int,
            ),
    decreases last - first,
{
    let ghost d0 = data@;
    let ghost slave10 = slave1@;
    let ghost slave20 = slave2@;
    let ghost slave30 = slave3@;
    let ghost slave40 = slave4@;
    if first >= last {
        proof {
            lemma_id_perm(d0, first as int, last as int);
            lemma_id_perm(slave10, first as int, last as int);
            lemma_id_perm(slave20, first as int, last as int);
            lemma_id_perm(slave30, first as int, last as int);
            lemma_id_perm(slave40, first as int, last as int);
        }
        return;
    }
    let mut lower: usize = first;
    let mut upper: usize = last;
    let mid: usize = first + (last - first) / 2;
    let split: i32 = data[mid];
    let ghost mut p: spec_fn(int) -> int = id_perm();
    let ghost mut lw: int = mid as int;
    let ghost mut hw: int = mid as int;
    let ghost mut first_round: bool = true;
    proof {
        lemma_id_perm(d0, first as int, last as int);
            lemma_id_perm(slave10, first as int, last as int);
            lemma_id_perm(slave20, first as int, last as int);
            lemma_id_perm(slave30, first as int, last as int);
            lemma_id_perm(slave40, first as int, last as int);
    }
    loop
        invariant_except_break
            data@.len() == d0.len(),
            slave1@.len() == slave10.len(),
            last < slave1@.len(),
            rearranged(slave1@, slave10, p, first as int, last as int),
            slave2@.len() == slave20.len(),
            last < slave2@.len(),
            rearranged(slave2@, slave20, p, first as int, last as int),
            slave3@.len() == slave30.len(),
            last < slave3@.len(),
            rearranged(slave3@, slave30, p, first as int, last as int),
            slave4@.len() == slave40.len(),
            last < slave4@.len(),
            rearranged(slave4@, slave40, p, first as int, last as int),
            first < last < data@.len(),
            first <= lower <= upper <= last,
            first_round ==> lower == first && upper == last && lw == mid && hw == mid,
            !first_round ==> first < lower && upper < last,
            first <= mid < last,
            lower <= hw <= last,
            data@[hw] >= split,
            first <= lw <= upper,
            data@[lw] <= split,
            forall|k: int| first <= k < lower ==> data@[k] <= split,
            forall|k: int| upper < k <= last ==> data@[k] >= split,
            permutes(p, first as int, last as int),
            rearranged(data@, d0, p, first as int, last as int),
        ensures
            data@.len() == d0.len(),
            slave1@.len() == slave10.len(),
            last < slave1@.len(),
            rearranged(slave1@, slave10, p, first as int, last as int),
            slave2@.len() == slave20.len(),
            last < slave2@.len(),
            rearranged(slave2@, slave20, p, first as int, last as int),
            slave3@.len() == slave30.len(),
            last < slave3@.len(),
            rearranged(slave3@, slave30, p, first as int, last as int),
            slave4@.len() == slave40.len(),
            last < slave4@.len(),
            rearranged(slave4@, slave40, p, first as int, last as int),
            first < lower <= last + 1,
            upper < last,
            first <= upper + 1,
            upper < lower,
            forall|k: int| first <= k < lower ==> data@[k] <= split,
            forall|k: int| upper < k <= last ==> data@[k] >= split,
            permutes(p, first as int, last as int),
            rearranged(data@, d0, p, first as int, last as int),
        decreases upper - lower,
    {
        let ghost l0 = lower;
        let ghost u0 = upper;
        while lower < data.len() && split > data[lower]
            invariant
                data@.len() == d0.len(),
                first < last < data@.len(),
                l0 <= lower <= hw <= last,
                first <= l0,
                data@[hw] >= split,
                forall|k: int| first <= k < lower ==> data@[k] <= split,
            decreases hw - lower,
        {
            lower = lower + 1;
        }
        while upper > 0 && split < data[upper]
            invariant
                data@.len() == d0.len(),
                first < last < data@.len(),
                first <= lw <= upper <= u0 <= last,
                data@[lw] <= split,
                forall|k: int| upper < k <= last ==> data@[k] >= split,
            decreases upper - lw,
        {
            upper = upper - 1;
        }
        assert(data@[lower as int] >= split);
        assert(data@[upper as int] <= split);
        if lower == upper {
            assert(lower < last);
            if lower < data.len() - 1 {
                lower = lower + 1;
            }
            upper = upper.saturating_sub(1);
        } else if lower < upper {
            proof {
                lemma_swap_perm(data@, d0, p, first as int, last as int, lower as int, upper as int);
                lemma_swap_perm(slave1@, slave10, p, first as int, last as int, lower as int, upper as int);
                lemma_swap_perm(slave2@, slave20, p, first as int, last as int, lower as int, upper as int);
                lemma_swap_perm(slave3@, slave30, p, first as int, last as int, lower as int, upper as int);
                lemma_swap_perm(slave4@, slave40, p, first as int, last as int, lower as int, upper as int);
                p = swap_perm(p, lower as int, upper as int);
                lw = lower as int;
                hw = upper as int;
            }
            swap_entries(slave1, lower, upper);
            swap_entries(slave2, lower, upper);
            swap_entries(slave3, lower, upper);
            swap_entries(slave4, lower, upper);
            swap_entries(data, lower, upper);
            lower = lower + 1;
            upper = upper - 1;
        }
        proof {
            first_round = false;
        }
        if lower > upper {
            break;
        }
    }
    let ghost d1 = data@;
    let ghost slave11 = slave1@;
    let ghost slave21 = slave2@;
    let ghost slave31 = slave3@;
    let ghost slave41 = slave4@;
    let ghost p1 = p;
    if first < upper {
        qsortid4(first, upper, data, slave1, slave2, slave3, slave4);
    }
    let ghost d2 = data@;
    let ghost slave12 = slave1@;
    let ghost slave22 = slave2@;
    let ghost slave32 = slave3@;
    let ghost slave42 = slave4@;
    proof {
        let q: spec_fn(int) -> int = if first < upper {
            choose|q: spec_fn(int) -> int|
                #[trigger] permutes(q, first as int, upper as int) && rearranged(
                    d2,
                    d1,
                    q,
                    first as int,
                    upper as int,
                ) && rearranged(
                    slave12,
                    slave11,
                    q,
                    first as int,
                    upper as int,
                ) && rearranged(
                    slave22,
                    slave21,
                    q,
                    first as int,
                    upper as int,
                ) && rearranged(
                    slave32,
                    slave31,
                    q,
                    first as int,
                    upper as int,
                ) && rearranged(
                    slave42,
                    slave41,
                    q,
                    first as int,
                    upper as int,
                )
        } else {
            id_perm()
        };
        if first >= upper {
            lemma_id_perm(d1, first as int, upper as int);
            assert(d2 == d1);
            lemma_id_perm(slave11, first as int, upper as int);
            assert(slave12 == slave11);
            lemma_id_perm(slave21, first as int, upper as int);
            assert(slave22 == slave21);
            lemma_id_perm(slave31, first as int, upper as int);
            assert(slave32 == slave31);
            lemma_id_perm(slave41, first as int, upper as int);
            assert(slave42 == slave41);
        }
        lemma_then_perm(d2, d1, d0, p1, q, first as int, last as int, first as int, upper as int);
        lemma_then_perm(slave12, slave11, slave10, p1, q, first as int, last as int, first as int, upper as int);
        lemma_then_perm(slave22, slave21, slave20, p1, q, first as int, last as int, first as int, upper as int);
        lemma_then_perm(slave32, slave31, slave30, p1, q, first as int, last as int, first as int, upper as int);
        lemma_then_perm(slave42, slave41, slave40, p1, q, first as int, last as int, first as int, upper as int);
        lemma_rearranged_bounds_i32(d2, d1, q, first as int, upper as int, split, true);
        p = then_perm(p1, q, first as int, upper as int);
    }
    if lower < last {
        qsortid4(lower, last, data, slave1, slave2, slave3, slave4);
    }
    let ghost d3 = data@;
    let ghost slave13 = slave1@;
    let ghost slave23 = slave2@;
    let ghost slave33 = slave3@;
    let ghost slave43 = slave4@;
    proof {
        let q: spec_fn(int) -> int = if lower < last {
            choose|q: spec_fn(int) -> int|
                #[trigger] permutes(q, lower as int, last as int) && rearranged(
                    d3,
                    d2,
                    q,
                    lower as int,
                    last as int,
                ) && rearranged(
                    slave13,
                    slave12,
                    q,
                    lower as int,
                    last as int,
                ) && rearranged(
                    slave23,
                    slave22,
                    q,
                    lower as int,
                    last as int,
                ) && rearranged(
                    slave33,
                    slave32,
                    q,
                    lower as int,
                    last as int,
                ) && rearranged(
                    slave43,
                    slave42,
                    q,
                    lower as int,
                    last as int,
                )
        } else {
            id_perm()
        };
        if lower >= last {
            lemma_id_perm(d2, lower as int, last as int);
            assert(d3 == d2);
            lemma_id_perm(slave12, lower as int, last as int);
            assert(slave13 == slave12);
            lemma_id_perm(slave22, lower as int, last as int);
            assert(slave23 == slave22);
            lemma_id_perm(slave32, lower as int, last as int);
            assert(slave33 == slave32);
            lemma_id_perm(slave42, lower as int, last as int);
            assert(slave43 == slave42);
        }
        let p2 = p;
        lemma_then_perm(d3, d2, d0, p2, q, first as int, last as int, lower as int, last as int);
        lemma_then_perm(slave13, slave12, slave10, p2, q, first as int, last as int, lower as int, last as int);
        lemma_then_perm(slave23, slave22, slave20, p2, q, first as int, last as int, lower as int, last as int);
        lemma_then_perm(slave33, slave32, slave30, p2, q, first as int, last as int, lower as int, last as int);
        lemma_then_perm(slave43, slave42, slave40, p2, q, first as int, last as int, lower as int, last as int);
        lemma_rearranged_bounds_i32(d3, d2, q, lower as int, last as int, split, false);
        p = then_perm(p2, q, lower as int, last as int);
        assert forall|a: int, b: int| first <= a <= b <= last implies d3[a] <= d3[b] by {
            if b <= upper {
            } else if a >= lower {
            } else {
                assert(d3[a] <= split);
                assert(d3[b] >= split);
            }
        }
    }
}

} // verus!
