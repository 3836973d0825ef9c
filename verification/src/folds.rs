//! The folds of the cross validation of the elastic net: which cases each
//! fold trains on and which it holds out, the cases taken circularly.
use vstd::prelude::*;

verus! {

/// One fold over `n` cases taken circularly: it trains on the `n_is` cases
/// from case `i_is` on and holds out the `n_oos` cases from case `i_oos` on.
#[derive(Debug, Clone, Copy, PartialEq, Eq)]
pub struct Fold {
    pub i_is: usize,
    pub n_is: usize,
    pub i_oos: usize,
    pub n_oos: usize,
}

/// Before fold `f` of `nfolds` over `n` cases: the number of cases the
/// earlier folds held out, and the first training case of fold `f`, which
/// moves on by the number held out by each fold.
pub open spec fn fold_start(n: int, nfolds: int, f: int) -> (int, int)
    decreases f,
{
    if f <= 0 {
        (0, 0)
    } else {
        let (done, i_is) = fold_start(n, nfolds, f - 1);
        let n_oos = (n - done) / (nfolds - (f - 1));
        (done + n_oos, (i_is + n_oos) % n)
    }
}

/// The number of cases fold `f` holds out: the cases not yet held out,
/// shared among the folds that remain (rounded down).
pub open spec fn oos_count(n: int, nfolds: int, f: int) -> int {
    (n - fold_start(n, nfolds, f).0) / (nfolds - f)
}

/// Fold `f` of `nfolds` over `n` cases: it trains on all but the
/// `oos_count` cases it holds out, and the held-out cases follow the
/// training cases.
pub open spec fn fold_spec(n: int, nfolds: int, f: int) -> Fold {
    let i_is = fold_start(n, nfolds, f).1;
    let n_oos = oos_count(n, nfolds, f);
    Fold {
        i_is: i_is as usize,
        n_is: (n - n_oos) as usize,
        i_oos: ((i_is + n - n_oos) % n) as usize,
        n_oos: n_oos as usize,
    }
}

/// Whether case `c` lies among the `len` cases from case `start` on,
/// counted circularly over `n` cases.
pub open spec fn in_circular_run(n: int, start: int, len: int, c: int) -> bool {
    (c - start) % n < len
}

/// Whether fold `f` holds out case `c`: the held-out cases follow the
/// training cases.
pub open spec fn held_out(n: int, nfolds: int, f: int, c: int) -> bool {
    let n_oos = oos_count(n, nfolds, f);
    in_circular_run(n, (fold_start(n, nfolds, f).1 + n - n_oos) % n, n_oos, c)
}

/// Whether fold `f` trains on case `c`.
pub open spec fn trained_on(n: int, nfolds: int, f: int, c: int) -> bool {
    in_circular_run(n, fold_start(n, nfolds, f).1, n - oos_count(n, nfolds, f), c)
}

/// The earlier folds held out at most `n` cases, and the first training
/// case of every fold is a case.
proof fn lemma_fold_start_bounds(n: int, nfolds: int, f: int)
    requires
        n >= 1,
        0 <= f <= nfolds,
    ensures
        0 <= fold_start(n, nfolds, f).0 <= n,
        0 <= fold_start(n, nfolds, f).1 < n,
    decreases f,
{
    if f > 0 {
        lemma_fold_start_bounds(n, nfolds, f - 1);
        let (done, i_is) = fold_start(n, nfolds, f - 1);
        let d = nfolds - (f - 1);
        assert((n - done) / d <= n - done) by (nonlinear_arith)
            requires
                n - done >= 0,
                d >= 1,
        ;
        assert((n - done) / d >= 0) by (nonlinear_arith)
            requires
                n - done >= 0,
                d >= 1,
        ;
    }
}

/// The folds of a cross validation with `nfolds` folds over `n` cases, in
/// the order in which they are trained.
pub fn fold_schedule(n: usize, nfolds: usize) -> (folds: Vec<Fold>)
    requires
        nfolds >= 1 ==> n >= 1,
    ensures
        folds@.len() == nfolds,
        forall|f: int| 0 <= f < nfolds ==> #[trigger] folds@[f] == fold_spec(n as int, nfolds as int, f),
{
    let mut folds: Vec<Fold> = Vec::new();
    let mut i_is: usize = 0;
    let mut n_done: usize = 0;
    let mut ifold: usize = 0;
    while ifold < nfolds
        invariant
            nfolds >= 1 ==> n >= 1,
            ifold <= nfolds,
            folds@.len() == ifold,
            fold_start(n as int, nfolds as int, ifold as int) == (n_done as int, i_is as int),
            forall|f: int| 0 <= f < ifold ==> #[trigger] folds@[f] == fold_spec(n as int, nfolds as int, f),
        decreases nfolds - ifold,
    {
        proof {
            lemma_fold_start_bounds(n as int, nfolds as int, ifold as int);
            lemma_fold_start_bounds(n as int, nfolds as int, ifold + 1);
        }
        let n_oos: usize = (n - n_done) / (nfolds - ifold);
        assert(n_oos <= n - n_done) by (nonlinear_arith)
            requires
                n_oos == (n - n_done) / (nfolds - ifold) as int,
                n - n_done >= 0,
                nfolds - ifold >= 1,
        ;
        let n_is: usize = n - n_oos;
        // (i_is + n_is) % n, computed without leaving the range of usize
        let i_oos: usize = if i_is >= n - n_is {
            i_is - (n - n_is)
        } else {
            i_is + n_is
        };
        proof {
            let a = i_is + n_is;
            if i_is >= n - n_is {
                vstd::arithmetic::div_mod::lemma_fundamental_div_mod_converse(a, n as int, 1, a - n);
            } else {
                vstd::arithmetic::div_mod::lemma_small_mod(a as nat, n as nat);
            }
            assert(i_oos == (i_is + n - n_oos) % (n as int));
        }
        folds.push(Fold { i_is, n_is, i_oos, n_oos });
        n_done = n_done + n_oos;
        let next_start: usize = if i_is >= n - n_oos {
            i_is - (n - n_oos)
        } else {
            i_is + n_oos
        };
        proof {
            let a = i_is + n_oos;
            if i_is >= n - n_oos {
                vstd::arithmetic::div_mod::lemma_fundamental_div_mod_converse(a, n as int, 1, a - n);
            } else {
                vstd::arithmetic::div_mod::lemma_small_mod(a as nat, n as nat);
            }
        }
        i_is = next_start;
        ifold = ifold + 1;
        assert(folds@[ifold - 1] == fold_spec(n as int, nfolds as int, ifold - 1));
    }
    folds
}

/// Law: every fold trains on exactly the cases it does not hold out.
pub proof fn lemma_fold_trains_on_the_rest(n: usize, nfolds: usize, f: int, c: int)
    requires
        n >= 1,
        0 <= f < nfolds,
        0 <= c < n,
    ensures
        trained_on(n as int, nfolds as int, f, c) != held_out(n as int, nfolds as int, f, c),
{
    let n = n as int;
    let nfolds = nfolds as int;
    lemma_fold_start_bounds(n, nfolds, f);
    let (done, i) = fold_start(n, nfolds, f);
    let o = oos_count(n, nfolds, f);
    assert(0 <= o <= n - done) by (nonlinear_arith)
        requires
            o == (n - done) / (nfolds - f),
            n - done >= 0,
            nfolds - f >= 1,
    ;
    // the start of the held-out run
    let s = i + n - o;
    let i_oos = s % n;
    if i >= o {
        vstd::arithmetic::div_mod::lemma_fundamental_div_mod_converse(s, n, 1, i - o);
    } else {
        vstd::arithmetic::div_mod::lemma_fundamental_div_mod_converse(s, n, 0, s);
    }
    assert(i_oos == if i >= o { i - o } else { s });
    // the position of `c` in the training run, and in the held-out run
    let t = (c - i) % n;
    let u = (c - i_oos) % n;
    if c >= i {
        vstd::arithmetic::div_mod::lemma_fundamental_div_mod_converse(c - i, n, 0, c - i);
    } else {
        vstd::arithmetic::div_mod::lemma_fundamental_div_mod_converse(c - i, n, -1, c - i + n);
    }
    assert(0 <= t < n);
    // c - i_oos is t + o minus a multiple of n
    let x = c - i_oos;
    let k: int = if i >= o {
        if c >= i { 0 } else { -1 }
    } else {
        if c >= i { -1 } else { -2 }
    };
    assert(x == t + o + k * n) by (nonlinear_arith)
        requires
            x == c - i_oos,
            i_oos == if i >= o { i - o } else { i + n - o },
            t == if c >= i { c - i } else { c - i + n },
            k == if i >= o {
                if c >= i { 0int } else { -1int }
            } else {
                if c >= i { -1int } else { -2int }
            },
    ;
    if t + o < n {
        vstd::arithmetic::div_mod::lemma_fundamental_div_mod_converse(x, n, k, t + o);
        assert(u == t + o);
    } else {
        vstd::arithmetic::div_mod::lemma_fundamental_div_mod_converse(x, n, k + 1, t + o - n);
        assert(u == t + o - n);
    }
}

/// When `nfolds` divides `n`, every fold holds out `n / nfolds` cases, and
/// fold `f` trains from case `f * (n / nfolds)` on.
proof fn lemma_even_folds(n: int, nfolds: int, f: int)
    requires
        n >= 1,
        nfolds >= 1,
        n % nfolds == 0,
        0 <= f < nfolds,
    ensures
        fold_start(n, nfolds, f) == (f * (n / nfolds), f * (n / nfolds)),
        oos_count(n, nfolds, f) == n / nfolds,
        f * (n / nfolds) + n / nfolds <= n,
    decreases f,
{
    let q = n / nfolds;
    vstd::arithmetic::div_mod::lemma_fundamental_div_mod(n, nfolds);
    assert(n == nfolds * q);
    assert(q >= 1) by (nonlinear_arith)
        requires
            n == nfolds * q,
            n >= 1,
            nfolds >= 1,
    ;
    assert(f * q + q <= n) by (nonlinear_arith)
        requires
            n == nfolds * q,
            f < nfolds,
            q >= 1,
    ;
    assert(f * q >= 0) by (nonlinear_arith)
        requires
            f >= 0,
            q >= 1,
    ;
    if f > 0 {
        lemma_even_folds(n, nfolds, f - 1);
        assert(fold_start(n, nfolds, f - 1) == ((f - 1) * q, (f - 1) * q));
        assert(oos_count(n, nfolds, f - 1) == q);
        assert((f - 1) * q + q == f * q) by (nonlinear_arith);
        vstd::arithmetic::div_mod::lemma_fundamental_div_mod_converse(f * q, n, 0, f * q);
        assert(fold_start(n, nfolds, f) == (f * q, f * q));
    } else {
        assert(f * q == 0) by (nonlinear_arith)
            requires
                f == 0,
        ;
    }
    let rest = nfolds - f;
    assert(n - f * q == q * rest) by (nonlinear_arith)
        requires
            n == nfolds * q,
            rest == nfolds - f,
    ;
    vstd::arithmetic::div_mod::lemma_fundamental_div_mod_converse(n - f * q, rest, q, 0);
}

/// Law: when `nfolds` divides the number of cases, the folds split the
/// cases: every case is held out by exactly one fold.
pub proof fn lemma_folds_partition_cases(n: usize, nfolds: usize, c: int)
    requires
        n >= 1,
        nfolds >= 1,
        n % nfolds == 0,
        0 <= c < n,
    ensures
        exists|f: int| 0 <= f < nfolds && held_out(n as int, nfolds as int, f, c),
        forall|f: int, g: int|
            0 <= f < nfolds && 0 <= g < nfolds && held_out(n as int, nfolds as int, f, c) && held_out(
                n as int,
                nfolds as int,
                g,
                c,
            ) ==> f == g,
{
    let n = n as int;
    let nfolds = nfolds as int;
    let q = n / nfolds;
    assert forall|f: int| 0 <= f < nfolds implies (#[trigger] held_out(n, nfolds, f, c) <==> oos_block(nfolds, f) == c / q) by {
        lemma_held_out_block(n, nfolds, f, c);
    }
    lemma_held_out_block(n, nfolds, 0, c);
    let k = c / q;
    let f = if k == nfolds - 1 { 0 } else { k + 1 };
    assert(0 <= k < nfolds) by {
        vstd::arithmetic::div_mod::lemma_fundamental_div_mod(n, nfolds);
        vstd::arithmetic::div_mod::lemma_fundamental_div_mod(c, q);
        assert(0 <= k < nfolds) by (nonlinear_arith)
            requires
                n == nfolds * q,
                c == q * k + c % q,
                0 <= c % q < q,
                0 <= c < n,
                q >= 1,
        ;
    }
    assert(oos_block(nfolds, f) == k);
    assert(held_out(n, nfolds, f, c));
}

/// The block of `n / nfolds` cases that fold `f` holds out when the folds
/// are even: the last block for the first fold, block `f - 1` for the others.
pub open spec fn oos_block(nfolds: int, f: int) -> int {
    if f == 0 {
        nfolds - 1
    } else {
        f - 1
    }
}

/// With even folds, fold `f` holds out case `c` exactly when `c` lies in
/// block `oos_block(nfolds, f)`.
proof fn lemma_held_out_block(n: int, nfolds: int, f: int, c: int)
    requires
        n >= 1,
        nfolds >= 1,
        n % nfolds == 0,
        0 <= f < nfolds,
        0 <= c < n,
    ensures
        n / nfolds >= 1,
        held_out(n, nfolds, f, c) <==> oos_block(nfolds, f) == c / (n / nfolds),
{
    let q = n / nfolds;
    lemma_even_folds(n, nfolds, f);
    vstd::arithmetic::div_mod::lemma_fundamental_div_mod(n, nfolds);
    assert(q >= 1) by (nonlinear_arith)
        requires
            n == nfolds * q,
            n >= 1,
            nfolds >= 1,
    ;
    let b = oos_block(nfolds, f);
    let start = b * q;
    let s = f * q + n - q;
    // the held-out run starts at block b
    if f == 0 {
        assert(s == start) by (nonlinear_arith)
            requires
                n == nfolds * q,
                b == nfolds - 1,
                s == f * q + n - q,
                f == 0,
                start == b * q,
        ;
        assert(start + q == n) by (nonlinear_arith)
            requires
                n == nfolds * q,
                b == nfolds - 1,
                start == b * q,
        ;
        vstd::arithmetic::div_mod::lemma_fundamental_div_mod_converse(s, n, 0, start);
    } else {
        assert(s == start + n) by (nonlinear_arith)
            requires
                b == f - 1,
                s == f * q + n - q,
                start == b * q,
        ;
        assert(start + q <= n) by (nonlinear_arith)
            requires
                n == nfolds * q,
                b == f - 1,
                f < nfolds,
                start == b * q,
                q >= 1,
        ;
        vstd::arithmetic::div_mod::lemma_fundamental_div_mod_converse(s, n, 1, start);
    }
    assert(start + q <= n);
    assert(s % n == start);
    // within the run exactly when c is in [start, start + q)
    if c >= start {
        vstd::arithmetic::div_mod::lemma_fundamental_div_mod_converse(c - start, n, 0, c - start);
    } else {
        vstd::arithmetic::div_mod::lemma_fundamental_div_mod_converse(c - start, n, -1, c - start + n);
    }
    assert(held_out(n, nfolds, f, c) <==> start <= c < start + q);
    // and that is the block of c
    vstd::arithmetic::div_mod::lemma_fundamental_div_mod(c, q);
    let k = c / q;
    assert(start <= c < start + q <==> b == k) by (nonlinear_arith)
        requires
            c == q * k + c % q,
            0 <= c % q < q,
            start == b * q,
            q >= 1,
    ;
}

} // verus!
