//! Where a price history is cut into a training part and a test part.
use vstd::prelude::*;

verus! {

/// The number of prices a split needs: `max_lookback` prices of history,
/// `n_test` test prices, and one more for the last target return.
pub open spec fn prices_needed(max_lookback: int, n_test: int) -> int {
    max_lookback + n_test + 1
}

/// The cut points of a split of `len` prices: the training part is
/// `0..train_end` and the test part `test_start..len`, where `train_end`
/// leaves the last `n_test` prices out and `test_start` starts
/// `max_lookback + 1` prices before `train_end`, so that the test part has
/// `max_lookback` prices of history plus `n_test + 1` prices for its targets.
/// `Err` carries the number of prices needed when there are fewer.
pub fn split_bounds(len: usize, max_lookback: usize, n_test: usize) -> (cut: Result<
    (usize, usize),
    usize,
>)
    requires
        prices_needed(max_lookback as int, n_test as int) <= usize::MAX,
    ensures
        len < prices_needed(max_lookback as int, n_test as int) ==> cut == Err::<(usize, usize), usize>(
            (max_lookback + n_test + 1) as usize,
        ),
        len >= prices_needed(max_lookback as int, n_test as int) ==> cut == Ok::<(usize, usize), usize>(
            ((len - n_test) as usize, (len - n_test - max_lookback - 1) as usize),
        ),
{
    let total_needed = max_lookback + n_test + 1;
    if len < total_needed {
        return Err(total_needed);
    }
    let n_train = len - max_lookback - n_test - 1;
    let train_end = max_lookback + n_train + 1;
    let test_start = train_end - max_lookback - 1;
    Ok((train_end, test_start))
}

} // verus!
