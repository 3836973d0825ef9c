//! Counts of a contingency table (rows of integer cell counts): the margins
//! and the cell and margin maxima that the chi-square, lambda and
//! uncertainty-reduction statistics are computed from.
use vstd::prelude::*;

verus! {

/// The sum of the first `k` entries of a row.
pub open spec fn row_sum(row: Seq<i32>, k: int) -> int
    decreases k,
{
    if k <= 0 {
        0
    } else {
        row_sum(row, k - 1) + row[k - 1]
    }
}

/// Entry `j` of a row, or 0 when the row is shorter.
pub open spec fn cell_or_zero(row: Seq<i32>, j: int) -> int {
    if 0 <= j < row.len() {
        row[j] as int
    } else {
        0
    }
}

/// The sum of column `j` over the first `k` rows.
pub open spec fn col_sum(rows: Seq<Vec<i32>>, j: int, k: int) -> int
    decreases k,
{
    if k <= 0 {
        0
    } else {
        col_sum(rows, j, k - 1) + cell_or_zero(rows[k - 1]@, j)
    }
}

/// The sum of all the entries of the first `k` rows.
pub open spec fn table_sum(rows: Seq<Vec<i32>>, k: int) -> int
    decreases k,
{
    if k <= 0 {
        0
    } else {
        table_sum(rows, k - 1) + row_sum(rows[k - 1]@, rows[k - 1]@.len() as int)
    }
}

/// The number of columns: the length of the first row, 0 without rows.
pub open spec fn n_cols(rows: Seq<Vec<i32>>) -> int {
    if rows.len() > 0 {
        rows[0]@.len() as int
    } else {
        0
    }
}

/// The number of cells of the first `k` rows.
pub open spec fn n_cells(rows: Seq<Vec<i32>>, k: int) -> int
    decreases k,
{
    if k <= 0 {
        0
    } else {
        n_cells(rows, k - 1) + rows[k - 1]@.len()
    }
}

/// A partial row sum over `k` entries lies within `k` times the range of an i32.
proof fn lemma_row_sum_bound(row: Seq<i32>, k: int)
    requires
        0 <= k <= row.len(),
    ensures
        k * i32::MIN <= row_sum(row, k) <= k * i32::MAX,
    decreases k,
{
    if k > 0 {
        lemma_row_sum_bound(row, k - 1);
    }
}

/// A partial column sum over `k` rows lies within `k` times the range of an i32.
proof fn lemma_col_sum_bound(rows: Seq<Vec<i32>>, j: int, k: int)
    requires
        0 <= k <= rows.len(),
    ensures
        k * i32::MIN <= col_sum(rows, j, k) <= k * i32::MAX,
    decreases k,
{
    if k > 0 {
        lemma_col_sum_bound(rows, j, k - 1);
    }
}

/// A partial table sum lies within the number of cells times the range of an i32.
proof fn lemma_table_sum_bound(rows: Seq<Vec<i32>>, k: int)
    requires
        0 <= k <= rows.len(),
    ensures
        n_cells(rows, k) >= 0,
        n_cells(rows, k) * i32::MIN <= table_sum(rows, k) <= n_cells(rows, k) * i32::MAX,
    decreases k,
{
    if k > 0 {
        lemma_table_sum_bound(rows, k - 1);
        lemma_row_sum_bound(rows[k - 1]@, rows[k - 1]@.len() as int);
        let n = rows[k - 1]@.len() as int;
        let m = n_cells(rows, k - 1);
        assert(m * i32::MIN + n * i32::MIN == (m + n) * i32::MIN) by (nonlinear_arith);
        assert(m * i32::MAX + n * i32::MAX == (m + n) * i32::MAX) by (nonlinear_arith);
    }
}

/// The row margins, the column margins and the total of a contingency table.
/// Row `i` may be shorter than the first row; its missing cells count as 0.
pub fn contingency_margins(data: &[Vec<i32>]) -> (margins: (Vec<i64>, Vec<i64>, i64))
    requires
        forall|i: int| 0 <= i < data@.len() ==> #[trigger] data@[i]@.len() <= n_cols(data@),
        n_cells(data@, data@.len() as int) <= 0x1_0000_0000,
        data@.len() <= 0x1_0000_0000,
    ensures
        margins.0@.len() == data@.len(),
        margins.1@.len() == n_cols(data@),
        forall|i: int|
            0 <= i < data@.len() ==> #[trigger] margins.0@[i] == row_sum(
                data@[i]@,
                data@[i]@.len() as int,
            ),
        forall|j: int|
            0 <= j < n_cols(data@) ==> #[trigger] margins.1@[j] == col_sum(
                data@,
                j,
                data@.len() as int,
            ),
        margins.2 == table_sum(data@, data@.len() as int),
{
    let nrows = data.len();
    let ncols = if nrows > 0 {
        data[0].len()
    } else {
        0
    };
    let mut row_margins: Vec<i64> = Vec::new();
    let mut col_margins: Vec<i64> = Vec::new();
    let mut j: usize = 0;
    while j < ncols
        invariant
            ncols == n_cols(data@),
            j <= ncols,
            col_margins@.len() == j,
            forall|c: int| 0 <= c < j ==> #[trigger] col_margins@[c] == 0,
        decreases ncols - j,
    {
        col_margins.push(0);
        j = j + 1;
    }
    let mut total: i64 = 0;
    let mut i: usize = 0;
    while i < nrows
        invariant
            nrows == data@.len(),
            ncols == n_cols(data@),
            i <= nrows,
            forall|r: int| 0 <= r < data@.len() ==> #[trigger] data@[r]@.len() <= n_cols(data@),
            n_cells(data@, data@.len() as int) <= 0x1_0000_0000,
            nrows <= 0x1_0000_0000,
            row_margins@.len() == i,
            col_margins@.len() == ncols,
            forall|r: int|
                0 <= r < i ==> #[trigger] row_margins@[r] == row_sum(data@[r]@, data@[r]@.len() as int),
            forall|c: int| 0 <= c < ncols ==> #[trigger] col_margins@[c] == col_sum(data@, c, i as int),
            total == table_sum(data@, i as int),
        decreases nrows - i,
    {
        let row = &data[i];
        let len = row.len();
        let mut rsum: i64 = 0;
        let mut k: usize = 0;
        proof {
            lemma_cells_monotone(data@, i as int + 1, data@.len() as int);
            lemma_table_sum_bound(data@, i as int);
            lemma_cells_monotone(data@, i as int, data@.len() as int);
        }
        while k < len
            invariant
                nrows == data@.len(),
                ncols == n_cols(data@),
                i < nrows,
                nrows <= 0x1_0000_0000,
                row@ == data@[i as int]@,
                len == row@.len(),
                len <= ncols,
                k <= len,
                col_margins@.len() == ncols,
                rsum == row_sum(row@, k as int),
                n_cells(data@, i as int + 1) <= 0x1_0000_0000,
                n_cells(data@, i as int + 1) == n_cells(data@, i as int) + len,
                n_cells(data@, i as int) * i32::MIN <= table_sum(data@, i as int) <= n_cells(
                    data@,
                    i as int,
                ) * i32::MAX,
                n_cells(data@, i as int) >= 0,
                total == table_sum(data@, i as int) + rsum,
                forall|c: int|
                    0 <= c < k ==> #[trigger] col_margins@[c] == col_sum(data@, c, i as int + 1),
                forall|c: int|
                    k <= c < ncols ==> #[trigger] col_margins@[c] == col_sum(data@, c, i as int),
            decreases len - k,
        {
            proof {
                lemma_row_sum_bound(row@, k as int);
                lemma_col_sum_bound(data@, k as int, i as int);
                assert((n_cells(data@, i as int) + k) * i32::MIN <= table_sum(data@, i as int) + rsum)
                    by (nonlinear_arith)
                    requires
                        n_cells(data@, i as int) * i32::MIN <= table_sum(data@, i as int),
                        k * i32::MIN <= rsum,
                ;
                assert(table_sum(data@, i as int) + rsum <= (n_cells(data@, i as int) + k) * i32::MAX)
                    by (nonlinear_arith)
                    requires
                        table_sum(data@, i as int) <= n_cells(data@, i as int) * i32::MAX,
                        rsum <= k * i32::MAX,
                ;
                assert((n_cells(data@, i as int) + k) * i32::MIN >= 0x1_0000_0000 * i32::MIN)
                    by (nonlinear_arith)
                    requires
                        0 <= n_cells(data@, i as int) + k <= 0x1_0000_0000,
                ;
                assert((n_cells(data@, i as int) + k) * i32::MAX <= 0x1_0000_0000 * i32::MAX)
                    by (nonlinear_arith)
                    requires
                        0 <= n_cells(data@, i as int) + k <= 0x1_0000_0000,
                ;
                assert(i * i32::MIN >= 0x1_0000_0000 * i32::MIN) by (nonlinear_arith)
                    requires
                        0 <= i <= 0x1_0000_0000,
                ;
                assert(i * i32::MAX <= 0x1_0000_0000 * i32::MAX) by (nonlinear_arith)
                    requires
                        0 <= i <= 0x1_0000_0000,
                ;
                assert(k * i32::MIN >= 0x1_0000_0000 * i32::MIN) by (nonlinear_arith)
                    requires
                        0 <= k <= 0x1_0000_0000,
                ;
                assert(k * i32::MAX <= 0x1_0000_0000 * i32::MAX) by (nonlinear_arith)
                    requires
                        0 <= k <= 0x1_0000_0000,
                ;
            }
            let v: i64 = row[k] as i64;
            rsum = rsum + v;
            total = total + v;
            let ghost before = col_margins@;
            col_margins.set(k, col_margins[k] + v);
            proof {
                assert forall|c: int| 0 <= c < k + 1 implies #[trigger] col_margins@[c] == col_sum(
                    data@,
                    c,
                    i as int + 1,
                ) by {
                    if c == k {
                        assert(cell_or_zero(data@[i as int]@, c) == row@[c]);
                    } else {
                        assert(col_margins@[c] == before[c]);
                    }
                }
                assert forall|c: int| k + 1 <= c < ncols implies #[trigger] col_margins@[c]
                    == col_sum(data@, c, i as int) by {
                    assert(col_margins@[c] == before[c]);
                }
            }
            k = k + 1;
        }
        proof {
            assert forall|c: int| len <= c < ncols implies #[trigger] col_margins@[c] == col_sum(
                data@,
                c,
                i as int + 1,
            ) by {
                assert(cell_or_zero(data@[i as int]@, c) == 0);
            }
        }
        row_margins.push(rsum);
        i = i + 1;
    }
    (row_margins, col_margins, total)
}

/// The cells of the first `k` rows are no more than those of the first `m`.
proof fn lemma_cells_monotone(rows: Seq<Vec<i32>>, k: int, m: int)
    requires
        0 <= k <= m <= rows.len(),
    ensures
        0 <= n_cells(rows, k) <= n_cells(rows, m),
    decreases m - k,
{
    if m > k {
        lemma_cells_monotone(rows, k, m - 1);
    }
    lemma_cells_nonneg(rows, k);
}

proof fn lemma_cells_nonneg(rows: Seq<Vec<i32>>, k: int)
    ensures
        n_cells(rows, k) >= 0,
    decreases k,
{
    if k > 0 {
        lemma_cells_nonneg(rows, k - 1);
    }
}


/// The larger of two integers.
pub open spec fn max_int(a: int, b: int) -> int {
    if a >= b {
        a
    } else {
        b
    }
}

/// The largest of 0 and the first `k` entries of a row.
pub open spec fn row_max(row: Seq<i32>, k: int) -> int
    decreases k,
{
    if k <= 0 {
        0
    } else {
        max_int(row_max(row, k - 1), row[k - 1] as int)
    }
}

/// The largest of 0 and the entries of column `j` in the first `k` rows.
pub open spec fn col_max(rows: Seq<Vec<i32>>, j: int, k: int) -> int
    decreases k,
{
    if k <= 0 {
        0
    } else {
        max_int(col_max(rows, j, k - 1), cell_or_zero(rows[k - 1]@, j))
    }
}

/// The sum, over the first `k` rows, of the largest cell of each row (or 0).
pub open spec fn sum_row_max(rows: Seq<Vec<i32>>, k: int) -> int
    decreases k,
{
    if k <= 0 {
        0
    } else {
        sum_row_max(rows, k - 1) + row_max(rows[k - 1]@, rows[k - 1]@.len() as int)
    }
}

/// The largest of 0 and the totals of the first `k` rows.
pub open spec fn max_row_total(rows: Seq<Vec<i32>>, k: int) -> int
    decreases k,
{
    if k <= 0 {
        0
    } else {
        max_int(max_row_total(rows, k - 1), row_sum(rows[k - 1]@, rows[k - 1]@.len() as int))
    }
}

/// The sum, over the first `m` columns, of the largest cell of each column (or 0).
pub open spec fn sum_col_max(rows: Seq<Vec<i32>>, m: int) -> int
    decreases m,
{
    if m <= 0 {
        0
    } else {
        sum_col_max(rows, m - 1) + col_max(rows, m - 1, rows.len() as int)
    }
}

/// The largest of 0 and the totals of the first `m` columns.
pub open spec fn max_col_total(rows: Seq<Vec<i32>>, m: int) -> int
    decreases m,
{
    if m <= 0 {
        0
    } else {
        max_int(max_col_total(rows, m - 1), col_sum(rows, m - 1, rows.len() as int))
    }
}

/// The counts that the lambda measures of association are computed from.
#[derive(Debug, Clone, Copy, PartialEq, Eq)]
pub struct LambdaCounts {
    /// The sum of all cells.
    pub total: i64,
    /// The sum over rows of the largest cell of the row (or 0).
    pub sum_row_cell_max: i64,
    /// The largest row total (or 0).
    pub max_row_total: i64,
    /// The sum over columns of the largest cell of the column (or 0).
    pub sum_col_cell_max: i64,
    /// The largest column total (or 0).
    pub max_col_total: i64,
}

/// Cell maxima are between 0 and the largest i32.
proof fn lemma_row_max_bound(row: Seq<i32>, k: int)
    ensures
        0 <= row_max(row, k) <= i32::MAX,
    decreases k,
{
    if k > 0 {
        lemma_row_max_bound(row, k - 1);
    }
}

proof fn lemma_col_max_bound(rows: Seq<Vec<i32>>, j: int, k: int)
    ensures
        0 <= col_max(rows, j, k) <= i32::MAX,
    decreases k,
{
    if k > 0 {
        lemma_col_max_bound(rows, j, k - 1);
    }
}

/// The sum of `k` values between 0 and the largest i32 is at most `k` times it.
proof fn lemma_sum_row_max_bound(rows: Seq<Vec<i32>>, k: int)
    requires
        k >= 0,
    ensures
        0 <= sum_row_max(rows, k) <= k * i32::MAX,
    decreases k,
{
    if k > 0 {
        lemma_sum_row_max_bound(rows, k - 1);
        lemma_row_max_bound(rows[k - 1]@, rows[k - 1]@.len() as int);
    }
}

proof fn lemma_sum_col_max_bound(rows: Seq<Vec<i32>>, m: int)
    requires
        m >= 0,
    ensures
        0 <= sum_col_max(rows, m) <= m * i32::MAX,
    decreases m,
{
    if m > 0 {
        lemma_sum_col_max_bound(rows, m - 1);
        lemma_col_max_bound(rows, m - 1, rows.len() as int);
    }
}

/// The totals and the row and column maxima of a contingency table whose
/// rows all have at least as many cells as the first one.
pub fn lambda_counts(data: &[Vec<i32>]) -> (counts: LambdaCounts)
    requires
        forall|i: int| 0 <= i < data@.len() ==> #[trigger] data@[i]@.len() >= n_cols(data@),
        n_cells(data@, data@.len() as int) <= 0x1_0000_0000,
        data@.len() <= 0x1_0000_0000,
    ensures
        counts.total == table_sum(data@, data@.len() as int),
        counts.sum_row_cell_max == sum_row_max(data@, data@.len() as int),
        counts.max_row_total == max_row_total(data@, data@.len() as int),
        counts.sum_col_cell_max == sum_col_max(data@, n_cols(data@)),
        counts.max_col_total == max_col_total(data@, n_cols(data@)),
{
    let nrows = data.len();
    let ncols = if nrows > 0 {
        data[0].len()
    } else {
        0
    };
    let mut sum_row_cell_max: i64 = 0;
    let mut max_row_tot: i64 = 0;
    let mut total: i64 = 0;
    let mut i: usize = 0;
    while i < nrows
        invariant
            nrows == data@.len(),
            i <= nrows,
            nrows <= 0x1_0000_0000,
            n_cells(data@, data@.len() as int) <= 0x1_0000_0000,
            total == table_sum(data@, i as int),
            sum_row_cell_max == sum_row_max(data@, i as int),
            max_row_tot == max_row_total(data@, i as int),
        decreases nrows - i,
    {
        let row = &data[i];
        let len = row.len();
        let mut row_cell_max: i64 = 0;
        let mut row_total: i64 = 0;
        let mut k: usize = 0;
        proof {
            lemma_cells_monotone(data@, i as int + 1, data@.len() as int);
            lemma_cells_monotone(data@, i as int, data@.len() as int);
            lemma_table_sum_bound(data@, i as int);
            lemma_sum_row_max_bound(data@, i as int);
        }
        while k < len
            invariant
                nrows == data@.len(),
                i < nrows,
                nrows <= 0x1_0000_0000,
                row@ == data@[i as int]@,
                len == row@.len(),
                k <= len,
                row_total == row_sum(row@, k as int),
                row_cell_max == row_max(row@, k as int),
                n_cells(data@, i as int + 1) <= 0x1_0000_0000,
                n_cells(data@, i as int + 1) == n_cells(data@, i as int) + len,
                n_cells(data@, i as int) * i32::MIN <= table_sum(data@, i as int) <= n_cells(
                    data@,
                    i as int,
                ) * i32::MAX,
                n_cells(data@, i as int) >= 0,
                total == table_sum(data@, i as int) + row_total,
            decreases len - k,
        {
            proof {
                lemma_row_sum_bound(row@, k as int);
                lemma_row_max_bound(row@, k as int);
                assert((n_cells(data@, i as int) + k) * i32::MIN <= table_sum(data@, i as int) + row_total)
                    by (nonlinear_arith)
                    requires
                        n_cells(data@, i as int) * i32::MIN <= table_sum(data@, i as int),
                        k * i32::MIN <= row_total,
                ;
                assert(table_sum(data@, i as int) + row_total <= (n_cells(data@, i as int) + k) * i32::MAX)
                    by (nonlinear_arith)
                    requires
                        table_sum(data@, i as int) <= n_cells(data@, i as int) * i32::MAX,
                        row_total <= k * i32::MAX,
                ;
                assert((n_cells(data@, i as int) + k) * i32::MIN >= 0x1_0000_0000 * i32::MIN)
                    by (nonlinear_arith)
                    requires
                        0 <= n_cells(data@, i as int) + k <= 0x1_0000_0000,
                ;
                assert((n_cells(data@, i as int) + k) * i32::MAX <= 0x1_0000_0000 * i32::MAX)
                    by (nonlinear_arith)
                    requires
                        0 <= n_cells(data@, i as int) + k <= 0x1_0000_0000,
                ;
                assert(k * i32::MIN >= 0x1_0000_0000 * i32::MIN) by (nonlinear_arith)
                    requires
                        0 <= k <= 0x1_0000_0000,
                ;
                assert(k * i32::MAX <= 0x1_0000_0000 * i32::MAX) by (nonlinear_arith)
                    requires
                        0 <= k <= 0x1_0000_0000,
                ;
            }
            let v: i64 = row[k] as i64;
            if v > row_cell_max {
                row_cell_max = v;
            }
            row_total = row_total + v;
            total = total + v;
            k = k + 1;
        }
        proof {
            lemma_row_max_bound(row@, len as int);
            assert(sum_row_cell_max + row_cell_max <= (i + 1) * i32::MAX) by (nonlinear_arith)
                requires
                    sum_row_cell_max <= i * i32::MAX,
                    row_cell_max <= i32::MAX,
            ;
            assert((i + 1) * i32::MAX <= 0x1_0000_0001 * i32::MAX) by (nonlinear_arith)
                requires
                    i + 1 <= 0x1_0000_0001,
            ;
        }
        if row_total > max_row_tot {
            max_row_tot = row_total;
        }
        sum_row_cell_max = sum_row_cell_max + row_cell_max;
        i = i + 1;
    }
    let mut sum_col_cell_max: i64 = 0;
    let mut max_col_tot: i64 = 0;
    let mut j: usize = 0;
    while j < ncols
        invariant
            nrows == data@.len(),
            ncols == n_cols(data@),
            nrows <= 0x1_0000_0000,
            n_cells(data@, data@.len() as int) <= 0x1_0000_0000,
            forall|r: int| 0 <= r < data@.len() ==> #[trigger] data@[r]@.len() >= n_cols(data@),
            j <= ncols,
            sum_col_cell_max == sum_col_max(data@, j as int),
            max_col_tot == max_col_total(data@, j as int),
        decreases ncols - j,
    {
        let mut col_cell_max: i64 = 0;
        let mut col_total: i64 = 0;
        let mut r: usize = 0;
        proof {
            lemma_sum_col_max_bound(data@, j as int);
            lemma_cols_below_cells(data@);
        }
        while r < nrows
            invariant
                nrows == data@.len(),
                ncols == n_cols(data@),
                j < ncols,
                nrows <= 0x1_0000_0000,
                forall|q: int| 0 <= q < data@.len() ==> #[trigger] data@[q]@.len() >= n_cols(data@),
                r <= nrows,
                col_total == col_sum(data@, j as int, r as int),
                col_cell_max == col_max(data@, j as int, r as int),
            decreases nrows - r,
        {
            proof {
                lemma_col_sum_bound(data@, j as int, r as int);
                lemma_col_max_bound(data@, j as int, r as int);
                assert(r * i32::MIN >= 0x1_0000_0000 * i32::MIN) by (nonlinear_arith)
                    requires
                        0 <= r <= 0x1_0000_0000,
                ;
                assert(r * i32::MAX <= 0x1_0000_0000 * i32::MAX) by (nonlinear_arith)
                    requires
                        0 <= r <= 0x1_0000_0000,
                ;
            }
            let v: i64 = data[r][j] as i64;
            assert(v == cell_or_zero(data@[r as int]@, j as int));
            if v > col_cell_max {
                col_cell_max = v;
            }
            col_total = col_total + v;
            r = r + 1;
        }
        proof {
            lemma_col_max_bound(data@, j as int, nrows as int);
            assert(sum_col_cell_max + col_cell_max <= (j + 1) * i32::MAX) by (nonlinear_arith)
                requires
                    sum_col_cell_max <= j * i32::MAX,
                    col_cell_max <= i32::MAX,
            ;
            assert((j + 1) * i32::MAX <= 0x1_0000_0001 * i32::MAX) by (nonlinear_arith)
                requires
                    j + 1 <= 0x1_0000_0001,
            ;
        }
        if col_total > max_col_tot {
            max_col_tot = col_total;
        }
        sum_col_cell_max = sum_col_cell_max + col_cell_max;
        j = j + 1;
    }
    LambdaCounts {
        total,
        sum_row_cell_max,
        max_row_total: max_row_tot,
        sum_col_cell_max,
        max_col_total: max_col_tot,
    }
}

/// A table with rows has at least as many cells as the first row has
/// columns, so there are at most 2^32 columns.
proof fn lemma_cols_below_cells(rows: Seq<Vec<i32>>)
    requires
        n_cells(rows, rows.len() as int) <= 0x1_0000_0000,
    ensures
        n_cols(rows) <= 0x1_0000_0000,
{
    if rows.len() > 0 {
        lemma_first_row_cells(rows, rows.len() as int);
    }
}

proof fn lemma_first_row_cells(rows: Seq<Vec<i32>>, k: int)
    requires
        1 <= k <= rows.len(),
    ensures
        n_cells(rows, k) >= rows[0]@.len(),
    decreases k,
{
    if k > 1 {
        lemma_first_row_cells(rows, k - 1);
    }
    lemma_cells_nonneg(rows, k - 1);
}


/// The sum of the first `m` column sums over the first `k` rows.
pub open spec fn sum_of_col_sums(rows: Seq<Vec<i32>>, k: int, m: int) -> int
    decreases m,
{
    if m <= 0 {
        0
    } else {
        sum_of_col_sums(rows, k, m - 1) + col_sum(rows, m - 1, k)
    }
}

/// The sum of the first `m` cells of a row, missing cells counting as 0.
pub open spec fn sum_of_cells(row: Seq<i32>, m: int) -> int
    decreases m,
{
    if m <= 0 {
        0
    } else {
        sum_of_cells(row, m - 1) + cell_or_zero(row, m - 1)
    }
}

proof fn lemma_sum_of_cells(row: Seq<i32>, m: int)
    requires
        m >= row.len(),
    ensures
        sum_of_cells(row, m) == row_sum(row, row.len() as int),
    decreases m,
{
    if m > row.len() {
        lemma_sum_of_cells(row, m - 1);
    } else {
        lemma_sum_of_cells_prefix(row, m);
    }
}

proof fn lemma_sum_of_cells_prefix(row: Seq<i32>, m: int)
    requires
        0 <= m <= row.len(),
    ensures
        sum_of_cells(row, m) == row_sum(row, m),
    decreases m,
{
    if m > 0 {
        lemma_sum_of_cells_prefix(row, m - 1);
    }
}

proof fn lemma_sum_of_col_sums_step(rows: Seq<Vec<i32>>, k: int, m: int)
    requires
        k >= 1,
    ensures
        sum_of_col_sums(rows, k, m) == sum_of_col_sums(rows, k - 1, m) + sum_of_cells(
            rows[k - 1]@,
            m,
        ),
    decreases m,
{
    if m > 0 {
        lemma_sum_of_col_sums_step(rows, k, m - 1);
    }
}

proof fn lemma_sum_of_col_sums_none(rows: Seq<Vec<i32>>, m: int)
    ensures
        sum_of_col_sums(rows, 0, m) == 0,
    decreases m,
{
    if m > 0 {
        lemma_sum_of_col_sums_none(rows, m - 1);
    }
}

/// Law: the column margins add up to the same total as the row margins
/// (the total of all cells), when no row is longer than the first.
pub proof fn lemma_margins_agree(rows: Seq<Vec<i32>>, k: int)
    requires
        0 <= k <= rows.len(),
        forall|i: int| 0 <= i < rows.len() ==> #[trigger] rows[i]@.len() <= n_cols(rows),
    ensures
        sum_of_col_sums(rows, k, n_cols(rows)) == table_sum(rows, k),
    decreases k,
{
    if k == 0 {
        lemma_sum_of_col_sums_none(rows, n_cols(rows));
    } else {
        lemma_margins_agree(rows, k - 1);
        lemma_sum_of_col_sums_step(rows, k, n_cols(rows));
        assert(rows[k - 1]@.len() <= n_cols(rows));
        lemma_sum_of_cells(rows[k - 1]@, n_cols(rows));
    }
}

/// Law: the largest cell of a row is the largest of 0 and its cells: it
/// bounds every one of the first `k` cells and is 0 or one of them.
pub proof fn lemma_row_max_is_largest_cell(row: Seq<i32>, k: int)
    requires
        0 <= k <= row.len(),
    ensures
        row_max(row, k) >= 0,
        forall|j: int| 0 <= j < k ==> row_max(row, k) >= #[trigger] row[j],
        row_max(row, k) == 0 || exists|j: int| 0 <= j < k && #[trigger] row[j] == row_max(row, k),
    decreases k,
{
    if k > 0 {
        lemma_row_max_is_largest_cell(row, k - 1);
        if row_max(row, k) != 0 && row_max(row, k) != row_max(row, k - 1) {
            assert(row[k - 1] == row_max(row, k));
        }
    }
}

/// Law: the largest cell of column `j` over the first `k` rows bounds the
/// cell of that column in each of them (a missing cell counting as 0) and is
/// 0 or one of those cells.
pub proof fn lemma_col_max_is_largest_cell(rows: Seq<Vec<i32>>, j: int, k: int)
    requires
        0 <= k <= rows.len(),
    ensures
        col_max(rows, j, k) >= 0,
        forall|i: int| 0 <= i < k ==> col_max(rows, j, k) >= #[trigger] cell_or_zero(rows[i]@, j),
        col_max(rows, j, k) == 0 || exists|i: int|
            0 <= i < k && #[trigger] cell_or_zero(rows[i]@, j) == col_max(rows, j, k),
    decreases k,
{
    if k > 0 {
        lemma_col_max_is_largest_cell(rows, j, k - 1);
        if col_max(rows, j, k) != 0 && col_max(rows, j, k) != col_max(rows, j, k - 1) {
            assert(cell_or_zero(rows[k - 1]@, j) == col_max(rows, j, k));
        }
    }
}

/// Law: the largest row total over the first `k` rows bounds the total of
/// each of them and is 0 or one of those totals.
pub proof fn lemma_max_row_total_is_largest(rows: Seq<Vec<i32>>, k: int)
    requires
        0 <= k <= rows.len(),
    ensures
        max_row_total(rows, k) >= 0,
        forall|i: int|
            0 <= i < k ==> max_row_total(rows, k) >= #[trigger] row_sum(rows[i]@, rows[i]@.len() as int),
        max_row_total(rows, k) == 0 || exists|i: int|
            0 <= i < k && #[trigger] row_sum(rows[i]@, rows[i]@.len() as int) == max_row_total(rows, k),
    decreases k,
{
    if k > 0 {
        lemma_max_row_total_is_largest(rows, k - 1);
        if max_row_total(rows, k) != 0 && max_row_total(rows, k) != max_row_total(rows, k - 1) {
            assert(row_sum(rows[k - 1]@, rows[k - 1]@.len() as int) == max_row_total(rows, k));
        }
    }
}

/// Law: the largest column total over the first `m` columns bounds the
/// total of each of them and is 0 or one of those totals.
pub proof fn lemma_max_col_total_is_largest(rows: Seq<Vec<i32>>, m: int)
    requires
        0 <= m,
    ensures
        max_col_total(rows, m) >= 0,
        forall|j: int|
            0 <= j < m ==> max_col_total(rows, m) >= #[trigger] col_sum(rows, j, rows.len() as int),
        max_col_total(rows, m) == 0 || exists|j: int|
            0 <= j < m && #[trigger] col_sum(rows, j, rows.len() as int) == max_col_total(rows, m),
    decreases m,
{
    if m > 0 {
        lemma_max_col_total_is_largest(rows, m - 1);
        if max_col_total(rows, m) != 0 && max_col_total(rows, m) != max_col_total(rows, m - 1) {
            assert(col_sum(rows, m - 1, rows.len() as int) == max_col_total(rows, m));
        }
    }
}

/// Law: the sum of the row maxima grows, row by row, by the largest of 0
/// and the cells of the row added: an amount that bounds each cell of that
/// row and is 0 or one of them. It starts from 0.
pub proof fn lemma_sum_row_max_adds_row_maxima(rows: Seq<Vec<i32>>, k: int)
    requires
        0 < k <= rows.len(),
    ensures
        sum_row_max(rows, 0) == 0,
        ({
            let row = rows[k - 1]@;
            let added = sum_row_max(rows, k) - sum_row_max(rows, k - 1);
            &&& added >= 0
            &&& forall|j: int| 0 <= j < row.len() ==> added >= #[trigger] row[j]
            &&& added == 0 || exists|j: int| 0 <= j < row.len() && #[trigger] row[j] == added
        }),
{
    lemma_row_max_is_largest_cell(rows[k - 1]@, rows[k - 1]@.len() as int);
}

/// Law: the sum of the column maxima grows, column by column, by the largest
/// of 0 and the cells of the column added: an amount that bounds the cell of
/// that column in every row and is 0 or one of them. It starts from 0.
pub proof fn lemma_sum_col_max_adds_col_maxima(rows: Seq<Vec<i32>>, m: int)
    requires
        0 < m,
    ensures
        sum_col_max(rows, 0) == 0,
        ({
            let added = sum_col_max(rows, m) - sum_col_max(rows, m - 1);
            &&& added >= 0
            &&& forall|i: int| 0 <= i < rows.len() ==> added >= #[trigger] cell_or_zero(rows[i]@, m - 1)
            &&& added == 0 || exists|i: int|
                0 <= i < rows.len() && #[trigger] cell_or_zero(rows[i]@, m - 1) == added
        }),
{
    lemma_col_max_is_largest_cell(rows, m - 1, rows.len() as int);
}

} // verus!
