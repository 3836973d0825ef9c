use statn::contingency::{contingency_margins, lambda_counts, LambdaCounts};

#[test]
fn margins_of_a_table() {
    let data = vec![vec![1, 2, 3], vec![4, 5, 6]];
    assert_eq!(contingency_margins(&data), (vec![6, 15], vec![5, 7, 9], 21));
}

#[test]
fn margins_with_short_rows_and_no_rows() {
    let data = vec![vec![1, 2, 3], vec![4]];
    assert_eq!(contingency_margins(&data), (vec![6, 4], vec![5, 2, 3], 10));
    let empty: Vec<Vec<i32>> = Vec::new();
    assert_eq!(contingency_margins(&empty), (vec![], vec![], 0));
}

#[test]
fn margins_do_not_overflow_i32() {
    let data = vec![vec![i32::MAX, i32::MAX], vec![i32::MAX, i32::MIN]];
    let (rows, cols, total) = contingency_margins(&data);
    assert_eq!(rows, vec![2 * i32::MAX as i64, -1]);
    assert_eq!(cols, vec![2 * i32::MAX as i64, -1]);
    assert_eq!(total, 2 * i32::MAX as i64 - 1);
}

#[test]
fn lambda_counts_of_a_table() {
    let data = vec![vec![1, 2, 3], vec![4, 5, 6]];
    assert_eq!(
        lambda_counts(&data),
        LambdaCounts {
            total: 21,
            sum_row_cell_max: 9,
            max_row_total: 15,
            sum_col_cell_max: 15,
            max_col_total: 9,
        }
    );
}

#[test]
fn lambda_counts_start_from_zero() {
    let data = vec![vec![-5, -1], vec![-2, 7]];
    assert_eq!(
        lambda_counts(&data),
        LambdaCounts {
            total: -1,
            sum_row_cell_max: 7,
            max_row_total: 5,
            sum_col_cell_max: 7,
            max_col_total: 6,
        }
    );
}
