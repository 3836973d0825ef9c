use statn::qsorts::{qsort64ssii, qsorti, qsortid4, qsortisd, qsortisi, qsortissii};

fn is_sorted<T: PartialOrd>(s: &[T]) -> bool {
    s.windows(2).all(|w| w[0] <= w[1])
}

#[test]
fn qsorti_sorts_whole_array() {
    let mut data = vec![5, -3, 9, 0, 0, 12, -7, 3, 3, 1];
    let n = data.len();
    qsorti(0, n - 1, &mut data);
    assert_eq!(data, vec![-7, -3, 0, 0, 1, 3, 3, 5, 9, 12]);
}

#[test]
fn qsorti_sorts_only_the_range() {
    let mut data = vec![9, 8, 7, 6, 5, 4, 3, 2, 1];
    qsorti(2, 5, &mut data);
    assert_eq!(data, vec![9, 8, 4, 5, 6, 7, 3, 2, 1]);
}

#[test]
fn qsorti_empty_and_single_ranges() {
    let mut data = vec![3, 1, 2];
    qsorti(1, 1, &mut data);
    assert_eq!(data, vec![3, 1, 2]);
    qsorti(2, 0, &mut data);
    assert_eq!(data, vec![3, 1, 2]);
    let mut empty: Vec<i32> = Vec::new();
    qsorti(0, 0, &mut empty);
    assert!(empty.is_empty());
}

#[test]
fn qsorti_extremes_and_duplicates() {
    let mut data = vec![i32::MAX, i32::MIN, 0, i32::MAX, i32::MIN, 7, 7, 7];
    let n = data.len();
    qsorti(0, n - 1, &mut data);
    assert_eq!(data, vec![i32::MIN, i32::MIN, 0, 7, 7, 7, i32::MAX, i32::MAX]);
}

#[test]
fn qsorti_pseudo_random() {
    let mut x: u32 = 12345;
    let mut data: Vec<i32> = (0..1000)
        .map(|_| {
            x = x.wrapping_mul(69069).wrapping_add(12345);
            (x >> 16) as i32 % 100
        })
        .collect();
    let mut expected = data.clone();
    expected.sort();
    qsorti(0, 999, &mut data);
    assert_eq!(data, expected);
}

#[test]
fn qsortisi_moves_slave_along() {
    let mut data = vec![30, 10, 20, 40];
    let mut slave = vec![3, 1, 2, 4];
    qsortisi(0, 3, &mut data, &mut slave);
    assert_eq!(data, vec![10, 20, 30, 40]);
    assert_eq!(slave, vec![1, 2, 3, 4]);
}

#[test]
fn qsortisd_moves_double_slave_along() {
    let mut data = vec![3, 1, 2];
    let mut slave = vec![0.3, 0.1, 0.2];
    qsortisd(0, 2, &mut data, &mut slave);
    assert_eq!(data, vec![1, 2, 3]);
    assert_eq!(slave, vec![0.1, 0.2, 0.3]);
}

#[test]
fn qsortissii_keeps_pairs() {
    let mut data = vec![5, 2, 8, 1, 9, 3];
    let mut s1: Vec<i16> = data.iter().map(|&d| (d * 10) as i16).collect();
    let mut s2: Vec<i32> = data.iter().map(|&d| -d).collect();
    qsortissii(0, 5, &mut data, &mut s1, &mut s2);
    assert_eq!(data, vec![1, 2, 3, 5, 8, 9]);
    for k in 0..6 {
        assert_eq!(s1[k] as i32, data[k] * 10);
        assert_eq!(s2[k], -data[k]);
    }
}

#[test]
fn qsort64ssii_keeps_pairs() {
    let mut data: Vec<u64> = vec![u64::MAX, 0, 1 << 40, 17, 17];
    let mut s1: Vec<i16> = vec![0, 1, 2, 3, 4];
    let mut s2: Vec<i32> = vec![10, 11, 12, 13, 14];
    let orig = data.clone();
    qsort64ssii(0, 4, &mut data, &mut s1, &mut s2);
    assert!(is_sorted(&data));
    assert_eq!(data, vec![0, 17, 17, 1 << 40, u64::MAX]);
    for k in 0..5 {
        assert_eq!(orig[s1[k] as usize], data[k]);
        assert_eq!(s2[k] as i16 - 10, s1[k]);
    }
}

#[test]
fn qsortid4_keeps_rows_together() {
    let mut data = vec![4, 3, 2, 1];
    let mut a = vec![4.0, 3.0, 2.0, 1.0];
    let mut b = vec![40.0, 30.0, 20.0, 10.0];
    let mut c = vec![-4.0, -3.0, -2.0, -1.0];
    let mut d = vec![0.4, 0.3, 0.2, 0.1];
    qsortid4(0, 3, &mut data, &mut a, &mut b, &mut c, &mut d);
    assert_eq!(data, vec![1, 2, 3, 4]);
    assert_eq!(a, vec![1.0, 2.0, 3.0, 4.0]);
    assert_eq!(b, vec![10.0, 20.0, 30.0, 40.0]);
    assert_eq!(c, vec![-1.0, -2.0, -3.0, -4.0]);
    assert_eq!(d, vec![0.1, 0.2, 0.3, 0.4]);
}

#[test]
fn sorting_a_sorted_range_changes_nothing() {
    let mut data = vec![1, 2, 2, 3, 5, 8];
    qsorti(0, 5, &mut data);
    assert_eq!(data, vec![1, 2, 2, 3, 5, 8]);
}
