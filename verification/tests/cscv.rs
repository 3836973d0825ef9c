use statn::cscv::{block_cases, block_layout, first_combination, next_combination};

#[test]
fn block_layout_even_split() {
    let (starts, lengths) = block_layout(20, 4);
    assert_eq!(starts, vec![0, 5, 10, 15]);
    assert_eq!(lengths, vec![5, 5, 5, 5]);
}

#[test]
fn block_layout_uneven_split() {
    let (starts, lengths) = block_layout(10, 4);
    assert_eq!(starts, vec![0, 2, 4, 7]);
    assert_eq!(lengths, vec![2, 2, 3, 3]);
    assert_eq!(lengths.iter().sum::<usize>(), 10);
}

#[test]
fn block_layout_no_blocks() {
    let (starts, lengths) = block_layout(10, 0);
    assert!(starts.is_empty() && lengths.is_empty());
}

#[test]
fn first_combination_is_first_half() {
    assert_eq!(first_combination(6), vec![1, 1, 1, 0, 0, 0]);
    assert_eq!(first_combination(0), Vec::<u8>::new());
}

#[test]
fn combinations_of_four_blocks() {
    let mut flags = first_combination(4);
    let mut seen = vec![flags.clone()];
    while next_combination(&mut flags) {
        seen.push(flags.clone());
    }
    assert_eq!(
        seen,
        vec![
            vec![1, 1, 0, 0],
            vec![1, 0, 1, 0],
            vec![0, 1, 1, 0],
            vec![1, 0, 0, 1],
            vec![0, 1, 0, 1],
            vec![0, 0, 1, 1],
        ]
    );
    assert_eq!(flags, vec![0, 0, 1, 1]);
}

#[test]
fn combinations_of_ten_blocks_count() {
    let mut flags = first_combination(10);
    let mut n = 1;
    while next_combination(&mut flags) {
        assert_eq!(flags.iter().filter(|&&f| f == 1).count(), 5);
        n += 1;
    }
    assert_eq!(n, 252);
}

#[test]
fn next_combination_on_short_flags() {
    let mut flags = vec![1u8];
    assert!(!next_combination(&mut flags));
    assert_eq!(flags, vec![1]);
}

#[test]
fn block_cases_split_training_and_test() {
    let (starts, lengths) = block_layout(10, 4);
    let flags = first_combination(4);
    let train = block_cases(&starts, &lengths, &flags, 1);
    let test = block_cases(&starts, &lengths, &flags, 0);
    assert_eq!(train, vec![0, 1, 2, 3]);
    assert_eq!(test, vec![4, 5, 6, 7, 8, 9]);
}

#[test]
fn block_cases_follow_the_flags() {
    let starts = vec![0, 2, 4, 7];
    let lengths = vec![2, 2, 3, 3];
    let flags = vec![0u8, 1, 0, 1];
    assert_eq!(block_cases(&starts, &lengths, &flags, 1), vec![2, 3, 7, 8, 9]);
    assert_eq!(block_cases(&starts, &lengths, &flags, 0), vec![0, 1, 4, 5, 6]);
    assert_eq!(block_cases(&[], &[], &[], 1), Vec::<usize>::new());
}
