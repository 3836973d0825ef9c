use statn::folds::{fold_schedule, Fold};

fn held_out_cases(n: usize, fold: &Fold) -> Vec<usize> {
    (0..fold.n_oos).map(|k| (fold.i_oos + k) % n).collect()
}

fn training_cases(n: usize, fold: &Fold) -> Vec<usize> {
    (0..fold.n_is).map(|k| (fold.i_is + k) % n).collect()
}

#[test]
fn folds_of_ten_cases_in_five_folds() {
    let folds = fold_schedule(10, 5);
    assert_eq!(folds.len(), 5);
    assert_eq!(folds[0], Fold { i_is: 0, n_is: 8, i_oos: 8, n_oos: 2 });
    assert_eq!(folds[1], Fold { i_is: 2, n_is: 8, i_oos: 0, n_oos: 2 });
    assert_eq!(folds[4], Fold { i_is: 8, n_is: 8, i_oos: 6, n_oos: 2 });
    // every case is held out exactly once
    let mut times = vec![0; 10];
    for fold in &folds {
        for c in held_out_cases(10, fold) {
            times[c] += 1;
        }
    }
    assert_eq!(times, vec![1; 10]);
}

#[test]
fn each_fold_trains_on_the_cases_it_does_not_hold_out() {
    for fold in fold_schedule(7, 3) {
        let mut all = training_cases(7, &fold);
        all.extend(held_out_cases(7, &fold));
        all.sort();
        assert_eq!(all, (0..7).collect::<Vec<usize>>());
    }
}

#[test]
fn uneven_folds_hold_a_case_out_twice() {
    let folds = fold_schedule(5, 2);
    assert_eq!(folds[0], Fold { i_is: 0, n_is: 3, i_oos: 3, n_oos: 2 });
    assert_eq!(folds[1], Fold { i_is: 2, n_is: 2, i_oos: 4, n_oos: 3 });
    assert_eq!(held_out_cases(5, &folds[1]), vec![4, 0, 1]);
}

#[test]
fn no_folds() {
    assert!(fold_schedule(0, 0).is_empty());
    assert!(fold_schedule(4, 0).is_empty());
}
