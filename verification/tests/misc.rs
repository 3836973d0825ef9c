use statn::boot::check_for_escape;
use statn::gap_analysis::{count_gaps, initialize_gap_sizes, NGAPS};
use statn::backtesting::{discrete_step, trade_count, TradeAction};
use statn::data_split::split_bounds;
use statn::macd::MacdConfig;
use statn::mcpt_bars::shuffle_pass;

#[test]
fn escape_is_never_requested() {
    assert!(!check_for_escape());
}

#[test]
fn macd_config_default_periods() {
    let c = MacdConfig::default();
    assert_eq!(c.fast_period, 12);
    assert_eq!(c.slow_period, 26);
    assert_eq!(c.signal_period, 9);
}

#[test]
fn gap_sizes_are_powers_of_two() {
    let g = initialize_gap_sizes();
    assert_eq!(g, vec![1, 2, 4, 8, 16, 32, 64, 128, 256, 512]);
    assert_eq!(g.len(), NGAPS - 1);
}

#[test]
fn gap_counts_of_runs() {
    let sizes = initialize_gap_sizes();
    // runs: TTT (3), FF (2), T (1), FFFFF (5)
    let flags = [true, true, true, false, false, true, false, false, false, false, false];
    let counts = count_gaps(&flags, &sizes).unwrap();
    assert_eq!(counts.len(), NGAPS);
    // 1 -> class 0, 2 -> class 1, 3 -> class 2, 5 -> class 3
    assert_eq!(counts, vec![1, 1, 1, 1, 0, 0, 0, 0, 0, 0, 0]);
}

#[test]
fn gap_counts_single_flag_and_long_gap() {
    let sizes = initialize_gap_sizes();
    assert_eq!(count_gaps(&[false], &sizes).unwrap(), vec![1, 0, 0, 0, 0, 0, 0, 0, 0, 0, 0]);
    let flags = vec![true; 600];
    let counts = count_gaps(&flags, &sizes).unwrap();
    assert_eq!(counts[NGAPS - 1], 1);
    assert_eq!(counts.iter().sum::<usize>(), 1);
    let flags = vec![true; 512];
    assert_eq!(count_gaps(&flags, &sizes).unwrap()[NGAPS - 2], 1);
}

#[test]
fn gap_counts_alternating() {
    let sizes = initialize_gap_sizes();
    let flags: Vec<bool> = (0..20).map(|i| i % 2 == 0).collect();
    let counts = count_gaps(&flags, &sizes).unwrap();
    assert_eq!(counts[0], 20);
}

#[test]
fn gap_without_class_is_refused() {
    let sizes = vec![1usize; 11];
    assert_eq!(count_gaps(&[true, true], &sizes), None);
    assert_eq!(count_gaps(&[true, false], &sizes), Some(vec![2, 0, 0, 0, 0, 0, 0, 0, 0, 0, 0]));
    assert_eq!(count_gaps(&[true, true, true], &[]), Some(vec![1, 0, 0, 0, 0, 0, 0, 0, 0, 0, 0]));
}

#[test]
fn discrete_backtest_transitions() {
    assert_eq!(discrete_step(0, 1), (TradeAction::OpenLong, 1));
    assert_eq!(discrete_step(0, -1), (TradeAction::OpenShort, -1));
    assert_eq!(discrete_step(1, -1), (TradeAction::LongToShort, -1));
    assert_eq!(discrete_step(-1, 1), (TradeAction::ShortToLong, 1));
    assert_eq!(discrete_step(1, 1), (TradeAction::MarkLong, 1));
    assert_eq!(discrete_step(1, 0), (TradeAction::MarkLong, 1));
    assert_eq!(discrete_step(-1, 0), (TradeAction::MarkShort, -1));
    assert_eq!(discrete_step(-1, -1), (TradeAction::MarkShort, -1));
    assert_eq!(discrete_step(0, 0), (TradeAction::Idle, 0));
    assert_eq!(discrete_step(0, 7), (TradeAction::Idle, 0));
    assert_eq!(trade_count(TradeAction::OpenLong), 1);
    assert_eq!(trade_count(TradeAction::LongToShort), 2);
    assert_eq!(trade_count(TradeAction::MarkShort), 0);
}

#[test]
fn split_bounds_of_a_history() {
    // 1000 prices, lookback 100, 200 test cases
    assert_eq!(split_bounds(1000, 100, 200), Ok((800, 699)));
    assert_eq!(split_bounds(301, 100, 200), Ok((101, 0)));
    assert_eq!(split_bounds(300, 100, 200), Err(301));
    assert_eq!(split_bounds(100, 252, 0), Err(253));
    // the lengths that the training and test parts of a split get
    let (train_end, test_start) = split_bounds(1000, 200, 252).unwrap();
    assert_eq!(1000 - test_start, 200 + 252 + 1);
    assert_eq!(train_end, 200 + (1000 - 200 - 252 - 1) + 1);
}

#[test]
fn shuffle_pass_with_zero_draws_rotates() {
    let mut v = vec![0, 1, 2, 3, 4];
    shuffle_pass(&mut v, 0, 5, &[0, 0, 0, 0]);
    assert_eq!(v, vec![1, 2, 3, 4, 0]);
}

#[test]
fn shuffle_pass_clamps_large_draws() {
    let mut v = vec![5, 6, 7, 8];
    shuffle_pass(&mut v, 0, 4, &[9, 9, 9]);
    assert_eq!(v, vec![5, 6, 7, 8]);
}

#[test]
fn shuffle_pass_respects_offset() {
    let mut v = vec![10, 40, 30, 20];
    v.swap(1, 3);
    shuffle_pass(&mut v, 1, 3, &[0, 5]);
    assert_eq!(v, vec![10, 40, 30, 20]);
    let mut w = vec![1.5f64, 2.5, 3.5];
    shuffle_pass(&mut w, 0, 1, &[]);
    assert_eq!(w, vec![1.5, 2.5, 3.5]);
}
