# statn

A toolkit of statistical tests for trading indicators, split in two crates:

- `src/` (the `statn` library, verified with Verus) holds the integer logic
  with its contracts and laws:
  - `mwc`, `mwc256`, `mcpt_bars`, `overlap`, `cscv::Rng`: Marsaglia's MWC256
    generators, eager and lazily seeded, specified word by word;
  - `qsorts`: quick sorts of `i32`/`u64` keys that carry slave arrays along,
    proved to sort and to apply one permutation to keys and slaves;
  - `gap_analysis`: size classes and counts of the runs of a flag series;
  - `cscv`: block layout, the walk through every choice of half of the
    blocks, proved to visit each choice once, and the training and test
    cases of a choice, proved to split the cases;
  - `mcpt_bars::shuffle_pass`: the shuffle of the permutation test, proved
    to permute the shuffled entries by a permutation fixed by the draws;
  - `folds`: the folds of the cross validation of the elastic net, proved
    to train each fold on the cases it does not hold out, and to hold out
    every case once when the folds are even;
  - `market_format`: dates and fields of market history lines;
  - `contingency`: margins and maxima of contingency tables;
  - `data_split`, `backtesting`, `macd`, `boot`: split points of a history,
    the position logic of the discrete backtest, MACD periods.
- `app/` (ordinary Rust, not verified) holds the floating-point statistics,
  indicators and models and the file I/O, calling the library for the
  integer logic.

`tests/` runs the library on concrete inputs.
