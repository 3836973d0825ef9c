//! Integer algorithms of a toolkit of statistical tests for trading
//! indicators: the MWC256 random number generators, quick sorts of integer
//! keys with companion arrays, gap analysis, the block combinatorics of
//! combinatorially symmetric cross validation, the folds of the elastic net's
//! cross validation, the shuffles of the permutation test, and the market
//! file format.
pub mod backtesting;
pub mod boot;
pub mod contingency;
pub mod cscv;
pub mod data_split;
pub mod folds;
pub mod gap_analysis;
pub mod macd;
pub mod market_format;
pub mod mcpt_bars;
pub mod mwc;
pub mod mwc256;
pub mod overlap;
pub mod qsorts;
