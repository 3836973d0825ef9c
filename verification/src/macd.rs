//! Settings of the MACD (moving average convergence divergence) indicator.
use vstd::prelude::*;

verus! {

/// Periods of the three exponential moving averages of the MACD indicator.
#[derive(Debug, Clone, Copy)]
pub struct MacdConfig {
    /// Fast EMA period (typically 12)
    pub fast_period: usize,
    /// Slow EMA period (typically 26)
    pub slow_period: usize,
    /// Signal line EMA period (typically 9)
    pub signal_period: usize,
}

impl Default for MacdConfig {
    /// The customary periods 12, 26 and 9.
    fn default() -> (config: Self)
        ensures
            config.fast_period == 12,
            config.slow_period == 26,
            config.signal_period == 9,
    {
        MacdConfig { fast_period: 12, slow_period: 26, signal_period: 9 }
    }
}

} // verus!
