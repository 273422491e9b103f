//! How long a pool is observed, measured in seconds and converted to blocks.

use vstd::arithmetic::div_mod::{lemma_div_is_ordered_by_denominator, lemma_fundamental_div_mod};
use vstd::prelude::*;

verus! {

/// The number of whole blocks that fit in `secs` seconds when a block takes
/// `block_time_secs` seconds; a block time of zero counts as one second.
pub open spec fn blocks_in(secs: u64, block_time_secs: u64) -> usize {
    let per_block: u64 = if block_time_secs == 0 { 1 } else { block_time_secs };
    (secs / per_block) as usize
}

/// When `secs` fits in a `usize`, `blocks_in` is the number of whole blocks
/// that fit in `secs` seconds: that many blocks take at most `secs` seconds,
/// one more block takes longer; with a block time of zero it is `secs`.
pub proof fn lemma_blocks_in_fit(secs: u64, block_time_secs: u64)
    requires
        secs <= usize::MAX,
    ensures
        block_time_secs == 0 ==> blocks_in(secs, block_time_secs) == secs,
        block_time_secs > 0 ==> blocks_in(secs, block_time_secs) * block_time_secs <= secs,
        block_time_secs > 0 ==> secs < (blocks_in(secs, block_time_secs) + 1) * block_time_secs,
{
    let per: int = if block_time_secs == 0 { 1 } else { block_time_secs as int };
    let x = secs as int;
    let q = x / per;
    lemma_fundamental_div_mod(x, per);
    lemma_div_is_ordered_by_denominator(x, 1, per);
    assert(x / 1 == x);
    assert(0 <= x % per < per);
    assert(0 <= q <= x);
    assert(blocks_in(secs, block_time_secs) as int == q);
    if block_time_secs > 0 {
        assert(q * per <= x && x < (q + 1) * per) by (nonlinear_arith)
            requires
                x == per * q + x % per,
                0 <= x % per < per,
        ;
    }
}

/// Configuration of the volatility tracker, in seconds; converted to block
/// counts by the observed block time.
#[derive(Debug, Clone, Copy)]
pub struct VolatilityTrackerConfig {
    /// Observation window in seconds (e.g. 300 = 5 min).
    pub window_secs: u64,
    /// Minimum observation time in seconds before the volatility of a pool is
    /// reported (e.g. 60 = 1 min).
    pub min_samples_secs: u64,
    /// Observed block time in seconds (e.g. 12 for Ethereum mainnet).
    pub block_time_secs: u64,
}

impl VolatilityTrackerConfig {
    /// The most depth changes that a pool's observation window holds.
    pub open spec fn spec_max_window(&self) -> usize {
        blocks_in(self.window_secs, self.block_time_secs)
    }

    /// The number of depth changes a pool needs before its volatility is reported.
    pub open spec fn spec_min_samples(&self) -> usize {
        blocks_in(self.min_samples_secs, self.block_time_secs)
    }

    /// The most depth changes that a pool's observation window holds:
    /// `window_secs / max(block_time_secs, 1)`.
    pub fn max_window(&self) -> (blocks: usize)
        ensures
            blocks == self.spec_max_window(),
            self.window_secs <= usize::MAX ==> (self.block_time_secs == 0 ==> blocks
                == self.window_secs),
            self.window_secs <= usize::MAX ==> (self.block_time_secs > 0 ==> blocks
                * self.block_time_secs <= self.window_secs < (blocks + 1) * self.block_time_secs),
    {
        proof {
            if self.window_secs <= usize::MAX {
                lemma_blocks_in_fit(self.window_secs, self.block_time_secs);
            }
        }
        let per_block: u64 = if self.block_time_secs == 0 { 1 } else { self.block_time_secs };
        (self.window_secs / per_block) as usize
    }

    /// The number of depth changes a pool needs before its volatility is
    /// reported: `min_samples_secs / max(block_time_secs, 1)`.
    pub fn min_samples(&self) -> (blocks: usize)
        ensures
            blocks == self.spec_min_samples(),
            self.min_samples_secs <= usize::MAX ==> (self.block_time_secs == 0 ==> blocks
                == self.min_samples_secs),
            self.min_samples_secs <= usize::MAX ==> (self.block_time_secs > 0 ==> blocks
                * self.block_time_secs <= self.min_samples_secs < (blocks + 1)
                * self.block_time_secs),
    {
        proof {
            if self.min_samples_secs <= usize::MAX {
                lemma_blocks_in_fit(self.min_samples_secs, self.block_time_secs);
            }
        }
        let per_block: u64 = if self.block_time_secs == 0 { 1 } else { self.block_time_secs };
        (self.min_samples_secs / per_block) as usize
    }
}

impl Default for VolatilityTrackerConfig {
    /// Five minutes of window, one minute before reporting, twelve-second blocks.
    fn default() -> (config: Self)
        ensures
            config.window_secs == 300,
            config.min_samples_secs == 60,
            config.block_time_secs == 12,
    {
        VolatilityTrackerConfig { window_secs: 300, min_samples_secs: 60, block_time_secs: 12 }
    }
}

} // verus!
