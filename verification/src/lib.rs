//! Per-pool liquidity-depth tracking for slippage prediction: the block-to-block
//! bookkeeping (which pools are tracked, which depth changes fall inside each
//! pool's observation window, and when enough of them have been seen).

pub mod config;
pub mod depth;
pub mod laws;
pub mod model;
pub mod tracker;

pub use config::VolatilityTrackerConfig;
pub use depth::Depth;
pub use model::{PoolKeyView, PoolState, TrackerView};
pub use tracker::{DepthChange, PoolDepthKey, VolatilityTracker};
