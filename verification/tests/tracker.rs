use std::collections::VecDeque;

use fynd_core::{Depth, DepthChange, PoolDepthKey, VolatilityTracker, VolatilityTrackerConfig};

const ALPHA: f64 = 0.95;

fn key(pool: &str) -> PoolDepthKey {
    (pool.to_string(), Default::default(), Default::default())
}

fn depths(entries: &[(&str, u64)]) -> Vec<(PoolDepthKey, Depth)> {
    entries
        .iter()
        .map(|(pool, depth)| (key(pool), Depth::from_u64(*depth)))
        .collect()
}

fn config_fast() -> VolatilityTrackerConfig {
    VolatilityTrackerConfig { window_secs: 120, min_samples_secs: 24, block_time_secs: 12 }
}

fn depth_value(depth: &Depth) -> u128 {
    depth
        .digits()
        .iter()
        .rev()
        .fold(0u128, |acc, digit| (acc << 32) | u128::from(*digit))
}

fn depth_f64(depth: &Depth) -> f64 {
    depth
        .digits()
        .iter()
        .rev()
        .fold(0.0, |acc, digit| acc * 4294967296.0 + f64::from(*digit))
}

fn changes(window: &VecDeque<DepthChange>) -> Vec<(u128, u128)> {
    window
        .iter()
        .map(|c| (depth_value(&c.before), depth_value(&c.after)))
        .collect()
}

/// Exponentially weighted (sigma, variance) of the relative depth changes of a
/// window; the newest change has weight 1, each older one is multiplied by alpha.
fn weighted_stats(window: &VecDeque<DepthChange>, alpha: f64) -> (f64, f64) {
    let deltas: Vec<f64> = window
        .iter()
        .map(|c| {
            let prev = depth_f64(&c.before);
            (depth_f64(&c.after) - prev) / prev
        })
        .collect();
    let n = deltas.len();
    if n == 0 {
        return (0.0, 0.0);
    }
    let mut weight_sum = 0.0;
    let mut mean = 0.0;
    for (i, d) in deltas.iter().enumerate() {
        let w = alpha.powf((n - 1 - i) as f64);
        weight_sum += w;
        mean += w * d;
    }
    mean /= weight_sum;
    let mut var = 0.0;
    for (i, d) in deltas.iter().enumerate() {
        let w = alpha.powf((n - 1 - i) as f64);
        var += w * (d - mean) * (d - mean);
    }
    var /= weight_sum;
    (var.sqrt(), var)
}

#[test]
fn first_block_no_delta() {
    let mut tracker = VolatilityTracker::new(config_fast());
    tracker.update(depths(&[("pool1", 5000)]), 100);
    assert!(tracker
        .get_volatility(&key("pool1"))
        .is_none());
}

#[test]
fn cold_start_returns_none_until_min_samples() {
    let config = VolatilityTrackerConfig {
        window_secs: 120,
        min_samples_secs: 36, // 3 blocks at 12s
        block_time_secs: 12,
    };
    let mut tracker = VolatilityTracker::new(config);
    // min_samples = 36/12 = 3 deltas needed
    tracker.update(depths(&[("pool1", 5000)]), 100); // no delta (first observation)
    tracker.update(depths(&[("pool1", 4800)]), 101); // 1 delta
    tracker.update(depths(&[("pool1", 4950)]), 102); // 2 deltas
    assert!(tracker
        .get_volatility(&key("pool1"))
        .is_none());

    tracker.update(depths(&[("pool1", 4900)]), 103); // 3 deltas
    assert!(tracker
        .get_volatility(&key("pool1"))
        .is_some());
}

#[test]
fn idempotent_same_block() {
    let mut tracker = VolatilityTracker::new(config_fast());
    tracker.update(depths(&[("pool1", 5000)]), 100);
    tracker.update(depths(&[("pool1", 9999)]), 100); // same block, ignored
    tracker.update(depths(&[("pool1", 5100)]), 101);

    // Delta should be (5100-5000)/5000 = 0.02, not based on 9999
    let (_sigma, _) = tracker
        .get_volatility(&key("pool1"))
        .map(|w| weighted_stats(w, ALPHA))
        .unwrap_or((0.0, 0.0));
    // With only 1 delta, sigma = 0 (no spread). But we need min_samples=2.
    // Let's add one more.
    tracker.update(depths(&[("pool1", 5200)]), 102);
    let window = tracker
        .get_volatility(&key("pool1"))
        .unwrap();
    assert_eq!(changes(window), vec![(5000, 5100), (5100, 5200)]);
    let (sigma, _) = weighted_stats(window, ALPHA);
    // deltas: 0.02, ~0.0196. sigma should be small (consistent moves)
    assert!(sigma < 0.01, "sigma should be small for consistent moves: {sigma}");
}

#[test]
fn volatile_pool_has_higher_sigma() {
    let mut tracker = VolatilityTracker::new(config_fast());

    // Stable pool: small moves
    // Volatile pool: large moves
    for block in 100..110u64 {
        let stable_depth = if block % 2 == 0 { 5000 } else { 4990 };
        let volatile_depth = if block % 2 == 0 { 5000 } else { 4000 };
        tracker
            .update(depths(&[("stable", stable_depth), ("volatile", volatile_depth)]), block);
    }

    let (sigma_stable, _) = weighted_stats(
        tracker
            .get_volatility(&key("stable"))
            .unwrap(),
        ALPHA,
    );
    let (sigma_volatile, _) = weighted_stats(
        tracker
            .get_volatility(&key("volatile"))
            .unwrap(),
        ALPHA,
    );
    assert!(
        sigma_volatile > sigma_stable,
        "volatile pool should have higher sigma: {sigma_volatile} vs {sigma_stable}"
    );
}

#[test]
fn ring_buffer_respects_max_window() {
    let config = VolatilityTrackerConfig {
        window_secs: 36, // 3 blocks
        min_samples_secs: 12,
        block_time_secs: 12,
    };
    let mut tracker = VolatilityTracker::new(config);

    for block in 100..110u64 {
        tracker.update(depths(&[("pool1", 5000 + block * 10)]), block);
    }

    // The ring buffer should have at most 3 entries
    let window = tracker
        .get_volatility(&key("pool1"))
        .unwrap();
    assert!(window.len() <= 3, "ring buffer exceeded max_window: {}", window.len());
}

#[test]
fn zero_depth_pool_skipped() {
    let mut tracker = VolatilityTracker::new(config_fast());
    tracker.update(depths(&[("pool1", 0)]), 100);
    assert!(!tracker.tracks_pool(&key("pool1")));
}

#[test]
fn window_keeps_the_latest_consecutive_changes() {
    let config = VolatilityTrackerConfig { window_secs: 36, min_samples_secs: 0, block_time_secs: 12 };
    let mut tracker = VolatilityTracker::new(config);
    let series = [100u64, 110, 120, 130, 140, 150];
    for (i, depth) in series.iter().enumerate() {
        tracker.update(depths(&[("pool1", *depth)]), 200 + i as u64);
    }
    let window = tracker.get_volatility(&key("pool1")).unwrap();
    assert_eq!(changes(window), vec![(120, 130), (130, 140), (140, 150)]);
}

#[test]
fn zero_window_holds_nothing() {
    let config = VolatilityTrackerConfig { window_secs: 5, min_samples_secs: 12, block_time_secs: 12 };
    assert_eq!(config.max_window(), 0);
    assert_eq!(config.min_samples(), 1);
    let mut tracker = VolatilityTracker::new(config);
    tracker.update(depths(&[("pool1", 10)]), 1);
    tracker.update(depths(&[("pool1", 20)]), 2);
    let window = tracker.get_volatility(&key("pool1")).unwrap();
    assert!(window.is_empty());
}

#[test]
fn pool_seen_once_is_reported_when_no_samples_needed() {
    let config = VolatilityTrackerConfig { window_secs: 120, min_samples_secs: 0, block_time_secs: 12 };
    let mut tracker = VolatilityTracker::new(config);
    assert!(tracker.get_volatility(&key("pool1")).is_none());
    tracker.update(depths(&[("pool1", 5000)]), 100);
    let window = tracker.get_volatility(&key("pool1")).unwrap();
    assert!(window.is_empty());
}

#[test]
fn older_block_is_ignored() {
    let mut tracker = VolatilityTracker::new(config_fast());
    tracker.update(depths(&[("pool1", 5000)]), 100);
    tracker.update(depths(&[("pool1", 1), ("pool2", 7)]), 99);
    assert!(!tracker.tracks_pool(&key("pool2")));
    tracker.update(depths(&[("pool1", 5500)]), 101);
    tracker.update(depths(&[("pool1", 6000)]), 102);
    let window = tracker.get_volatility(&key("pool1")).unwrap();
    assert_eq!(changes(window), vec![(5000, 5500), (5500, 6000)]);
}

#[test]
fn zero_depth_leaves_known_pool_unchanged() {
    let mut tracker = VolatilityTracker::new(config_fast());
    tracker.update(depths(&[("pool1", 5000)]), 100);
    tracker.update(depths(&[("pool1", 0)]), 101);
    tracker.update(depths(&[("pool1", 5100)]), 102);
    tracker.update(depths(&[("pool1", 5200)]), 103);
    let window = tracker.get_volatility(&key("pool1")).unwrap();
    assert_eq!(changes(window), vec![(5000, 5100), (5100, 5200)]);
}

#[test]
fn unlisted_pool_keeps_its_state() {
    let mut tracker = VolatilityTracker::new(config_fast());
    tracker.update(depths(&[("a", 10), ("b", 20)]), 1);
    tracker.update(depths(&[("a", 11)]), 2);
    tracker.update(depths(&[("a", 12), ("b", 25)]), 3);
    let a = tracker.get_volatility(&key("a")).unwrap();
    assert_eq!(changes(a), vec![(10, 11), (11, 12)]);
    assert!(tracker.get_volatility(&key("b")).is_none());
    tracker.update(depths(&[("b", 30)]), 4);
    let b = tracker.get_volatility(&key("b")).unwrap();
    assert_eq!(changes(b), vec![(20, 25), (25, 30)]);
}

#[test]
fn keys_differ_by_token_addresses() {
    let mut tracker = VolatilityTracker::new(config_fast());
    let forward: PoolDepthKey = ("pool".to_string(), vec![1], vec![2]);
    let backward: PoolDepthKey = ("pool".to_string(), vec![2], vec![1]);
    tracker.update(vec![(forward.clone(), Depth::from_u64(10))], 1);
    assert!(tracker.tracks_pool(&forward));
    assert!(!tracker.tracks_pool(&backward));
}

#[test]
fn depths_beyond_u64_are_tracked() {
    let mut tracker = VolatilityTracker::new(config_fast());
    let big = || Depth::from_digits(vec![0, 0, 1]);
    assert!(!big().is_zero());
    tracker.update(vec![(key("big"), big())], 1);
    tracker.update(vec![(key("big"), Depth::from_digits(vec![0, 0, 2]))], 2);
    tracker.update(vec![(key("big"), Depth::from_digits(vec![0, 0, 3]))], 3);
    let window = tracker.get_volatility(&key("big")).unwrap();
    assert_eq!(changes(window), vec![(1u128 << 64, 2u128 << 64), (2u128 << 64, 3u128 << 64)]);
}

#[test]
fn config_converts_seconds_to_blocks() {
    let config = VolatilityTrackerConfig::default();
    assert_eq!(config.window_secs, 300);
    assert_eq!(config.min_samples_secs, 60);
    assert_eq!(config.block_time_secs, 12);
    assert_eq!(config.max_window(), 25);
    assert_eq!(config.min_samples(), 5);
    let instant = VolatilityTrackerConfig { window_secs: 7, min_samples_secs: 3, block_time_secs: 0 };
    assert_eq!(instant.max_window(), 7);
    assert_eq!(instant.min_samples(), 3);
}

#[test]
fn depth_digits_and_zero() {
    let d = Depth::from_u64(0x1_0000_0005);
    assert_eq!(depth_value(&d), 0x1_0000_0005);
    assert!(!d.is_zero());
    assert!(Depth::from_u64(0).is_zero());
    assert!(Depth::from_digits(vec![]).is_zero());
    assert!(Depth::from_digits(vec![0, 0]).is_zero());
    assert!(!Depth::from_digits(vec![0, 3]).is_zero());
    let copy = d.duplicate();
    assert_eq!(depth_value(&copy), 0x1_0000_0005);
}

#[test]
fn window_length_is_min_of_samples_and_window() {
    let config = VolatilityTrackerConfig { window_secs: 48, min_samples_secs: 0, block_time_secs: 12 };
    let mut tracker = VolatilityTracker::new(config);
    for block in 0..8u64 {
        tracker.update(depths(&[("pool1", 1000 + block)]), block);
        let window = tracker.get_volatility(&key("pool1")).unwrap();
        assert_eq!(window.len(), std::cmp::min(block as usize, 4));
    }
}

#[test]
fn clone_is_independent() {
    let mut tracker = VolatilityTracker::new(config_fast());
    tracker.update(depths(&[("pool1", 5000)]), 100);
    tracker.update(depths(&[("pool1", 5100)]), 101);
    let snapshot = tracker.clone();
    tracker.update(depths(&[("pool1", 5200)]), 102);
    assert!(snapshot.get_volatility(&key("pool1")).is_none());
    assert_eq!(changes(tracker.get_volatility(&key("pool1")).unwrap()), vec![(5000, 5100), (5100, 5200)]);
    let mut again = snapshot.clone();
    again.update(depths(&[("pool1", 4900)]), 102);
    assert_eq!(changes(again.get_volatility(&key("pool1")).unwrap()), vec![(5000, 5100), (5100, 4900)]);
}
