//! The mathematical model of the volatility tracker: what it remembers of each
//! pool, and how one block of depth observations changes it.

use vstd::prelude::*;

use crate::config::VolatilityTrackerConfig;

verus! {

/// What a pool key stands for: the component id and the two token addresses.
pub type PoolKeyView = (Seq<char>, Seq<u8>, Seq<u8>);

/// The state of one tracked pool.
pub struct PoolState {
    /// The depth seen at the pool's latest observation.
    pub prev_depth: Option<nat>,
    /// The depth changes inside the observation window, oldest first; each is
    /// the pair (depth before, depth after) of two consecutive observations.
    pub window: Seq<(nat, nat)>,
    /// How many depth changes the pool has had since it was first seen,
    /// including those that have left the window.
    pub sample_count: nat,
}

/// The state of the whole tracker.
pub struct TrackerView {
    /// The tracked pools.
    pub pools: Map<PoolKeyView, PoolState>,
    /// The latest block whose depths were taken in.
    pub last_block: Option<u64>,
    /// The configuration the tracker was made with.
    pub config: VolatilityTrackerConfig,
}

/// A pool that has just been seen for the first time, before its depth is taken in.
pub open spec fn fresh_pool() -> PoolState {
    PoolState { prev_depth: None, window: Seq::empty(), sample_count: 0 }
}

/// The window after `change` joins it: appended at the end, and the oldest
/// change dropped when the window would otherwise hold more than `max_window`.
pub open spec fn push_window(window: Seq<(nat, nat)>, change: (nat, nat), max_window: nat) -> Seq<
    (nat, nat),
> {
    let pushed = window.push(change);
    if pushed.len() > max_window {
        pushed.drop_first()
    } else {
        pushed
    }
}

/// The pool after a positive `depth` is observed: the first observation only
/// records the depth; every later one also adds the change from the previous
/// depth to the window and counts it.
pub open spec fn observe_depth(pool: PoolState, depth: nat, max_window: nat) -> PoolState {
    match pool.prev_depth {
        Some(prev) => PoolState {
            prev_depth: Some(depth),
            window: push_window(pool.window, (prev, depth), max_window),
            sample_count: pool.sample_count + 1,
        },
        None => PoolState { prev_depth: Some(depth), window: pool.window, sample_count: pool.sample_count },
    }
}

/// The pools after `depth` is observed for the pool `key`: a zero depth is
/// ignored (and an unknown pool stays unknown); otherwise the pool, fresh if
/// it was unknown, observes the depth.
pub open spec fn apply_depth(
    pools: Map<PoolKeyView, PoolState>,
    key: PoolKeyView,
    depth: nat,
    max_window: nat,
) -> Map<PoolKeyView, PoolState> {
    if depth == 0 {
        pools
    } else {
        let pool = if pools.contains_key(key) { pools[key] } else { fresh_pool() };
        pools.insert(key, observe_depth(pool, depth, max_window))
    }
}

/// The pools after each (key, depth) of `depths` is applied in turn.
pub open spec fn apply_depths(
    pools: Map<PoolKeyView, PoolState>,
    depths: Seq<(PoolKeyView, nat)>,
    max_window: nat,
) -> Map<PoolKeyView, PoolState>
    decreases depths.len(),
{
    if depths.len() == 0 {
        pools
    } else {
        let last = depths.last();
        apply_depth(apply_depths(pools, depths.drop_last(), max_window), last.0, last.1, max_window)
    }
}

/// No key occurs twice among `depths`.
pub open spec fn keys_unique(depths: Seq<(PoolKeyView, nat)>) -> bool {
    forall|i: int, j: int|
        0 <= i < depths.len() && 0 <= j < depths.len() && i != j ==> #[trigger] depths[i].0
            != #[trigger] depths[j].0
}

/// The tracker after the depths of `block` are offered: a block no later than
/// the latest one taken in changes nothing; any other block becomes the
/// latest one and its depths are applied.
pub open spec fn tracker_step(
    tracker: TrackerView,
    depths: Seq<(PoolKeyView, nat)>,
    block: u64,
) -> TrackerView {
    if tracker.last_block matches Some(latest) && block <= latest {
        tracker
    } else {
        TrackerView {
            pools: apply_depths(tracker.pools, depths, tracker.config.spec_max_window() as nat),
            last_block: Some(block),
            config: tracker.config,
        }
    }
}

/// Whether the tracker reports the volatility of the pool `key`: the pool is
/// tracked and has had at least the configured minimum of depth changes.
pub open spec fn volatility_ready(tracker: TrackerView, key: PoolKeyView) -> bool {
    &&& tracker.pools.contains_key(key)
    &&& tracker.pools[key].sample_count >= tracker.config.spec_min_samples()
}

/// A window of changes links up: every change is between two positive
/// depths, each change starts at the depth where the previous one ended, and
/// the last one ends at `latest`.
pub open spec fn window_chained(window: Seq<(nat, nat)>, latest: nat) -> bool {
    &&& forall|i: int| 0 <= i < window.len() ==> #[trigger] window[i].0 > 0 && window[i].1 > 0
    &&& forall|i: int, j: int|
        #![trigger window[i], window[j]]
        0 <= i && j == i + 1 && j < window.len() ==> window[i].1 == window[j].0
    &&& window.len() > 0 ==> window.last().1 == latest
}

/// The smaller of `a` and `b`.
pub open spec fn min_nat(a: nat, b: nat) -> nat {
    if a < b {
        a
    } else {
        b
    }
}

/// What holds of every tracked pool: it has seen a positive depth, its window
/// links up to that depth and holds exactly min(sample_count, max_window)
/// changes, and the pool has had no more changes than the number of the
/// latest block taken in.
pub open spec fn pool_valid(pool: PoolState, max_window: nat, last_block: Option<u64>) -> bool {
    &&& pool.prev_depth matches Some(d) && d > 0 && window_chained(pool.window, d)
    &&& pool.window.len() == min_nat(pool.sample_count, max_window)
    &&& last_block matches Some(b) && pool.sample_count <= b
}

impl TrackerView {
    /// What holds of every tracker: each of its pools is valid.
    pub open spec fn valid(self) -> bool {
        forall|k: PoolKeyView|
            #[trigger] self.pools.contains_key(k) ==> pool_valid(
                self.pools[k],
                self.config.spec_max_window() as nat,
                self.last_block,
            )
    }
}

/// Observing a positive depth at a block later than all of a pool's changes
/// keeps the pool valid (a pool seen for the first time becomes valid).
pub proof fn lemma_observe_keeps_valid(pool: PoolState, depth: nat, max_window: nat, block: u64)
    requires
        depth > 0,
        pool == fresh_pool() || (pool_valid(pool, max_window, Some(block)) && pool.sample_count
            < block),
    ensures
        pool_valid(observe_depth(pool, depth, max_window), max_window, Some(block)),
{
    if let Some(prev) = pool.prev_depth {
        let w = pool.window;
        let pushed = w.push((prev, depth));
        assert(window_chained(pushed, depth)) by {
            assert forall|i: int, j: int|
                #![trigger pushed[i], pushed[j]]
                0 <= i && j == i + 1 && j < pushed.len() implies pushed[i].1 == pushed[j].0 by {
                if j < w.len() {
                    assert(w[i].1 == w[j].0);
                }
            }
            assert forall|i: int| 0 <= i < pushed.len() implies #[trigger] pushed[i].0 > 0
                && pushed[i].1 > 0 by {
                if i < w.len() {
                    assert(w[i].0 > 0 && w[i].1 > 0);
                }
            }
        }
        if pushed.len() > max_window {
            let dropped = pushed.drop_first();
            assert(window_chained(dropped, depth)) by {
                assert forall|i: int, j: int|
                    #![trigger dropped[i], dropped[j]]
                    0 <= i && j == i + 1 && j < dropped.len() implies dropped[i].1
                    == dropped[j].0 by {
                    assert(pushed[i + 1].1 == pushed[j + 1].0);
                }
                assert forall|i: int| 0 <= i < dropped.len() implies #[trigger] dropped[i].0 > 0
                    && dropped[i].1 > 0 by {
                    assert(pushed[i + 1].0 > 0 && pushed[i + 1].1 > 0);
                }
            }
        }
    } else {
        assert(observe_depth(pool, depth, max_window).window =~= Seq::<(nat, nat)>::empty());
    }
}

/// The pool after each depth of `depths` is observed in turn.
pub open spec fn observe_depths(pool: PoolState, depths: Seq<nat>, max_window: nat) -> PoolState
    decreases depths.len(),
{
    if depths.len() == 0 {
        pool
    } else {
        observe_depth(observe_depths(pool, depths.drop_last(), max_window), depths.last(), max_window)
    }
}

/// The changes between consecutive entries of `depths`: (depths[i], depths[i + 1]).
pub open spec fn consecutive_changes(depths: Seq<nat>) -> Seq<(nat, nat)> {
    Seq::new(
        if depths.len() == 0 { 0 } else { (depths.len() - 1) as nat },
        |i: int| (depths[i], depths[i + 1]),
    )
}

/// The last `n` entries of `items` (all of them when there are fewer).
pub open spec fn latest<T>(items: Seq<T>, n: nat) -> Seq<T> {
    if items.len() <= n {
        items
    } else {
        items.skip(items.len() - n)
    }
}

/// Whether the tracker takes in the depths of `block`: it does unless the
/// block is no later than the latest one taken in.
pub open spec fn accepts_block(tracker: TrackerView, block: u64) -> bool {
    !(tracker.last_block matches Some(latest) && block <= latest)
}

/// The tracker after each offer (a block's depths, the block) is made in turn.
pub open spec fn tracker_run(
    tracker: TrackerView,
    offers: Seq<(Seq<(PoolKeyView, nat)>, u64)>,
) -> TrackerView
    decreases offers.len(),
{
    if offers.len() == 0 {
        tracker
    } else {
        let last = offers.last();
        tracker_step(tracker_run(tracker, offers.drop_last()), last.0, last.1)
    }
}

/// The depth listed for `key` among `depths`, if any.
pub open spec fn listed_depth(depths: Seq<(PoolKeyView, nat)>, key: PoolKeyView) -> Option<nat> {
    if exists|i: int| 0 <= i < depths.len() && depths[i].0 == key {
        Some(depths[choose|i: int| 0 <= i < depths.len() && depths[i].0 == key].1)
    } else {
        None
    }
}

/// The positive depths at which the pool `key` is observed over a run of
/// offers, oldest first: those listed for it in the offers the tracker takes in.
pub open spec fn observations(
    tracker: TrackerView,
    offers: Seq<(Seq<(PoolKeyView, nat)>, u64)>,
    key: PoolKeyView,
) -> Seq<nat>
    decreases offers.len(),
{
    if offers.len() == 0 {
        Seq::empty()
    } else {
        let earlier = offers.drop_last();
        let last = offers.last();
        let seen = observations(tracker, earlier, key);
        match listed_depth(last.0, key) {
            Some(depth) => if accepts_block(tracker_run(tracker, earlier), last.1) && depth > 0 {
                seen.push(depth)
            } else {
                seen
            },
            None => seen,
        }
    }
}

} // verus!
