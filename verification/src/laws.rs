//! Properties that hold of every use of the volatility tracker.

use vstd::prelude::*;

use crate::config::{lemma_blocks_in_fit, VolatilityTrackerConfig};

use crate::model::{
    apply_depth, apply_depths, consecutive_changes, fresh_pool, keys_unique, latest, observe_depth,
    lemma_observe_keeps_valid, observe_depths, pool_valid, push_window, tracker_step, PoolKeyView,
    PoolState, TrackerView, volatility_ready, accepts_block, observations, tracker_run,
};

verus! {

/// Offering depths again for a block that was just taken in changes nothing,
/// whatever the depths offered the second time.
pub proof fn law_repeated_block_is_ignored(
    tracker: TrackerView,
    first: Seq<(PoolKeyView, nat)>,
    second: Seq<(PoolKeyView, nat)>,
    block: u64,
)
    ensures
        tracker_step(tracker_step(tracker, first, block), second, block) == tracker_step(
            tracker,
            first,
            block,
        ),
{
}

/// The latest block taken in never moves backwards: after any offer it is at
/// least the offered block and at least the previous latest block.
pub proof fn law_latest_block_never_decreases(
    tracker: TrackerView,
    depths: Seq<(PoolKeyView, nat)>,
    block: u64,
)
    ensures
        tracker_step(tracker, depths, block).last_block matches Some(latest) && latest >= block
            && (tracker.last_block matches Some(previous) ==> latest >= previous),
{
}

/// Adding a change to a window that holds the latest changes of a history
/// gives the window that holds the latest changes of the longer history.
pub proof fn law_window_keeps_latest_changes(
    history: Seq<(nat, nat)>,
    change: (nat, nat),
    max_window: nat,
)
    ensures
        push_window(latest(history, max_window), change, max_window) == latest(
            history.push(change),
            max_window,
        ),
        latest(history, max_window).len() <= max_window,
{
    let pushed = history.push(change);
    if history.len() < max_window {
        assert(latest(history, max_window) == history);
    } else {
        let kept = history.skip(history.len() - max_window);
        assert(latest(history, max_window) == kept);
        assert(kept.push(change).drop_first() =~= pushed.skip(pushed.len() - max_window));
    }
}

/// A pool seen for the first time and then observed at the positive depths
/// `depths` (one per block) remembers the last depth, counts one change per
/// observation after the first, and keeps in its window the latest
/// `max_window` of the changes between consecutive depths.
pub proof fn law_pool_history(depths: Seq<nat>, max_window: nat)
    requires
        depths.len() >= 1,
    ensures
        observe_depths(fresh_pool(), depths, max_window) == (PoolState {
            prev_depth: Some(depths.last()),
            window: latest(consecutive_changes(depths), max_window),
            sample_count: (depths.len() - 1) as nat,
        }),
    decreases depths.len(),
{
    if depths.len() == 1 {
        assert(depths.drop_last() =~= Seq::<nat>::empty());
        assert(consecutive_changes(depths) =~= Seq::<(nat, nat)>::empty());
    } else {
        let earlier = depths.drop_last();
        law_pool_history(earlier, max_window);
        law_window_keeps_latest_changes(
            consecutive_changes(earlier),
            (earlier.last(), depths.last()),
            max_window,
        );
        assert(consecutive_changes(earlier).push((earlier.last(), depths.last()))
            =~= consecutive_changes(depths));
    }
}

/// Cold start: a pool that was first seen and then observed at further
/// positive depths has its volatility reported exactly when the observations
/// after the first reach the configured minimum number of samples.
pub proof fn law_cold_start(tracker: TrackerView, key: PoolKeyView, depths: Seq<nat>)
    requires
        depths.len() >= 1,
        tracker.pools.contains_key(key),
        tracker.pools[key] == observe_depths(
            fresh_pool(),
            depths,
            tracker.config.spec_max_window() as nat,
        ),
    ensures
        volatility_ready(tracker, key) <==> depths.len() - 1 >= tracker.config.spec_min_samples(),
{
    law_pool_history(depths, tracker.config.spec_max_window() as nat);
}

/// The pools that a block's depths do not mention keep their state, and an
/// unknown pool stays unknown.
pub proof fn law_unlisted_pools_unchanged(
    pools: Map<PoolKeyView, PoolState>,
    depths: Seq<(PoolKeyView, nat)>,
    max_window: nat,
    key: PoolKeyView,
)
    requires
        forall|i: int| 0 <= i < depths.len() ==> depths[i].0 != key,
    ensures
        apply_depths(pools, depths, max_window).contains_key(key) == pools.contains_key(key),
        pools.contains_key(key) ==> apply_depths(pools, depths, max_window)[key] == pools[key],
    decreases depths.len(),
{
    if depths.len() > 0 {
        law_unlisted_pools_unchanged(pools, depths.drop_last(), max_window, key);
        assert(depths.last().0 != key);
    }
}

/// When no pool occurs twice among a block's depths, each listed pool ends in
/// the state that its own depth alone gives it: a zero depth leaves it as it
/// was, a positive one is observed. The order of the list does not matter.
pub proof fn law_listed_pool_observes_its_depth(
    pools: Map<PoolKeyView, PoolState>,
    depths: Seq<(PoolKeyView, nat)>,
    max_window: nat,
    i: int,
)
    requires
        keys_unique(depths),
        0 <= i < depths.len(),
    ensures
        apply_depths(pools, depths, max_window).contains_key(depths[i].0) == apply_depth(
            pools,
            depths[i].0,
            depths[i].1,
            max_window,
        ).contains_key(depths[i].0),
        apply_depths(pools, depths, max_window).contains_key(depths[i].0) ==> apply_depths(
            pools,
            depths,
            max_window,
        )[depths[i].0] == apply_depth(pools, depths[i].0, depths[i].1, max_window)[depths[i].0],
    decreases depths.len(),
{
    let key = depths[i].0;
    let earlier = depths.drop_last();
    if i == depths.len() - 1 {
        law_unlisted_pools_unchanged(pools, earlier, max_window, key);
    } else {
        assert(keys_unique(earlier)) by {
            assert forall|a: int, b: int|
                0 <= a < earlier.len() && 0 <= b < earlier.len() && a != b implies #[trigger] earlier[a].0
                != #[trigger] earlier[b].0 by {
                assert(depths[a].0 != depths[b].0);
            }
        }
        assert(earlier[i] == depths[i]);
        law_listed_pool_observes_its_depth(pools, earlier, max_window, i);
        assert(depths.last().0 != key);
    }
}

proof fn lemma_apply_depths_valid(
    pools: Map<PoolKeyView, PoolState>,
    depths: Seq<(PoolKeyView, nat)>,
    max_window: nat,
    block: u64,
)
    requires
        keys_unique(depths),
        forall|k: PoolKeyView|
            #[trigger] pools.contains_key(k) ==> pool_valid(pools[k], max_window, Some(block))
                && pools[k].sample_count < block,
    ensures
        forall|k: PoolKeyView|
            #[trigger] apply_depths(pools, depths, max_window).contains_key(k) ==> pool_valid(
                apply_depths(pools, depths, max_window)[k],
                max_window,
                Some(block),
            ),
        forall|k: PoolKeyView|
            #[trigger] apply_depths(pools, depths, max_window).contains_key(k) && (forall|j: int|
                0 <= j < depths.len() ==> depths[j].0 != k) ==> apply_depths(
                pools,
                depths,
                max_window,
            )[k].sample_count < block,
    decreases depths.len(),
{
    if depths.len() > 0 {
        let earlier = depths.drop_last();
        assert(keys_unique(earlier)) by {
            assert forall|a: int, b: int|
                0 <= a < earlier.len() && 0 <= b < earlier.len() && a != b implies #[trigger] earlier[a].0
                != #[trigger] earlier[b].0 by {
                assert(depths[a].0 != depths[b].0);
            }
        }
        lemma_apply_depths_valid(pools, earlier, max_window, block);
        let before = apply_depths(pools, earlier, max_window);
        let last = depths.last();
        let after = apply_depths(pools, depths, max_window);
        if last.1 > 0 {
            let pool = if before.contains_key(last.0) { before[last.0] } else { fresh_pool() };
            if before.contains_key(last.0) {
                assert forall|j: int| 0 <= j < earlier.len() implies earlier[j].0 != last.0 by {
                    assert(depths[j].0 != depths[depths.len() - 1].0);
                }
            }
            lemma_observe_keeps_valid(pool, last.1, max_window, block);
        }
        assert forall|k: PoolKeyView| #[trigger] after.contains_key(k) implies pool_valid(
            after[k],
            max_window,
            Some(block),
        ) by {
            if k != last.0 || last.1 == 0 {
                assert(before.contains_key(k));
            }
        }
        assert forall|k: PoolKeyView|
            #[trigger] after.contains_key(k) && (forall|j: int|
                0 <= j < depths.len() ==> depths[j].0 != k) implies after[k].sample_count < block by {
            assert(depths[depths.len() - 1].0 != k);
            assert forall|j: int| 0 <= j < earlier.len() implies earlier[j].0 != k by {
                assert(depths[j].0 != k);
            }
            assert(before.contains_key(k));
        }
    }
}

/// Every offer of a block's depths, with no pool listed twice, keeps the
/// tracker valid: each pool holds a positive depth, its window links up to it
/// and never exceeds the configured size, and no pool has more changes than
/// the number of the latest block.
pub proof fn law_step_keeps_valid(
    tracker: TrackerView,
    depths: Seq<(PoolKeyView, nat)>,
    block: u64,
)
    requires
        tracker.valid(),
        keys_unique(depths),
    ensures
        tracker_step(tracker, depths, block).valid(),
{
    if !(tracker.last_block matches Some(latest) && block <= latest) {
        let max_window = tracker.config.spec_max_window() as nat;
        lemma_apply_depths_valid(tracker.pools, depths, max_window, block);
    }
}

/// Over any run of offers with no pool listed twice in one offer, a pool the
/// tracker did not know at the start is known exactly when it has been
/// observed at a positive depth, and then it remembers its last observed
/// depth, has had one change per observation after the first, and its window
/// holds, oldest first, the latest `max_window` changes between consecutive
/// observed depths.
pub proof fn law_pool_follows_its_observations(
    tracker: TrackerView,
    offers: Seq<(Seq<(PoolKeyView, nat)>, u64)>,
    key: PoolKeyView,
)
    requires
        !tracker.pools.contains_key(key),
        forall|i: int| 0 <= i < offers.len() ==> keys_unique(#[trigger] offers[i].0),
    ensures
        tracker_run(tracker, offers).config == tracker.config,
        tracker_run(tracker, offers).pools.contains_key(key) <==> observations(
            tracker,
            offers,
            key,
        ).len() > 0,
        observations(tracker, offers, key).len() > 0 ==> tracker_run(tracker, offers).pools[key]
            == (PoolState {
            prev_depth: Some(observations(tracker, offers, key).last()),
            window: latest(
                consecutive_changes(observations(tracker, offers, key)),
                tracker.config.spec_max_window() as nat,
            ),
            sample_count: (observations(tracker, offers, key).len() - 1) as nat,
        }),
    decreases offers.len(),
{
    let max_window = tracker.config.spec_max_window() as nat;
    if offers.len() > 0 {
        let earlier = offers.drop_last();
        let last = offers.last();
        assert forall|i: int| 0 <= i < earlier.len() implies keys_unique(#[trigger] earlier[i].0) by {
            assert(earlier[i] == offers[i]);
        }
        law_pool_follows_its_observations(tracker, earlier, key);
        let before = tracker_run(tracker, earlier);
        let seen = observations(tracker, earlier, key);
        let obs = observations(tracker, offers, key);
        assert(keys_unique(last.0));
        if accepts_block(before, last.1) {
            if exists|i: int| 0 <= i < last.0.len() && last.0[i].0 == key {
                let i = choose|i: int| 0 <= i < last.0.len() && last.0[i].0 == key;
                law_listed_pool_observes_its_depth(before.pools, last.0, max_window, i);
                let depth = last.0[i].1;
                if depth > 0 {
                    assert(obs == seen.push(depth));
                    assert(obs.drop_last() =~= seen);
                    if seen.len() > 0 {
                        law_pool_history(seen, max_window);
                        assert(before.pools[key] == observe_depths(fresh_pool(), seen, max_window));
                    } else {
                        assert(seen =~= Seq::<nat>::empty());
                        assert(observe_depths(fresh_pool(), seen, max_window) == fresh_pool());
                    }
                    assert(observe_depths(fresh_pool(), obs, max_window) == observe_depth(
                        observe_depths(fresh_pool(), seen, max_window),
                        depth,
                        max_window,
                    ));
                    law_pool_history(obs, max_window);
                }
            } else {
                law_unlisted_pools_unchanged(before.pools, last.0, max_window, key);
            }
        }
    }
}

/// The window holds as many changes as whole blocks fit in the window's
/// seconds: the window's blocks take at most `window_secs` seconds and one
/// more block would take longer (a block time of zero counts each second as a
/// block). Stated where the seconds fit in a `usize`, as on 64-bit targets.
pub proof fn law_window_is_window_secs_in_blocks(config: VolatilityTrackerConfig)
    requires
        config.window_secs <= usize::MAX,
    ensures
        config.block_time_secs == 0 ==> config.spec_max_window() == config.window_secs,
        config.block_time_secs > 0 ==> config.spec_max_window() * config.block_time_secs
            <= config.window_secs,
        config.block_time_secs > 0 ==> config.window_secs < (config.spec_max_window() + 1)
            * config.block_time_secs,
{
    lemma_blocks_in_fit(config.window_secs, config.block_time_secs);
}

/// The cold-start threshold is as many changes as whole blocks fit in the
/// minimum observation time: those blocks take at most `min_samples_secs`
/// seconds and one more block would take longer (a block time of zero counts
/// each second as a block). Stated where the seconds fit in a `usize`.
pub proof fn law_min_samples_is_min_secs_in_blocks(config: VolatilityTrackerConfig)
    requires
        config.min_samples_secs <= usize::MAX,
    ensures
        config.block_time_secs == 0 ==> config.spec_min_samples() == config.min_samples_secs,
        config.block_time_secs > 0 ==> config.spec_min_samples() * config.block_time_secs
            <= config.min_samples_secs,
        config.block_time_secs > 0 ==> config.min_samples_secs < (config.spec_min_samples() + 1)
            * config.block_time_secs,
{
    lemma_blocks_in_fit(config.min_samples_secs, config.block_time_secs);
}

/// A block later than the latest one taken in is taken in, and becomes
/// exactly the latest block.
pub proof fn law_taken_block_becomes_latest(
    tracker: TrackerView,
    depths: Seq<(PoolKeyView, nat)>,
    block: u64,
)
    requires
        tracker.last_block matches Some(latest) ==> latest < block,
    ensures
        accepts_block(tracker, block),
        tracker_step(tracker, depths, block).last_block == Some(block),
        tracker_step(tracker, depths, block).pools == apply_depths(
            tracker.pools,
            depths,
            tracker.config.spec_max_window() as nat,
        ),
{
}

/// After any run of offers, the latest block taken in is either the one at
/// the start or one of the offered blocks.
proof fn lemma_run_latest_block(tracker: TrackerView, offers: Seq<(Seq<(PoolKeyView, nat)>, u64)>)
    ensures
        tracker_run(tracker, offers).last_block == tracker.last_block || exists|j: int|
            0 <= j < offers.len() && tracker_run(tracker, offers).last_block == Some(
                #[trigger] offers[j].1,
            ),
    decreases offers.len(),
{
    if offers.len() > 0 {
        let earlier = offers.drop_last();
        lemma_run_latest_block(tracker, earlier);
        let before = tracker_run(tracker, earlier);
        if before.last_block != tracker.last_block {
            let j = choose|j: int| 0 <= j < earlier.len() && before.last_block == Some(
                #[trigger] earlier[j].1,
            );
            assert(offers[j] == earlier[j]);
        }
        if accepts_block(before, offers.last().1) {
            assert(offers[offers.len() - 1] == offers.last());
        }
    }
}

/// Every block later than all blocks offered so far (and than the latest
/// block at the start) is taken in, and becomes the latest block: a gap in
/// block numbers never makes the tracker skip a real later block.
pub proof fn law_later_block_is_taken_in(
    tracker: TrackerView,
    offers: Seq<(Seq<(PoolKeyView, nat)>, u64)>,
    depths: Seq<(PoolKeyView, nat)>,
    block: u64,
)
    requires
        tracker.last_block matches Some(latest) ==> latest < block,
        forall|j: int| 0 <= j < offers.len() ==> #[trigger] offers[j].1 < block,
    ensures
        accepts_block(tracker_run(tracker, offers), block),
        tracker_step(tracker_run(tracker, offers), depths, block).last_block == Some(block),
{
    lemma_run_latest_block(tracker, offers);
    law_taken_block_becomes_latest(tracker_run(tracker, offers), depths, block);
}

} // verus!
