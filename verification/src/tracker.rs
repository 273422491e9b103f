//! Live per-pool depth tracking from block-to-block depth observations.

use std::collections::VecDeque;

use vstd::prelude::*;

use crate::config::VolatilityTrackerConfig;
use crate::depth::Depth;
use crate::model::{
    apply_depth, apply_depths, fresh_pool, keys_unique, lemma_observe_keeps_valid, observe_depth,
    pool_valid, push_window, tracker_step, volatility_ready, PoolKeyView, PoolState, TrackerView,
};

verus! {

/// Identifies a pool: its component id and the addresses of its two tokens.
pub type PoolDepthKey = (String, Vec<u8>, Vec<u8>);

/// The depth of a pool at two consecutive observations.
#[derive(Debug, Clone)]
pub struct DepthChange {
    /// The depth at the earlier observation.
    pub before: Depth,
    /// The depth at the later observation.
    pub after: Depth,
}

impl View for DepthChange {
    type V = (nat, nat);

    open spec fn view(&self) -> (nat, nat) {
        (self.before@, self.after@)
    }
}

/// The (before, after) pairs of a sequence of depth changes.
pub open spec fn window_view(changes: Seq<DepthChange>) -> Seq<(nat, nat)> {
    changes.map_values(|c: DepthChange| c@)
}

/// The (key, depth) values of a list of pool depths.
pub open spec fn depth_entries(depths: Seq<(PoolDepthKey, Depth)>) -> Seq<(PoolKeyView, nat)> {
    depths.map_values(|d: (PoolDepthKey, Depth)| (d.0@, d.1@))
}

fn bytes_equal(a: &Vec<u8>, b: &Vec<u8>) -> (equal: bool)
    ensures
        equal == (a@ == b@),
{
    let n = a.len();
    if n != b.len() {
        return false;
    }
    let mut i: usize = 0;
    while i < n
        invariant
            n == a@.len(),
            n == b@.len(),
            i <= n,
            forall|j: int| 0 <= j < i ==> a@[j] == b@[j],
        decreases n - i,
    {
        if a[i] != b[i] {
            return false;
        }
        i += 1;
    }
    assert(a@ =~= b@);
    true
}

/// Per-pool state: the latest depth, and the window of recent depth changes.
#[derive(Debug, Clone)]
struct PoolVolatility {
    prev_depth: Option<Depth>,
    deltas: VecDeque<DepthChange>,
    sample_count: u64,
}

impl PoolVolatility {
    spec fn state(&self) -> PoolState {
        PoolState {
            prev_depth: match self.prev_depth {
                Some(d) => Some(d@),
                None => None,
            },
            window: window_view(self.deltas@),
            sample_count: self.sample_count as nat,
        }
    }

    fn new() -> (pool: Self)
        ensures
            pool.state() == fresh_pool(),
    {
        let pool = PoolVolatility {
            prev_depth: None,
            deltas: VecDeque::new(),
            sample_count: 0,
        };
        assert(pool.state().window =~= Seq::<(nat, nat)>::empty());
        pool
    }

    /// Adds a depth change to the window, dropping the oldest one when the
    /// window would otherwise exceed `max_window`.
    fn push_delta(&mut self, change: DepthChange, max_window: usize)
        requires
            old(self).sample_count < u64::MAX,
        ensures
            final(self).state() == (PoolState {
                prev_depth: old(self).state().prev_depth,
                window: push_window(old(self).state().window, change@, max_window as nat),
                sample_count: old(self).state().sample_count + 1,
            }),
    {
        let ghost old_window = window_view(self.deltas@);
        let ghost change_view = change@;
        self.deltas.push_back(change);
        self.sample_count = self.sample_count + 1;
        assert(window_view(self.deltas@) =~= old_window.push(change_view));
        if self.deltas.len() > max_window {
            let ghost pushed = self.deltas@;
            self.deltas.pop_front();
            assert(window_view(self.deltas@) =~= window_view(pushed).drop_first());
        }
    }

    /// Takes in a positive depth observation.
    fn observe(&mut self, depth: Depth, max_window: usize)
        requires
            old(self).prev_depth is Some ==> old(self).sample_count < u64::MAX,
        ensures
            final(self).state() == observe_depth(old(self).state(), depth@, max_window as nat),
    {
        match self.prev_depth.take() {
            Some(prev) => {
                let after = depth.duplicate();
                self.push_delta(DepthChange { before: prev, after }, max_window);
            },
            None => {},
        }
        self.prev_depth = Some(depth);
    }
}

/// A tracked pool: the parts of its key, and its state.
#[derive(Debug, Clone)]
struct PoolEntry {
    component_id: String,
    token_in: Vec<u8>,
    token_out: Vec<u8>,
    vol: PoolVolatility,
}

impl PoolEntry {
    spec fn key_view(&self) -> PoolKeyView {
        (self.component_id@, self.token_in@, self.token_out@)
    }

    fn matches_key(&self, key: &PoolDepthKey) -> (equal: bool)
        ensures
            equal == (self.key_view() == key@),
    {
        self.component_id == key.0 && bytes_equal(&self.token_in, &key.1) && bytes_equal(
            &self.token_out,
            &key.2,
        )
    }
}

spec fn has_key(entries: Seq<PoolEntry>, key: PoolKeyView) -> bool {
    exists|i: int| 0 <= i < entries.len() && entries[i].key_view() == key
}

spec fn index_of(entries: Seq<PoolEntry>, key: PoolKeyView) -> int {
    choose|i: int| 0 <= i < entries.len() && entries[i].key_view() == key
}

spec fn entries_map(entries: Seq<PoolEntry>) -> Map<PoolKeyView, PoolState> {
    Map::new(|k: PoolKeyView| has_key(entries, k), |k: PoolKeyView| entries[index_of(entries, k)].vol.state())
}

spec fn keys_distinct(entries: Seq<PoolEntry>) -> bool {
    forall|i: int, j: int|
        0 <= i < entries.len() && 0 <= j < entries.len() && i != j ==> entries[i].key_view()
            != entries[j].key_view()
}

proof fn lemma_entries_lookup(entries: Seq<PoolEntry>, i: int)
    requires
        keys_distinct(entries),
        0 <= i < entries.len(),
    ensures
        entries_map(entries).contains_key(entries[i].key_view()),
        entries_map(entries)[entries[i].key_view()] == entries[i].vol.state(),
{
    let k = entries[i].key_view();
    assert(has_key(entries, k));
    let j = index_of(entries, k);
    assert(j == i);
}

proof fn lemma_entries_update(entries: Seq<PoolEntry>, i: int, entry: PoolEntry)
    requires
        keys_distinct(entries),
        0 <= i < entries.len(),
        entry.key_view() == entries[i].key_view(),
    ensures
        keys_distinct(entries.update(i, entry)),
        entries_map(entries.update(i, entry)) == entries_map(entries).insert(
            entry.key_view(),
            entry.vol.state(),
        ),
{
    let updated = entries.update(i, entry);
    assert forall|a: int, b: int|
        0 <= a < updated.len() && 0 <= b < updated.len() && a != b implies updated[a].key_view()
        != updated[b].key_view() by {
        assert(updated[a].key_view() == entries[a].key_view());
        assert(updated[b].key_view() == entries[b].key_view());
    }
    let m = entries_map(updated);
    let expected = entries_map(entries).insert(entry.key_view(), entry.vol.state());
    assert forall|k: PoolKeyView| #[trigger] m.contains_key(k) <==> expected.contains_key(k) by {
        if has_key(updated, k) {
            let j = choose|j: int| 0 <= j < updated.len() && updated[j].key_view() == k;
            assert(entries[j].key_view() == k);
        }
        if has_key(entries, k) {
            let j = choose|j: int| 0 <= j < entries.len() && entries[j].key_view() == k;
            assert(updated[j].key_view() == k);
        }
        if k == entry.key_view() {
            assert(updated[i].key_view() == k);
        }
    }
    assert forall|k: PoolKeyView| #[trigger] m.contains_key(k) implies m[k] == expected[k] by {
        let j = choose|j: int| 0 <= j < updated.len() && updated[j].key_view() == k;
        lemma_entries_lookup(updated, j);
        if j != i {
            lemma_entries_lookup(entries, j);
        }
    }
    assert(m =~= expected);
}

proof fn lemma_entries_push(entries: Seq<PoolEntry>, entry: PoolEntry)
    requires
        keys_distinct(entries),
        !has_key(entries, entry.key_view()),
    ensures
        keys_distinct(entries.push(entry)),
        entries_map(entries.push(entry)) == entries_map(entries).insert(
            entry.key_view(),
            entry.vol.state(),
        ),
{
    let pushed = entries.push(entry);
    let n = entries.len() as int;
    assert forall|a: int, b: int|
        0 <= a < pushed.len() && 0 <= b < pushed.len() && a != b implies pushed[a].key_view()
        != pushed[b].key_view() by {
        if a < n && b < n {
            assert(pushed[a] == entries[a]);
            assert(pushed[b] == entries[b]);
        } else if a < n {
            assert(pushed[a] == entries[a]);
        } else {
            assert(pushed[b] == entries[b]);
        }
    }
    let m = entries_map(pushed);
    let expected = entries_map(entries).insert(entry.key_view(), entry.vol.state());
    assert forall|k: PoolKeyView| #[trigger] m.contains_key(k) <==> expected.contains_key(k) by {
        if has_key(pushed, k) {
            let j = choose|j: int| 0 <= j < pushed.len() && pushed[j].key_view() == k;
            if j < n {
                assert(entries[j].key_view() == k);
            }
        }
        if has_key(entries, k) {
            let j = choose|j: int| 0 <= j < entries.len() && entries[j].key_view() == k;
            assert(pushed[j].key_view() == k);
        }
        if k == entry.key_view() {
            assert(pushed[n].key_view() == k);
        }
    }
    assert forall|k: PoolKeyView| #[trigger] m.contains_key(k) implies m[k] == expected[k] by {
        let j = choose|j: int| 0 <= j < pushed.len() && pushed[j].key_view() == k;
        lemma_entries_lookup(pushed, j);
        if j < n {
            assert(pushed[j] == entries[j]);
            lemma_entries_lookup(entries, j);
        }
    }
    assert(m =~= expected);
}

/// Takes in block-to-block pool depths and keeps, per pool, the window of
/// recent depth changes from which its volatility is estimated.
///
/// Idempotent: a block no later than the latest one taken in changes nothing.
#[derive(Debug, Clone)]
pub struct VolatilityTracker {
    pools: Vec<PoolEntry>,
    config: VolatilityTrackerConfig,
    last_block: Option<u64>,
}

impl View for VolatilityTracker {
    type V = TrackerView;

    closed spec fn view(&self) -> TrackerView {
        TrackerView {
            pools: entries_map(self.pools@),
            last_block: self.last_block,
            config: self.config,
        }
    }
}

impl VolatilityTracker {
    /// The tracker is well formed: no pool is held twice, and its model is valid.
    pub closed spec fn wf(&self) -> bool {
        &&& keys_distinct(self.pools@)
        &&& self@.valid()
    }

    /// Creates a tracker that tracks no pool yet.
    pub fn new(config: VolatilityTrackerConfig) -> (tracker: Self)
        ensures
            tracker.wf(),
            tracker@.valid(),
            tracker@ == (TrackerView { pools: Map::empty(), last_block: None, config }),
    {
        let tracker = VolatilityTracker { pools: Vec::new(), config, last_block: None };
        assert(tracker@.pools =~= Map::<PoolKeyView, PoolState>::empty());
        tracker
    }

    fn find_pool(&self, key: &PoolDepthKey) -> (found: Option<usize>)
        ensures
            match found {
                Some(i) => i < self.pools@.len() && self.pools@[i as int].key_view() == key@,
                None => !has_key(self.pools@, key@),
            },
    {
        let n = self.pools.len();
        let mut i: usize = 0;
        while i < n
            invariant
                n == self.pools@.len(),
                i <= n,
                forall|j: int| 0 <= j < i ==> self.pools@[j].key_view() != key@,
            decreases n - i,
        {
            if self.pools[i].matches_key(key) {
                return Some(i);
            }
            i += 1;
        }
        None
    }

    /// Takes in a positive depth for the pool `key` during the block `last_block`.
    fn observe_pool(&mut self, key: PoolDepthKey, depth: Depth, max_window: usize)
        requires
            keys_distinct(old(self).pools@),
            old(self)@.valid(),
            old(self).last_block is Some,
            max_window == old(self).config.spec_max_window(),
            depth@ > 0,
            old(self)@.pools.contains_key(key@) ==> old(self)@.pools[key@].sample_count
                < old(self).last_block.unwrap(),
        ensures
            keys_distinct(final(self).pools@),
            final(self)@.valid(),
            final(self).config == old(self).config,
            final(self).last_block == old(self).last_block,
            final(self)@.pools == apply_depth(old(self)@.pools, key@, depth@, max_window as nat),
    {
        let ghost old_entries = self.pools@;
        let ghost k = key@;
        let ghost d = depth@;
        match self.find_pool(&key) {
            Some(i) => {
                proof {
                    lemma_entries_lookup(old_entries, i as int);
                }
                self.pools[i].vol.observe(depth, max_window);
                proof {
                    lemma_entries_update(old_entries, i as int, self.pools@[i as int]);
                }
            },
            None => {
                let mut vol = PoolVolatility::new();
                vol.observe(depth, max_window);
                let (component_id, token_in, token_out) = key;
                let entry = PoolEntry { component_id, token_in, token_out, vol };
                proof {
                    lemma_entries_push(old_entries, entry);
                }
                self.pools.push(entry);
            },
        }
        let ghost old_pools = entries_map(old_entries);
        assert(self@.pools == apply_depth(old_pools, k, d, max_window as nat));
        proof {
            let pool = if old_pools.contains_key(k) { old_pools[k] } else { fresh_pool() };
            lemma_observe_keeps_valid(pool, d, max_window as nat, self.last_block.unwrap());
        }
        assert forall|k2: PoolKeyView| #[trigger] self@.pools.contains_key(k2) implies pool_valid(
            self@.pools[k2],
            self.config.spec_max_window() as nat,
            self.last_block,
        ) by {
            if k2 != k {
                assert(old_pools.contains_key(k2));
            }
        }
    }

    /// Takes in the depths of all pools at `block`.
    ///
    /// Idempotent: when `block` is no later than the latest block taken in,
    /// nothing changes. Otherwise `block` becomes the latest block, and each
    /// pool with a positive depth observes it: a pool seen for the first time
    /// only records its depth; a known pool also adds the change from its
    /// previous depth to its window, dropping the oldest change when the window
    /// is full. Pools with a zero depth are skipped.
    pub fn update(&mut self, pool_depths: Vec<(PoolDepthKey, Depth)>, block: u64)
        requires
            old(self).wf(),
            keys_unique(depth_entries(pool_depths@)),
        ensures
            final(self).wf(),
            final(self)@.valid(),
            final(self)@ == tracker_step(old(self)@, depth_entries(pool_depths@), block),
            old(self)@.last_block is Some && block <= old(self)@.last_block.unwrap()
                ==> final(self)@ == old(self)@,
            old(self)@.last_block is None || old(self)@.last_block.unwrap() < block
                ==> final(self)@.last_block == Some(block),
            final(self)@.config == old(self)@.config,
    {
        if let Some(latest) = self.last_block {
            if block <= latest {
                return;
            }
        }
        let ghost start = self@;
        let ghost entries = depth_entries(pool_depths@);
        self.last_block = Some(block);
        let max_window = self.config.max_window();
        assert(self@.valid()) by {
            assert forall|k: PoolKeyView| #[trigger] self@.pools.contains_key(k) implies
                self@.pools[k].sample_count <= block by {
                assert(start.pools.contains_key(k));
            }
        }
        for item in iter: pool_depths
            invariant
                keys_distinct(self.pools@),
                self@.valid(),
                self.config == start.config,
                self.last_block == Some(block),
                max_window == self.config.spec_max_window(),
                entries == depth_entries(iter.seq()),
                keys_unique(entries),
                self@.pools == apply_depths(start.pools, entries.take(iter.index() as int), max_window as nat),
                forall|k: PoolKeyView|
                    #[trigger] self@.pools.contains_key(k) && !(exists|j: int|
                        0 <= j < iter.index() && entries[j].0 == k) ==> self@.pools[k].sample_count
                        < block,
        {
            let ghost idx = iter.index() as int;
            let ghost before = self@.pools;
            let (key, depth) = item;
            assert(entries[idx] == (key@, depth@));
            assert(entries.take(idx + 1).drop_last() =~= entries.take(idx));
            if !depth.is_zero() {
                proof {
                    if self@.pools.contains_key(key@) {
                        assert forall|j: int| 0 <= j < idx implies entries[j].0 != key@ by {
                            assert(entries[j].0 != entries[idx].0);
                        }
                    }
                }
                self.observe_pool(key, depth, max_window);
            }
            proof {
                assert forall|k: PoolKeyView|
                    #[trigger] self@.pools.contains_key(k) && !(exists|j: int|
                        0 <= j < idx + 1 && entries[j].0 == k) implies self@.pools[k].sample_count
                    < block by {
                    assert(entries[idx].0 != k);
                    assert(before.contains_key(k));
                }
            }
        }
        assert(entries.take(entries.len() as int) =~= entries);
    }

    /// The window of depth changes of the pool `key`, when the pool is tracked
    /// and has had at least the configured minimum of changes; `None` otherwise.
    pub fn get_volatility(&self, key: &PoolDepthKey) -> (window: Option<&VecDeque<DepthChange>>)
        requires
            self.wf(),
        ensures
            window is Some <==> volatility_ready(self@, key@),
            window matches Some(w) ==> window_view(w@) == self@.pools[key@].window,
    {
        let min_samples = self.config.min_samples();
        match self.find_pool(key) {
            Some(i) => {
                proof {
                    lemma_entries_lookup(self.pools@, i as int);
                }
                let pool = &self.pools[i].vol;
                if pool.sample_count >= min_samples as u64 {
                    Some(&pool.deltas)
                } else {
                    None
                }
            },
            None => None,
        }
    }

    /// Whether the pool `key` is tracked.
    pub fn tracks_pool(&self, key: &PoolDepthKey) -> (present: bool)
        requires
            self.wf(),
        ensures
            present == self@.pools.contains_key(key@),
    {
        self.find_pool(key).is_some()
    }
}

} // verus!
