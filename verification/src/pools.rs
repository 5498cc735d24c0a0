//! Bounded ownership of scoped pools.
use crate::background::{reap_interval, Reaper, ReaperAction, ReaperView};
use crate::clock::nanos_since;
use crate::locks::{
    count_owners, current_lock, grant, keep_held, lemma_grants, lemma_held_locks, locks, BuildLock,
    BuildSlot,
};
use crate::metrics::{unreported, PoolMetricFamilies, ScopedPoolMetrics};
use crate::model::{
    counted, enumerates, grants, held_locks, is_idle, upgraded, BuildView, EntryView, PoolsView,
};
use crate::scope::ScopeKey;
use crate::table::{
    contents, distinct, lemma_contents, lemma_push, lemma_swap_remove, lemma_update, Entry,
};
use std::time::Instant;
use vstd::prelude::*;

verus! {

/// The idle timeout of a cache that is not told another, in seconds.
pub const DEFAULT_IDLE_TIMEOUT_SECS: u64 = 900;

/// The bound of a cache that is not told another.
pub const DEFAULT_MAX_COUNT: usize = 500;

/// A bounded cache of pools, at most one per scope.
///
/// What an operation takes out of the cache it hands back, so that whoever shares
/// a cache behind a lock can release the lock before the pools are dropped:
/// closing a connection can involve network I/O.
pub struct ScopedPools<K: ScopeKey, P> {
    entries: Vec<Entry<K, P>>,
    builds: Vec<BuildSlot<K>>,
    idle_timeout: u128,
    max_count: usize,
    metrics: ScopedPoolMetrics,
    /// The pools that the gauge counts for this cache.
    gauged: usize,
    epoch: Instant,
}

impl<K: ScopeKey, P> View for ScopedPools<K, P> {
    type V = PoolsView<K::V, P>;

    closed spec fn view(&self) -> PoolsView<K::V, P> {
        PoolsView {
            entries: contents(self.entries@),
            builds: locks(self.builds@),
            idle_timeout: self.idle_timeout as nat,
            max_count: self.max_count as nat,
            metrics: self.metrics@,
            epoch: self.epoch,
        }
    }
}

impl<K: ScopeKey, P> ScopedPools<K, P> {
    /// The invariant of the cache.
    pub closed spec fn wf(self) -> bool {
        &&& distinct(self.entries@)
        &&& self.gauged == self.entries@.len()
        &&& self@.inv()
    }

    /// A cache stays within its bound, its gauge counts its pools, and each scope
    /// that is being built has a lock of its own.
    pub proof fn law_invariant(self)
        requires
            self.wf(),
        ensures
            self@.inv(),
            self@.entries.len() <= self@.max_count,
            self@.metrics.pools.net == self@.entries.len(),
            0 < self@.max_count,
            0 < self@.idle_timeout,
            self@.entries.dom().finite(),
            forall|i: int, j: int|
                0 <= i < j < self@.builds.len() ==> (#[trigger] self@.builds[i]).scope != (
                #[trigger] self@.builds[j]).scope && self@.builds[i].lock != self@.builds[j].lock,
    {
    }

    /// An empty cache for the pools of `cluster` in `group`, whose pools go once
    /// they have been idle for `idle_timeout` nanoseconds.
    pub fn new(
        idle_timeout: u128,
        max_count: usize,
        families: &PoolMetricFamilies,
        group: &str,
        cluster: &str,
    ) -> (cache: Self)
        requires
            idle_timeout > 0,
            max_count > 0,
            families.wf(),
        ensures
            cache.wf(),
            cache@ == (PoolsView::<K::V, P> {
                entries: Map::empty(),
                builds: Seq::empty(),
                idle_timeout: idle_timeout as nat,
                max_count: max_count as nat,
                metrics: unreported(*families, group@, cluster@),
                epoch: cache@.epoch,
            }),
    {
        let cache = ScopedPools {
            entries: Vec::new(),
            builds: Vec::new(),
            idle_timeout,
            max_count,
            metrics: ScopedPoolMetrics::new(families, group, cluster),
            gauged: 0,
            epoch: Instant::now(),
        };
        assert(locks(cache.builds@) =~= Seq::empty());
        cache
    }

    /// Where the entry of a scope is.
    fn position(&self, key: &K) -> (position: Option<usize>)
        ensures
            match position {
                Some(i) => i < self.entries@.len() && self.entries@[i as int].key@ == key@,
                None => forall|i: int|
                    0 <= i < self.entries@.len() ==> (#[trigger] self.entries@[i]).key@ != key@,
            },
    {
        for i in 0..self.entries.len()
            invariant
                forall|j: int| 0 <= j < i ==> (#[trigger] self.entries@[j]).key@ != key@,
        {
            if self.entries[i].key.same_scope(key) {
                return Some(i);
            }
        }
        None
    }

    /// Whether the pool at `i` is idle at `now`.
    fn is_idle_at(&self, i: usize, now: u128) -> (idle: bool)
        requires
            i < self.entries@.len(),
        ensures
            idle == is_idle(self.entries@[i as int]@, now as nat, self.idle_timeout as nat),
    {
        let last_used = self.entries[i].last_used;
        now >= last_used && now - last_used >= self.idle_timeout
    }

    /// Looks up the pool of a scope at `now`. A pool that has expired but not been
    /// swept is not revived.
    pub fn get_at(&mut self, key: &K, now: u128) -> (pool: Option<P>) where P: Clone
        requires
            old(self).wf(),
        ensures
            final(self).wf(),
            old(self)@.looks_up(key@, now as nat, pool, final(self)@),
    {
        proof {
            lemma_contents(self.entries@);
        }
        match self.position(key) {
            Some(i) => {
                if self.is_idle_at(i, now) {
                    None
                } else {
                    let ghost before = self.entries@;
                    self.entries[i].last_used = now;
                    proof {
                        lemma_update(before, i as int, self.entries@[i as int]);
                        lemma_contents(self.entries@);
                        assert(self.entries@ =~= before.update(i as int, self.entries@[i as int]));
                    }
                    Some(self.entries[i].pool.clone())
                }
            },
            None => None,
        }
    }

    /// Takes out the pools that are idle at `now`, and drops the build locks that
    /// nobody holds when they have `owners`.
    pub fn remove_idle(&mut self, now: u128, owners: &Vec<usize>) -> (removed: Vec<P>)
        requires
            old(self).wf(),
            owners@.len() == old(self)@.builds.len(),
        ensures
            final(self).wf(),
            old(self)@.sweeps(now as nat, owners@, removed@, final(self)@),
    {
        let ghost before = self@;
        let ghost all = self.entries@;
        let ghost idle = before.idle_scopes(now as nat);
        let ghost mut order: Seq<K::V> = Seq::empty();
        let ghost mut gone: Set<K::V> = Set::empty();
        let mut removed: Vec<P> = Vec::new();
        let mut i: usize = 0;
        proof {
            lemma_contents(all);
            assert(before.entries.remove_keys(gone) =~= before.entries);
            assert(order.to_set() =~= gone);
            assert(removed@ =~= order.map_values(|scope: K::V| before.entries[scope].pool));
        }
        while i < self.entries.len()
            invariant
                i <= self.entries@.len(),
                distinct(self.entries@),
                self.entries@.len() + removed@.len() == all.len(),
                contents(self.entries@) == before.entries.remove_keys(gone),
                enumerates(order, removed@, before.entries, gone),
                gone.subset_of(idle),
                idle == before.idle_scopes(now as nat),
                forall|j: int|
                    0 <= j < i ==> !is_idle(
                        (#[trigger] self.entries@[j])@,
                        now as nat,
                        before.idle_timeout,
                    ),
                self.idle_timeout == before.idle_timeout,
                self.max_count == before.max_count,
                self.epoch == before.epoch,
                self.gauged == all.len(),
                self.metrics@ == before.metrics,
                locks(self.builds@) == before.builds,
            decreases self.entries@.len() - i,
        {
            if self.is_idle_at(i, now) {
                let ghost list = self.entries@;
                let ghost scope = list[i as int].key@;
                let entry = self.entries.swap_remove(i);
                proof {
                    lemma_contents(list);
                    lemma_swap_remove(list, i as int);
                    assert(contents(list).contains_key(scope));
                    lemma_enumerates_push(order, removed@, before.entries, gone, scope);
                    assert(before.entries.remove_keys(gone.insert(scope))
                        =~= before.entries.remove_keys(gone).remove(scope));
                    order = order.push(scope);
                    gone = gone.insert(scope);
                }
                removed.push(entry.pool);
            } else {
                i = i + 1;
            }
        }
        proof {
            lemma_contents(self.entries@);
            order.unique_seq_to_set();
            assert forall|scope: K::V| idle.contains(scope) implies gone.contains(scope) by {
                if !gone.contains(scope) {
                    assert(contents(self.entries@).contains_key(scope));
                    let j = choose|j: int|
                        0 <= j < self.entries@.len() && (#[trigger] self.entries@[j]).key@ == scope;
                    assert(!is_idle(self.entries@[j]@, now as nat, before.idle_timeout));
                }
            }
            assert(gone =~= idle);
        }
        self.metrics.take_off(removed.len());
        self.gauged = self.gauged - removed.len();
        self.metrics.idle_evictions.inc_by(removed.len() as u64);
        keep_held(&mut self.builds, owners);
        proof {
            lemma_held_locks(before.builds, owners@);
            assert(self@ =~= before.after_sweep(now as nat).after_prune(owners@));
        }
        removed
    }

    /// Where the least recently used pool is.
    fn least_recent(&self) -> (position: usize)
        requires
            self.entries@.len() > 0,
        ensures
            position < self.entries@.len(),
            forall|j: int|
                0 <= j < self.entries@.len() ==> self.entries@[position as int].last_used <= (
                #[trigger] self.entries@[j]).last_used,
    {
        let mut least: usize = 0;
        for i in 0..self.entries.len()
            invariant
                least < self.entries@.len(),
                forall|j: int|
                    0 <= j < i ==> self.entries@[least as int].last_used <= (
                    #[trigger] self.entries@[j]).last_used,
        {
            if self.entries[i].last_used < self.entries[least].last_used {
                least = i;
            }
        }
        least
    }

    /// Caches `pool` for a scope at `now`, when the build locks have `owners`.
    /// Removal and insertion are one step, so the bound holds before and after.
    pub fn insert_at(
        &mut self,
        key: K,
        pool: P,
        now: u128,
        owners: &Vec<usize>,
    ) -> (removed: Vec<P>)
        requires
            old(self).wf(),
            owners@.len() == old(self)@.builds.len(),
        ensures
            final(self).wf(),
            exists|victim: Option<K::V>|
                #[trigger] old(self)@.inserts(
                    key@,
                    pool,
                    now as nat,
                    owners@,
                    victim,
                    removed@,
                    final(self)@,
                ),
    {
        let ghost before = self@;
        let ghost scope = key@;
        let ghost mut victim: Option<K::V> = None;
        let mut removed = self.remove_idle(now, owners);
        let ghost live = before.live_entries(now as nat);
        let ghost mut left = before.idle_scopes(now as nat);
        let ghost mut order = choose|order: Seq<K::V>|
            #[trigger] enumerates(order, removed@, before.entries, left);
        proof {
            lemma_contents(self.entries@);
        }
        if let Some(i) = self.position(&key) {
            let ghost list = self.entries@;
            let replaced = self.entries.swap_remove(i);
            self.metrics.pools.dec();
            self.gauged = self.gauged - 1;
            proof {
                lemma_swap_remove(list, i as int);
                lemma_enumerates_push(order, removed@, before.entries, left, scope);
                order = order.push(scope);
                left = left.insert(scope);
            }
            removed.push(replaced.pool);
        }
        proof {
            lemma_contents(self.entries@);
            assert(contents(self.entries@) =~= before.rivals(scope, now as nat));
        }
        if self.entries.len() >= self.max_count {
            let i = self.least_recent();
            let ghost list = self.entries@;
            let ghost evicted = list[i as int].key@;
            let lru = self.entries.swap_remove(i);
            self.metrics.pools.dec();
            self.gauged = self.gauged - 1;
            self.metrics.lru_evictions.inc();
            proof {
                victim = Some(evicted);
                assert(contents(list).contains_key(evicted));
                assert forall|other: K::V| #[trigger] contents(list).contains_key(other) implies contents(
                    list,
                )[evicted].last_used <= contents(list)[other].last_used by {
                    let j = choose|j: int| 0 <= j < list.len() && (#[trigger] list[j]).key@ == other;
                    assert(list[i as int].last_used <= list[j].last_used);
                }
                lemma_swap_remove(list, i as int);
                lemma_enumerates_push(order, removed@, before.entries, left, evicted);
                order = order.push(evicted);
                left = left.insert(evicted);
            }
            removed.push(lru.pool);
        }
        let ghost list = self.entries@;
        let entry = Entry { key, pool, last_used: now };
        proof {
            lemma_contents(list);
            assert(contents(list) =~= before.survivors(scope, now as nat, victim));
            lemma_push(list, entry);
            lemma_contents(list.push(entry));
            assert(left =~= before.leaving(scope, now as nat, victim));
        }
        self.entries.push(entry);
        self.metrics.pools.inc();
        self.gauged = self.gauged + 1;
        proof {
            assert(enumerates(order, removed@, before.entries, left));
            assert(self@ =~= before.after_insert(scope, pool, now as nat, victim).after_prune(
                owners@,
            ));
            assert(before.inserts(scope, pool, now as nat, owners@, victim, removed@, self@));
        }
        removed
    }

    /// Drops the build locks that nobody holds when they have `owners`.
    pub fn drop_released(&mut self, owners: &Vec<usize>)
        requires
            old(self).wf(),
            owners@.len() == old(self)@.builds.len(),
        ensures
            final(self).wf(),
            final(self)@ == old(self)@.after_prune(owners@),
    {
        proof {
            lemma_held_locks(self@.builds, owners@);
        }
        keep_held(&mut self.builds, owners);
    }

    /// The build lock for a scope, when `current` is what is still there of the one
    /// in the table: that lock, or else a new one.
    pub fn build_lock_from(&mut self, key: &K, current: Option<BuildLock>) -> (lock: BuildLock)
        requires
            old(self).wf(),
            current matches Some(l) ==> old(self)@.builds.contains(
                BuildView { scope: key@, lock: l },
            ),
        ensures
            final(self).wf(),
            grants(old(self)@.builds, key@, current, lock, final(self)@.builds),
            final(self)@ == old(self)@.with_builds(final(self)@.builds),
    {
        let lock = grant(&mut self.builds, key, current);
        proof {
            lemma_grants(old(self)@.builds, key@, current, lock, locks(self.builds@));
        }
        lock
    }

    /// How many owners each build lock has.
    pub fn owners(&self) -> (owners: Vec<usize>)
        ensures
            counted(self@.builds, owners@),
    {
        count_owners(&self.builds)
    }

    /// The build lock of a scope, where there is one that somebody still owns.
    pub fn current_lock(&self, key: &K) -> (current: Option<BuildLock>)
        ensures
            upgraded(self@.builds, key@, current),
    {
        current_lock(&self.builds, key)
    }

    /// Looks up the pool of a scope.
    pub fn get(&mut self, key: &K) -> (pool: Option<P>) where P: Clone
        requires
            old(self).wf(),
        ensures
            final(self).wf(),
            exists|now: u128|
                #[trigger] old(self)@.reads(now) && old(self)@.looks_up(
                    key@,
                    now as nat,
                    pool,
                    final(self)@,
                ),
            !old(self)@.entries.contains_key(key@) ==> pool is None && final(self)@ == old(self)@,
    {
        let now = nanos_since(&self.epoch);
        let pool = self.get_at(key, now);
        assert(old(self)@.reads(now) && old(self)@.looks_up(key@, now as nat, pool, self@));
        pool
    }

    /// The lock to hold while building the pool of a scope, so that nobody else
    /// builds it meanwhile. Whoever asks while somebody holds it gets the same one.
    pub fn build_lock(&mut self, key: &K) -> (lock: BuildLock)
        requires
            old(self).wf(),
        ensures
            final(self).wf(),
            exists|owners: Seq<usize>, current: Option<BuildLock>|
                #[trigger] counted(old(self)@.builds, owners) && #[trigger] upgraded(
                    held_locks(old(self)@.builds, owners),
                    key@,
                    current,
                ) && old(self)@.gives_lock(key@, owners, current, lock, final(self)@),
            final(self)@.builds.contains(BuildView { scope: key@, lock }),
    {
        let owners = self.owners();
        self.drop_released(&owners);
        let current = self.current_lock(key);
        let lock = self.build_lock_from(key, current);
        proof {
            let held = held_locks(old(self)@.builds, owners@);
            lemma_held_locks(old(self)@.builds, owners@);
            lemma_grants(held, key@, current, lock, self@.builds);
            assert(counted(old(self)@.builds, owners@) && upgraded(held, key@, current));
            assert(old(self)@.gives_lock(key@, owners@, current, lock, self@));
        }
        lock
    }

    /// Caches `pool` for a scope and hands back the pools that leave. Drop those
    /// where blocking is allowed. A connection that is checked out keeps its pool
    /// alive, so eviction closes nothing that is in use.
    pub fn insert(&mut self, key: K, pool: P) -> (removed: Vec<P>)
        requires
            old(self).wf(),
        ensures
            final(self).wf(),
            exists|now: u128, owners: Seq<usize>, victim: Option<K::V>|
                #[trigger] old(self)@.reads(now) && #[trigger] counted(old(self)@.builds, owners)
                    && #[trigger] old(self)@.is_victim(key@, now as nat, victim)
                    && old(self)@.inserts(
                    key@,
                    pool,
                    now as nat,
                    owners,
                    victim,
                    removed@,
                    final(self)@,
                ),
            final(self)@.entries.contains_key(key@),
            final(self)@.entries[key@].pool == pool,
    {
        let now = nanos_since(&self.epoch);
        let owners = self.owners();
        let removed = self.insert_at(key, pool, now, &owners);
        proof {
            let victim = choose|victim: Option<K::V>|
                #[trigger] old(self)@.inserts(
                    key@,
                    pool,
                    now as nat,
                    owners@,
                    victim,
                    removed@,
                    self@,
                );
            assert(old(self)@.reads(now) && counted(old(self)@.builds, owners@)
                && old(self)@.is_victim(key@, now as nat, victim) && old(self)@.inserts(
                key@,
                pool,
                now as nat,
                owners@,
                victim,
                removed@,
                self@,
            ));
        }
        removed
    }

    /// Takes out the idle pools, which the caller drops where blocking is allowed.
    pub fn sweep(&mut self) -> (removed: Vec<P>)
        requires
            old(self).wf(),
        ensures
            final(self).wf(),
            exists|now: u128, owners: Seq<usize>|
                #[trigger] old(self)@.reads(now) && #[trigger] counted(old(self)@.builds, owners)
                    && old(self)@.sweeps(now as nat, owners, removed@, final(self)@),
    {
        let now = nanos_since(&self.epoch);
        let owners = self.owners();
        let removed = self.remove_idle(now, &owners);
        assert(old(self)@.reads(now) && counted(old(self)@.builds, owners@) && old(self)@.sweeps(
            now as nat,
            owners@,
            removed@,
            self@,
        ));
        removed
    }

    /// The number of cached pools, those that have expired and await cleanup among
    /// them.
    pub fn len(&self) -> (len: usize)
        requires
            self.wf(),
        ensures
            len == self@.entries.len(),
    {
        proof {
            lemma_contents(self.entries@);
        }
        self.entries.len()
    }

    /// The number of build locks that the cache knows of.
    pub fn build_lock_count(&self) -> (count: usize)
        ensures
            count == self@.builds.len(),
    {
        self.builds.len()
    }

    /// The metrics of the cache.
    pub fn metrics(&self) -> (metrics: &ScopedPoolMetrics)
        ensures
            metrics@ == self@.metrics,
    {
        &self.metrics
    }

    /// A reaper for this cache.
    pub fn reaper(&self) -> (reaper: Reaper)
        ensures
            reaper@ == (ReaperView {
                interval: reap_interval(self@.idle_timeout),
                doing: ReaperAction::Sleep(reap_interval(self@.idle_timeout) as u128),
            }),
    {
        Reaper::new(self.idle_timeout)
    }
}

impl<K: ScopeKey, P> Drop for ScopedPools<K, P> {
    /// The pools that go with the cache leave the gauge.
    fn drop(&mut self)
        ensures
            old(self).wf() ==> final(self)@ == old(self)@.after_drop(),
        opens_invariants none
        no_unwind
    {
        proof {
            if self.wf() {
                lemma_contents(self.entries@);
            }
        }
        self.metrics.take_off(self.gauged);
    }
}

/// Appending the pool of one more scope.
proof fn lemma_enumerates_push<S, P>(
    order: Seq<S>,
    pools: Seq<P>,
    entries: Map<S, EntryView<P>>,
    scopes: Set<S>,
    scope: S,
)
    requires
        enumerates(order, pools, entries, scopes),
        !scopes.contains(scope),
    ensures
        enumerates(
            order.push(scope),
            pools.push(entries[scope].pool),
            entries,
            scopes.insert(scope),
        ),
{
    let longer = order.push(scope);
    assert(!order.contains(scope)) by {
        assert(order.to_set().contains(scope) == order.contains(scope));
    }
    assert forall|k: S| scopes.insert(scope).contains(k) implies longer.to_set().contains(k) by {
        if k == scope {
            assert(longer[order.len() as int] == k);
        } else {
            assert(order.to_set().contains(k));
            let j = order.index_of(k);
            assert(longer[j] == k);
        }
    }
    assert forall|k: S| longer.to_set().contains(k) implies scopes.insert(scope).contains(k) by {
        let j = longer.index_of(k);
        if j < order.len() {
            assert(order[j] == k);
            assert(order.to_set().contains(k));
        }
    }
    assert(longer.to_set() =~= scopes.insert(scope));
    assert(pools.push(entries[scope].pool) =~= longer.map_values(|s: S| entries[s].pool));
}

} // verus!
