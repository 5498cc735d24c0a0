//! The cache as a mathematical value, and its operations as steps on that value.
use crate::outside::time::is_reading;
use crate::outside::lock::{is_count, is_new, is_upgrade, BuildLock};
use crate::metrics::MetricsView;
use crate::outside::metric::{CounterView, GaugeView};
use std::time::Instant;
use vstd::prelude::*;

verus! {

/// A cached pool and when it was last used, in nanoseconds on the cache's clock.
#[verifier::ext_equal]
pub struct EntryView<P> {
    pub pool: P,
    pub last_used: nat,
}

/// A build lock that has been handed out for a scope.
#[verifier::ext_equal]
pub struct BuildView<S> {
    pub scope: S,
    pub lock: BuildLock,
}

/// The cache.
#[verifier::ext_equal]
#[verifier::reject_recursive_types(S)]
pub struct PoolsView<S, P> {
    pub entries: Map<S, EntryView<P>>,
    pub builds: Seq<BuildView<S>>,
    /// In nanoseconds.
    pub idle_timeout: nat,
    pub max_count: nat,
    pub metrics: MetricsView,
    /// The instant that the cache's clock counts from.
    pub epoch: Instant,
}

/// Whether a pool has gone unused for `timeout` at `now`.
pub open spec fn is_idle<P>(entry: EntryView<P>, now: nat, timeout: nat) -> bool {
    now - entry.last_used >= timeout
}

/// Whether no pool was used less recently than that of `scope`.
pub open spec fn least_recently_used<S, P>(entries: Map<S, EntryView<P>>, scope: S) -> bool {
    &&& entries.contains_key(scope)
    &&& forall|other: S| #[trigger]
        entries.contains_key(other) ==> entries[scope].last_used <= entries[other].last_used
}

/// Whether `pools` are the pools of the scopes in `order`, and `order` holds each
/// of `scopes` once.
pub open spec fn enumerates<S, P>(
    order: Seq<S>,
    pools: Seq<P>,
    entries: Map<S, EntryView<P>>,
    scopes: Set<S>,
) -> bool {
    &&& order.no_duplicates()
    &&& order.to_set() == scopes
    &&& pools == order.map_values(|scope: S| entries[scope].pool)
}

/// Whether `pools` are the pools of `scopes`, each once, in some order.
pub open spec fn are_pools_of<S, P>(
    pools: Seq<P>,
    entries: Map<S, EntryView<P>>,
    scopes: Set<S>,
) -> bool {
    exists|order: Seq<S>| #[trigger] enumerates(order, pools, entries, scopes)
}

impl<S, P> PoolsView<S, P> {
    /// What every operation keeps: the bound on the pools, the gauge in step with
    /// them, and a lock of its own for each scope that is being built.
    pub open spec fn inv(self) -> bool {
        &&& self.entries.dom().finite()
        &&& self.entries.len() <= self.max_count
        &&& 0 < self.max_count
        &&& 0 < self.idle_timeout
        &&& self.metrics.pools.net == self.entries.len()
        &&& own_locks(self.builds)
    }

    /// The scopes whose pools are idle at `now`.
    pub open spec fn idle_scopes(self, now: nat) -> Set<S> {
        self.entries.dom().filter(
            |scope: S| is_idle(self.entries[scope], now, self.idle_timeout),
        )
    }

    /// The entries that are not idle at `now`.
    pub open spec fn live_entries(self, now: nat) -> Map<S, EntryView<P>> {
        self.entries.remove_keys(self.idle_scopes(now))
    }

    /// The cache with other entries, the gauge moved by as much as their number.
    pub open spec fn with_entries(self, entries: Map<S, EntryView<P>>) -> Self {
        PoolsView {
            entries,
            metrics: MetricsView {
                pools: GaugeView {
                    net: self.metrics.pools.net + entries.len() - self.entries.len(),
                    ..self.metrics.pools
                },
                ..self.metrics
            },
            ..self
        }
    }

    /// Idle pools go, and each counts as an idle eviction.
    pub open spec fn after_sweep(self, now: nat) -> Self {
        let swept = self.with_entries(self.live_entries(now));
        PoolsView {
            metrics: MetricsView {
                idle_evictions: CounterView {
                    total: self.metrics.idle_evictions.total + self.idle_scopes(now).len(),
                    ..self.metrics.idle_evictions
                },
                ..swept.metrics
            },
            ..swept
        }
    }

    /// Whether the cache has a pool for `scope` that is not idle at `now`.
    pub open spec fn hits(self, scope: S, now: nat) -> bool {
        self.entries.contains_key(scope) && !is_idle(self.entries[scope], now, self.idle_timeout)
    }

    /// A hit is a use; a miss changes nothing, and revives nothing.
    pub open spec fn after_get(self, scope: S, now: nat) -> Self {
        if self.hits(scope, now) {
            PoolsView {
                entries: self.entries.insert(
                    scope,
                    EntryView { last_used: now, ..self.entries[scope] },
                ),
                ..self
            }
        } else {
            self
        }
    }

    /// The other entries that compete with a new pool for `scope`: those that
    /// are neither idle nor the one that it replaces.
    pub open spec fn rivals(self, scope: S, now: nat) -> Map<S, EntryView<P>> {
        self.live_entries(now).remove(scope)
    }

    /// Whether a new pool for `scope` finds the cache full.
    pub open spec fn is_full_for(self, scope: S, now: nat) -> bool {
        self.rivals(scope, now).len() >= self.max_count
    }

    /// Whether `victim` may make room for a new pool for `scope`: a least recently
    /// used pool if the cache is full, and else none.
    pub open spec fn is_victim(self, scope: S, now: nat, victim: Option<S>) -> bool {
        match victim {
            Some(v) => self.is_full_for(scope, now) && least_recently_used(
                self.rivals(scope, now),
                v,
            ),
            None => !self.is_full_for(scope, now),
        }
    }

    /// The entries once `victim` has made room.
    pub open spec fn survivors(self, scope: S, now: nat, victim: Option<S>) -> Map<
        S,
        EntryView<P>,
    > {
        match victim {
            Some(v) => self.rivals(scope, now).remove(v),
            None => self.rivals(scope, now),
        }
    }

    /// Idle pools go, `pool` takes the place of the pool of `scope` where there is
    /// one, and `victim` makes room.
    pub open spec fn after_insert(
        self,
        scope: S,
        pool: P,
        now: nat,
        victim: Option<S>,
    ) -> Self {
        let swept = self.after_sweep(now);
        let inserted = swept.with_entries(
            self.survivors(scope, now, victim).insert(scope, EntryView { pool, last_used: now }),
        );
        PoolsView {
            metrics: MetricsView {
                lru_evictions: CounterView {
                    total: self.metrics.lru_evictions.total + if victim is Some {
                        1nat
                    } else {
                        0nat
                    },
                    ..self.metrics.lru_evictions
                },
                ..inserted.metrics
            },
            ..inserted
        }
    }

    /// The scopes whose pools leave when one for `scope` comes in.
    pub open spec fn leaving(self, scope: S, now: nat, victim: Option<S>) -> Set<S> {
        self.entries.dom().difference(self.survivors(scope, now, victim).dom())
    }

    /// The cache with other build locks.
    pub open spec fn with_builds(self, builds: Seq<BuildView<S>>) -> Self {
        PoolsView { builds, ..self }
    }

    /// The locks that nobody holds, when they have `owners`, go.
    pub open spec fn after_prune(self, owners: Seq<usize>) -> Self {
        self.with_builds(held_locks(self.builds, owners))
    }

    /// Looking up `scope` at `now` finds `pool`, a clone of the cached one, and
    /// leaves `after`.
    pub open spec fn looks_up(self, scope: S, now: nat, pool: Option<P>, after: Self) -> bool
        where P: Clone
    {
        &&& after == self.after_get(scope, now)
        &&& match pool {
            Some(p) => self.hits(scope, now) && cloned(self.entries[scope].pool, p),
            None => !self.hits(scope, now),
        }
    }

    /// Sweeping at `now`, when the locks have `owners`, takes out `removed` and
    /// leaves `after`.
    pub open spec fn sweeps(
        self,
        now: nat,
        owners: Seq<usize>,
        removed: Seq<P>,
        after: Self,
    ) -> bool {
        &&& owners.len() == self.builds.len()
        &&& after == self.after_sweep(now).after_prune(owners)
        &&& are_pools_of(removed, self.entries, self.idle_scopes(now))
    }

    /// Inserting `pool` for `scope` at `now`, when the locks have `owners`, takes
    /// out `removed`, among them the pool of `victim`, and leaves `after`.
    pub open spec fn inserts(
        self,
        scope: S,
        pool: P,
        now: nat,
        owners: Seq<usize>,
        victim: Option<S>,
        removed: Seq<P>,
        after: Self,
    ) -> bool {
        &&& owners.len() == self.builds.len()
        &&& self.is_victim(scope, now, victim)
        &&& after == self.after_insert(scope, pool, now, victim).after_prune(owners)
        &&& are_pools_of(removed, self.entries, self.leaving(scope, now, victim))
    }

    /// Asking for the build lock of `scope`, when the locks have `owners` and
    /// upgrading that of `scope` gives `current`, gives `lock` and leaves `after`.
    pub open spec fn gives_lock(
        self,
        scope: S,
        owners: Seq<usize>,
        current: Option<BuildLock>,
        lock: BuildLock,
        after: Self,
    ) -> bool {
        let held = held_locks(self.builds, owners);
        &&& owners.len() == self.builds.len()
        &&& current matches Some(l) ==> held.contains(BuildView { scope, lock: l })
        &&& grants(held, scope, current, lock, after.builds)
        &&& after == self.with_builds(after.builds)
    }

    /// The pools that go with the cache leave the gauge.
    pub open spec fn after_drop(self) -> Self {
        PoolsView {
            metrics: MetricsView {
                pools: GaugeView { net: 0, ..self.metrics.pools },
                ..self.metrics
            },
            ..self
        }
    }

    /// Whether `now` is what the clock of the cache read.
    pub open spec fn reads(self, now: u128) -> bool {
        is_reading(self.epoch, now)
    }
}

/// No scope has two locks, and no lock two scopes.
pub open spec fn own_locks<S>(builds: Seq<BuildView<S>>) -> bool {
    forall|i: int, j: int|
        0 <= i < j < builds.len() ==> (#[trigger] builds[i]).scope != (#[trigger] builds[j]).scope
            && builds[i].lock != builds[j].lock
}

/// Whether `owners` are the numbers of owners that were counted, one for each lock.
pub open spec fn counted<S>(builds: Seq<BuildView<S>>, owners: Seq<usize>) -> bool {
    &&& owners.len() == builds.len()
    &&& forall|i: int|
        0 <= i < owners.len() ==> is_count((#[trigger] builds[i]).lock, #[trigger] owners[i])
}

/// The locks that somebody still owns.
pub open spec fn held_locks<S>(builds: Seq<BuildView<S>>, owners: Seq<usize>) -> Seq<BuildView<S>>
    decreases builds.len(),
{
    if builds.len() == 0 {
        builds
    } else {
        let rest = held_locks(builds.drop_last(), owners.drop_last());
        if owners.last() > 0 {
            rest.push(builds.last())
        } else {
            rest
        }
    }
}

/// The locks of the other scopes.
pub open spec fn other_locks<S>(builds: Seq<BuildView<S>>, scope: S) -> Seq<BuildView<S>>
    decreases builds.len(),
{
    if builds.len() == 0 {
        builds
    } else {
        let rest = other_locks(builds.drop_last(), scope);
        if builds.last().scope != scope {
            rest.push(builds.last())
        } else {
            rest
        }
    }
}

/// Whether there is a lock for `scope`.
pub open spec fn has_lock<S>(builds: Seq<BuildView<S>>, scope: S) -> bool {
    exists|i: int| 0 <= i < builds.len() && (#[trigger] builds[i]).scope == scope
}

/// Whether `current` is what upgrading the lock of `scope` gave: that lock, or
/// nothing, as it is where the scope has no lock.
pub open spec fn upgraded<S>(
    builds: Seq<BuildView<S>>,
    scope: S,
    current: Option<BuildLock>,
) -> bool {
    if has_lock(builds, scope) {
        exists|i: int|
            0 <= i < builds.len() && (#[trigger] builds[i]).scope == scope && is_upgrade(
                builds[i].lock,
                current,
            ) && (current matches Some(l) ==> l == builds[i].lock)
    } else {
        current is None
    }
}

/// Whether asking for the lock of `scope`, when `current` is still there, gives
/// `lock` and leaves the locks `after`: that one, or else a new one, which no
/// scope has had.
pub open spec fn grants<S>(
    builds: Seq<BuildView<S>>,
    scope: S,
    current: Option<BuildLock>,
    lock: BuildLock,
    after: Seq<BuildView<S>>,
) -> bool {
    match current {
        Some(l) => lock == l && after == builds,
        None => {
            &&& is_new(lock)
            &&& forall|i: int| 0 <= i < builds.len() ==> (#[trigger] builds[i]).lock != lock
            &&& after == other_locks(builds, scope).push(BuildView { scope, lock })
        },
    }
}

} // verus!
