//! What each operation of a cache does, said of its arguments, its results and the
//! plain contents of the cache before and after.
use crate::laws::{law_insert_keeps_invariant, law_insert_loses_nothing};
use crate::locks::{lemma_grants, lemma_held_locks};
use crate::model::{
    counted, enumerates, grants, has_lock, held_locks, other_locks, upgraded, BuildView, PoolsView,
};
use crate::outside::lock::{is_count, is_upgrade, BuildLock, NewLock, OwnerCount, Upgrade};
use crate::outside::time::Reading;
use vstd::prelude::*;

verus! {

/// A lookup finds the pool of a scope exactly if the cache has one that was used
/// less than the idle timeout ago.
pub proof fn law_get_finds_what_is_in_use<S, P: Clone>(
    before: PoolsView<S, P>,
    scope: S,
    now: nat,
    found: Option<P>,
    after: PoolsView<S, P>,
)
    requires
        before.looks_up(scope, now, found, after),
    ensures
        found is Some <==> before.entries.contains_key(scope) && now
            - before.entries[scope].last_used < before.idle_timeout,
        found matches Some(pool) ==> cloned(before.entries[scope].pool, pool),
{
}

/// A lookup that finds a pool is a use of it, and of no other; one that finds none
/// changes nothing.
pub proof fn law_get_is_a_use<S, P: Clone>(
    before: PoolsView<S, P>,
    scope: S,
    now: nat,
    found: Option<P>,
    after: PoolsView<S, P>,
)
    requires
        before.looks_up(scope, now, found, after),
    ensures
        found is None ==> after == before,
        found is Some ==> after.entries.contains_key(scope) && after.entries[scope].last_used
            == now && after.entries[scope].pool == before.entries[scope].pool,
        forall|other: S| #[trigger]
            after.entries.contains_key(other) == before.entries.contains_key(other),
        forall|other: S|
            other != scope && before.entries.contains_key(other) ==> #[trigger] after.entries[other]
                == before.entries[other],
        after.builds == before.builds,
        after.metrics == before.metrics,
        after.idle_timeout == before.idle_timeout,
        after.max_count == before.max_count,
        after.epoch == before.epoch,
{
}

/// A pool that was found is found again as long as less than the idle timeout has
/// passed since, and not after: every use starts the time anew.
pub proof fn law_use_starts_the_time_anew<S, P: Clone>(
    before: PoolsView<S, P>,
    scope: S,
    now: nat,
    found: Option<P>,
    between: PoolsView<S, P>,
    later: nat,
    again: Option<P>,
    after: PoolsView<S, P>,
)
    requires
        before.looks_up(scope, now, found, between),
        found is Some,
        between.looks_up(scope, later, again, after),
    ensures
        again is Some <==> later - now < before.idle_timeout,
        again matches Some(pool) ==> cloned(before.entries[scope].pool, pool),
{
}

/// A pool that was inserted is found as long as less than the idle timeout has
/// passed since, and not after.
pub proof fn law_insertion_is_a_use<S, P: Clone>(
    before: PoolsView<S, P>,
    scope: S,
    pool: P,
    now: nat,
    owners: Seq<usize>,
    victim: Option<S>,
    removed: Seq<P>,
    between: PoolsView<S, P>,
    later: nat,
    found: Option<P>,
    after: PoolsView<S, P>,
)
    requires
        before.inserts(scope, pool, now, owners, victim, removed, between),
        between.looks_up(scope, later, found, after),
    ensures
        found is Some <==> later - now < before.idle_timeout,
        found matches Some(p) ==> cloned(pool, p),
{
}

/// A sweep takes out a pool exactly if it has not been used for the idle timeout,
/// and leaves the others as they are.
pub proof fn law_sweep_takes_exactly_the_idle<S, P>(
    before: PoolsView<S, P>,
    now: nat,
    owners: Seq<usize>,
    removed: Seq<P>,
    after: PoolsView<S, P>,
)
    requires
        before.inv(),
        before.sweeps(now, owners, removed, after),
    ensures
        forall|scope: S| #[trigger]
            after.entries.contains_key(scope) <==> before.entries.contains_key(scope) && now
                - before.entries[scope].last_used < before.idle_timeout,
        forall|scope: S| #[trigger]
            after.entries.contains_key(scope) ==> after.entries[scope] == before.entries[scope],
        after.idle_timeout == before.idle_timeout,
        after.max_count == before.max_count,
        after.epoch == before.epoch,
{
}

/// A sweep hands back the pool of each scope that leaves, once, and nothing else.
pub proof fn law_sweep_hands_back_what_leaves<S, P>(
    before: PoolsView<S, P>,
    now: nat,
    owners: Seq<usize>,
    removed: Seq<P>,
    after: PoolsView<S, P>,
) -> (order: Seq<S>)
    requires
        before.inv(),
        before.sweeps(now, owners, removed, after),
    ensures
        order.no_duplicates(),
        order.len() == removed.len(),
        forall|i: int|
            0 <= i < order.len() ==> before.entries.contains_key(#[trigger] order[i])
                && !after.entries.contains_key(order[i]) && removed[i]
                == before.entries[order[i]].pool,
        forall|scope: S|
            before.entries.contains_key(scope) && !after.entries.contains_key(scope)
                ==> #[trigger] order.contains(scope),
        removed.len() + after.entries.len() == before.entries.len(),
{
    let idle = before.idle_scopes(now);
    let order = choose|order: Seq<S>| #[trigger] enumerates(order, removed, before.entries, idle);
    assert forall|i: int| 0 <= i < order.len() implies before.entries.contains_key(
        #[trigger] order[i],
    ) && !after.entries.contains_key(order[i]) && removed[i] == before.entries[order[i]].pool by {
        assert(order.to_set().contains(order[i]));
    }
    assert forall|scope: S|
        before.entries.contains_key(scope) && !after.entries.contains_key(
            scope,
        ) implies #[trigger] order.contains(scope) by {
        assert(idle.contains(scope));
        assert(order.to_set().contains(scope));
    }
    order.unique_seq_to_set();
    vstd::set_lib::lemma_len_subset(idle, before.entries.dom());
    before.entries.lemma_remove_keys_len(idle);
    order
}

/// A sweep reports each pool that leaves as an idle eviction and takes it off the
/// gauge, and reports nothing else.
pub proof fn law_sweep_reports_what_leaves<S, P>(
    before: PoolsView<S, P>,
    now: nat,
    owners: Seq<usize>,
    removed: Seq<P>,
    after: PoolsView<S, P>,
)
    requires
        before.inv(),
        before.sweeps(now, owners, removed, after),
    ensures
        after.metrics.idle_evictions.total == before.metrics.idle_evictions.total + removed.len(),
        after.metrics.pools.net == before.metrics.pools.net - removed.len(),
        after.metrics.lru_evictions == before.metrics.lru_evictions,
        after.metrics.pools.metric == before.metrics.pools.metric,
        after.metrics.pools.family == before.metrics.pools.family,
        after.metrics.pools.labels == before.metrics.pools.labels,
        after.metrics.idle_evictions.metric == before.metrics.idle_evictions.metric,
        after.metrics.idle_evictions.family == before.metrics.idle_evictions.family,
        after.metrics.idle_evictions.labels == before.metrics.idle_evictions.labels,
{
    law_sweep_hands_back_what_leaves(before, now, owners, removed, after);
    let idle = before.idle_scopes(now);
    vstd::set_lib::lemma_len_subset(idle, before.entries.dom());
    before.entries.lemma_remove_keys_len(idle);
}

/// Of the locks, those stay that have an owner, and each scope keeps its own.
pub proof fn law_locks_with_owners_stay<S, P>(
    before: PoolsView<S, P>,
    owners: Seq<usize>,
    after: PoolsView<S, P>,
)
    requires
        before.inv(),
        owners.len() == before.builds.len(),
        after == before.after_prune(owners),
    ensures
        forall|build: BuildView<S>| #[trigger]
            after.builds.contains(build) <==> exists|i: int|
                0 <= i < before.builds.len() && #[trigger] before.builds[i] == build && owners[i] > 0,
        forall|i: int, j: int|
            0 <= i < j < after.builds.len() ==> (#[trigger] after.builds[i]).scope != (
            #[trigger] after.builds[j]).scope && after.builds[i].lock != after.builds[j].lock,
        after.entries == before.entries,
        after.metrics == before.metrics,
        after.idle_timeout == before.idle_timeout,
        after.max_count == before.max_count,
        after.epoch == before.epoch,
{
    lemma_held_locks(before.builds, owners);
    let held = held_locks(before.builds, owners);
    assert forall|build: BuildView<S>| #[trigger] after.builds.contains(build) implies exists|i: int|
        0 <= i < before.builds.len() && #[trigger] before.builds[i] == build && owners[i] > 0 by {
        let k = choose|k: int| 0 <= k < held.len() && held[k] == build;
        let i = choose|i: int|
            0 <= i < before.builds.len() && owners[i] > 0 && #[trigger] before.builds[i] == held[k];
        assert(before.builds[i] == build);
    }
    assert forall|build: BuildView<S>|
        (exists|i: int|
            0 <= i < before.builds.len() && #[trigger] before.builds[i] == build && owners[i] > 0)
        implies #[trigger] after.builds.contains(build) by {
        let i = choose|i: int|
            0 <= i < before.builds.len() && #[trigger] before.builds[i] == build && owners[i] > 0;
        assert(owners[i] > 0);
    }
}

/// A sweep drops the locks without an owner and no others.
pub proof fn law_sweep_drops_released_locks<S, P>(
    before: PoolsView<S, P>,
    now: nat,
    owners: Seq<usize>,
    removed: Seq<P>,
    after: PoolsView<S, P>,
)
    requires
        before.inv(),
        before.sweeps(now, owners, removed, after),
    ensures
        owners.len() == before.builds.len(),
        forall|build: BuildView<S>| #[trigger]
            after.builds.contains(build) <==> exists|i: int|
                0 <= i < before.builds.len() && #[trigger] before.builds[i] == build && owners[i] > 0,
        forall|i: int, j: int|
            0 <= i < j < after.builds.len() ==> (#[trigger] after.builds[i]).scope != (
            #[trigger] after.builds[j]).scope && after.builds[i].lock != after.builds[j].lock,
{
    let pruned = before.after_prune(owners);
    law_locks_with_owners_stay(before, owners, pruned);
    assert(after.builds == pruned.builds);
}

/// An insertion drops the locks without an owner and no others.
pub proof fn law_insert_drops_released_locks<S, P>(
    before: PoolsView<S, P>,
    scope: S,
    pool: P,
    now: nat,
    owners: Seq<usize>,
    victim: Option<S>,
    removed: Seq<P>,
    after: PoolsView<S, P>,
)
    requires
        before.inv(),
        before.inserts(scope, pool, now, owners, victim, removed, after),
    ensures
        owners.len() == before.builds.len(),
        forall|build: BuildView<S>| #[trigger]
            after.builds.contains(build) <==> exists|i: int|
                0 <= i < before.builds.len() && #[trigger] before.builds[i] == build && owners[i] > 0,
        forall|i: int, j: int|
            0 <= i < j < after.builds.len() ==> (#[trigger] after.builds[i]).scope != (
            #[trigger] after.builds[j]).scope && after.builds[i].lock != after.builds[j].lock,
{
    let pruned = before.after_prune(owners);
    law_locks_with_owners_stay(before, owners, pruned);
    assert(after.builds == pruned.builds);
}

/// After an insertion the scope has the new pool, used just now. Every other pool
/// that is cached was cached before, and was used less than the idle timeout ago.
pub proof fn law_insert_caches_the_pool<S, P>(
    before: PoolsView<S, P>,
    scope: S,
    pool: P,
    now: nat,
    owners: Seq<usize>,
    victim: Option<S>,
    removed: Seq<P>,
    after: PoolsView<S, P>,
)
    requires
        before.inv(),
        before.inserts(scope, pool, now, owners, victim, removed, after),
    ensures
        after.entries.contains_key(scope),
        after.entries[scope].pool == pool,
        after.entries[scope].last_used == now,
        forall|other: S|
            other != scope && #[trigger] after.entries.contains_key(other)
                ==> before.entries.contains_key(other) && after.entries[other]
                == before.entries[other] && now - before.entries[other].last_used
                < before.idle_timeout,
        after.entries.len() <= before.max_count,
        after.idle_timeout == before.idle_timeout,
        after.max_count == before.max_count,
        after.epoch == before.epoch,
{
    lemma_live_others(before, scope, now);
    assert(after.entries.len() <= before.survivors(scope, now, victim).len() + 1);
}

/// The pools of other scopes that are not idle are those that a new one competes
/// with.
proof fn lemma_live_others<S, P>(before: PoolsView<S, P>, scope: S, now: nat)
    requires
        before.inv(),
    ensures
        before.rivals(scope, now).dom() == before.entries.dom().filter(
            |s: S| s != scope && now - before.entries[s].last_used < before.idle_timeout,
        ),
        before.rivals(scope, now).dom().finite(),
        before.rivals(scope, now).len() <= before.entries.len(),
{
    assert(before.rivals(scope, now).dom() =~= before.entries.dom().filter(
        |s: S| s != scope && now - before.entries[s].last_used < before.idle_timeout,
    ));
    vstd::set_lib::lemma_len_subset(before.rivals(scope, now).dom(), before.entries.dom());
}

/// An insertion takes out every pool that has not been used for the idle timeout,
/// whether or not the cache is full, and reports each as an idle eviction.
pub proof fn law_insert_takes_the_idle<S, P>(
    before: PoolsView<S, P>,
    scope: S,
    pool: P,
    now: nat,
    owners: Seq<usize>,
    victim: Option<S>,
    removed: Seq<P>,
    after: PoolsView<S, P>,
)
    requires
        before.inv(),
        before.inserts(scope, pool, now, owners, victim, removed, after),
    ensures
        forall|other: S|
            #![trigger before.entries.contains_key(other)]
            before.entries.contains_key(other) && now - before.entries[other].last_used
                >= before.idle_timeout ==> removed.contains(before.entries[other].pool) && (other
                != scope ==> !after.entries.contains_key(other)),
        after.metrics.idle_evictions.total == before.metrics.idle_evictions.total
            + before.entries.dom().filter(
            |s: S| now - before.entries[s].last_used >= before.idle_timeout,
        ).len(),
        after.metrics.idle_evictions.metric == before.metrics.idle_evictions.metric,
        after.metrics.idle_evictions.family == before.metrics.idle_evictions.family,
        after.metrics.idle_evictions.labels == before.metrics.idle_evictions.labels,
{
    let order = law_insert_hands_back_what_leaves(
        before,
        scope,
        pool,
        now,
        owners,
        victim,
        removed,
        after,
    );
    assert forall|other: S|
        #![trigger before.entries.contains_key(other)]
        before.entries.contains_key(other) && now - before.entries[other].last_used
            >= before.idle_timeout implies removed.contains(before.entries[other].pool) && (other
        != scope ==> !after.entries.contains_key(other)) by {
        assert(order.contains(other));
        let i = order.index_of(other);
        assert(removed[i] == before.entries[other].pool);
    }
    assert(before.entries.dom().filter(
        |s: S| now - before.entries[s].last_used >= before.idle_timeout,
    ) =~= before.idle_scopes(now));
}

/// An insertion hands back the old pool of the scope and the pool of each scope
/// that leaves, once, and nothing else.
pub proof fn law_insert_hands_back_what_leaves<S, P>(
    before: PoolsView<S, P>,
    scope: S,
    pool: P,
    now: nat,
    owners: Seq<usize>,
    victim: Option<S>,
    removed: Seq<P>,
    after: PoolsView<S, P>,
) -> (order: Seq<S>)
    requires
        before.inv(),
        before.inserts(scope, pool, now, owners, victim, removed, after),
    ensures
        order.no_duplicates(),
        order.len() == removed.len(),
        forall|i: int|
            0 <= i < order.len() ==> before.entries.contains_key(#[trigger] order[i]) && (order[i]
                == scope || !after.entries.contains_key(order[i])) && removed[i]
                == before.entries[order[i]].pool,
        forall|other: S|
            before.entries.contains_key(other) && (other == scope || !after.entries.contains_key(
                other,
            )) ==> #[trigger] order.contains(other),
{
    let left = before.leaving(scope, now, victim);
    let order = choose|order: Seq<S>| #[trigger] enumerates(order, removed, before.entries, left);
    assert forall|i: int| 0 <= i < order.len() implies before.entries.contains_key(
        #[trigger] order[i],
    ) && (order[i] == scope || !after.entries.contains_key(order[i])) && removed[i]
        == before.entries[order[i]].pool by {
        assert(order.to_set().contains(order[i]));
    }
    assert forall|other: S|
        before.entries.contains_key(other) && (other == scope || !after.entries.contains_key(
            other,
        )) implies #[trigger] order.contains(other) by {
        assert(left.contains(other));
        assert(order.to_set().contains(other));
    }
    order
}

/// A pool that is not idle makes room exactly if the pools of other scopes that
/// are not idle fill the cache. Then one does, none of them was used less recently,
/// and it is reported; otherwise no such eviction is.
pub proof fn law_insert_evicts_one_when_full<S, P>(
    before: PoolsView<S, P>,
    scope: S,
    pool: P,
    now: nat,
    owners: Seq<usize>,
    victim: Option<S>,
    removed: Seq<P>,
    after: PoolsView<S, P>,
)
    requires
        before.inv(),
        before.inserts(scope, pool, now, owners, victim, removed, after),
    ensures
        ({
            let live = before.entries.dom().filter(
                |s: S| s != scope && now - before.entries[s].last_used < before.idle_timeout,
            );
            let evicted = live.difference(after.entries.dom());
            &&& live.len() >= before.max_count ==> evicted.len() == 1
            &&& live.len() < before.max_count ==> evicted.len() == 0
            &&& evicted.finite()
            &&& forall|v: S, other: S| #[trigger]
                evicted.contains(v) && #[trigger] live.contains(other)
                    ==> before.entries[v].last_used <= before.entries[other].last_used
            &&& after.metrics.lru_evictions.total == before.metrics.lru_evictions.total
                + evicted.len()
        }),
        after.metrics.lru_evictions.metric == before.metrics.lru_evictions.metric,
        after.metrics.lru_evictions.family == before.metrics.lru_evictions.family,
        after.metrics.lru_evictions.labels == before.metrics.lru_evictions.labels,
{
    lemma_live_others(before, scope, now);
    let live = before.entries.dom().filter(
        |s: S| s != scope && now - before.entries[s].last_used < before.idle_timeout,
    );
    let evicted = live.difference(after.entries.dom());
    let rivals = before.rivals(scope, now);
    match victim {
        Some(v) => {
            assert(rivals.contains_key(v));
            assert(evicted =~= Set::<S>::empty().insert(v));
            assert forall|other: S| #[trigger] live.contains(other) implies before.entries[v].last_used
                <= before.entries[other].last_used by {
                assert(rivals.contains_key(other));
            }
        },
        None => {
            assert(evicted =~= Set::<S>::empty());
        },
    }
}

/// An insertion that finds room reports no eviction for lack of it, also where it
/// replaces a pool, idle or not.
pub proof fn law_insert_with_room_evicts_nobody<S, P>(
    before: PoolsView<S, P>,
    scope: S,
    pool: P,
    now: nat,
    owners: Seq<usize>,
    victim: Option<S>,
    removed: Seq<P>,
    after: PoolsView<S, P>,
)
    requires
        before.inv(),
        before.inserts(scope, pool, now, owners, victim, removed, after),
        before.entries.len() < before.max_count || before.entries.contains_key(scope),
    ensures
        after.metrics.lru_evictions == before.metrics.lru_evictions,
        forall|other: S|
            other != scope && #[trigger] before.entries.contains_key(other) && now
                - before.entries[other].last_used < before.idle_timeout
                ==> after.entries.contains_key(other),
{
    lemma_live_others(before, scope, now);
    if before.entries.contains_key(scope) {
        vstd::set_lib::lemma_len_subset(
            before.rivals(scope, now).dom(),
            before.entries.dom().remove(scope),
        );
    }
}

/// An insertion moves the gauge by as much as the number of cached pools.
pub proof fn law_insert_moves_the_gauge<S, P>(
    before: PoolsView<S, P>,
    scope: S,
    pool: P,
    now: nat,
    owners: Seq<usize>,
    victim: Option<S>,
    removed: Seq<P>,
    after: PoolsView<S, P>,
)
    requires
        before.inv(),
        before.inserts(scope, pool, now, owners, victim, removed, after),
    ensures
        after.metrics.pools.net - before.metrics.pools.net == after.entries.len()
            - before.entries.len(),
        after.metrics.pools.net == before.metrics.pools.net + 1 - removed.len(),
        after.metrics.pools.metric == before.metrics.pools.metric,
        after.metrics.pools.family == before.metrics.pools.family,
        after.metrics.pools.labels == before.metrics.pools.labels,
{
    law_insert_loses_nothing(before, scope, pool, now, owners, victim, removed, after);
    law_insert_keeps_invariant(
        before,
        scope,
        pool,
        now,
        owners,
        victim,
        removed,
        after,
    );
}

/// When a cache goes, its pools leave the gauge, and the evictions that it
/// reported stay reported.
pub proof fn law_drop_empties_the_gauge<S, P>(cache: PoolsView<S, P>)
    ensures
        cache.after_drop().metrics.pools.net == 0,
        cache.after_drop().metrics.pools.metric == cache.metrics.pools.metric,
        cache.after_drop().metrics.pools.family == cache.metrics.pools.family,
        cache.after_drop().metrics.pools.labels == cache.metrics.pools.labels,
        cache.after_drop().metrics.idle_evictions == cache.metrics.idle_evictions,
        cache.after_drop().metrics.lru_evictions == cache.metrics.lru_evictions,
{
}

/// The time of an operation is what the clock read since the cache's epoch, all of
/// it.
pub proof fn law_time_is_what_the_clock_read<S, P>(cache: PoolsView<S, P>, now: u128) -> (reading:
    Reading)
    requires
        cache.reads(now),
    ensures
        reading.since() == cache.epoch,
        reading.at() == now,
{
    choose|reading: Reading| reading.since() == cache.epoch && #[trigger] reading.at() == now
}

/// By the clock, a pool that nobody has used since it was inserted goes with the
/// first sweep that comes at least the idle timeout later, and is handed back; until
/// then it stays.
pub proof fn law_sweep_goes_by_the_clock<S, P>(
    before: PoolsView<S, P>,
    scope: S,
    pool: P,
    inserted: u128,
    owners: Seq<usize>,
    victim: Option<S>,
    removed: Seq<P>,
    between: PoolsView<S, P>,
    swept: u128,
    owners_then: Seq<usize>,
    removed_then: Seq<P>,
    after: PoolsView<S, P>,
) -> (readings: (Reading, Reading))
    requires
        before.inv(),
        before.reads(inserted),
        before.inserts(scope, pool, inserted as nat, owners, victim, removed, between),
        between.reads(swept),
        between.sweeps(swept as nat, owners_then, removed_then, after),
    ensures
        readings.0.since() == before.epoch,
        readings.1.since() == before.epoch,
        readings.1.at() - readings.0.at() >= before.idle_timeout <==> !after.entries.contains_key(
            scope,
        ),
        readings.1.at() - readings.0.at() >= before.idle_timeout ==> removed_then.contains(pool),
{
    let first = law_time_is_what_the_clock_read(before, inserted);
    let second = law_time_is_what_the_clock_read(between, swept);
    law_insert_keeps_invariant(
        before,
        scope,
        pool,
        inserted as nat,
        owners,
        victim,
        removed,
        between,
    );
    let order = law_sweep_hands_back_what_leaves(
        between,
        swept as nat,
        owners_then,
        removed_then,
        after,
    );
    if !after.entries.contains_key(scope) {
        assert(order.contains(scope));
        let i = order.index_of(scope);
        assert(removed_then[i] == between.entries[scope].pool);
    }
    (first, second)
}

/// By the clock, a pool that was inserted is found as long as less than the idle
/// timeout has passed, and not after.
pub proof fn law_get_goes_by_the_clock<S, P: Clone>(
    before: PoolsView<S, P>,
    scope: S,
    pool: P,
    inserted: u128,
    owners: Seq<usize>,
    victim: Option<S>,
    removed: Seq<P>,
    between: PoolsView<S, P>,
    asked: u128,
    found: Option<P>,
    after: PoolsView<S, P>,
) -> (readings: (Reading, Reading))
    requires
        before.reads(inserted),
        before.inserts(scope, pool, inserted as nat, owners, victim, removed, between),
        between.reads(asked),
        between.looks_up(scope, asked as nat, found, after),
    ensures
        readings.0.since() == before.epoch,
        readings.1.since() == before.epoch,
        found is Some <==> readings.1.at() - readings.0.at() < before.idle_timeout,
        found matches Some(p) ==> cloned(pool, p),
{
    (
        law_time_is_what_the_clock_read(before, inserted),
        law_time_is_what_the_clock_read(between, asked),
    )
}

/// The owners of each lock are as many as were counted of that very lock.
pub proof fn law_owners_are_counted<S>(builds: Seq<BuildView<S>>, owners: Seq<usize>, i: int) -> (c:
    OwnerCount)
    requires
        counted(builds, owners),
        0 <= i < builds.len(),
    ensures
        owners.len() == builds.len(),
        c.of() == builds[i].lock,
        c.count() == owners[i],
{
    assert(is_count(builds[i].lock, owners[i]));
    choose|c: OwnerCount| c.of() == builds[i].lock && #[trigger] c.count() == owners[i]
}

/// Asking what is still there of the lock of a scope gives what upgrading that
/// very lock gave, however many locks there are.
pub proof fn law_current_lock_is_the_upgrade<S>(
    builds: Seq<BuildView<S>>,
    scope: S,
    current: Option<BuildLock>,
    i: int,
) -> (u: Upgrade)
    requires
        forall|a: int, b: int|
            0 <= a < b < builds.len() ==> (#[trigger] builds[a]).scope != (
            #[trigger] builds[b]).scope,
        upgraded(builds, scope, current),
        0 <= i < builds.len(),
        builds[i].scope == scope,
    ensures
        u.of() == builds[i].lock,
        u.result() == current,
        current matches Some(lock) ==> lock == builds[i].lock,
{
    assert(has_lock(builds, scope));
    let k = choose|k: int|
        0 <= k < builds.len() && (#[trigger] builds[k]).scope == scope
            && is_upgrade(builds[k].lock, current) && (current matches Some(
            l,
        ) ==> l == builds[k].lock);
    assert(k == i);
    choose|u: Upgrade| u.of() == builds[i].lock && #[trigger] u.result() == current
}

/// Where a scope has no lock, nothing is there.
pub proof fn law_no_lock_is_no_current_lock<S>(
    builds: Seq<BuildView<S>>,
    scope: S,
    current: Option<BuildLock>,
)
    requires
        upgraded(builds, scope, current),
        forall|i: int| 0 <= i < builds.len() ==> (#[trigger] builds[i]).scope != scope,
    ensures
        current is None,
{
}

/// What is still there of the lock of a scope is given, and nothing changes. Where
/// nothing is, a new lock is given and takes the place of that of the scope; no
/// other scope loses or gains one.
pub proof fn law_grant_gives_what_is_there<S>(
    builds: Seq<BuildView<S>>,
    scope: S,
    current: Option<BuildLock>,
    lock: BuildLock,
    after: Seq<BuildView<S>>,
)
    requires
        forall|a: int, b: int|
            0 <= a < b < builds.len() ==> (#[trigger] builds[a]).scope != (
            #[trigger] builds[b]).scope && builds[a].lock != builds[b].lock,
        current matches Some(l) ==> builds.contains(BuildView { scope, lock: l }),
        grants(builds, scope, current, lock, after),
    ensures
        current matches Some(l) ==> lock == l && after == builds,
        current is None ==> exists|made: NewLock| #[trigger]
            made.lock() == lock && made.unlocked() && made.owners() == 1,
        current is None ==> forall|i: int|
            0 <= i < builds.len() ==> (#[trigger] builds[i]).lock != lock,
        forall|build: BuildView<S>| #[trigger]
            after.contains(build) <==> build == (BuildView { scope, lock }) || (builds.contains(build)
                && build.scope != scope),
        forall|a: int, b: int|
            0 <= a < b < after.len() ==> (#[trigger] after[a]).scope != (#[trigger] after[b]).scope
                && after[a].lock != after[b].lock,
{
    lemma_grants(builds, scope, current, lock, after);
    assert forall|build: BuildView<S>|
        (build == (BuildView { scope, lock }) || (builds.contains(build) && build.scope
            != scope)) implies #[trigger] after.contains(build) by {
        if builds.contains(build) && build.scope != scope {
            let i = choose|i: int| 0 <= i < builds.len() && builds[i] == build;
            assert(builds[i].scope != scope);
        }
    }
    assert forall|build: BuildView<S>| #[trigger] after.contains(build) implies build == (BuildView {
        scope,
        lock,
    }) || (builds.contains(build) && build.scope != scope) by {
        if current is Some {
            if build.scope == scope {
                let k = choose|k: int| 0 <= k < builds.len() && builds[k] == build;
                let l = choose|l: int|
                    0 <= l < builds.len() && builds[l] == (BuildView { scope, lock });
                assert(builds[k].scope == builds[l].scope);
            }
        } else {
            let rest = other_locks(builds, scope);
            let k = choose|k: int| 0 <= k < after.len() && after[k] == build;
            if k < rest.len() {
                lemma_others_are_others(builds, scope, k);
                assert(after[k] == rest[k]);
            }
        }
    }
}

/// Each of the locks of the other scopes is a lock of another scope.
proof fn lemma_others_are_others<S>(builds: Seq<BuildView<S>>, scope: S, k: int)
    requires
        0 <= k < other_locks(builds, scope).len(),
    ensures
        builds.contains(other_locks(builds, scope)[k]),
        other_locks(builds, scope)[k].scope != scope,
    decreases builds.len(),
{
    if builds.len() > 0 {
        let fewer = builds.drop_last();
        let rest = other_locks(fewer, scope);
        if k < rest.len() {
            lemma_others_are_others(fewer, scope, k);
            let i = choose|i: int| 0 <= i < fewer.len() && fewer[i] == rest[k];
            assert(builds[i] == rest[k]);
        } else {
            assert(builds[builds.len() - 1] == builds.last());
        }
    }
}

/// Whoever asks for the build lock of a scope gets the lock that the scope has, if
/// owners of it were counted and upgrading it gave it, however many other scopes
/// are being built. Otherwise the lock is new: unlocked, with one owner, and the
/// lock of no other scope.
pub proof fn law_build_lock_gives_the_one_in_use<S, P>(
    before: PoolsView<S, P>,
    scope: S,
    owners: Seq<usize>,
    current: Option<BuildLock>,
    lock: BuildLock,
    after: PoolsView<S, P>,
)
    requires
        before.inv(),
        counted(before.builds, owners),
        upgraded(held_locks(before.builds, owners), scope, current),
        before.gives_lock(scope, owners, current, lock, after),
    ensures
        forall|i: int|
            0 <= i < before.builds.len() && (#[trigger] before.builds[i]).scope == scope && owners[i]
                > 0 ==> (exists|u: Upgrade|
                u.of() == before.builds[i].lock && #[trigger] u.result() == current) && (current
                is Some ==> current == Some(before.builds[i].lock)),
        (forall|i: int|
            0 <= i < before.builds.len() && owners[i] > 0 ==> (#[trigger] before.builds[i]).scope
                != scope) ==> current is None,
        current matches Some(l) ==> lock == l,
        current is None ==> (exists|made: NewLock| #[trigger]
            made.lock() == lock && made.unlocked() && made.owners() == 1) && forall|i: int|
            0 <= i < before.builds.len() && owners[i] > 0 ==> (#[trigger] before.builds[i]).lock
                != lock,
        forall|build: BuildView<S>| #[trigger]
            after.builds.contains(build) <==> build == (BuildView { scope, lock }) || (build.scope
                != scope && exists|i: int|
                0 <= i < before.builds.len() && #[trigger] before.builds[i] == build && owners[i]
                    > 0),
        forall|a: int, b: int|
            0 <= a < b < after.builds.len() ==> (#[trigger] after.builds[a]).scope != (
            #[trigger] after.builds[b]).scope && after.builds[a].lock != after.builds[b].lock,
        after.entries == before.entries,
        after.metrics == before.metrics,
        after.idle_timeout == before.idle_timeout,
        after.max_count == before.max_count,
        after.epoch == before.epoch,
{
    let held = held_locks(before.builds, owners);
    lemma_held_locks(before.builds, owners);
    law_locks_with_owners_stay(before, owners, before.after_prune(owners));
    law_grant_gives_what_is_there(held, scope, current, lock, after.builds);
    assert forall|i: int|
        0 <= i < before.builds.len() && (#[trigger] before.builds[i]).scope == scope && owners[i]
            > 0 implies (exists|u: Upgrade|
        u.of() == before.builds[i].lock && #[trigger] u.result() == current) && (current is Some
        ==> current == Some(before.builds[i].lock)) by {
        let k = choose|k: int| 0 <= k < held.len() && held[k] == before.builds[i];
        let u = law_current_lock_is_the_upgrade(held, scope, current, k);
        assert(u.result() == current);
    }
    if current is Some {
        assert(held.contains(BuildView { scope, lock }));
    } else {
        assert forall|i: int| 0 <= i < before.builds.len() && owners[i] > 0 implies (
        #[trigger] before.builds[i]).lock != lock by {
            let k = choose|k: int| 0 <= k < held.len() && held[k] == before.builds[i];
            assert(held[k].lock != lock);
        }
    }
}

} // verus!
