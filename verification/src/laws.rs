//! What holds of the operations of a cache together.
use crate::locks::{lemma_grants, lemma_held_locks};
use crate::metrics::{unreported, MetricsView, PoolMetricFamilies};
use crate::model::{
    enumerates, has_lock, held_locks, is_idle, BuildView, EntryView, PoolsView,
};
use crate::outside::lock::{is_new, BuildLock};
use crate::outside::metric::{CounterView, GaugeHandle, GaugeView};
use vstd::prelude::*;

verus! {

/// An operation, with what the outside world decided of it and what it returned.
#[verifier::reject_recursive_types(S)]
#[verifier::reject_recursive_types(P)]
pub enum Op<S, P> {
    Get { scope: S, now: nat, found: Option<P> },
    Sweep { now: nat, owners: Seq<usize>, removed: Seq<P> },
    Insert {
        scope: S,
        pool: P,
        now: nat,
        owners: Seq<usize>,
        victim: Option<S>,
        removed: Seq<P>,
    },
    Lock { scope: S, owners: Seq<usize>, current: Option<BuildLock>, lock: BuildLock },
}

impl<S, P: Clone> Op<S, P> {
    /// Whether the operation leads from `before` to `after`.
    pub open spec fn leads(self, before: PoolsView<S, P>, after: PoolsView<S, P>) -> bool {
        match self {
            Op::Get { scope, now, found } => before.looks_up(scope, now, found, after),
            Op::Sweep { now, owners, removed } => before.sweeps(now, owners, removed, after),
            Op::Insert { scope, pool, now, owners, victim, removed } => before.inserts(
                scope,
                pool,
                now,
                owners,
                victim,
                removed,
                after,
            ),
            Op::Lock { scope, owners, current, lock } => before.gives_lock(
                scope,
                owners,
                current,
                lock,
                after,
            ),
        }
    }

    /// Whether the operation looks up `scope`.
    pub open spec fn looks_for(self, scope: S) -> bool {
        self matches Op::Get { scope: s, .. } && s == scope
    }

    /// Whether the operation inserts a pool for `scope`.
    pub open spec fn fills(self, scope: S) -> bool {
        self matches Op::Insert { scope: s, .. } && s == scope
    }

    /// Whether the operation asks for the build lock of `scope`.
    pub open spec fn asks_for(self, scope: S) -> bool {
        self matches Op::Lock { scope: s, .. } && s == scope
    }

    /// Whether the operation does not take place before `time`, where it reads the
    /// clock at all.
    pub open spec fn not_before(self, time: nat) -> bool {
        match self {
            Op::Get { now, .. } => now >= time,
            Op::Sweep { now, .. } => now >= time,
            Op::Insert { now, .. } => now >= time,
            Op::Lock { .. } => true,
        }
    }

    /// Whether the operation leaves the pool of `scope` be: it neither replaces nor
    /// evicts it, and does not come so late that it finds it idle.
    pub open spec fn spares(self, state: PoolsView<S, P>, scope: S) -> bool {
        match self {
            Op::Get { scope: s, now, .. } => s == scope ==> !is_idle(
                state.entries[scope],
                now,
                state.idle_timeout,
            ),
            Op::Sweep { now, .. } => !is_idle(state.entries[scope], now, state.idle_timeout),
            Op::Insert { scope: s, now, victim, .. } => s != scope && victim != Some(scope)
                && !is_idle(state.entries[scope], now, state.idle_timeout),
            Op::Lock { .. } => true,
        }
    }

    /// Whether somebody owns `lock`, the lock of `scope`, while the operation takes
    /// place: its owners count as some, and upgrading gives it.
    pub open spec fn finds_held(
        self,
        state: PoolsView<S, P>,
        scope: S,
        lock: BuildLock,
    ) -> bool {
        match self {
            Op::Get { .. } => true,
            Op::Sweep { owners, .. } => owned(state.builds, owners, lock),
            Op::Insert { owners, .. } => owned(state.builds, owners, lock),
            Op::Lock { scope: s, owners, current, .. } => owned(state.builds, owners, lock) && (s
                == scope ==> current is Some),
        }
    }
}

/// Whether `lock` has an owner when the locks have `owners`.
pub open spec fn owned<S>(builds: Seq<BuildView<S>>, owners: Seq<usize>, lock: BuildLock) -> bool {
    forall|i: int| 0 <= i < builds.len() && (#[trigger] builds[i]).lock == lock ==> owners[i] > 0
}

/// Whether `ops` lead through `states`, one after the other.
pub open spec fn is_history<S, P: Clone>(
    states: Seq<PoolsView<S, P>>,
    ops: Seq<Op<S, P>>,
) -> bool {
    &&& states.len() == ops.len() + 1
    &&& forall|i: int| 0 <= i < ops.len() ==> (#[trigger] ops[i]).leads(states[i], states[i + 1])
}

/// The eviction counters do not go down, and every metric stays the one it was.
pub open spec fn counts_on(before: MetricsView, after: MetricsView) -> bool {
    &&& before.idle_evictions.total <= after.idle_evictions.total
    &&& before.lru_evictions.total <= after.lru_evictions.total
    &&& after.pools == (GaugeView { net: after.pools.net, ..before.pools })
    &&& after.idle_evictions == (CounterView {
        total: after.idle_evictions.total,
        ..before.idle_evictions
    })
    &&& after.lru_evictions == (CounterView {
        total: after.lru_evictions.total,
        ..before.lru_evictions
    })
}

/// Nothing that an operation may not change has changed: the limits and the clock
/// stay, and the metrics count on.
pub open spec fn continues<S, P>(before: PoolsView<S, P>, after: PoolsView<S, P>) -> bool {
    &&& before.idle_timeout == after.idle_timeout
    &&& before.max_count == after.max_count
    &&& before.epoch == after.epoch
    &&& counts_on(before.metrics, after.metrics)
}

/// The idle and the live make up the whole.
proof fn lemma_idle_sizes<S, P>(before: PoolsView<S, P>, now: nat)
    requires
        before.inv(),
    ensures
        before.idle_scopes(now).finite(),
        before.idle_scopes(now).subset_of(before.entries.dom()),
        before.live_entries(now).dom().finite(),
        before.live_entries(now).len() + before.idle_scopes(now).len() == before.entries.len(),
{
    let idle = before.idle_scopes(now);
    assert(idle.subset_of(before.entries.dom()));
    vstd::set_lib::lemma_len_subset(idle, before.entries.dom());
    before.entries.lemma_remove_keys_len(idle);
    assert(before.live_entries(now).dom() =~= before.entries.dom().difference(idle));
}

/// The sizes of what an insertion takes apart.
proof fn lemma_insert_sizes<S, P>(before: PoolsView<S, P>, scope: S, now: nat, victim: Option<S>)
    requires
        before.inv(),
        before.is_victim(scope, now, victim),
    ensures
        before.rivals(scope, now).dom().finite(),
        before.rivals(scope, now).len() <= before.live_entries(now).len(),
        before.survivors(scope, now, victim).dom().finite(),
        before.survivors(scope, now, victim).len() < before.max_count,
        !before.survivors(scope, now, victim).contains_key(scope),
{
    lemma_idle_sizes(before, now);
}

/// Looking up a pool keeps the invariant of the cache.
pub proof fn law_get_keeps_invariant<S, P: Clone>(
    before: PoolsView<S, P>,
    scope: S,
    now: nat,
    found: Option<P>,
    after: PoolsView<S, P>,
)
    requires
        before.inv(),
        before.looks_up(scope, now, found, after),
    ensures
        after.inv(),
        continues(before, after),
{
    if before.hits(scope, now) {
        assert(after.entries.dom() =~= before.entries.dom());
    }
}

/// Sweeping keeps the invariant of the cache: the gauge still counts its pools.
pub proof fn law_sweep_keeps_invariant<S, P>(
    before: PoolsView<S, P>,
    now: nat,
    owners: Seq<usize>,
    removed: Seq<P>,
    after: PoolsView<S, P>,
)
    requires
        before.inv(),
        before.sweeps(now, owners, removed, after),
    ensures
        after.inv(),
        continues(before, after),
{
    lemma_idle_sizes(before, now);
    lemma_held_locks(before.builds, owners);
}

/// Inserting keeps the invariant of the cache: its pools stay within the bound.
pub proof fn law_insert_keeps_invariant<S, P>(
    before: PoolsView<S, P>,
    scope: S,
    pool: P,
    now: nat,
    owners: Seq<usize>,
    victim: Option<S>,
    removed: Seq<P>,
    after: PoolsView<S, P>,
)
    requires
        before.inv(),
        before.inserts(scope, pool, now, owners, victim, removed, after),
    ensures
        after.inv(),
        after.entries.len() <= after.max_count,
        continues(before, after),
{
    lemma_idle_sizes(before, now);
    lemma_insert_sizes(before, scope, now, victim);
    lemma_held_locks(before.builds, owners);
}

/// Handing out a build lock keeps the invariant of the cache, and leaves its pools
/// and metrics alone.
pub proof fn law_build_lock_keeps_invariant<S, P>(
    before: PoolsView<S, P>,
    scope: S,
    owners: Seq<usize>,
    current: Option<BuildLock>,
    lock: BuildLock,
    after: PoolsView<S, P>,
)
    requires
        before.inv(),
        before.gives_lock(scope, owners, current, lock, after),
    ensures
        after.inv(),
        continues(before, after),
        after.entries == before.entries,
        after.metrics == before.metrics,
        after.builds.contains(BuildView { scope, lock }),
{
    lemma_held_locks(before.builds, owners);
    lemma_grants(held_locks(before.builds, owners), scope, current, lock, after.builds);
}

/// In whatever order operations come, simultaneous builds among them, no history
/// of a cache leads past its bound or puts its gauge out of step with its pools.
pub proof fn law_no_history_breaks_the_invariant<S, P: Clone>(
    states: Seq<PoolsView<S, P>>,
    ops: Seq<Op<S, P>>,
)
    requires
        states[0].inv(),
        is_history(states, ops),
    ensures
        states.last().inv(),
        states.last().entries.len() <= states[0].max_count,
        states.last().metrics.pools.net == states.last().entries.len(),
        continues(states[0], states.last()),
    decreases ops.len(),
{
    if ops.len() > 0 {
        let n = ops.len() - 1;
        lemma_shorter_history(states, ops);
        law_no_history_breaks_the_invariant(states.drop_last(), ops.drop_last());
        let before = states[n];
        let after = states[n + 1];
        assert(ops[n].leads(before, after));
        match ops[n] {
            Op::Get { scope, now, found } => {
                law_get_keeps_invariant(before, scope, now, found, after);
            },
            Op::Sweep { now, owners, removed } => {
                law_sweep_keeps_invariant(before, now, owners, removed, after);
            },
            Op::Insert { scope, pool, now, owners, victim, removed } => {
                law_insert_keeps_invariant(before, scope, pool, now, owners, victim, removed, after);
            },
            Op::Lock { scope, owners, current, lock } => {
                law_build_lock_keeps_invariant(before, scope, owners, current, lock, after);
            },
        }
    }
}

/// A history without its last operation is one.
proof fn lemma_shorter_history<S, P: Clone>(states: Seq<PoolsView<S, P>>, ops: Seq<Op<S, P>>)
    requires
        is_history(states, ops),
        ops.len() > 0,
    ensures
        is_history(states.drop_last(), ops.drop_last()),
        states.drop_last().last() == states[ops.len() - 1],
{
    let fewer = ops.drop_last();
    let earlier = states.drop_last();
    assert forall|i: int| 0 <= i < fewer.len() implies (#[trigger] fewer[i]).leads(
        earlier[i],
        earlier[i + 1],
    ) by {
        assert(ops[i].leads(states[i], states[i + 1]));
    }
}

/// The beginning of a history is one.
proof fn lemma_prefix_history<S, P: Clone>(
    states: Seq<PoolsView<S, P>>,
    ops: Seq<Op<S, P>>,
    n: int,
)
    requires
        is_history(states, ops),
        0 <= n <= ops.len(),
    ensures
        is_history(states.take(n + 1), ops.take(n)),
{
    let fewer = ops.take(n);
    assert forall|i: int| 0 <= i < fewer.len() implies (#[trigger] fewer[i]).leads(
        states.take(n + 1)[i],
        states.take(n + 1)[i + 1],
    ) by {
        assert(ops[i].leads(states[i], states[i + 1]));
    }
}

/// The end of a history is one.
proof fn lemma_later_history<S, P: Clone>(states: Seq<PoolsView<S, P>>, ops: Seq<Op<S, P>>)
    requires
        is_history(states, ops),
        ops.len() > 0,
    ensures
        is_history(states.skip(1), ops.skip(1)),
{
    let later = ops.skip(1);
    assert forall|i: int| 0 <= i < later.len() implies (#[trigger] later[i]).leads(
        states.skip(1)[i],
        states.skip(1)[i + 1],
    ) by {
        assert(ops[i + 1].leads(states[i + 1], states[i + 2]));
    }
}

/// A pool that every operation leaves be stays.
proof fn lemma_spared_pool_stays<S, P: Clone>(
    states: Seq<PoolsView<S, P>>,
    ops: Seq<Op<S, P>>,
    scope: S,
    pool: P,
)
    requires
        states[0].entries.contains_key(scope),
        states[0].entries[scope].pool == pool,
        is_history(states, ops),
        forall|i: int| 0 <= i < ops.len() ==> (#[trigger] ops[i]).spares(states[i], scope),
    ensures
        states.last().entries.contains_key(scope),
        states.last().entries[scope].pool == pool,
    decreases ops.len(),
{
    if ops.len() > 0 {
        let n = ops.len() - 1;
        lemma_shorter_history(states, ops);
        assert forall|i: int| 0 <= i < ops.drop_last().len() implies (
        #[trigger] ops.drop_last()[i]).spares(states.drop_last()[i], scope) by {
            assert(ops[i].spares(states[i], scope));
        }
        lemma_spared_pool_stays(states.drop_last(), ops.drop_last(), scope, pool);
        assert(ops[n].leads(states[n], states[n + 1]));
        assert(ops[n].spares(states[n], scope));
    }
}

/// A pool that was inserted is the one that every later lookup finds, whatever
/// happens to other scopes in between, until it is replaced, evicted, or idle for
/// the timeout.
pub proof fn law_get_finds_what_was_inserted<S, P: Clone>(
    states: Seq<PoolsView<S, P>>,
    ops: Seq<Op<S, P>>,
    scope: S,
    pool: P,
)
    requires
        states[0].inv(),
        is_history(states, ops),
        ops.len() > 0,
        ops[0] matches Op::Insert { scope: s, pool: p, .. } && s == scope && p == pool,
        forall|i: int| 0 < i < ops.len() ==> (#[trigger] ops[i]).spares(states[i], scope),
    ensures
        states.last().entries.contains_key(scope),
        states.last().entries[scope].pool == pool,
        forall|i: int|
            0 < i < ops.len() && (#[trigger] ops[i]).looks_for(scope) ==> ops[i]->found is Some
                && cloned(pool, ops[i]->found->0),
{
    assert(ops[0].leads(states[0], states[1]));
    let later = ops.skip(1);
    let on = states.skip(1);
    lemma_later_history(states, ops);
    assert forall|i: int| 0 <= i < later.len() implies (#[trigger] later[i]).spares(
        on[i],
        scope,
    ) by {
        assert(ops[i + 1].spares(states[i + 1], scope));
    }
    lemma_spared_pool_stays(on, later, scope, pool);
    assert forall|i: int| 0 < i < ops.len() && (#[trigger] ops[i]).looks_for(
        scope,
    ) implies ops[i]->found is Some && cloned(pool, ops[i]->found->0) by {
        lemma_prefix_history(on, later, i - 1);
        assert forall|j: int| 0 <= j < later.take(i - 1).len() implies (
        #[trigger] later.take(i - 1)[j]).spares(on.take(i)[j], scope) by {
            assert(later[j].spares(on[j], scope));
        }
        lemma_spared_pool_stays(on.take(i), later.take(i - 1), scope, pool);
        assert(on.take(i).last() == states[i]);
        assert(ops[i].leads(states[i], states[i + 1]));
        assert(ops[i].spares(states[i], scope));
    }
}

/// An expired pool that nobody replaces stays as it is until it goes.
proof fn lemma_expired_pool_stays<S, P: Clone>(
    states: Seq<PoolsView<S, P>>,
    ops: Seq<Op<S, P>>,
    scope: S,
    time: nat,
)
    requires
        states[0].inv(),
        states[0].entries.contains_key(scope) ==> is_idle(
            states[0].entries[scope],
            time,
            states[0].idle_timeout,
        ),
        is_history(states, ops),
        forall|i: int|
            0 <= i < ops.len() ==> (#[trigger] ops[i]).not_before(time) && !ops[i].fills(scope),
    ensures
        states.last().entries.contains_key(scope) ==> states[0].entries.contains_key(scope)
            && states.last().entries[scope] == states[0].entries[scope],
        states.last().idle_timeout == states[0].idle_timeout,
    decreases ops.len(),
{
    if ops.len() > 0 {
        let n = ops.len() - 1;
        lemma_shorter_history(states, ops);
        assert forall|i: int| 0 <= i < ops.drop_last().len() implies (
        #[trigger] ops.drop_last()[i]).not_before(time) && !ops.drop_last()[i].fills(scope) by {
            assert(ops[i].not_before(time) && !ops[i].fills(scope));
        }
        lemma_expired_pool_stays(states.drop_last(), ops.drop_last(), scope, time);
        assert(ops[n].leads(states[n], states[n + 1]));
        assert(ops[n].not_before(time) && !ops[n].fills(scope));
    }
}

/// A pool that has expired is never found again, and looking for it does not
/// revive it, whatever happens to other scopes and whether or not it has been
/// swept: only a new pool for the scope is found.
pub proof fn law_expired_pool_stays_lost<S, P: Clone>(
    states: Seq<PoolsView<S, P>>,
    ops: Seq<Op<S, P>>,
    scope: S,
    time: nat,
)
    requires
        states[0].inv(),
        states[0].entries.contains_key(scope) ==> is_idle(
            states[0].entries[scope],
            time,
            states[0].idle_timeout,
        ),
        is_history(states, ops),
        forall|i: int|
            0 <= i < ops.len() ==> (#[trigger] ops[i]).not_before(time) && !ops[i].fills(scope),
    ensures
        forall|i: int|
            0 <= i < ops.len() && (#[trigger] ops[i]).looks_for(scope) ==> ops[i]->found is None
                && states[i + 1] == states[i],
        states.last().entries.contains_key(scope) ==> states.last().entries[scope]
            == states[0].entries[scope],
{
    lemma_expired_pool_stays(states, ops, scope, time);
    assert forall|i: int| 0 <= i < ops.len() && (#[trigger] ops[i]).looks_for(
        scope,
    ) implies ops[i]->found is None && states[i + 1] == states[i] by {
        lemma_prefix_history(states, ops, i);
        assert forall|j: int| 0 <= j < ops.take(i).len() implies (#[trigger] ops.take(
            i,
        )[j]).not_before(time) && !ops.take(i)[j].fills(scope) by {
            assert(ops[j].not_before(time) && !ops[j].fills(scope));
        }
        lemma_expired_pool_stays(states.take(i + 1), ops.take(i), scope, time);
        assert(states.take(i + 1).last() == states[i]);
        assert(ops[i].leads(states[i], states[i + 1]));
        assert(ops[i].not_before(time));
    }
}

/// Looking a pool up changes nothing but when that pool was last used.
pub proof fn law_get_touches_one_pool<S, P: Clone>(
    before: PoolsView<S, P>,
    scope: S,
    now: nat,
    found: Option<P>,
    after: PoolsView<S, P>,
    other: S,
)
    requires
        before.inv(),
        before.looks_up(scope, now, found, after),
    ensures
        after.entries.dom() == before.entries.dom(),
        before.entries.contains_key(other) ==> after.entries[other].pool
            == before.entries[other].pool,
        before.entries.contains_key(other) && other != scope ==> after.entries[other]
            == before.entries[other],
        after.builds == before.builds,
        after.metrics == before.metrics,
{
    assert(after.entries.dom() =~= before.entries.dom());
}

/// Eviction goes by last access: a pool that was just looked up does not make room
/// for another while the cache has one that was used before.
pub proof fn law_lru_uses_last_access<S, P: Clone>(
    before: PoolsView<S, P>,
    scope: S,
    now: nat,
    found: Option<P>,
    between: PoolsView<S, P>,
    other: S,
    newcomer: S,
    pool: P,
    later: nat,
    owners: Seq<usize>,
    victim: Option<S>,
    removed: Seq<P>,
    after: PoolsView<S, P>,
)
    requires
        before.inv(),
        before.looks_up(scope, now, found, between),
        found is Some,
        between.inserts(newcomer, pool, later, owners, victim, removed, after),
        scope != newcomer,
        between.hits(scope, later),
        other != newcomer,
        between.hits(other, later),
        between.entries[other].last_used < now,
    ensures
        victim != Some(scope),
        after.entries.contains_key(scope),
        after.entries[scope] == between.entries[scope],
{
    assert(between.rivals(newcomer, later).contains_key(other));
    assert(between.rivals(newcomer, later).contains_key(scope));
}

/// A pool that is not idle makes room only when the cache is full of pools that
/// are not idle and of other scopes, and then only one does.
pub proof fn law_evicts_only_when_full<S, P>(
    before: PoolsView<S, P>,
    scope: S,
    pool: P,
    now: nat,
    owners: Seq<usize>,
    victim: Option<S>,
    removed: Seq<P>,
    after: PoolsView<S, P>,
)
    requires
        before.inv(),
        before.inserts(scope, pool, now, owners, victim, removed, after),
    ensures
        victim is Some <==> {
            &&& before.entries.len() == before.max_count
            &&& before.idle_scopes(now) == Set::<S>::empty()
            &&& !before.entries.contains_key(scope)
        },
        victim is Some ==> removed.len() == 1 && after.entries.len() == before.max_count,
{
    lemma_idle_sizes(before, now);
    lemma_insert_sizes(before, scope, now, victim);
    let idle = before.idle_scopes(now);
    if victim is Some {
        if before.live_entries(now).contains_key(scope) {
            assert(before.rivals(scope, now).len() == before.live_entries(now).len() - 1);
        }
        assert(idle.len() == 0);
        assert(idle =~= Set::<S>::empty());
        assert(before.live_entries(now) =~= before.entries);
    } else if before.entries.len() == before.max_count && idle == Set::<S>::empty()
        && !before.entries.contains_key(scope) {
        assert(before.rivals(scope, now) =~= before.entries);
    }
    law_insert_loses_nothing(before, scope, pool, now, owners, victim, removed, after);
    if victim is Some {
        assert(before.survivors(scope, now, victim) =~= before.entries.remove(victim->0));
    }
}

/// Every pool that leaves is handed back, once: those that were cached and the new
/// one are those that are cached afterwards and those that were handed back.
pub proof fn law_insert_loses_nothing<S, P>(
    before: PoolsView<S, P>,
    scope: S,
    pool: P,
    now: nat,
    owners: Seq<usize>,
    victim: Option<S>,
    removed: Seq<P>,
    after: PoolsView<S, P>,
)
    requires
        before.inv(),
        before.inserts(scope, pool, now, owners, victim, removed, after),
    ensures
        removed.len() + after.entries.len() == before.entries.len() + 1,
        forall|other: S| #[trigger]
            before.entries.contains_key(other) ==> removed.contains(before.entries[other].pool) || (
            after.entries.contains_key(other) && after.entries[other] == before.entries[other]),
        after.entries.contains_key(scope),
        after.entries[scope] == (EntryView { pool, last_used: now }),
{
    lemma_insert_sizes(before, scope, now, victim);
    let left = before.leaving(scope, now, victim);
    let kept = before.survivors(scope, now, victim);
    let order = choose|order: Seq<S>| #[trigger] enumerates(order, removed, before.entries, left);
    order.unique_seq_to_set();
    assert(kept.dom().subset_of(before.entries.dom()));
    vstd::set_lib::lemma_set_disjoint_lens(left, kept.dom());
    assert(left.union(kept.dom()) =~= before.entries.dom());
    assert forall|other: S| #[trigger] before.entries.contains_key(other) implies removed.contains(
        before.entries[other].pool,
    ) || (after.entries.contains_key(other) && after.entries[other] == before.entries[other]) by {
        if left.contains(other) {
            assert(order.to_set().contains(other));
            let j = order.index_of(other);
            assert(removed[j] == before.entries[other].pool);
        } else {
            assert(kept.contains_key(other));
            assert(other != scope);
        }
    }
}

/// Sweeping takes out the idle pools and no others, and hands each back.
pub proof fn law_sweep_takes_the_idle<S, P>(
    before: PoolsView<S, P>,
    now: nat,
    owners: Seq<usize>,
    removed: Seq<P>,
    after: PoolsView<S, P>,
    scope: S,
)
    requires
        before.inv(),
        before.sweeps(now, owners, removed, after),
        before.entries.contains_key(scope),
    ensures
        removed.len() + after.entries.len() == before.entries.len(),
        after.metrics.idle_evictions.total == before.metrics.idle_evictions.total + removed.len(),
        now - before.entries[scope].last_used >= before.idle_timeout
            ==> !after.entries.contains_key(scope) && removed.contains(before.entries[scope].pool),
        now - before.entries[scope].last_used < before.idle_timeout
            ==> after.entries.contains_key(scope) && after.entries[scope] == before.entries[scope],
{
    lemma_idle_sizes(before, now);
    let idle = before.idle_scopes(now);
    let order = choose|order: Seq<S>| #[trigger] enumerates(order, removed, before.entries, idle);
    order.unique_seq_to_set();
    if idle.contains(scope) {
        assert(order.to_set().contains(scope));
        let j = order.index_of(scope);
        assert(removed[j] == before.entries[scope].pool);
    }
}

/// A second sweep, at a time that is not later, finds nothing to take out.
pub proof fn law_sweep_is_idempotent<S, P>(
    before: PoolsView<S, P>,
    now: nat,
    owners: Seq<usize>,
    removed: Seq<P>,
    between: PoolsView<S, P>,
    not_later: nat,
    owners_then: Seq<usize>,
    removed_then: Seq<P>,
    after: PoolsView<S, P>,
)
    requires
        before.inv(),
        before.sweeps(now, owners, removed, between),
        not_later <= now,
        between.sweeps(not_later, owners_then, removed_then, after),
    ensures
        removed_then.len() == 0,
        after.entries == between.entries,
        after.metrics == between.metrics,
{
    let idle = between.idle_scopes(not_later);
    assert(idle =~= Set::<S>::empty());
    let order = choose|order: Seq<S>|
        #[trigger] enumerates(order, removed_then, between.entries, idle);
    if order.len() > 0 {
        assert(order.to_set().contains(order[0]));
    }
    assert(between.live_entries(not_later) =~= between.entries);
}

/// A sweep leaves the cache as it would have been without an earlier one: the same
/// pools, and the same counts.
pub proof fn law_earlier_sweep_changes_nothing<S, P>(
    before: PoolsView<S, P>,
    earlier: nat,
    now: nat,
)
    requires
        before.inv(),
        earlier <= now,
    ensures
        before.after_sweep(earlier).after_sweep(now) == before.after_sweep(now),
{
    let between = before.after_sweep(earlier);
    let first = before.idle_scopes(earlier);
    let second = between.idle_scopes(now);
    lemma_idle_sizes(before, earlier);
    lemma_idle_sizes(before, now);
    assert(second.subset_of(before.idle_scopes(now)));
    vstd::set_lib::lemma_len_subset(second, before.idle_scopes(now));
    assert(first.union(second) =~= before.idle_scopes(now));
    vstd::set_lib::lemma_set_disjoint_lens(first, second);
    assert(between.live_entries(now) =~= before.live_entries(now));
    assert(between.after_sweep(now) =~= before.after_sweep(now));
}

/// A sweep changes no lookup that comes after it: what was to be found is found,
/// and what was not is not.
pub proof fn law_sweep_changes_no_lookup<S, P>(
    before: PoolsView<S, P>,
    now: nat,
    owners: Seq<usize>,
    removed: Seq<P>,
    after: PoolsView<S, P>,
    scope: S,
    later: nat,
)
    requires
        before.inv(),
        before.sweeps(now, owners, removed, after),
        now <= later,
    ensures
        after.hits(scope, later) == before.hits(scope, later),
        before.hits(scope, later) ==> after.entries[scope] == before.entries[scope],
{
}

/// What the caches that report to the gauge `metric` have told it, all together.
pub open spec fn told<S, P>(caches: Seq<PoolsView<S, P>>, metric: GaugeHandle) -> int
    decreases caches.len(),
{
    if caches.len() == 0 {
        0
    } else {
        told(caches.drop_last(), metric) + if caches.last().metrics.pools.metric == metric {
            caches.last().metrics.pools.net
        } else {
            0
        }
    }
}

/// The pools of the caches that report to the gauge `metric`, all together.
pub open spec fn pools_behind<S, P>(caches: Seq<PoolsView<S, P>>, metric: GaugeHandle) -> nat
    decreases caches.len(),
{
    if caches.len() == 0 {
        0
    } else {
        pools_behind(caches.drop_last(), metric) + if caches.last().metrics.pools.metric == metric {
            caches.last().entries.len()
        } else {
            0
        }
    }
}

/// Caches that are there have told a gauge of their pools.
proof fn lemma_told<S, P>(caches: Seq<PoolsView<S, P>>, metric: GaugeHandle)
    requires
        forall|i: int| 0 <= i < caches.len() ==> (#[trigger] caches[i]).inv(),
    ensures
        told(caches, metric) == pools_behind(caches, metric),
    decreases caches.len(),
{
    if caches.len() > 0 {
        let fewer = caches.drop_last();
        assert forall|i: int| 0 <= i < fewer.len() implies (#[trigger] fewer[i]).inv() by {
            assert(caches[i].inv());
        }
        lemma_told(fewer, metric);
        assert(caches[caches.len() - 1].inv());
    }
}

/// Caches that have told a gauge of nothing add nothing to it.
proof fn lemma_nothing_told<S, P>(caches: Seq<PoolsView<S, P>>, metric: GaugeHandle)
    requires
        forall|i: int| 0 <= i < caches.len() ==> (#[trigger] caches[i]).metrics.pools.net == 0,
    ensures
        told(caches, metric) == 0,
    decreases caches.len(),
{
    if caches.len() > 0 {
        let fewer = caches.drop_last();
        assert forall|i: int| 0 <= i < fewer.len() implies (
        #[trigger] fewer[i]).metrics.pools.net == 0 by {
            assert(caches[i].metrics.pools.net == 0);
        }
        lemma_nothing_told(fewer, metric);
        assert(caches[caches.len() - 1].metrics.pools.net == 0);
    }
}

/// What a gauge has been told adds up to the pools of the caches that are there and
/// report to it, and so to no negative number. Those that have been dropped add
/// nothing. Such are the caches of two generations of a configuration, which have
/// the same labels.
pub proof fn law_gauge_is_told_the_sum<S, P>(
    alive: Seq<PoolsView<S, P>>,
    dropped: Seq<PoolsView<S, P>>,
    metric: GaugeHandle,
)
    requires
        forall|i: int| 0 <= i < alive.len() ==> (#[trigger] alive[i]).inv(),
    ensures
        told(alive, metric) + told(
            dropped.map_values(|cache: PoolsView<S, P>| cache.after_drop()),
            metric,
        ) == pools_behind(alive, metric),
        told(alive, metric) >= 0,
{
    lemma_told(alive, metric);
    lemma_nothing_told(
        dropped.map_values(|cache: PoolsView<S, P>| cache.after_drop()),
        metric,
    );
}

/// Metrics of one cluster share their gauge and their counters, whenever they were
/// made and whatever has been reported through them since.
pub proof fn law_same_labels_share_metrics(
    families: PoolMetricFamilies,
    group: Seq<char>,
    cluster: Seq<char>,
    first: MetricsView,
    second: MetricsView,
)
    requires
        counts_on(unreported(families, group, cluster), first),
        counts_on(unreported(families, group, cluster), second),
    ensures
        first.pools.metric == second.pools.metric,
        first.idle_evictions.metric == second.idle_evictions.metric,
        first.lru_evictions.metric == second.lru_evictions.metric,
{
}

/// A lock that somebody owns all along stays the lock of its scope.
proof fn lemma_held_lock_stays<S, P: Clone>(
    states: Seq<PoolsView<S, P>>,
    ops: Seq<Op<S, P>>,
    scope: S,
    lock: BuildLock,
)
    requires
        states[0].inv(),
        states[0].builds.contains(BuildView { scope, lock }),
        is_history(states, ops),
        forall|i: int|
            0 <= i < ops.len() ==> (#[trigger] ops[i]).finds_held(states[i], scope, lock),
    ensures
        states.last().builds.contains(BuildView { scope, lock }),
        states.last().inv(),
    decreases ops.len(),
{
    law_no_history_breaks_the_invariant(states, ops);
    if ops.len() > 0 {
        let n = ops.len() - 1;
        lemma_shorter_history(states, ops);
        assert forall|i: int| 0 <= i < ops.drop_last().len() implies (
        #[trigger] ops.drop_last()[i]).finds_held(states.drop_last()[i], scope, lock) by {
            assert(ops[i].finds_held(states[i], scope, lock));
        }
        lemma_held_lock_stays(states.drop_last(), ops.drop_last(), scope, lock);
        let before = states[n];
        let after = states[n + 1];
        assert(ops[n].leads(before, after));
        assert(ops[n].finds_held(before, scope, lock));
        let slot = choose|k: int|
            0 <= k < before.builds.len() && before.builds[k] == (BuildView { scope, lock });
        assert(before.builds[slot].lock == lock);
        match ops[n] {
            Op::Get { .. } => {},
            Op::Sweep { owners, .. } => {
                lemma_held_locks(before.builds, owners);
                assert(owners[slot] > 0);
            },
            Op::Insert { owners, .. } => {
                lemma_held_locks(before.builds, owners);
                assert(owners[slot] > 0);
            },
            Op::Lock { scope: s, owners, current, lock: given } => {
                lemma_held_locks(before.builds, owners);
                assert(owners[slot] > 0);
                let held = held_locks(before.builds, owners);
                lemma_grants(held, s, current, given, after.builds);
                let k = choose|k: int|
                    0 <= k < held.len() && held[k] == (BuildView { scope, lock });
                assert(s != scope ==> held[k].scope != s);
            },
        }
    }
}

/// While somebody holds the build lock of a scope, everybody who asks for it gets
/// that same lock, whatever else happens to the cache.
pub proof fn law_held_lock_is_shared<S, P: Clone>(
    states: Seq<PoolsView<S, P>>,
    ops: Seq<Op<S, P>>,
    scope: S,
    lock: BuildLock,
)
    requires
        states[0].inv(),
        is_history(states, ops),
        ops.len() > 0,
        ops[0] matches Op::Lock { scope: s, lock: l, .. } && s == scope && l == lock,
        forall|i: int| 0 < i < ops.len() ==> (#[trigger] ops[i]).finds_held(states[i], scope, lock),
    ensures
        states.last().builds.contains(BuildView { scope, lock }),
        forall|i: int|
            0 < i < ops.len() && (#[trigger] ops[i]).asks_for(scope) ==> ops[i]->lock == lock,
{
    assert(ops[0].leads(states[0], states[1]));
    match ops[0] {
        Op::Lock { scope: s, owners, current, lock: l } => {
            law_build_lock_keeps_invariant(states[0], s, owners, current, l, states[1]);
        },
        _ => {},
    }
    let later = ops.skip(1);
    let on = states.skip(1);
    lemma_later_history(states, ops);
    assert forall|i: int| 0 <= i < later.len() implies (#[trigger] later[i]).finds_held(
        on[i],
        scope,
        lock,
    ) by {
        assert(ops[i + 1].finds_held(states[i + 1], scope, lock));
    }
    lemma_held_lock_stays(on, later, scope, lock);
    assert forall|i: int| 0 < i < ops.len() && (#[trigger] ops[i]).asks_for(
        scope,
    ) implies ops[i]->lock == lock by {
        lemma_prefix_history(on, later, i - 1);
        assert forall|j: int| 0 <= j < later.take(i - 1).len() implies (
        #[trigger] later.take(i - 1)[j]).finds_held(on.take(i)[j], scope, lock) by {
            assert(later[j].finds_held(on[j], scope, lock));
        }
        lemma_held_lock_stays(on.take(i), later.take(i - 1), scope, lock);
        assert(on.take(i).last() == states[i]);
        let before = states[i];
        assert(ops[i].leads(before, states[i + 1]));
        assert(ops[i].finds_held(before, scope, lock));
        match ops[i] {
            Op::Lock { scope: s, owners, current, lock: given } => {
                if s == scope {
                    lemma_held_locks(before.builds, owners);
                    let held = held_locks(before.builds, owners);
                    let slot = choose|k: int|
                        0 <= k < before.builds.len() && before.builds[k] == (BuildView {
                            scope,
                            lock,
                        });
                    assert(before.builds[slot].lock == lock);
                    assert(owners[slot] > 0);
                    let k = choose|k: int|
                        0 <= k < held.len() && held[k] == (BuildView { scope, lock });
                    let l = choose|l: int|
                        0 <= l < held.len() && held[l] == (BuildView { scope, lock: given });
                    assert(k == l);
                }
            },
            _ => {},
        }
    }
}

/// A lock that nobody owns is dropped by the next sweep, and when that is all of
/// them none is left.
pub proof fn law_released_locks_go<S, P>(
    before: PoolsView<S, P>,
    now: nat,
    owners: Seq<usize>,
    removed: Seq<P>,
    after: PoolsView<S, P>,
)
    requires
        before.inv(),
        before.sweeps(now, owners, removed, after),
    ensures
        forall|slot: int|
            0 <= slot < before.builds.len() && #[trigger] owners[slot] == 0 ==> !has_lock(
                after.builds,
                before.builds[slot].scope,
            ),
        (forall|slot: int| 0 <= slot < owners.len() ==> #[trigger] owners[slot] == 0)
            ==> after.builds.len() == 0,
{
    lemma_held_locks(before.builds, owners);
    let held = held_locks(before.builds, owners);
    assert forall|slot: int|
        0 <= slot < before.builds.len() && #[trigger] owners[slot] == 0 implies !has_lock(
        held,
        before.builds[slot].scope,
    ) by {
        if has_lock(held, before.builds[slot].scope) {
            let i = choose|i: int|
                0 <= i < held.len() && (#[trigger] held[i]).scope == before.builds[slot].scope;
            let j = choose|j: int|
                0 <= j < before.builds.len() && owners[j] > 0 && #[trigger] before.builds[j]
                    == held[i];
            assert(j != slot);
        }
    }
    if held.len() > 0 {
        let j = choose|j: int|
            0 <= j < before.builds.len() && owners[j] > 0 && #[trigger] before.builds[j] == held[0];
        assert(owners[j] != 0);
    }
}

/// No two scopes ever share a build lock: who builds for one does not wait for
/// the other.
pub proof fn law_scopes_have_own_locks<S, P>(
    before: PoolsView<S, P>,
    scope: S,
    owners: Seq<usize>,
    current: Option<BuildLock>,
    lock: BuildLock,
    after: PoolsView<S, P>,
    slot: int,
)
    requires
        before.inv(),
        before.gives_lock(scope, owners, current, lock, after),
        0 <= slot < after.builds.len(),
        after.builds[slot].scope != scope,
    ensures
        after.builds[slot].lock != lock,
{
    law_build_lock_keeps_invariant(before, scope, owners, current, lock, after);
    let l = choose|l: int|
        0 <= l < after.builds.len() && after.builds[l] == (BuildView { scope, lock });
    assert(after.builds[l].lock == lock);
}

/// A scope without a lock that somebody owns gets a new one: made unlocked, owned
/// by whoever asked alone, and the lock of no other scope.
pub proof fn law_released_scope_gets_new_lock<S, P>(
    before: PoolsView<S, P>,
    scope: S,
    owners: Seq<usize>,
    current: Option<BuildLock>,
    lock: BuildLock,
    after: PoolsView<S, P>,
)
    requires
        before.inv(),
        before.gives_lock(scope, owners, current, lock, after),
        forall|i: int|
            0 <= i < before.builds.len() && (#[trigger] before.builds[i]).scope == scope
                ==> owners[i] == 0,
    ensures
        is_new(lock),
        forall|i: int|
            0 <= i < before.builds.len() && owners[i] > 0 ==> (#[trigger] before.builds[i]).lock
                != lock,
{
    lemma_held_locks(before.builds, owners);
    let held = held_locks(before.builds, owners);
    if current is Some {
        let k = choose|k: int|
            0 <= k < held.len() && held[k] == (BuildView { scope, lock: current->0 });
        let j = choose|j: int|
            0 <= j < before.builds.len() && owners[j] > 0 && #[trigger] before.builds[j] == held[k];
        assert(before.builds[j].scope == scope);
    }
    assert forall|i: int| 0 <= i < before.builds.len() && owners[i] > 0 implies (
    #[trigger] before.builds[i]).lock != lock by {
        let k = choose|k: int| 0 <= k < held.len() && held[k] == before.builds[i];
        assert(held[k].lock != lock);
    }
}

} // verus!
