use std::sync::Arc;
use std::time::{Duration, Instant};

use scoped_pools::background::{
    with_build_guard, Reaper, ReaperAction, ReaperEvent, SweepReport, MAX_REAP_INTERVAL_NANOS,
};
use scoped_pools::metrics::{PoolMetricFamilies, ScopedPoolMetrics};
use scoped_pools::pools::{ScopedPools, DEFAULT_IDLE_TIMEOUT_SECS, DEFAULT_MAX_COUNT};
use scoped_pools::scope::{PoolScopeKey, ScopeKey};

type Cache = ScopedPools<PoolScopeKey, u32>;

fn key(name: &str) -> PoolScopeKey {
    PoolScopeKey {
        token: Some(name.into()),
    }
}

fn cache(idle_timeout: u128, max_count: usize) -> Cache {
    ScopedPools::new(idle_timeout, max_count, &PoolMetricFamilies::new(), "group", "cluster")
}

fn counts(cache: &Cache) -> (i64, u64, u64) {
    let metrics = cache.metrics();
    (
        metrics.pools.handle.metric.get(),
        metrics.idle_evictions.handle.metric.get(),
        metrics.lru_evictions.handle.metric.get(),
    )
}

fn sorted(mut pools: Vec<u32>) -> Vec<u32> {
    pools.sort();
    pools
}

#[test]
fn defaults() {
    assert_eq!(DEFAULT_IDLE_TIMEOUT_SECS, 900);
    assert_eq!(DEFAULT_MAX_COUNT, 500);
}

#[test]
fn scopes_compare_by_token() {
    assert!(key("a").same_scope(&key("a")));
    assert!(!key("a").same_scope(&key("b")));
    assert!(!key("a").same_scope(&PoolScopeKey::default()));
    assert!(!PoolScopeKey::default().same_scope(&key("")));
    assert!(PoolScopeKey::default().same_scope(&PoolScopeKey { token: None }));
    assert_eq!(key("a").clone(), key("a"));
    assert_eq!(PoolScopeKey::default().clone().token, None);
}

#[test]
fn unknown_scope_is_not_found() {
    let mut cache = cache(100, 2);
    assert_eq!(cache.get_at(&key("a"), 5), None);
    assert_eq!(cache.get(&key("a")), None);
    assert_eq!(cache.len(), 0);
}

#[test]
fn inserted_pool_is_found_until_the_timeout() {
    let mut cache = cache(100, 2);
    let owners = cache.owners();
    assert_eq!(cache.insert_at(key("a"), 1, 50, &owners), vec![]);
    assert_eq!(cache.get_at(&key("a"), 149), Some(1));
    // The lookup was a use.
    assert_eq!(cache.get_at(&key("a"), 248), Some(1));
    assert_eq!(cache.get_at(&key("a"), 348), None);
    assert_eq!(cache.get_at(&key("a"), 1000), None);
    // An expired pool counts until it is swept.
    assert_eq!(cache.len(), 1);
    assert_eq!(counts(&cache), (1, 0, 0));
}

#[test]
fn clock_that_reads_less_than_the_last_use_is_no_idleness() {
    let mut cache = cache(100, 2);
    let owners = cache.owners();
    cache.insert_at(key("a"), 1, 500, &owners);
    assert_eq!(cache.get_at(&key("a"), 10), Some(1));
    assert_eq!(cache.get_at(&key("a"), 110), None);
}

#[test]
fn replacing_a_pool_hands_back_the_old_one() {
    let mut cache = cache(100, 2);
    let owners = cache.owners();
    cache.insert_at(key("a"), 1, 0, &owners);
    cache.insert_at(key("b"), 2, 1, &owners);
    assert_eq!(cache.insert_at(key("a"), 3, 2, &owners), vec![1]);
    assert_eq!(cache.get_at(&key("a"), 3), Some(3));
    assert_eq!(cache.get_at(&key("b"), 3), Some(2));
    assert_eq!(counts(&cache), (2, 0, 0));
}

#[test]
fn idle_pools_make_room_before_used_ones() {
    let mut cache = cache(100, 3);
    let owners = cache.owners();
    cache.insert_at(key("a"), 1, 0, &owners);
    cache.insert_at(key("b"), 2, 10, &owners);
    cache.insert_at(key("c"), 3, 60, &owners);
    assert_eq!(sorted(cache.insert_at(key("d"), 4, 110, &owners)), vec![1, 2]);
    assert_eq!(cache.len(), 2);
    assert_eq!(cache.get_at(&key("c"), 110), Some(3));
    assert_eq!(counts(&cache), (2, 2, 0));
}

#[test]
fn least_recently_used_pool_makes_room() {
    let mut cache = cache(100, 2);
    let owners = cache.owners();
    cache.insert_at(key("a"), 1, 0, &owners);
    cache.insert_at(key("b"), 2, 1, &owners);
    assert_eq!(cache.get_at(&key("a"), 2), Some(1));
    assert_eq!(cache.insert_at(key("c"), 3, 3, &owners), vec![2]);
    assert_eq!(cache.insert_at(key("d"), 4, 4, &owners), vec![1]);
    assert_eq!(cache.get_at(&key("c"), 5), Some(3));
    assert_eq!(counts(&cache), (2, 0, 2));
}

#[test]
fn bound_of_one() {
    let mut cache = cache(100, 1);
    let owners = cache.owners();
    for i in 0..20 {
        let removed = cache.insert_at(key(&i.to_string()), i, i as u128, &owners);
        assert_eq!(removed.len(), if i == 0 { 0 } else { 1 });
        assert_eq!(cache.len(), 1);
    }
    assert_eq!(counts(&cache), (1, 0, 19));
}

#[test]
fn greatest_bound_is_accepted() {
    let mut cache = cache(u128::MAX, usize::MAX);
    let owners = cache.owners();
    for i in 0..50 {
        assert_eq!(cache.insert_at(key(&i.to_string()), i, i as u128, &owners), vec![]);
    }
    assert_eq!(cache.len(), 50);
    assert_eq!(counts(&cache), (50, 0, 0));
}

#[test]
fn sweep_takes_the_idle_and_only_once() {
    let mut cache = cache(100, 4);
    let owners = cache.owners();
    cache.insert_at(key("a"), 1, 0, &owners);
    cache.insert_at(key("b"), 2, 50, &owners);
    cache.insert_at(key("c"), 3, 51, &owners);
    assert_eq!(sorted(cache.remove_idle(150, &owners)), vec![1, 2]);
    assert_eq!(cache.remove_idle(150, &owners), vec![]);
    assert_eq!(cache.get_at(&key("c"), 150), Some(3));
    assert_eq!(counts(&cache), (1, 2, 0));
}

#[test]
fn clock_of_the_cache_runs() {
    let mut cache = cache(20_000_000, 2);
    let inserted = Instant::now();
    cache.insert(key("a"), 7);
    if inserted.elapsed() < Duration::from_millis(10) {
        assert_eq!(cache.get(&key("a")), Some(7));
        assert_eq!(cache.sweep(), vec![]);
    }
    let used = Instant::now();
    while used.elapsed() < Duration::from_millis(25) {
        std::hint::spin_loop();
    }
    assert_eq!(cache.get(&key("a")), None);
    assert_eq!(cache.sweep(), vec![7]);
    assert_eq!(counts(&cache), (0, 1, 0));
}

#[test]
fn dropping_a_cache_takes_its_pools_off_the_gauge() {
    let families = PoolMetricFamilies::new();
    let mut first: Cache = ScopedPools::new(100, 5, &families, "group", "cluster");
    let mut second: Cache = ScopedPools::new(100, 5, &families, "group", "cluster");
    let owners = first.owners();
    for i in 0..3 {
        first.insert_at(key(&i.to_string()), i, 0, &owners);
    }
    second.insert_at(key("x"), 9, 0, &owners);
    assert_eq!(counts(&first), (4, 0, 0));
    drop(first);
    assert_eq!(counts(&second), (1, 0, 0));
}

#[test]
fn metrics_go_by_their_labels() {
    let families = PoolMetricFamilies::new();
    let registry = prometheus::Registry::new();
    families.register(&registry).unwrap();
    let mut here: Cache = ScopedPools::new(100, 5, &families, "group", "here");
    let there: Cache = ScopedPools::new(100, 5, &families, "group", "there");
    here.insert(key("a"), 1);
    here.metrics().lru_evictions.handle.metric.inc_by(4);
    there.metrics().idle_evictions.handle.metric.inc_by(3);
    assert_eq!(counts(&here), (1, 0, 4));
    assert_eq!(counts(&there), (0, 3, 0));
    let text = prometheus::TextEncoder::new()
        .encode_to_string(&registry.gather())
        .unwrap();
    assert!(text.contains("{cluster_group=\"group\",cluster_name=\"here\"} 1"));
    assert!(text.contains("{cluster_group=\"group\",cluster_name=\"there\"} 0"));
    assert!(text.contains("{cluster_group=\"group\",cluster_name=\"here\",reason=\"lru\"} 4"));
    assert!(text.contains("{cluster_group=\"group\",cluster_name=\"here\",reason=\"idle\"} 0"));
    assert!(text.contains("{cluster_group=\"group\",cluster_name=\"there\",reason=\"idle\"} 3"));
    assert!(text.contains("# HELP queryflux_adbc_scoped_pools Cached ADBC scoped sub-pools, including expired entries awaiting cleanup"));
    assert!(text.contains("# HELP queryflux_adbc_scoped_pool_evictions_total ADBC scoped sub-pool evictions"));
}

#[test]
fn metrics_of_one_cluster_are_shared() {
    let families = PoolMetricFamilies::new();
    let first = ScopedPoolMetrics::new(&families, "group", "cluster");
    first.pools.handle.metric.add(5);
    first.idle_evictions.handle.metric.inc_by(2);
    first.lru_evictions.handle.metric.inc_by(3);
    // Making further handles leaves the values alone.
    let second = ScopedPoolMetrics::new(&families, "group", "cluster");
    assert_eq!(second.pools.handle.metric.get(), 5);
    assert_eq!(second.idle_evictions.handle.metric.get(), 2);
    assert_eq!(second.lru_evictions.handle.metric.get(), 3);
    second.pools.handle.metric.sub(1);
    assert_eq!(first.pools.handle.metric.get(), 4);
    let elsewhere = ScopedPoolMetrics::new(&PoolMetricFamilies::new(), "group", "cluster");
    assert_eq!(elsewhere.pools.handle.metric.get(), 0);
}

#[test]
fn gauge_is_the_sum_over_the_caches_with_its_labels() {
    let families = PoolMetricFamilies::new();
    let generation = || -> Cache { ScopedPools::new(100, 3, &families, "group", "cluster") };
    let mut caches = vec![generation(), generation(), generation()];
    let mut evicted: u64 = 0;
    for step in 0..40 {
        let n = (step * 7) % 3;
        let owners = caches[n].owners();
        let name = format!("{}", step % 5);
        let removed = caches[n].insert_at(key(&name), step as u32, step as u128, &owners);
        evicted += removed.len() as u64;
        let sum: usize = caches.iter().map(|cache| cache.len()).sum();
        assert_eq!(counts(&caches[0]).0, sum as i64);
        assert!(counts(&caches[0]).2 <= evicted);
    }
    let gone = caches.pop().unwrap();
    assert!(gone.len() > 0);
    drop(gone);
    assert_eq!(counts(&caches[0]).0, (caches[0].len() + caches[1].len()) as i64);
}

#[test]
fn families_are_registered_once() {
    let families = PoolMetricFamilies::new();
    let registry = prometheus::Registry::new();
    assert!(families.register(&registry).is_ok());
    assert!(matches!(families.register(&registry), Err(prometheus::Error::AlreadyReg)));
    assert!(families.register(&prometheus::Registry::new()).is_ok());
}

#[test]
fn scopes_have_locks_of_their_own() {
    let mut cache = cache(100, 2);
    let a = cache.build_lock(&key("a"));
    let b = cache.build_lock(&key("b"));
    assert!(!Arc::ptr_eq(&a, &b));
    assert_eq!(cache.owners(), vec![1, 1]);
    let _guard = a.try_lock().unwrap();
    assert!(b.try_lock().is_ok());
    assert!(cache.build_lock(&key("a")).try_lock().is_err());
    assert_eq!(cache.build_lock_count(), 2);
}

#[test]
fn released_locks_are_dropped_and_held_ones_kept() {
    let mut cache = cache(100, 2);
    let a = cache.build_lock(&key("a"));
    let b = cache.build_lock(&key("b"));
    let c = cache.build_lock(&key("c"));
    drop(b);
    assert_eq!(cache.owners(), vec![1, 0, 1]);
    cache.insert(key("x"), 1);
    assert_eq!(cache.build_lock_count(), 2);
    assert!(Arc::ptr_eq(&a, &cache.build_lock(&key("a"))));
    assert!(Arc::ptr_eq(&c, &cache.build_lock(&key("c"))));
    assert!(Arc::ptr_eq(&c, &cache.current_lock(&key("c")).unwrap()));
    drop(a);
    drop(c);
    cache.sweep();
    assert_eq!(cache.build_lock_count(), 0);
}

#[test]
fn new_lock_is_unlocked_and_owned_by_who_asked() {
    let mut cache = cache(100, 2);
    let lock = cache.build_lock(&key("a"));
    assert_eq!(Arc::strong_count(&lock), 1);
    assert!(lock.try_lock().is_ok());
    assert_eq!(cache.owners(), vec![1]);
    let guard = lock.clone().try_lock_owned().unwrap();
    drop(lock);
    // Who holds the lock owns it.
    assert_eq!(cache.owners(), vec![1]);
    assert!(cache.build_lock(&key("a")).try_lock().is_err());
    drop(guard);
    assert_eq!(cache.owners(), vec![0]);
    let fresh = cache.build_lock(&key("a"));
    assert_eq!(Arc::strong_count(&fresh), 1);
    assert_eq!(cache.build_lock_count(), 1);
}

#[test]
fn lock_that_is_gone_is_replaced() {
    let mut cache = cache(100, 2);
    assert!(cache.current_lock(&key("a")).is_none());
    let a = cache.build_lock(&key("a"));
    let b = cache.build_lock(&key("b"));
    let current = cache.current_lock(&key("a"));
    assert!(Arc::ptr_eq(&a, &cache.build_lock_from(&key("a"), current)));
    drop(a);
    assert!(cache.current_lock(&key("a")).is_none());
    let fresh = cache.build_lock_from(&key("a"), None);
    assert_eq!(Arc::strong_count(&fresh), 1);
    assert_eq!(cache.build_lock_count(), 2);
    assert!(Arc::ptr_eq(&b, &cache.build_lock(&key("b"))));
    assert_eq!(cache.owners(), vec![1, 1]);
}

#[test]
fn only_locks_without_owners_are_dropped() {
    let mut cache = cache(100, 2);
    let _a = cache.build_lock(&key("a"));
    let _b = cache.build_lock(&key("b"));
    let _c = cache.build_lock(&key("c"));
    cache.drop_released(&vec![0, 2, 0]);
    assert_eq!(cache.build_lock_count(), 1);
    assert!(cache.current_lock(&key("a")).is_none());
    assert!(cache.current_lock(&key("b")).is_some());
}

#[test]
fn held_lock_is_shared_through_any_history() {
    let mut cache = cache(10, 2);
    let held = cache.build_lock(&key("a"));
    for step in 0..30 {
        let name = format!("{}", step % 4);
        cache.insert(key(&name), step);
        drop(cache.build_lock(&key(&name)));
        cache.get(&key("a"));
        cache.sweep();
        assert!(Arc::ptr_eq(&held, &cache.build_lock(&key("a"))));
    }
    assert_eq!(cache.build_lock_count(), 1);
}

#[test]
fn inserted_pool_is_found_through_any_history() {
    let mut cache = cache(100, 2);
    let owners = cache.owners();
    cache.insert_at(key("a"), 7, 0, &owners);
    for step in 1..50 {
        let name = format!("{}", step % 4);
        assert_eq!(cache.get_at(&key("a"), step * 10), Some(7));
        cache.insert_at(key(&name), step as u32, step * 10, &owners);
        cache.remove_idle(step * 10, &owners);
    }
    assert_eq!(cache.get_at(&key("a"), 589), Some(7));
}

#[test]
fn expired_pool_stays_lost_through_any_history() {
    let mut cache = cache(100, 3);
    let owners = cache.owners();
    cache.insert_at(key("a"), 7, 0, &owners);
    assert_eq!(cache.get_at(&key("a"), 100), None);
    for step in 0..20 {
        cache.insert_at(key(&format!("{}", step % 4)), 1, 100 + step, &owners);
        assert_eq!(cache.get_at(&key("a"), 100 + step), None);
    }
    cache.insert_at(key("a"), 8, 200, &owners);
    assert_eq!(cache.get_at(&key("a"), 201), Some(8));
}

#[test]
fn earlier_sweep_changes_nothing_later() {
    let filled = || {
        let mut cache = cache(100, 5);
        let owners = cache.owners();
        for i in 0..5 {
            cache.insert_at(key(&i.to_string()), i, 20 * i as u128, &owners);
        }
        cache
    };
    let mut once = filled();
    let mut twice = filled();
    let owners = once.owners();
    assert_eq!(sorted(twice.remove_idle(125, &owners)), vec![0, 1]);
    // Nor does it find more when the clock reads less.
    assert_eq!(twice.remove_idle(100, &owners), vec![]);
    assert_eq!(sorted(twice.remove_idle(160, &owners)), vec![2, 3]);
    assert_eq!(sorted(once.remove_idle(160, &owners)), vec![0, 1, 2, 3]);
    assert_eq!(counts(&once), counts(&twice));
    assert_eq!(once.get_at(&key("4"), 160), twice.get_at(&key("4"), 160));
}

#[test]
fn sweep_changes_no_lookup() {
    let mut swept = cache(100, 5);
    let mut left = cache(100, 5);
    let owners = swept.owners();
    for i in 0..5 {
        swept.insert_at(key(&i.to_string()), i, 20 * i as u128, &owners);
        left.insert_at(key(&i.to_string()), i, 20 * i as u128, &owners);
    }
    swept.remove_idle(125, &owners);
    for i in 0..5 {
        let name = i.to_string();
        assert_eq!(swept.get_at(&key(&name), 130), left.get_at(&key(&name), 130));
    }
}

#[test]
fn reaper_sweeps_within_a_minute() {
    let sleeps = |timeout: Duration| cache(timeout.as_nanos(), 2).reaper().action();
    assert_eq!(MAX_REAP_INTERVAL_NANOS, Duration::from_secs(60).as_nanos());
    assert_eq!(sleeps(Duration::from_millis(20)), ReaperAction::Sleep(20_000_000));
    assert_eq!(sleeps(Duration::from_secs(60)), ReaperAction::Sleep(60_000_000_000));
    assert_eq!(sleeps(Duration::from_secs(900)), ReaperAction::Sleep(60_000_000_000));
}

#[test]
fn reaper_sleeps_and_sweeps_in_turn() {
    let mut reaper = Reaper::new(5);
    for _ in 0..3 {
        assert_eq!(reaper.action(), ReaperAction::Sleep(5));
        reaper.observe(ReaperEvent::Woke);
        assert_eq!(reaper.action(), ReaperAction::Sweep);
        reaper.observe(ReaperEvent::Reported(SweepReport::Swept));
    }
    assert_eq!(reaper.action(), ReaperAction::Sleep(5));
}

#[test]
fn reaper_stops_with_its_cache() {
    for report in [SweepReport::CacheGone, SweepReport::Failed] {
        let mut reaper = Reaper::new(5);
        reaper.observe(ReaperEvent::Woke);
        reaper.observe(ReaperEvent::Reported(report));
        assert_eq!(reaper.action(), ReaperAction::Stop);
        reaper.observe(ReaperEvent::Woke);
        reaper.observe(ReaperEvent::Reported(SweepReport::Swept));
        assert_eq!(reaper.action(), ReaperAction::Stop);
    }
}

#[test]
fn guard_comes_back_with_the_result() {
    assert_eq!(with_build_guard("guard", || 6 * 7), (42, "guard"));
}
