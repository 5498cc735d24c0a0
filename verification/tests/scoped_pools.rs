use std::sync::atomic::{AtomicUsize, Ordering};
use std::sync::{Arc, Barrier, Mutex};
use std::time::{Duration, Instant};

use r2d2::{ManageConnection, Pool};
use scoped_pools::background::with_build_guard;
use scoped_pools::metrics::PoolMetricFamilies;
use scoped_pools::pools::ScopedPools;
use scoped_pools::scope::PoolScopeKey;
use tokio::sync::OwnedMutexGuard;
use tokio::task::JoinHandle;

struct TestManager(Arc<AtomicUsize>);
struct TestConnection(Arc<AtomicUsize>);

impl Drop for TestConnection {
    fn drop(&mut self) {
        self.0.fetch_sub(1, Ordering::SeqCst);
    }
}

impl ManageConnection for TestManager {
    type Connection = TestConnection;
    type Error = std::io::Error;

    fn connect(&self) -> Result<Self::Connection, Self::Error> {
        self.0.fetch_add(1, Ordering::SeqCst);
        Ok(TestConnection(self.0.clone()))
    }
    fn is_valid(&self, _: &mut Self::Connection) -> Result<(), Self::Error> {
        Ok(())
    }
    fn has_broken(&self, _: &mut Self::Connection) -> bool {
        false
    }
}

type Cache = ScopedPools<PoolScopeKey, Pool<TestManager>>;

const SECOND: u128 = 1_000_000_000;

fn pool() -> (Pool<TestManager>, Arc<AtomicUsize>) {
    let live = Arc::new(AtomicUsize::new(0));
    let pool = Pool::builder()
        .max_size(1)
        .idle_timeout(None)
        .max_lifetime(None)
        .build(TestManager(live.clone()))
        .unwrap();
    (pool, live)
}

fn key(name: &str) -> PoolScopeKey {
    PoolScopeKey {
        token: Some(name.into()),
        ..Default::default()
    }
}

fn cache(name: &str, max: usize) -> Cache {
    ScopedPools::new(
        900 * SECOND,
        max,
        &PoolMetricFamilies::new(),
        "scoped-pool-tests",
        name,
    )
}

fn pools_reported(cache: &Cache) -> i64 {
    cache.metrics().pools.handle.metric.get()
}

fn idle_evictions(cache: &Cache) -> u64 {
    cache.metrics().idle_evictions.handle.metric.get()
}

fn lru_evictions(cache: &Cache) -> u64 {
    cache.metrics().lru_evictions.handle.metric.get()
}

fn await_closed(live: &AtomicUsize) {
    // r2d2's connection creation worker may briefly retain a pool reference
    // after build returns. Wait for that worker to release it too.
    let deadline = Instant::now() + Duration::from_secs(2);
    while live.load(Ordering::SeqCst) != 0 {
        assert!(Instant::now() < deadline, "connection was not released");
        std::hint::spin_loop();
    }
}

/// Runs blocking work as a background build does.
fn spawn_with_build_guard<T: Send + 'static>(
    guard: OwnedMutexGuard<()>,
    work: impl FnOnce() -> T + Send + 'static,
) -> JoinHandle<(T, OwnedMutexGuard<()>)> {
    tokio::task::spawn_blocking(move || with_build_guard(guard, work))
}

fn runtime() -> tokio::runtime::Runtime {
    tokio::runtime::Builder::new_multi_thread()
        .enable_time()
        .build()
        .unwrap()
}

#[test]
fn lru_uses_last_access_and_closes_evicted_connections() {
    let mut cache = cache("lru", 2);
    let (a, live_a) = pool();
    let (b, live_b) = pool();
    let (c, live_c) = pool();
    let owners = cache.owners();
    let now = 10 * SECOND;
    drop(cache.insert_at(key("a"), a, now - 10 * SECOND, &owners));
    drop(cache.insert_at(key("b"), b, now - 5 * SECOND, &owners));
    drop(cache.get_at(&key("a"), now).unwrap());
    drop(cache.insert_at(key("c"), c, now, &owners));
    assert!(cache.get_at(&key("b"), now).is_none());
    assert!(cache.get_at(&key("a"), now).is_some());
    assert!(cache.get_at(&key("c"), now).is_some());
    assert_eq!(pools_reported(&cache), 2);
    assert_eq!(lru_evictions(&cache), 1);
    await_closed(&live_b);
    drop(cache);
    await_closed(&live_a);
    await_closed(&live_c);
}

#[test]
fn expiry_does_not_revive_pool_or_interrupt_checked_out_connection() {
    let mut cache = cache("expiry", 2);
    let (pool, live) = pool();
    let connection = pool.get().unwrap();
    let owners = cache.owners();
    drop(cache.insert_at(key("a"), pool, 0, &owners));
    let now = 900 * SECOND;
    assert!(cache.get_at(&key("a"), now).is_none());
    drop(cache.remove_idle(now, &owners));
    assert_eq!(pools_reported(&cache), 0);
    assert_eq!(idle_evictions(&cache), 1);
    assert_eq!(live.load(Ordering::SeqCst), 1);
    drop(connection);
    await_closed(&live);
}

#[test]
fn concurrent_inserts_stay_within_capacity() {
    let cache = Arc::new(Mutex::new(cache("concurrent", 3)));
    let (pool, _) = pool();
    let barrier = Arc::new(Barrier::new(16));
    runtime().block_on(async {
        let mut tasks = Vec::new();
        for i in 0..16 {
            let cache = cache.clone();
            let pool = pool.clone();
            let barrier = barrier.clone();
            tasks.push(tokio::task::spawn_blocking(move || {
                barrier.wait();
                let removed = cache.lock().unwrap().insert(key(&i.to_string()), pool);
                drop(removed);
                assert!(cache.lock().unwrap().len() <= 3);
            }));
        }
        for task in tasks {
            task.await.unwrap();
        }
    });
    let cache = cache.lock().unwrap();
    assert_eq!(pools_reported(&cache), 3);
    assert_eq!(lru_evictions(&cache), 13);
}

#[test]
fn build_locks_are_shared_until_all_waiters_release_them() {
    let mut cache = cache("locks", 2);
    let first = cache.build_lock(&key("a"));
    let waiter = cache.build_lock(&key("a"));
    assert!(Arc::ptr_eq(&first, &waiter));
    drop(first);
    assert!(Arc::ptr_eq(&waiter, &cache.build_lock(&key("a"))));
    drop(waiter);
    cache.sweep();
    assert_eq!(cache.build_lock_count(), 0);
}

#[test]
fn timed_out_build_holds_scope_lock_until_worker_finishes() {
    runtime().block_on(async {
        let mut cache = cache("timed-out-build", 2);
        let guard = cache.build_lock(&key("a")).lock_owned().await;
        let (started_tx, started_rx) = tokio::sync::oneshot::channel();
        let (finish_tx, finish_rx) = std::sync::mpsc::channel();
        let build = spawn_with_build_guard(guard, move || {
            started_tx.send(()).unwrap();
            finish_rx.recv_timeout(Duration::from_secs(5)).unwrap();
        });
        started_rx.await.unwrap();
        assert!(tokio::time::timeout(Duration::from_millis(10), build)
            .await
            .is_err());

        // Pruning released locks must not create a new lock for the running build.
        cache.sweep();
        let same_scope = cache.build_lock(&key("a"));
        assert!(same_scope.try_lock().is_err());
        assert!(cache.build_lock(&key("b")).try_lock().is_ok());
        finish_tx.send(()).unwrap();
        let guard = tokio::time::timeout(Duration::from_secs(2), same_scope.lock_owned())
            .await
            .unwrap();
        drop(guard);
        cache.sweep();
        assert_eq!(cache.build_lock_count(), 0);
    });
}

#[test]
fn cancelled_publication_keeps_guard_until_pool_is_cached() {
    runtime().block_on(async {
        let cache = Arc::new(Mutex::new(cache("cancelled-publication", 2)));
        let lock = cache.lock().unwrap().build_lock(&key("a"));
        let guard = lock.lock_owned().await;
        let (built_pool, _) = pool();
        let (built_pool, guard) = spawn_with_build_guard(guard, move || built_pool)
            .await
            .unwrap();
        let lock = cache.lock().unwrap().build_lock(&key("a"));
        assert!(lock.try_lock().is_err());

        let (started_tx, started_rx) = tokio::sync::oneshot::channel();
        let (finish_tx, finish_rx) = std::sync::mpsc::channel();
        let cache_for_insert = cache.clone();
        let insertion = spawn_with_build_guard(guard, move || {
            started_tx.send(()).unwrap();
            finish_rx.recv_timeout(Duration::from_secs(5)).unwrap();
            let removed = cache_for_insert.lock().unwrap().insert(key("a"), built_pool);
            drop(removed);
        });
        started_rx.await.unwrap();
        drop(insertion); // A cancelled request drops its JoinHandle the same way.
        let lock = cache.lock().unwrap().build_lock(&key("a"));
        assert!(lock.try_lock().is_err());
        finish_tx.send(()).unwrap();
        let _guard = tokio::time::timeout(Duration::from_secs(2), lock.lock_owned())
            .await
            .unwrap();
        assert!(cache.lock().unwrap().get(&key("a")).is_some());
    });
}

#[test]
fn failed_or_panicking_build_releases_scope_lock() {
    runtime().block_on(async {
        let mut cache = cache("failed-build", 2);
        let guard = cache.build_lock(&key("a")).lock_owned().await;
        let (result, guard) = spawn_with_build_guard(guard, || Err::<(), _>("build failed"))
            .await
            .unwrap();
        assert!(result.is_err());
        drop(guard);
        assert!(cache.build_lock(&key("a")).try_lock().is_ok());

        let guard = cache.build_lock(&key("a")).lock_owned().await;
        assert!(spawn_with_build_guard(guard, || panic!("driver panic"))
            .await
            .unwrap_err()
            .is_panic());
        assert!(cache.build_lock(&key("a")).try_lock().is_ok());
    });
}

#[test]
fn metrics_are_exposed_and_survive_overlapping_adapter_generations() {
    let families = PoolMetricFamilies::new();
    let registry = prometheus::Registry::new();
    families.register(&registry).unwrap();
    let generation = || -> Cache {
        ScopedPools::new(900 * SECOND, 1, &families, "scoped-pool-tests", "metrics")
    };
    let mut first = generation();
    let mut second = generation();
    let (a, _) = pool();
    let (b, _) = pool();
    let owners = first.owners();
    drop(first.insert_at(key("a"), a, 0, &owners));
    drop(second.insert(key("b"), b));
    assert_eq!(pools_reported(&first), 2);
    drop(first.remove_idle(900 * SECOND, &owners));
    let text = prometheus::TextEncoder::new()
        .encode_to_string(&registry.gather())
        .unwrap();
    assert!(text.contains("queryflux_adbc_scoped_pools{cluster_group=\"scoped-pool-tests\",cluster_name=\"metrics\"} 1"));
    assert!(text.contains("queryflux_adbc_scoped_pool_evictions_total{cluster_group=\"scoped-pool-tests\",cluster_name=\"metrics\",reason=\"idle\"} 1"));
    drop(first);
    assert_eq!(pools_reported(&second), 1);
    let gauge = second.metrics().pools.handle.metric.clone();
    drop(second);
    assert_eq!(gauge.get(), 0);
}
