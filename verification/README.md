# scoped_pools

A bounded cache of connection pools, one pool per scope, verified with Verus.

A pool that has gone unused for the idle timeout is dropped by the next sweep or
insertion and is never handed out again. When the cache is full, the least recently
used pool makes room for a new one. Whoever builds the pool of a scope holds that
scope's build lock meanwhile. Each cache reports how many pools it holds and how
many it evicted.

- `src/model.rs` gives the cache as a mathematical value and its operations as steps
  on that value; `src/laws.rs` proves what holds of those steps together.
- `src/pools.rs` is the cache, with `src/table.rs` and `src/locks.rs` under it.
- `src/outside/` holds what is believed of std, tokio and prometheus, and nothing
  else is believed.
- `src/metrics.rs` holds the metrics of a cache, `src/clock.rs` its clock,
  `src/scope.rs` the keys, and `src/background.rs` the decisions of the background
  tasks.
- `app/` shares a cache of r2d2 pools between tokio tasks.

A cache works for any key that names a scope (`ScopeKey`); `PoolScopeKey` names one
by a delegated token.

The operations that read the clock have counterparts that take the time and the
owners of the build locks as arguments (`get_at`, `insert_at`, `remove_idle`), and
`build_lock` is made of `owners`, `drop_released`, `current_lock` and
`build_lock_from`.
