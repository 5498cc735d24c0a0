//! tokio's mutexes, and std's strong and weak references to them.
use crate::locks::BuildSlot;
use crate::scope::ScopeKey;
use std::sync::Arc;
use vstd::prelude::*;

verus! {

/// tokio's asynchronous mutex, carried without looking inside. Two locks are
/// equal when they are the same lock.
#[verifier::external_type_specification]
#[verifier::external_body]
#[verifier::reject_recursive_types(T)]
pub struct ExMutex<T: ?Sized>(tokio::sync::Mutex<T>);

/// The lock that whoever builds the pool of a scope holds meanwhile.
pub type BuildLock = Arc<tokio::sync::Mutex<()>>;

/// std's `Weak`, which has an allocator among its parameters and so stays out of
/// verified signatures.
#[verifier::external_body]
pub struct WeakHandle {
    weak: std::sync::Weak<tokio::sync::Mutex<()>>,
}

/// A weak reference, with a record of the lock that it refers to.
pub struct LockRef {
    handle: WeakHandle,
    lock: Ghost<BuildLock>,
}

impl LockRef {
    /// The lock that it refers to.
    pub closed spec fn lock(self) -> BuildLock {
        self.lock@
    }
}

/// How many owners a lock had when they were counted, with a record of the lock.
pub struct OwnerCount {
    count: usize,
    of: Ghost<BuildLock>,
}

impl OwnerCount {
    pub closed spec fn count(self) -> usize {
        self.count
    }

    /// The number that was counted.
    pub(crate) fn number(&self) -> (n: usize)
        ensures
            n == self.count(),
    {
        self.count
    }

    /// The lock whose owners were counted.
    pub closed spec fn of(self) -> BuildLock {
        self.of@
    }
}

/// Whether `n` owners of `lock` were counted.
pub open spec fn is_count(lock: BuildLock, n: usize) -> bool {
    exists|c: OwnerCount| c.of() == lock && #[trigger] c.count() == n
}

/// What upgrading a weak reference gave, with a record of the lock that it refers
/// to.
pub struct Upgrade {
    result: Option<BuildLock>,
    of: Ghost<BuildLock>,
}

impl Upgrade {
    pub closed spec fn result(self) -> Option<BuildLock> {
        self.result
    }

    /// What upgrading gave.
    pub(crate) fn into_result(self) -> (result: Option<BuildLock>)
        ensures
            result == self.result(),
    {
        self.result
    }

    /// The lock that the weak reference refers to.
    pub closed spec fn of(self) -> BuildLock {
        self.of@
    }
}

/// Whether upgrading a weak reference to `lock` gave `result`.
pub open spec fn is_upgrade(lock: BuildLock, result: Option<BuildLock>) -> bool {
    exists|u: Upgrade| u.of() == lock && #[trigger] u.result() == result
}

/// A lock that was just made, with a record of how.
pub struct NewLock {
    lock: BuildLock,
    unlocked: Ghost<bool>,
    owners: Ghost<nat>,
}

impl NewLock {
    pub closed spec fn lock(self) -> BuildLock {
        self.lock
    }

    /// The lock itself.
    pub(crate) fn into_lock(self) -> (lock: BuildLock)
        ensures
            lock == self.lock(),
    {
        self.lock
    }

    /// Whether it was made unlocked.
    pub closed spec fn unlocked(self) -> bool {
        self.unlocked@
    }

    /// The number of owners that it was made with.
    pub closed spec fn owners(self) -> nat {
        self.owners@
    }
}

/// Whether `lock` was made unlocked and with a single owner.
pub open spec fn is_new(lock: BuildLock) -> bool {
    exists|made: NewLock| #[trigger] made.lock() == lock && made.unlocked() && made.owners() == 1
}

/// A record says what was given back, as it was given.
proof fn law_records_hold_what_was_given(c: OwnerCount, u: Upgrade, made: NewLock)
    ensures
        c.count() == c.count,
        u.result() == u.result,
        made.lock() == made.lock,
{
}

/// std's `Arc::downgrade`: a weak reference to the same lock.
#[verifier::external_body]
pub(crate) fn downgrade(lock: &BuildLock) -> (reference: LockRef)
    ensures
        reference.lock() == *lock,
{
    LockRef { handle: WeakHandle { weak: Arc::downgrade(lock) }, lock: Ghost(arbitrary()) }
}

/// std's `Weak::strong_count`. It counts the owners of the lock that is referred
/// to; how many there are depends on what they do.
#[verifier::external_body]
pub(crate) fn owner_count(reference: &LockRef) -> (c: OwnerCount)
    ensures
        c.of() == reference.lock(),
{
    OwnerCount { count: reference.handle.weak.strong_count(), of: Ghost(arbitrary()) }
}

/// std's `Weak::upgrade`: the lock that is referred to, or nothing. Which of the
/// two depends on whether it still has an owner.
#[verifier::external_body]
pub(crate) fn upgrade(reference: &LockRef) -> (u: Upgrade)
    ensures
        u.of() == reference.lock(),
        u.result() matches Some(lock) ==> lock == reference.lock(),
{
    Upgrade { result: reference.handle.weak.upgrade(), of: Ghost(arbitrary()) }
}

/// tokio's `Mutex::new`, in an `Arc` of its own: an unlocked lock with one owner,
/// which is none of those that are in use.
#[verifier::external_body]
#[allow(unused_variables)]
pub(crate) fn new_lock<K: ScopeKey>(in_use: &Vec<BuildSlot<K>>) -> (made: NewLock)
    ensures
        made.unlocked(),
        made.owners() == 1,
        forall|i: int| 0 <= i < in_use@.len() ==> (#[trigger] in_use@[i]).lock.lock() != made.lock(),
{
    let lock = Arc::new(tokio::sync::Mutex::new(()));
    NewLock { lock, unlocked: Ghost(arbitrary()), owners: Ghost(arbitrary()) }
}

} // verus!
