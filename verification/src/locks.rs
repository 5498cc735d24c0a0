//! The build locks and the table of them.
//!
//! The table refers to a lock weakly: it knows a lock for as long as somebody
//! else owns it, and keeps none alive.
use crate::model::{
    counted, grants, has_lock, held_locks, other_locks, own_locks, upgraded, BuildView,
};
use crate::outside::lock::{downgrade, is_count, new_lock, owner_count, upgrade, LockRef};
use crate::scope::ScopeKey;
use vstd::prelude::*;

pub use crate::outside::lock::BuildLock;

verus! {

/// The lock of a scope.
pub struct BuildSlot<K: ScopeKey> {
    pub key: K,
    pub lock: LockRef,
}

impl<K: ScopeKey> View for BuildSlot<K> {
    type V = BuildView<K::V>;

    open spec fn view(&self) -> BuildView<K::V> {
        BuildView { scope: self.key@, lock: self.lock.lock() }
    }
}

/// The locks of a table.
pub open spec fn locks<K: ScopeKey>(slots: Seq<BuildSlot<K>>) -> Seq<BuildView<K::V>> {
    slots.map_values(|slot: BuildSlot<K>| slot@)
}

/// The number of owners of each lock.
pub(crate) fn count_owners<K: ScopeKey>(slots: &Vec<BuildSlot<K>>) -> (owners: Vec<usize>)
    ensures
        counted(locks(slots@), owners@),
{
    let mut owners: Vec<usize> = Vec::new();
    for i in 0..slots.len()
        invariant
            owners@.len() == i,
            forall|j: int|
                0 <= j < i ==> is_count((#[trigger] locks(slots@)[j]).lock, #[trigger] owners@[j]),
    {
        let c = owner_count(&slots[i].lock);
        let n = c.number();
        assert(c.of() == locks(slots@)[i as int].lock && c.count() == n);
        owners.push(n);
    }
    owners
}

/// Drops the locks that nobody owns.
pub(crate) fn keep_held<K: ScopeKey>(slots: &mut Vec<BuildSlot<K>>, owners: &Vec<usize>)
    requires
        owners@.len() == old(slots)@.len(),
    ensures
        locks(final(slots)@) == held_locks(locks(old(slots)@), owners@),
{
    let ghost all = locks(slots@);
    let mut i: usize = slots.len();
    let ghost mut kept: Seq<BuildView<K::V>> = Seq::empty();
    proof {
        assert(all.take(i as int) =~= all);
        assert(owners@.take(i as int) =~= owners@);
    }
    while i > 0
        invariant
            i <= all.len(),
            all.len() == owners@.len(),
            slots@.len() == i + kept.len(),
            locks(slots@) =~= all.take(i as int) + kept,
            held_locks(all, owners@) =~= held_locks(all.take(i as int), owners@.take(i as int))
                + kept,
        decreases i,
    {
        i = i - 1;
        let ghost before = slots@;
        proof {
            let head = all.take(i + 1);
            let counts = owners@.take(i + 1);
            assert(head.drop_last() =~= all.take(i as int));
            assert(counts.drop_last() =~= owners@.take(i as int));
            assert(head.last() == all[i as int]);
            assert(counts.last() == owners@[i as int]);
        }
        if owners[i] > 0 {
            proof {
                kept = seq![all[i as int]] + kept;
            }
        } else {
            slots.remove(i);
            assert(locks(slots@) =~= locks(before).remove(i as int));
        }
    }
    assert(all.take(0) =~= Seq::empty());
}

/// Where the lock of a scope is.
fn slot_of<K: ScopeKey>(slots: &Vec<BuildSlot<K>>, key: &K) -> (slot: Option<usize>)
    ensures
        match slot {
            Some(i) => i < slots@.len() && slots@[i as int].key@ == key@,
            None => !has_lock(locks(slots@), key@),
        },
{
    for i in 0..slots.len()
        invariant
            forall|j: int| 0 <= j < i ==> (#[trigger] slots@[j]).key@ != key@,
    {
        if slots[i].key.same_scope(key) {
            return Some(i);
        }
    }
    proof {
        assert forall|i: int| 0 <= i < locks(slots@).len() implies (#[trigger] locks(
            slots@,
        )[i]).scope != key@ by {
            assert(locks(slots@)[i] == slots@[i]@);
        }
    }
    None
}

/// The lock of a scope, where the table has one that is still there.
pub(crate) fn current_lock<K: ScopeKey>(slots: &Vec<BuildSlot<K>>, key: &K) -> (current: Option<
    BuildLock,
>)
    ensures
        upgraded(locks(slots@), key@, current),
{
    match slot_of(slots, key) {
        Some(i) => {
            let u = upgrade(&slots[i].lock);
            assert(locks(slots@)[i as int].scope == key@);
            assert(u.of() == locks(slots@)[i as int].lock);
            u.into_result()
        },
        None => None,
    }
}

/// The lock for a scope: the one that is still there, or else a new one.
pub(crate) fn grant<K: ScopeKey>(
    slots: &mut Vec<BuildSlot<K>>,
    key: &K,
    current: Option<BuildLock>,
) -> (lock: BuildLock)
    requires
        own_locks(locks(old(slots)@)),
    ensures
        grants(locks(old(slots)@), key@, current, lock, locks(final(slots)@)),
{
    if let Some(lock) = current {
        return lock;
    }
    let ghost before = locks(slots@);
    let made = new_lock(slots);
    let ghost record = made;
    let lock = made.into_lock();
    proof {
        assert(record.lock() == lock);
        assert forall|i: int| 0 <= i < before.len() implies (#[trigger] before[i]).lock != lock by {
            assert(before[i] == slots@[i]@);
        }
    }
    match slot_of(slots, key) {
        Some(i) => {
            slots.remove(i);
            proof {
                assert(locks(slots@) =~= before.remove(i as int));
                lemma_other_locks(before, i as int);
            }
        },
        None => {
            proof {
                lemma_no_other_locks(before, key@);
            }
        },
    }
    let ghost rest = slots@;
    slots.push(BuildSlot { key: key.duplicate(), lock: downgrade(&lock) });
    assert(locks(slots@) =~= locks(rest).push(BuildView { scope: key@, lock }));
    lock
}

/// Without a lock for a scope, all are of other scopes.
proof fn lemma_no_other_locks<S>(builds: Seq<BuildView<S>>, scope: S)
    requires
        !has_lock(builds, scope),
    ensures
        other_locks(builds, scope) == builds,
    decreases builds.len(),
{
    if builds.len() > 0 {
        let rest = builds.drop_last();
        assert(builds[builds.len() - 1].scope != scope);
        assert forall|i: int| 0 <= i < rest.len() implies (#[trigger] rest[i]).scope != scope by {
            assert(rest[i] == builds[i]);
        }
        lemma_no_other_locks(rest, scope);
        assert(rest.push(builds.last()) =~= builds);
    }
}

/// Without the lock of a scope, the locks of the other scopes are left.
proof fn lemma_other_locks<S>(builds: Seq<BuildView<S>>, i: int)
    requires
        own_locks(builds),
        0 <= i < builds.len(),
    ensures
        other_locks(builds, builds[i].scope) == builds.remove(i),
    decreases builds.len(),
{
    let rest = builds.drop_last();
    let last = builds.len() - 1;
    let scope = builds[i].scope;
    assert forall|a: int, b: int| 0 <= a < b < rest.len() implies (#[trigger] rest[a]).scope != (
    #[trigger] rest[b]).scope && rest[a].lock != rest[b].lock by {
        assert(rest[a] == builds[a] && rest[b] == builds[b]);
    }
    if i == last {
        assert forall|j: int| 0 <= j < rest.len() implies (#[trigger] rest[j]).scope != scope by {
            assert(rest[j] == builds[j] && builds[j].scope != builds[last].scope);
        }
        lemma_no_other_locks(rest, scope);
        assert(builds.remove(i) =~= rest);
    } else {
        assert(rest[i] == builds[i] && builds[i].scope != builds[last].scope);
        lemma_other_locks(rest, i);
        assert(rest.remove(i).push(builds.last()) =~= builds.remove(i));
    }
}

/// What is left of the locks when those that nobody owns are dropped.
pub proof fn lemma_held_locks<S>(builds: Seq<BuildView<S>>, owners: Seq<usize>)
    requires
        owners.len() == builds.len(),
    ensures
        own_locks(builds) ==> own_locks(held_locks(builds, owners)),
        forall|i: int|
            0 <= i < builds.len() && #[trigger] owners[i] > 0 ==> held_locks(
                builds,
                owners,
            ).contains(builds[i]),
        forall|i: int|
            0 <= i < held_locks(builds, owners).len() ==> exists|j: int|
                0 <= j < builds.len() && owners[j] > 0 && #[trigger] builds[j] == #[trigger] held_locks(
                    builds,
                    owners,
                )[i],
    decreases builds.len(),
{
    if builds.len() > 0 {
        let rest = builds.drop_last();
        let counts = owners.drop_last();
        let last = builds.len() - 1;
        let kept = held_locks(rest, counts);
        let held = held_locks(builds, owners);
        lemma_held_locks(rest, counts);
        assert forall|i: int| 0 <= i < builds.len() && #[trigger] owners[i] > 0 implies held.contains(
            builds[i],
        ) by {
            if i < last {
                assert(counts[i] == owners[i] && rest[i] == builds[i]);
                let k = choose|k: int| 0 <= k < kept.len() && kept[k] == rest[i];
                assert(held[k] == builds[i]);
            } else {
                assert(held[held.len() - 1] == builds[i]);
            }
        }
        assert forall|i: int| 0 <= i < held.len() implies exists|j: int|
            0 <= j < builds.len() && owners[j] > 0 && #[trigger] builds[j] == #[trigger] held[i] by {
            if i < kept.len() {
                assert(held[i] == kept[i]);
                let j = choose|j: int|
                    0 <= j < rest.len() && counts[j] > 0 && #[trigger] rest[j] == kept[i];
                assert(builds[j] == held[i]);
            } else {
                assert(builds[last] == held[i]);
            }
        }
        if own_locks(builds) {
            assert forall|i: int, j: int| 0 <= i < j < rest.len() implies (#[trigger] rest[i]).scope
                != (#[trigger] rest[j]).scope && rest[i].lock != rest[j].lock by {
                assert(rest[i] == builds[i] && rest[j] == builds[j]);
            }
            assert(own_locks(rest));
            assert forall|i: int, j: int| 0 <= i < j < held.len() implies (#[trigger] held[i]).scope
                != (#[trigger] held[j]).scope && held[i].lock != held[j].lock by {
                if j < kept.len() {
                    assert(held[i] == kept[i] && held[j] == kept[j]);
                } else {
                    assert(held[i] == kept[i] && held[j] == builds[last]);
                    let k = choose|k: int|
                        0 <= k < rest.len() && counts[k] > 0 && #[trigger] rest[k] == kept[i];
                    assert(rest[k] == builds[k]);
                }
            }
        }
    }
}

/// Granting a lock gives no scope a second lock and no lock a second scope, and
/// leaves the other scopes theirs.
pub proof fn lemma_grants<S>(
    builds: Seq<BuildView<S>>,
    scope: S,
    current: Option<BuildLock>,
    lock: BuildLock,
    after: Seq<BuildView<S>>,
)
    requires
        own_locks(builds),
        current matches Some(l) ==> builds.contains(BuildView { scope, lock: l }),
        grants(builds, scope, current, lock, after),
    ensures
        own_locks(after),
        after.contains(BuildView { scope, lock }),
        forall|i: int|
            0 <= i < builds.len() && (#[trigger] builds[i]).scope != scope ==> after.contains(
                builds[i],
            ),
{
    if current is None {
        if has_lock(builds, scope) {
            let s = choose|s: int| 0 <= s < builds.len() && (#[trigger] builds[s]).scope == scope;
            lemma_other_locks(builds, s);
            let rest = builds.remove(s);
            assert forall|i: int|
                0 <= i < builds.len() && (#[trigger] builds[i]).scope != scope implies after.contains(
                builds[i],
            ) by {
                let k = if i < s { i } else { i - 1 };
                assert(after[k] == builds[i]);
            }
            assert forall|i: int, j: int| 0 <= i < j < after.len() implies (#[trigger] after[i]).scope
                != (#[trigger] after[j]).scope && after[i].lock != after[j].lock by {
                let a = if i < s { i } else { i + 1 };
                let b = if j < s { j } else { j + 1 };
                assert(after[i] == builds[a]);
                if j < rest.len() {
                    assert(after[j] == builds[b]);
                } else {
                    assert(a != s);
                    assert(builds[a].scope != builds[s].scope);
                }
            }
        } else {
            lemma_no_other_locks(builds, scope);
            assert forall|i: int|
                0 <= i < builds.len() && (#[trigger] builds[i]).scope != scope implies after.contains(
                builds[i],
            ) by {
                assert(after[i] == builds[i]);
            }
            assert forall|i: int, j: int| 0 <= i < j < after.len() implies (#[trigger] after[i]).scope
                != (#[trigger] after[j]).scope && after[i].lock != after[j].lock by {
                assert(after[i] == builds[i]);
                if j < builds.len() {
                    assert(after[j] == builds[j]);
                }
            }
        }
        assert(after[after.len() - 1] == (BuildView { scope, lock }));
    }
}

} // verus!
