//! A list of entries as a map from scopes.
use crate::model::EntryView;
use crate::scope::ScopeKey;
use vstd::prelude::*;

verus! {

/// A cached pool under its key.
pub struct Entry<K: ScopeKey, P> {
    pub key: K,
    pub pool: P,
    pub last_used: u128,
}

impl<K: ScopeKey, P> View for Entry<K, P> {
    type V = EntryView<P>;

    open spec fn view(&self) -> EntryView<P> {
        EntryView { pool: self.pool, last_used: self.last_used as nat }
    }
}

/// No two entries are for one scope.
pub open spec fn distinct<K: ScopeKey, P>(entries: Seq<Entry<K, P>>) -> bool {
    forall|i: int, j: int|
        0 <= i < j < entries.len() ==> (#[trigger] entries[i]).key@ != (#[trigger] entries[j]).key@
}

/// The map that the entries make up.
pub open spec fn contents<K: ScopeKey, P>(entries: Seq<Entry<K, P>>) -> Map<K::V, EntryView<P>>
    decreases entries.len(),
{
    if entries.len() == 0 {
        Map::empty()
    } else {
        contents(entries.drop_last()).insert(entries.last().key@, entries.last()@)
    }
}

/// A map holds what its entries say and nothing else.
pub proof fn lemma_contents<K: ScopeKey, P>(entries: Seq<Entry<K, P>>)
    requires
        distinct(entries),
    ensures
        contents(entries).dom().finite(),
        contents(entries).len() == entries.len(),
        forall|i: int|
            0 <= i < entries.len() ==> contents(entries).contains_key(
                (#[trigger] entries[i]).key@,
            ) && contents(entries)[entries[i].key@] == entries[i]@,
        forall|scope: K::V| #[trigger]
            contents(entries).contains_key(scope) ==> exists|i: int|
                0 <= i < entries.len() && (#[trigger] entries[i]).key@ == scope,
    decreases entries.len(),
{
    if entries.len() > 0 {
        let rest = entries.drop_last();
        let last = entries.last();
        lemma_contents(rest);
        assert(!contents(rest).contains_key(last.key@)) by {
            if contents(rest).contains_key(last.key@) {
                let i = choose|i: int| 0 <= i < rest.len() && (#[trigger] rest[i]).key@ == last.key@;
                assert(entries[i].key@ == entries[entries.len() - 1].key@);
            }
        }
        assert forall|i: int| 0 <= i < entries.len() implies contents(entries).contains_key(
            (#[trigger] entries[i]).key@,
        ) && contents(entries)[entries[i].key@] == entries[i]@ by {
            if i < rest.len() {
                assert(rest[i] == entries[i]);
            }
        }
        assert forall|scope: K::V| #[trigger] contents(entries).contains_key(scope) implies exists|
            i: int,
        |
            0 <= i < entries.len() && (#[trigger] entries[i]).key@ == scope by {
            if scope == last.key@ {
                assert(entries[entries.len() - 1].key@ == scope);
            } else {
                let i = choose|i: int| 0 <= i < rest.len() && (#[trigger] rest[i]).key@ == scope;
                assert(entries[i].key@ == scope);
            }
        }
    }
}

/// Taking an entry out takes its scope out.
pub proof fn lemma_swap_remove<K: ScopeKey, P>(entries: Seq<Entry<K, P>>, i: int)
    requires
        distinct(entries),
        0 <= i < entries.len(),
    ensures
        ({
            let after = entries.update(i, entries.last()).drop_last();
            &&& distinct(after)
            &&& contents(after) == contents(entries).remove(entries[i].key@)
        }),
{
    let after = entries.update(i, entries.last()).drop_last();
    let n = entries.len() as int;
    assert forall|a: int, b: int| 0 <= a < b < after.len() implies (#[trigger] after[a]).key@ != (
    #[trigger] after[b]).key@ by {
        let x = if a == i { n - 1 } else { a };
        let y = if b == i { n - 1 } else { b };
        assert(after[a] == entries[x] && after[b] == entries[y]);
    }
    lemma_contents(entries);
    lemma_contents(after);
    let removed = contents(entries).remove(entries[i].key@);
    assert forall|scope: K::V| #[trigger]
        contents(after).contains_key(scope) == removed.contains_key(scope) && (removed.contains_key(
            scope,
        ) ==> contents(after)[scope] == removed[scope]) by {
        if contents(after).contains_key(scope) {
            let a = choose|a: int| 0 <= a < after.len() && (#[trigger] after[a]).key@ == scope;
            let x = if a == i { n - 1 } else { a };
            assert(after[a] == entries[x]);
            assert(x != i ==> entries[x].key@ != entries[i].key@);
        }
        if removed.contains_key(scope) {
            let x = choose|x: int| 0 <= x < n && (#[trigger] entries[x]).key@ == scope;
            let a = if x == n - 1 { i } else { x };
            assert(after[a] == entries[x]);
        }
    }
    assert(contents(after) =~= removed);
}

/// Adding an entry for a scope that has none adds the scope.
pub proof fn lemma_push<K: ScopeKey, P>(entries: Seq<Entry<K, P>>, entry: Entry<K, P>)
    requires
        distinct(entries),
        !contents(entries).contains_key(entry.key@),
    ensures
        distinct(entries.push(entry)),
        contents(entries.push(entry)) == contents(entries).insert(entry.key@, entry@),
{
    lemma_contents(entries);
    let after = entries.push(entry);
    assert(after.drop_last() =~= entries);
    assert forall|a: int, b: int| 0 <= a < b < after.len() implies (#[trigger] after[a]).key@ != (
    #[trigger] after[b]).key@ by {
        if b == entries.len() {
            assert(after[a] == entries[a]);
        }
    }
}

/// Changing an entry in place changes its scope alone.
pub proof fn lemma_update<K: ScopeKey, P>(entries: Seq<Entry<K, P>>, i: int, entry: Entry<K, P>)
    requires
        distinct(entries),
        0 <= i < entries.len(),
        entry.key@ == entries[i].key@,
    ensures
        distinct(entries.update(i, entry)),
        contents(entries.update(i, entry)) == contents(entries).insert(entry.key@, entry@),
{
    let after = entries.update(i, entry);
    assert forall|a: int, b: int| 0 <= a < b < after.len() implies (#[trigger] after[a]).key@ != (
    #[trigger] after[b]).key@ by {
        assert(after[a].key@ == entries[a].key@ && after[b].key@ == entries[b].key@);
    }
    lemma_contents(entries);
    lemma_contents(after);
    let changed = contents(entries).insert(entry.key@, entry@);
    assert forall|scope: K::V| #[trigger]
        contents(after).contains_key(scope) == changed.contains_key(scope) && (changed.contains_key(
            scope,
        ) ==> contents(after)[scope] == changed[scope]) by {
        if contents(after).contains_key(scope) {
            let a = choose|a: int| 0 <= a < after.len() && (#[trigger] after[a]).key@ == scope;
            assert(entries[a].key@ == scope);
        }
        if changed.contains_key(scope) {
            assert(contents(entries).contains_key(scope)) by {
                assert(contents(entries).contains_key(entries[i].key@));
            }
            let a = choose|a: int| 0 <= a < entries.len() && (#[trigger] entries[a]).key@ == scope;
            assert(after[a].key@ == scope);
            assert(a == i || entries[a].key@ != entries[i].key@);
        }
    }
    assert(contents(after) =~= changed);
}

} // verus!
