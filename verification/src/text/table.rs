//! Association lists: a list of key/value entries read as a map.
use vstd::prelude::*;

verus! {

/// The map of `entries`, where a later entry overrides an earlier one with
/// the same key.
pub open spec fn table_map<K, V>(entries: Seq<(K, V)>) -> Map<K, V>
    decreases entries.len(),
{
    if entries.len() == 0 {
        Map::empty()
    } else {
        table_map(entries.drop_last()).insert(entries.last().0, entries.last().1)
    }
}

/// No key occurs in two entries.
pub open spec fn keys_unique<K, V>(entries: Seq<(K, V)>) -> bool {
    forall|i: int, j: int|
        0 <= i < entries.len() && 0 <= j < entries.len() && i != j ==> #[trigger] entries[i].0
            != #[trigger] entries[j].0
}

/// A key is in the map exactly when some entry has it.
pub proof fn lemma_table_domain<K, V>(entries: Seq<(K, V)>, key: K)
    ensures
        table_map(entries).contains_key(key) <==> exists|i: int|
            0 <= i < entries.len() && #[trigger] entries[i].0 == key,
    decreases entries.len(),
{
    if entries.len() > 0 {
        let prefix = entries.drop_last();
        lemma_table_domain(prefix, key);
        if exists|i: int| 0 <= i < prefix.len() && #[trigger] prefix[i].0 == key {
            let i = choose|i: int| 0 <= i < prefix.len() && #[trigger] prefix[i].0 == key;
            assert(entries[i].0 == key);
        }
        if exists|i: int| 0 <= i < entries.len() && #[trigger] entries[i].0 == key {
            let i = choose|i: int| 0 <= i < entries.len() && #[trigger] entries[i].0 == key;
            if i < prefix.len() {
                assert(prefix[i].0 == key);
            }
        }
    }
}

/// With unique keys, the map gives each entry's value for its key.
pub proof fn lemma_table_value<K, V>(entries: Seq<(K, V)>, i: int)
    requires
        keys_unique(entries),
        0 <= i < entries.len(),
    ensures
        table_map(entries).contains_key(entries[i].0),
        table_map(entries)[entries[i].0] == entries[i].1,
    decreases entries.len(),
{
    let prefix = entries.drop_last();
    if i < entries.len() - 1 {
        assert(keys_unique(prefix)) by {
            assert forall|a: int, b: int|
                0 <= a < prefix.len() && 0 <= b < prefix.len() && a != b implies #[trigger] prefix[a].0
                    != #[trigger] prefix[b].0 by {
                assert(entries[a].0 != entries[b].0);
            }
        }
        lemma_table_value(prefix, i);
        assert(entries[i].0 != entries[entries.len() - 1].0);
    }
}

/// Replacing the value of entry `i` replaces the value of its key.
pub proof fn lemma_table_update<K, V>(entries: Seq<(K, V)>, i: int, value: V)
    requires
        keys_unique(entries),
        0 <= i < entries.len(),
    ensures
        keys_unique(entries.update(i, (entries[i].0, value))),
        table_map(entries.update(i, (entries[i].0, value))) == table_map(entries).insert(
            entries[i].0,
            value,
        ),
{
    let updated = entries.update(i, (entries[i].0, value));
    assert(keys_unique(updated)) by {
        assert forall|a: int, b: int|
            0 <= a < updated.len() && 0 <= b < updated.len() && a != b implies #[trigger] updated[a].0
                != #[trigger] updated[b].0 by {
            assert(entries[a].0 != entries[b].0);
        }
    }
    let key = entries[i].0;
    assert(table_map(updated) =~= table_map(entries).insert(key, value)) by {
        assert forall|k: K| #[trigger] table_map(updated).contains_key(k) == table_map(entries).insert(key, value).contains_key(k) by {
            lemma_table_domain(updated, k);
            lemma_table_domain(entries, k);
            if exists|j: int| 0 <= j < entries.len() && #[trigger] entries[j].0 == k {
                let j = choose|j: int| 0 <= j < entries.len() && #[trigger] entries[j].0 == k;
                assert(updated[j].0 == k);
            }
            if exists|j: int| 0 <= j < updated.len() && #[trigger] updated[j].0 == k {
                let j = choose|j: int| 0 <= j < updated.len() && #[trigger] updated[j].0 == k;
                assert(entries[j].0 == k);
            }
        }
        assert forall|k: K| #[trigger] table_map(updated).contains_key(k) implies table_map(updated)[k]
            == table_map(entries).insert(key, value)[k] by {
            lemma_table_domain(updated, k);
            let j = choose|j: int| 0 <= j < updated.len() && #[trigger] updated[j].0 == k;
            lemma_table_value(updated, j);
            if j != i {
                assert(entries[j].0 == k);
                lemma_table_value(entries, j);
            }
        }
    }
}

/// Adding an entry with a new key keeps the keys unique.
pub proof fn lemma_table_push<K, V>(entries: Seq<(K, V)>, key: K, value: V)
    requires
        keys_unique(entries),
        !table_map(entries).contains_key(key),
    ensures
        keys_unique(entries.push((key, value))),
        table_map(entries.push((key, value))) == table_map(entries).insert(key, value),
{
    let pushed = entries.push((key, value));
    assert(pushed.drop_last() =~= entries);
    assert forall|a: int, b: int|
        0 <= a < pushed.len() && 0 <= b < pushed.len() && a != b implies #[trigger] pushed[a].0
            != #[trigger] pushed[b].0 by {
        if a == entries.len() {
            lemma_table_domain(entries, key);
            assert(entries[b].0 != key);
        } else if b == entries.len() {
            lemma_table_domain(entries, key);
            assert(entries[a].0 != key);
        } else {
            assert(entries[a].0 != entries[b].0);
        }
    }
}

/// The entry at `i` gives the value of its key when no later entry has that
/// key.
pub proof fn lemma_table_last<K, V>(entries: Seq<(K, V)>, i: int)
    requires
        0 <= i < entries.len(),
        forall|j: int| i < j < entries.len() ==> #[trigger] entries[j].0 != entries[i].0,
    ensures
        table_map(entries).contains_key(entries[i].0),
        table_map(entries)[entries[i].0] == entries[i].1,
    decreases entries.len(),
{
    if i < entries.len() - 1 {
        let prefix = entries.drop_last();
        assert forall|j: int| i < j < prefix.len() implies #[trigger] prefix[j].0 != prefix[i].0 by {
            assert(prefix[j] == entries[j]);
        }
        lemma_table_last(prefix, i);
        assert(entries[entries.len() - 1].0 != entries[i].0);
    }
}

/// Replacing the value of the last entry with a given key replaces the value
/// of that key.
pub proof fn lemma_table_update_last<K, V>(entries: Seq<(K, V)>, i: int, value: V)
    requires
        0 <= i < entries.len(),
        forall|j: int| i < j < entries.len() ==> #[trigger] entries[j].0 != entries[i].0,
    ensures
        table_map(entries.update(i, (entries[i].0, value))) == table_map(entries).insert(entries[i].0, value),
    decreases entries.len(),
{
    let updated = entries.update(i, (entries[i].0, value));
    if i == entries.len() - 1 {
        assert(updated.drop_last() =~= entries.drop_last());
    } else {
        let prefix = entries.drop_last();
        assert forall|j: int| i < j < prefix.len() implies #[trigger] prefix[j].0 != prefix[i].0 by {
            assert(prefix[j] == entries[j]);
        }
        lemma_table_update_last(prefix, i, value);
        assert(updated.drop_last() =~= prefix.update(i, (prefix[i].0, value)));
        let last = entries.last();
        assert(last.0 != entries[i].0);
        assert(table_map(updated) =~= table_map(entries).insert(entries[i].0, value));
    }
}

/// Each value of the map is that of some entry with its key.
pub proof fn lemma_table_entry<K, V>(entries: Seq<(K, V)>, key: K)
    requires
        table_map(entries).contains_key(key),
    ensures
        exists|i: int| 0 <= i < entries.len() && #[trigger] entries[i] == (key, table_map(entries)[key]),
    decreases entries.len(),
{
    let prefix = entries.drop_last();
    if entries.last().0 == key {
        assert(entries[entries.len() - 1] == (key, table_map(entries)[key]));
    } else {
        lemma_table_entry(prefix, key);
        let i = choose|i: int| 0 <= i < prefix.len() && #[trigger] prefix[i] == (key, table_map(prefix)[key]);
        assert(entries[i] == prefix[i]);
    }
}

} // verus!
