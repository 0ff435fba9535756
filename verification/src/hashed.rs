//! `rustc_hash`'s `FxHashMap` and `FxHashSet`: the standard hash map and set
//! with the deterministic `FxBuildHasher`.
//!
//! Each operation below is a thin call whose contract states the standard
//! map or set behaviour over the collection's view. The contracts require
//! keys that obey vstd's key model (deterministic `Hash`, `Eq` that agrees
//! with equality, and a `clone` that copies), which the integer keys used in
//! this library do.
use rustc_hash::{FxBuildHasher, FxHashMap, FxHashSet};
use std::hash::Hash;
use vstd::prelude::*;
use vstd::std_specs::hash::obeys_key_model;

verus! {

#[verifier::external_type_specification]
#[verifier::external_body]
pub struct ExFxBuildHasher(FxBuildHasher);

/// Calls `HashMap::get` and copies the value out: the entry for `key`, if
/// there is one.
#[verifier::external_body]
pub(crate) fn map_get<K: Eq + Hash, V: Copy>(map: &FxHashMap<K, V>, key: &K) -> (value: Option<V>)
    requires
        obeys_key_model::<K>(),
    ensures
        value == (if map@.contains_key(*key) {
            Some(map@[*key])
        } else {
            None
        }),
{
    map.get(key).copied()
}

/// Calls `HashMap::insert`: afterwards `key` maps to `value`; the result is
/// the value it had before, if any.
#[verifier::external_body]
pub(crate) fn map_insert<K: Eq + Hash, V>(map: &mut FxHashMap<K, V>, key: K, value: V) -> (previous: Option<V>)
    requires
        obeys_key_model::<K>(),
    ensures
        final(map)@ == old(map)@.insert(key, value),
        previous == (if old(map)@.contains_key(key) {
            Some(old(map)@[key])
        } else {
            None
        }),
{
    map.insert(key, value)
}

/// Calls `HashMap::remove`: afterwards `key` has no entry; the result is the
/// value it had, if any.
#[verifier::external_body]
pub(crate) fn map_remove<K: Eq + Hash, V>(map: &mut FxHashMap<K, V>, key: &K) -> (removed: Option<V>)
    requires
        obeys_key_model::<K>(),
    ensures
        final(map)@ == old(map)@.remove(*key),
        removed == (if old(map)@.contains_key(*key) {
            Some(old(map)@[*key])
        } else {
            None
        }),
{
    map.remove(key)
}

/// Calls `HashMap::values` and copies the values out, in the map's
/// (unspecified) order: each value of the map, as often as it occurs.
#[verifier::external_body]
pub(crate) fn map_value_list<K: Eq + Hash, V: Copy>(map: &FxHashMap<K, V>) -> (values: Vec<V>)
    requires
        obeys_key_model::<K>(),
    ensures
        values@.to_set() == map@.values(),
{
    map.values().copied().collect()
}

/// Calls `HashSet::insert`: afterwards the set holds `element`; the result
/// says whether it was absent before.
#[verifier::external_body]
pub(crate) fn set_insert<T: Eq + Hash>(set: &mut FxHashSet<T>, element: T) -> (inserted: bool)
    requires
        obeys_key_model::<T>(),
    ensures
        final(set)@ == old(set)@.insert(element),
        inserted == !old(set)@.contains(element),
{
    set.insert(element)
}

/// Calls `HashSet::contains`.
#[verifier::external_body]
pub(crate) fn set_contains<T: Eq + Hash>(set: &FxHashSet<T>, element: &T) -> (found: bool)
    requires
        obeys_key_model::<T>(),
    ensures
        found == set@.contains(*element),
{
    set.contains(element)
}

/// Calls `HashSet::iter` and copies the elements out, each exactly once, in
/// the set's (unspecified) iteration order.
#[verifier::external_body]
pub(crate) fn set_elements<T: Eq + Hash + Copy>(set: &FxHashSet<T>) -> (elements: Vec<T>)
    requires
        obeys_key_model::<T>(),
    ensures
        elements@.to_set() == set@,
        elements@.no_duplicates(),
{
    set.iter().copied().collect()
}

/// Calls `HashSet::clone`: the copy holds the same elements.
#[verifier::external_body]
pub(crate) fn set_clone<T: Eq + Hash + Clone>(set: &FxHashSet<T>) -> (copy: FxHashSet<T>)
    requires
        obeys_key_model::<T>(),
    ensures
        copy@ == set@,
{
    set.clone()
}

/// Calls `HashSet::is_subset`.
#[verifier::external_body]
pub(crate) fn set_is_subset<T: Eq + Hash>(set: &FxHashSet<T>, other: &FxHashSet<T>) -> (subset: bool)
    requires
        obeys_key_model::<T>(),
    ensures
        subset == set@.subset_of(other@),
{
    set.is_subset(other)
}

/// Calls `HashSet`'s `==`, which compares the sets' elements.
#[verifier::external_body]
pub(crate) fn set_equal<T: Eq + Hash>(set: &FxHashSet<T>, other: &FxHashSet<T>) -> (equal: bool)
    requires
        obeys_key_model::<T>(),
    ensures
        equal == (set@ == other@),
{
    set == other
}

} // verus!
