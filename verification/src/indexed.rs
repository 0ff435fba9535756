//! `indexmap`'s `IndexSet` of integers with the deterministic
//! `FxBuildHasher`: a set that remembers the order in which its elements
//! were first inserted.
use indexmap::IndexSet;
use rustc_hash::FxBuildHasher;
use vstd::prelude::*;

verus! {

#[verifier::external_type_specification]
#[verifier::external_body]
#[verifier::reject_recursive_types(T)]
#[verifier::reject_recursive_types(S)]
pub struct ExIndexSet<T, S>(IndexSet<T, S>);

/// The elements of an insertion-ordered set, in the order of their first
/// insertion.
pub uninterp spec fn ordered_elements(set: IndexSet<u32, FxBuildHasher>) -> Seq<u32>;

/// Calls `IndexSet::default`: a set without elements.
#[verifier::external_body]
pub(crate) fn ordered_set_new() -> (set: IndexSet<u32, FxBuildHasher>)
    ensures
        ordered_elements(set) == Seq::<u32>::empty(),
{
    IndexSet::default()
}

/// Calls `IndexSet::insert`: an element already present leaves the set as
/// it is and gives `false`; another is appended after the others and gives
/// `true`.
#[verifier::external_body]
pub(crate) fn ordered_set_insert(set: &mut IndexSet<u32, FxBuildHasher>, element: u32) -> (inserted: bool)
    ensures
        inserted == !ordered_elements(*old(set)).contains(element),
        ordered_elements(*final(set)) == (if inserted {
            ordered_elements(*old(set)).push(element)
        } else {
            ordered_elements(*old(set))
        }),
{
    set.insert(element)
}

/// Calls `IndexSet::contains`.
#[verifier::external_body]
pub(crate) fn ordered_set_contains(set: &IndexSet<u32, FxBuildHasher>, element: u32) -> (found: bool)
    ensures
        found == ordered_elements(*set).contains(element),
{
    set.contains(&element)
}

/// Calls `IndexSet::clone`: the copy holds the same elements in the same
/// order.
#[verifier::external_body]
pub(crate) fn ordered_set_clone(set: &IndexSet<u32, FxBuildHasher>) -> (copy: IndexSet<u32, FxBuildHasher>)
    ensures
        ordered_elements(copy) == ordered_elements(*set),
{
    set.clone()
}

} // verus!
