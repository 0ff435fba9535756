//! The work queue and the wait lists of the constraint solver.
//!
//! A constraint that cannot make progress until some unification variables
//! are solved is registered as stuck on those variables; solving any of them
//! wakes the constraint again, once, in the order in which the stuck
//! constraints were first registered.
use std::collections::VecDeque;

use indexmap::IndexSet;
use rustc_hash::{FxBuildHasher, FxHashMap, FxHashSet};
use vstd::prelude::*;

use super::types::TypeId;
use crate::hashed::{map_insert, map_remove, set_elements};
use crate::indexed::{ordered_elements, ordered_set_clone, ordered_set_contains, ordered_set_insert, ordered_set_new};

verus! {

/// A canonical constraint of a module.
#[derive(Debug, Clone, Copy, PartialEq, Eq, PartialOrd, Ord, Hash, Structural)]
pub struct CanonicalConstraintId(pub u32);

/// A wanted constraint together with the given constraints in scope.
#[derive(Debug, Hash)]
pub struct ConstraintInScope {
    pub given: Vec<CanonicalConstraintId>,
    pub wanted: CanonicalConstraintId,
}

pub struct ConstraintView {
    pub given: Seq<CanonicalConstraintId>,
    pub wanted: CanonicalConstraintId,
}

impl View for ConstraintInScope {
    type V = ConstraintView;

    open spec fn view(&self) -> ConstraintView {
        ConstraintView { given: self.given@, wanted: self.wanted }
    }
}

/// Copies a list of canonical constraints.
fn copy_given(given: &Vec<CanonicalConstraintId>) -> (copy: Vec<CanonicalConstraintId>)
    ensures
        copy@ == given@,
{
    let mut copy: Vec<CanonicalConstraintId> = Vec::new();
    let mut k: usize = 0;
    while k < given.len()
        invariant
            k <= given@.len(),
            copy@ == given@.take(k as int),
        decreases given@.len() - k,
    {
        copy.push(given[k]);
        k = k + 1;
        assert(copy@ =~= given@.take(k as int));
    }
    assert(given@.take(k as int) =~= given@);
    copy
}

impl Clone for ConstraintInScope {
    fn clone(&self) -> (copy: ConstraintInScope)
        ensures
            copy@ == self@,
    {
        ConstraintInScope { given: copy_given(&self.given), wanted: self.wanted }
    }
}

impl PartialEq for ConstraintInScope {
    fn eq(&self, other: &ConstraintInScope) -> (equal: bool) {
        if self.wanted.0 != other.wanted.0 || self.given.len() != other.given.len() {
            return false;
        }
        let mut k: usize = 0;
        while k < self.given.len()
            invariant
                self.given@.len() == other.given@.len(),
                k <= self.given@.len(),
                forall|j: int| 0 <= j < k ==> self.given@[j] == other.given@[j],
            decreases self.given@.len() - k,
        {
            if self.given[k].0 != other.given[k].0 {
                return false;
            }
            k = k + 1;
        }
        assert(self.given@ =~= other.given@);
        true
    }
}

impl vstd::std_specs::cmp::PartialEqSpecImpl for ConstraintInScope {
    open spec fn obeys_eq_spec() -> bool {
        true
    }

    open spec fn eq_spec(&self, other: &ConstraintInScope) -> bool {
        self@ == other@
    }
}

impl Eq for ConstraintInScope {

}

pub open spec fn constraint_views(constraints: Seq<ConstraintInScope>) -> Seq<ConstraintView> {
    constraints.map_values(|constraint: ConstraintInScope| constraint@)
}

/// The solver's pending work: unifications to perform, constraints not yet
/// classified as improving, and the remaining constraints, each in order.
pub struct Work {
    pub unifications: Vec<(TypeId, TypeId)>,
    pub unclassified: VecDeque<ConstraintInScope>,
    pub constraints: VecDeque<ConstraintInScope>,
}

impl Work {
    pub fn new(unclassified: VecDeque<ConstraintInScope>) -> (work: Work)
        ensures
            work.unifications@ == Seq::<(TypeId, TypeId)>::empty(),
            work.unclassified@ == unclassified@,
            work.constraints@ == Seq::<ConstraintInScope>::empty(),
    {
        Work { unifications: Vec::new(), unclassified, constraints: VecDeque::new() }
    }

    /// Queues unifications and then constraints, each after the pending ones.
    pub fn extend_from_parts(
        &mut self,
        unifications: Vec<(TypeId, TypeId)>,
        constraints: Vec<ConstraintInScope>,
    )
        ensures
            final(self).unifications@ == old(self).unifications@ + unifications@,
            final(self).unclassified@ == old(self).unclassified@ + constraints@,
            final(self).constraints@ == old(self).constraints@,
    {
        let mut k: usize = 0;
        while k < unifications.len()
            invariant
                k <= unifications@.len(),
                self.unifications@ == old(self).unifications@ + unifications@.take(k as int),
                self.unclassified@ == old(self).unclassified@,
                self.constraints@ == old(self).constraints@,
            decreases unifications@.len() - k,
        {
            self.unifications.push(unifications[k]);
            k = k + 1;
            assert(self.unifications@ =~= old(self).unifications@ + unifications@.take(k as int));
        }
        assert(unifications@.take(k as int) =~= unifications@);
        self.extend_constraints(constraints);
    }

    /// Queues constraints, in order, after the pending unclassified ones.
    pub fn extend_constraints(&mut self, constraints: Vec<ConstraintInScope>)
        ensures
            final(self).unifications@ == old(self).unifications@,
            final(self).unclassified@ == old(self).unclassified@ + constraints@,
            final(self).constraints@ == old(self).constraints@,
    {
        let mut constraints = constraints;
        let ghost all = constraints@;
        while constraints.len() > 0
            invariant
                old(self).unclassified@ + all == self.unclassified@ + constraints@,
                self.unifications@ == old(self).unifications@,
                self.constraints@ == old(self).constraints@,
            decreases constraints@.len(),
        {
            let ghost before = constraints@;
            let ghost queue = self.unclassified@;
            let next = constraints.remove(0);
            self.unclassified.push_back(next);
            assert(queue + before =~= self.unclassified@ + constraints@);
        }
        assert(self.unclassified@ =~= old(self).unclassified@ + all);
    }
}

/// Counters that describe how much work waking stuck constraints took.
/// Each counter saturates at `usize::MAX`.
#[derive(Debug, Default)]
pub struct WakeStatistics {
    pub wake_calls: usize,
    pub solved_ids_examined: usize,
    pub stuck_keys_scanned: usize,
    pub stuck_entries_scanned: usize,
    pub duplicate_registrations: usize,
    pub awakened_constraints: usize,
    pub peak_stuck_entries: usize,
}

/// `count` added to `value`, saturating at `usize::MAX`.
pub open spec fn bump(value: usize, count: int) -> usize {
    if value + count > usize::MAX {
        usize::MAX
    } else {
        (value + count) as usize
    }
}

/// A constraint registered as stuck: the unification variables it waits
/// for, and the position of its first registration.
pub struct StuckEntry {
    pub constraint: ConstraintView,
    pub blockers: Set<u32>,
    pub order: nat,
}

/// The stuck constraints, in registration order, and the next order number.
pub struct StuckModel {
    pub entries: Seq<StuckEntry>,
    pub next_order: nat,
}

/// Solving any of `solved` wakes `entry`.
pub open spec fn wakes(entry: StuckEntry, solved: Set<u32>) -> bool {
    exists|blocker: u32| entry.blockers.contains(blocker) && #[trigger] solved.contains(blocker)
}

pub open spec fn woken_by(solved: Set<u32>) -> spec_fn(StuckEntry) -> bool {
    |entry: StuckEntry| wakes(entry, solved)
}

pub open spec fn kept_by(solved: Set<u32>) -> spec_fn(StuckEntry) -> bool {
    |entry: StuckEntry| !wakes(entry, solved)
}

pub open spec fn still_waiting() -> spec_fn(StuckEntry) -> bool {
    |entry: StuckEntry| entry.blockers != Set::<u32>::empty()
}

/// The constraints of `entries`, in order.
pub open spec fn constraints_of(entries: Seq<StuckEntry>) -> Seq<ConstraintView> {
    entries.map_values(|entry: StuckEntry| entry.constraint)
}

/// The number of (constraint, unification variable) pairs among `entries`.
pub open spec fn pair_total(entries: Seq<StuckEntry>) -> nat
    decreases entries.len(),
{
    if entries.len() == 0 {
        0
    } else {
        pair_total(entries.drop_last()) + entries.last().blockers.len()
    }
}

impl StuckModel {
    pub open spec fn has_constraint(self, constraint: ConstraintView) -> bool {
        exists|i: int| 0 <= i < self.entries.len() && #[trigger] self.entries[i].constraint == constraint
    }

    pub open spec fn constraint_position(self, constraint: ConstraintView) -> int {
        choose|i: int| 0 <= i < self.entries.len() && #[trigger] self.entries[i].constraint == constraint
    }

    /// Registering `constraint` as stuck on `blockers`: a constraint already
    /// registered keeps its place and waits for the union of its blockers;
    /// a new one is added last. Either way the order counter advances.
    pub open spec fn registered(self, constraint: ConstraintView, blockers: Set<u32>) -> StuckModel {
        if self.has_constraint(constraint) {
            let i = self.constraint_position(constraint);
            StuckModel {
                entries: self.entries.update(
                    i,
                    StuckEntry { blockers: self.entries[i].blockers.union(blockers), ..self.entries[i] },
                ),
                next_order: self.next_order + 1,
            }
        } else {
            StuckModel {
                entries: self.entries.push(
                    StuckEntry { constraint, blockers, order: self.next_order },
                ),
                next_order: self.next_order + 1,
            }
        }
    }

    /// The constraints that solving `solved` wakes, in registration order.
    pub open spec fn woken(self, solved: Set<u32>) -> Seq<ConstraintView> {
        constraints_of(self.entries.filter(woken_by(solved)))
    }

    /// The stuck constraints that solving `solved` leaves stuck.
    pub open spec fn remaining(self, solved: Set<u32>) -> StuckModel {
        StuckModel { entries: self.entries.filter(kept_by(solved)), next_order: self.next_order }
    }

    /// The constraints still waiting for some unification variable, in
    /// registration order.
    pub open spec fn waiting(self) -> Seq<ConstraintView> {
        constraints_of(self.entries.filter(still_waiting()))
    }

    /// The number of registered (constraint, unification variable) pairs.
    pub open spec fn pairs(self) -> nat {
        pair_total(self.entries)
    }

    /// Orders increase along the entries and stay below the counter; no
    /// constraint is registered twice; each waits for finitely many variables.
    pub open spec fn coherent(self) -> bool {
        &&& forall|i: int, j: int|
            0 <= i < j < self.entries.len() ==> #[trigger] self.entries[i].order
                < #[trigger] self.entries[j].order
        &&& forall|i: int| 0 <= i < self.entries.len() ==> #[trigger] self.entries[i].order < self.next_order
        &&& forall|i: int, j: int|
            0 <= i < self.entries.len() && 0 <= j < self.entries.len() && i != j
                ==> #[trigger] self.entries[i].constraint != #[trigger] self.entries[j].constraint
        &&& forall|i: int| 0 <= i < self.entries.len() ==> (#[trigger] self.entries[i]).blockers.finite()
    }
}

/// The orders of the entries that wait for `blocker`.
pub open spec fn waiting_on(entries: Seq<StuckEntry>, blocker: u32) -> Set<usize> {
    Set::new(
        |order: usize|
            exists|i: int|
                0 <= i < entries.len() && (#[trigger] entries[i]).order == order as nat
                    && entries[i].blockers.contains(blocker),
    )
}

/// The wait list of `blocker` agrees with `entries`: it is absent when
/// `blocker` is among `solved` or nobody waits for it, and otherwise holds the
/// orders of the entries waiting for it, each once.
spec fn agrees(waiting: Map<u32, Vec<usize>>, entries: Seq<StuckEntry>, solved: Set<u32>, blocker: u32) -> bool {
    if solved.contains(blocker) {
        !waiting.contains_key(blocker)
    } else if waiting.contains_key(blocker) {
        &&& waiting[blocker]@.len() > 0
        &&& waiting[blocker]@.no_duplicates()
        &&& waiting[blocker]@.to_set() == waiting_on(entries, blocker)
    } else {
        waiting_on(entries, blocker) == Set::<usize>::empty()
    }
}

spec fn linked(waiting: Map<u32, Vec<usize>>, entries: Seq<StuckEntry>, solved: Set<u32>) -> bool {
    forall|blocker: u32| #[trigger] agrees(waiting, entries, solved, blocker)
}

struct StuckConstraint {
    constraint: ConstraintInScope,
    blockers: Vec<u32>,
    order: usize,
}

spec fn entry_view(entry: StuckConstraint) -> StuckEntry {
    StuckEntry {
        constraint: entry.constraint@,
        blockers: entry.blockers@.to_set(),
        order: entry.order as nat,
    }
}

spec fn entry_views(entries: Seq<StuckConstraint>) -> Seq<StuckEntry> {
    entries.map_values(|entry: StuckConstraint| entry_view(entry))
}

/// The constraints stuck on unsolved unification variables.
///
/// The wait list of each unification variable is a hash map keyed by the
/// variable. The stuck constraints themselves, with their blockers and
/// registration order, are kept in a list in registration order rather than
/// in a map keyed by the constraint, so finding a constraint is a linear
/// search; `wf` keeps every constraint in the list at most once.
pub struct Stuck {
    by_unification: FxHashMap<u32, Vec<usize>>,
    by_constraint: Vec<StuckConstraint>,
    next_order: usize,
    entries: usize,
}

impl View for Stuck {
    type V = StuckModel;

    closed spec fn view(&self) -> StuckModel {
        StuckModel { entries: entry_views(self.by_constraint@), next_order: self.next_order as nat }
    }
}

impl Stuck {
    pub closed spec fn wf(&self) -> bool {
        &&& self@.coherent()
        &&& forall|i: int|
            0 <= i < self.by_constraint@.len() ==> (#[trigger] self.by_constraint@[i]).blockers@.no_duplicates()
        &&& self.entries as nat == self@.pairs()
        &&& linked(self.by_unification@, self@.entries, Set::empty())
    }
}

impl Default for Stuck {
    fn default() -> (stuck: Stuck)
        ensures
            stuck.wf(),
            stuck@.entries == Seq::<StuckEntry>::empty(),
            stuck@.next_order == 0,
    {
        let stuck = Stuck {
            by_unification: FxHashMap::default(),
            by_constraint: Vec::new(),
            next_order: 0,
            entries: 0,
        };
        assert(entry_views(stuck.by_constraint@) =~= Seq::<StuckEntry>::empty());
        assert forall|blocker: u32| #[trigger] agrees(stuck.by_unification@, stuck@.entries, Set::empty(), blocker) by {
            assert(waiting_on(stuck@.entries, blocker) =~= Set::<usize>::empty());
        }
        stuck
    }
}

spec fn increasing(entries: Seq<StuckEntry>) -> bool {
    forall|i: int, j: int| 0 <= i < j < entries.len() ==> #[trigger] entries[i].order < #[trigger] entries[j].order
}

/// A new entry that waits for nothing changes no wait list.
proof fn lemma_waiting_on_push_idle(entries: Seq<StuckEntry>, entry: StuckEntry)
    requires
        entry.blockers == Set::<u32>::empty(),
    ensures
        forall|blocker: u32| #[trigger] waiting_on(entries.push(entry), blocker) == waiting_on(entries, blocker),
{
    assert forall|blocker: u32| #[trigger] waiting_on(entries.push(entry), blocker) == waiting_on(entries, blocker) by {
        let pushed = entries.push(entry);
        assert forall|order: usize| waiting_on(pushed, blocker).contains(order) implies waiting_on(entries, blocker).contains(order) by {
            let i = choose|i: int|
                0 <= i < pushed.len() && (#[trigger] pushed[i]).order == order as nat
                    && pushed[i].blockers.contains(blocker);
            assert(i < entries.len());
            assert(entries[i] == pushed[i]);
        }
        assert forall|order: usize| waiting_on(entries, blocker).contains(order) implies waiting_on(pushed, blocker).contains(order) by {
            let i = choose|i: int|
                0 <= i < entries.len() && (#[trigger] entries[i]).order == order as nat
                    && entries[i].blockers.contains(blocker);
            assert(pushed[i] == entries[i]);
        }
        assert(waiting_on(pushed, blocker) =~= waiting_on(entries, blocker));
    }
}

/// Adding `blocker` to entry `i` adds its order to the wait list of
/// `blocker` and to no other.
proof fn lemma_waiting_on_add(entries: Seq<StuckEntry>, i: int, blocker: u32, order: usize)
    requires
        increasing(entries),
        0 <= i < entries.len(),
        entries[i].order == order as nat,
    ensures
        ({
            let updated = entries.update(i, StuckEntry { blockers: entries[i].blockers.insert(blocker), ..entries[i] });
            &&& waiting_on(updated, blocker) == waiting_on(entries, blocker).insert(order)
            &&& forall|other: u32| other != blocker ==> #[trigger] waiting_on(updated, other) == waiting_on(entries, other)
        }),
{
    let updated = entries.update(i, StuckEntry { blockers: entries[i].blockers.insert(blocker), ..entries[i] });
    assert forall|o: usize| waiting_on(updated, blocker).contains(o) implies #[trigger] waiting_on(entries, blocker).insert(order).contains(o) by {
        let j = choose|j: int|
            0 <= j < updated.len() && (#[trigger] updated[j]).order == o as nat
                && updated[j].blockers.contains(blocker);
        if j != i {
            assert(entries[j] == updated[j]);
        }
    }
    assert forall|o: usize| #[trigger] waiting_on(entries, blocker).insert(order).contains(o) implies waiting_on(updated, blocker).contains(o) by {
        if o == order {
            assert(updated[i].order == o as nat && updated[i].blockers.contains(blocker));
        } else {
            let j = choose|j: int|
                0 <= j < entries.len() && (#[trigger] entries[j]).order == o as nat
                    && entries[j].blockers.contains(blocker);
            assert(j != i);
            assert(updated[j] == entries[j]);
        }
    }
    assert(waiting_on(updated, blocker) =~= waiting_on(entries, blocker).insert(order));
    assert forall|other: u32| other != blocker implies #[trigger] waiting_on(updated, other) == waiting_on(entries, other) by {
        assert forall|o: usize| waiting_on(updated, other).contains(o) implies waiting_on(entries, other).contains(o) by {
            let j = choose|j: int|
                0 <= j < updated.len() && (#[trigger] updated[j]).order == o as nat
                    && updated[j].blockers.contains(other);
            if j == i {
                assert(entries[i].blockers.contains(other));
            } else {
                assert(entries[j] == updated[j]);
            }
        }
        assert forall|o: usize| waiting_on(entries, other).contains(o) implies waiting_on(updated, other).contains(o) by {
            let j = choose|j: int|
                0 <= j < entries.len() && (#[trigger] entries[j]).order == o as nat
                    && entries[j].blockers.contains(other);
            assert(updated[j].order == o as nat && updated[j].blockers.contains(other));
        }
        assert(waiting_on(updated, other) =~= waiting_on(entries, other));
    }
}

/// Removing entry `i` removes its order from every wait list.
proof fn lemma_waiting_on_remove(entries: Seq<StuckEntry>, i: int, order: usize)
    requires
        increasing(entries),
        0 <= i < entries.len(),
        entries[i].order == order as nat,
    ensures
        forall|blocker: u32| #[trigger] waiting_on(entries.remove(i), blocker) == waiting_on(entries, blocker).remove(order),
{
    let removed = entries.remove(i);
    assert forall|blocker: u32| #[trigger] waiting_on(removed, blocker) == waiting_on(entries, blocker).remove(order) by {
        assert forall|o: usize| waiting_on(removed, blocker).contains(o) implies waiting_on(entries, blocker).remove(order).contains(o) by {
            let j = choose|j: int|
                0 <= j < removed.len() && (#[trigger] removed[j]).order == o as nat
                    && removed[j].blockers.contains(blocker);
            if j < i {
                assert(removed[j] == entries[j]);
            } else {
                assert(removed[j] == entries[j + 1]);
            }
        }
        assert forall|o: usize| waiting_on(entries, blocker).remove(order).contains(o) implies waiting_on(removed, blocker).contains(o) by {
            let j = choose|j: int|
                0 <= j < entries.len() && (#[trigger] entries[j]).order == o as nat
                    && entries[j].blockers.contains(blocker);
            assert(j != i);
            if j < i {
                assert(removed[j] == entries[j]);
            } else {
                assert(removed[j - 1] == entries[j]);
            }
        }
        assert(waiting_on(removed, blocker) =~= waiting_on(entries, blocker).remove(order));
    }
}

proof fn lemma_pair_total_update(entries: Seq<StuckEntry>, i: int, entry: StuckEntry)
    requires
        0 <= i < entries.len(),
    ensures
        pair_total(entries.update(i, entry)) + entries[i].blockers.len() == pair_total(entries) + entry.blockers.len(),
    decreases entries.len(),
{
    let updated = entries.update(i, entry);
    if i == entries.len() - 1 {
        assert(updated.drop_last() =~= entries.drop_last());
    } else {
        lemma_pair_total_update(entries.drop_last(), i, entry);
        assert(updated.drop_last() =~= entries.drop_last().update(i, entry));
    }
}

proof fn lemma_pair_total_remove(entries: Seq<StuckEntry>, i: int)
    requires
        0 <= i < entries.len(),
    ensures
        pair_total(entries.remove(i)) + entries[i].blockers.len() == pair_total(entries),
    decreases entries.len(),
{
    let removed = entries.remove(i);
    if i == entries.len() - 1 {
        assert(removed =~= entries.drop_last());
    } else {
        lemma_pair_total_remove(entries.drop_last(), i);
        assert(removed.drop_last() =~= entries.drop_last().remove(i));
    }
}

/// The position of the entry registered for `constraint`, if any.
fn find_constraint(entries: &Vec<StuckConstraint>, constraint: &ConstraintInScope) -> (found: Option<usize>)
    ensures
        match found {
            Some(i) => i < entries@.len() && entries@[i as int].constraint@ == constraint@,
            None => forall|i: int| 0 <= i < entries@.len() ==> #[trigger] entries@[i].constraint@ != constraint@,
        },
{
    let mut k: usize = 0;
    while k < entries.len()
        invariant
            k <= entries@.len(),
            forall|i: int| 0 <= i < k ==> #[trigger] entries@[i].constraint@ != constraint@,
        decreases entries@.len() - k,
    {
        if entries[k].constraint == *constraint {
            return Some(k);
        }
        k = k + 1;
    }
    None
}

/// Whether `blockers` holds `blocker`.
fn holds_blocker(blockers: &Vec<u32>, blocker: u32) -> (found: bool)
    ensures
        found == blockers@.contains(blocker),
{
    let mut k: usize = 0;
    while k < blockers.len()
        invariant
            k <= blockers@.len(),
            forall|i: int| 0 <= i < k ==> blockers@[i] != blocker,
        decreases blockers@.len() - k,
    {
        if blockers[k] == blocker {
            return true;
        }
        k = k + 1;
    }
    false
}

/// Whether `orders` holds `order`.
fn holds_order(orders: &Vec<usize>, order: usize) -> (found: bool)
    ensures
        found == orders@.contains(order),
{
    let mut k: usize = 0;
    while k < orders.len()
        invariant
            k <= orders@.len(),
            forall|i: int| 0 <= i < k ==> orders@[i] != order,
        decreases orders@.len() - k,
    {
        if orders[k] == order {
            return true;
        }
        k = k + 1;
    }
    false
}

/// A copy of a list of unification variables.
fn copy_blockers(blockers: &Vec<u32>) -> (copy: Vec<u32>)
    ensures
        copy@ == blockers@,
{
    let mut copy: Vec<u32> = Vec::new();
    let mut k: usize = 0;
    while k < blockers.len()
        invariant
            k <= blockers@.len(),
            copy@ == blockers@.take(k as int),
        decreases blockers@.len() - k,
    {
        copy.push(blockers[k]);
        k = k + 1;
        assert(copy@ =~= blockers@.take(k as int));
    }
    assert(blockers@.take(k as int) =~= blockers@);
    copy
}

/// A wait list without `order`.
fn without_order(list: &Vec<usize>, order: usize) -> (rest: Vec<usize>)
    requires
        list@.no_duplicates(),
    ensures
        rest@.no_duplicates(),
        rest@.to_set() == list@.to_set().remove(order),
{
    let mut rest: Vec<usize> = Vec::new();
    let mut k: usize = 0;
    while k < list.len()
        invariant
            k <= list@.len(),
            list@.no_duplicates(),
            rest@.no_duplicates(),
            rest@.to_set() == list@.take(k as int).to_set().remove(order),
        decreases list@.len() - k,
    {
        let ghost before = rest@;
        let item = list[k];
        assert(list@.take(k as int + 1) =~= list@.take(k as int) + seq![item]);
        proof {
            Seq::lemma_to_set_insert_commutes(list@.take(k as int), item);
        }
        if item != order {
            assert(!list@.take(k as int).contains(item));
            assert(!before.contains(item)) by {
                if before.contains(item) {
                    assert(before.to_set().contains(item));
                }
            }
            rest.push(item);
            assert(rest@ =~= before + seq![item]);
            proof {
                Seq::lemma_to_set_insert_commutes(before, item);
            }
            assert(rest@.to_set() =~= list@.take(k as int + 1).to_set().remove(order));
        } else {
            assert(rest@.to_set() =~= list@.take(k as int + 1).to_set().remove(order));
        }
        k = k + 1;
    }
    assert(list@.take(k as int) =~= list@);
    rest
}

/// Whether the statistics other than those named agree.
pub open spec fn same_wake_counts(a: WakeStatistics, b: WakeStatistics) -> bool {
    &&& a.wake_calls == b.wake_calls
    &&& a.solved_ids_examined == b.solved_ids_examined
    &&& a.stuck_keys_scanned == b.stuck_keys_scanned
    &&& a.stuck_entries_scanned == b.stuck_entries_scanned
    &&& a.awakened_constraints == b.awakened_constraints
}

/// The larger of a peak and a new level.
pub open spec fn peak_of(peak: usize, level: nat) -> nat {
    if peak as nat >= level {
        peak as nat
    } else {
        level
    }
}

impl Stuck {
    /// Registers `constraint` as stuck until one of `blockers` is solved.
    /// A constraint registered before keeps its place and also waits for the
    /// new blockers; each blocker it already waited for counts as a
    /// duplicate registration.
    pub fn register(&mut self, constraint: ConstraintInScope, blockers: FxHashSet<u32>, statistics: &mut WakeStatistics)
        requires
            old(self).wf(),
            old(self)@.next_order < usize::MAX,
            old(self)@.pairs() + blockers@.len() <= usize::MAX,
        ensures
            final(self).wf(),
            final(self)@ == old(self)@.registered(constraint@, blockers@),
            final(statistics).duplicate_registrations == bump(
                old(statistics).duplicate_registrations,
                blockers@.len() - (final(self)@.pairs() - old(self)@.pairs()),
            ),
            final(statistics).peak_stuck_entries as nat == peak_of(
                old(statistics).peak_stuck_entries,
                final(self)@.pairs(),
            ),
            same_wake_counts(*final(statistics), *old(statistics)),
    {
        let ghost old_entries = self@.entries;
        let ghost old_pairs = self@.pairs();
        let order = self.next_order;
        self.next_order = order + 1;
        let found = find_constraint(&self.by_constraint, &constraint);
        let (mut entry_blockers, entry_order, index): (Vec<u32>, usize, usize) = match found {
            Some(i) => (copy_blockers(&self.by_constraint[i].blockers), self.by_constraint[i].order, i),
            None => (Vec::new(), order, self.by_constraint.len()),
        };
        let ghost base: Seq<StuckEntry> = if found is Some {
            old_entries
        } else {
            old_entries.push(StuckEntry { constraint: constraint@, blockers: Set::empty(), order: order as nat })
        };
        proof {
            assert(entry_blockers@.to_set() =~= base[index as int].blockers);
            if found is None {
                lemma_waiting_on_push_idle(old_entries, base[index as int]);
                assert(base.drop_last() =~= old_entries);
                assert forall|blocker: u32| #[trigger] agrees(self.by_unification@, base, Set::empty(), blocker) by {
                    assert(agrees(self.by_unification@, old_entries, Set::empty(), blocker));
                }
            }
        }
        let list = set_elements(&blockers);
        proof {
            list@.unique_seq_to_set();
        }
        let ghost mut cur = base;
        let ghost mut duplicates: int = 0;
        let mut j: usize = 0;
        while j < list.len()
            invariant
                self.by_constraint@ == old(self).by_constraint@,
                self.next_order == order + 1,
                old_entries == entry_views(old(self).by_constraint@),
                found is Some ==> found == Some(index) && index < old_entries.len() && base == old_entries,
                found is None ==> index == old_entries.len() && base == old_entries.push(
                    StuckEntry { constraint: constraint@, blockers: Set::empty(), order: order as nat },
                ),
                0 <= index < base.len(),
                cur.len() == base.len(),
                j <= list@.len(),
                list@.no_duplicates(),
                list@.len() == blockers@.len(),
                pair_total(base) == old_pairs,
                old_pairs + list@.len() <= usize::MAX,
                increasing(base),
                base[index as int].constraint == constraint@,
                base[index as int].order == entry_order as nat,
                base[index as int].blockers.finite(),
                cur[index as int] == (StuckEntry {
                    constraint: constraint@,
                    blockers: entry_blockers@.to_set(),
                    order: entry_order as nat,
                }),
                forall|i: int| 0 <= i < cur.len() && i != index ==> cur[i] == base[i],
                entry_blockers@.no_duplicates(),
                entry_blockers@.to_set() == base[index as int].blockers.union(list@.take(j as int).to_set()),
                linked(self.by_unification@, cur, Set::empty()),
                self.entries as nat == pair_total(cur),
                0 <= duplicates <= j,
                pair_total(cur) == old_pairs + j - duplicates,
                statistics.duplicate_registrations == bump(old(statistics).duplicate_registrations, duplicates),
                statistics.peak_stuck_entries == old(statistics).peak_stuck_entries,
                same_wake_counts(*statistics, *old(statistics)),
            decreases list@.len() - j,
        {
            let blocker = list[j];
            let ghost before = cur;
            let ghost vec_before = entry_blockers@;
            proof {
                assert(list@.take(j as int + 1) =~= list@.take(j as int) + seq![blocker]);
                Seq::lemma_to_set_insert_commutes(list@.take(j as int), blocker);
                assert(!list@.take(j as int).contains(blocker));
                assert(increasing(before)) by {
                    assert forall|a: int, b: int| 0 <= a < b < before.len() implies #[trigger] before[a].order < #[trigger] before[b].order by {
                        assert(before[a].order == base[a].order);
                        assert(before[b].order == base[b].order);
                    }
                }
            }
            if holds_blocker(&entry_blockers, blocker) {
                statistics.duplicate_registrations = statistics.duplicate_registrations.saturating_add(1);
                proof {
                    duplicates = duplicates + 1;
                    assert(entry_blockers@.to_set().contains(blocker));
                    assert(entry_blockers@.to_set() =~= base[index as int].blockers.union(list@.take(j as int + 1).to_set()));
                }
            } else {
                let ghost waiting_before = self.by_unification@;
                entry_blockers.push(blocker);
                let mut waiting = match map_remove(&mut self.by_unification, &blocker) {
                    Some(existing) => existing,
                    None => Vec::new(),
                };
                let ghost list_before = waiting@;
                waiting.push(entry_order);
                map_insert(&mut self.by_unification, blocker, waiting);
                proof {
                    assert(!vec_before.to_set().contains(blocker));
                    assert(entry_blockers@ =~= vec_before + seq![blocker]);
                    Seq::lemma_to_set_insert_commutes(vec_before, blocker);
                    assert(entry_blockers@.to_set() =~= base[index as int].blockers.union(list@.take(j as int + 1).to_set()));
                    cur = before.update(
                        index as int,
                        StuckEntry { blockers: before[index as int].blockers.insert(blocker), ..before[index as int] },
                    );
                    assert(cur[index as int].blockers =~= entry_blockers@.to_set());
                    lemma_waiting_on_add(before, index as int, blocker, entry_order);
                    lemma_pair_total_update(before, index as int, cur[index as int]);
                    assert(!waiting_on(before, blocker).contains(entry_order)) by {
                        if waiting_on(before, blocker).contains(entry_order) {
                            let i = choose|i: int|
                                0 <= i < before.len() && (#[trigger] before[i]).order == entry_order as nat
                                    && before[i].blockers.contains(blocker);
                            if i < index {
                                assert(before[i].order < before[index as int].order);
                            } else if i > index {
                                assert(before[index as int].order < before[i].order);
                            }
                        }
                    }
                    assert(agrees(waiting_before, before, Set::empty(), blocker));
                    assert(list_before =~= (if waiting_before.contains_key(blocker) {
                        waiting_before[blocker]@
                    } else {
                        Seq::<usize>::empty()
                    }));
                    assert(waiting@ =~= list_before + seq![entry_order]);
                    Seq::lemma_to_set_insert_commutes(list_before, entry_order);
                    assert(list_before.to_set() =~= waiting_on(before, blocker));
                    assert(!list_before.contains(entry_order)) by {
                        if list_before.contains(entry_order) {
                            assert(list_before.to_set().contains(entry_order));
                        }
                    }
                    assert forall|x: u32| #[trigger] agrees(self.by_unification@, cur, Set::empty(), x) by {
                        assert(agrees(waiting_before, before, Set::empty(), x));
                        if x == blocker {
                            assert(self.by_unification@[blocker]@ == list_before + seq![entry_order]);
                            assert(self.by_unification@[blocker]@.to_set() =~= waiting_on(cur, blocker));
                        }
                    }
                }
                self.entries = self.entries + 1;
            }
            j = j + 1;
        }
        proof {
            assert(list@.take(j as int) =~= list@);
        }
        match found {
            Some(i) => {
                self.by_constraint.set(i, StuckConstraint { constraint, blockers: entry_blockers, order: entry_order });
            },
            None => {
                self.by_constraint.push(StuckConstraint { constraint, blockers: entry_blockers, order: entry_order });
            },
        }
        proof {
            assert(self@.entries =~= cur);
        }
        if statistics.peak_stuck_entries < self.entries {
            statistics.peak_stuck_entries = self.entries;
        }
        proof {
            let model = old(self)@;
            let c = constraint@;
            if found is Some {
                assert(model.has_constraint(c)) by {
                    assert(model.entries[index as int].constraint == c);
                }
                let p = model.constraint_position(c);
                assert(p == index) by {
                    if p != index {
                        assert(model.entries[p].constraint != model.entries[index as int].constraint);
                    }
                }
                assert(cur[index as int].blockers =~= model.entries[index as int].blockers.union(blockers@));
                assert(cur =~= model.registered(c, blockers@).entries);
            } else {
                assert(!model.has_constraint(c)) by {
                    if model.has_constraint(c) {
                        let p = choose|p: int| 0 <= p < model.entries.len() && #[trigger] model.entries[p].constraint == c;
                        assert(self.by_constraint@[p].constraint@ == old(self).by_constraint@[p].constraint@);
                    }
                }
                assert(cur[index as int].blockers =~= blockers@);
                assert(cur =~= model.registered(c, blockers@).entries);
            }
            assert(self@.coherent()) by {
                assert forall|a: int, b: int| 0 <= a < b < cur.len() implies #[trigger] cur[a].order < #[trigger] cur[b].order by {
                    assert(cur[a].order == base[a].order);
                    assert(cur[b].order == base[b].order);
                }
                assert forall|a: int, b: int|
                    0 <= a < cur.len() && 0 <= b < cur.len() && a != b implies #[trigger] cur[a].constraint != #[trigger] cur[b].constraint by {
                    assert(cur[a].constraint == base[a].constraint);
                    assert(cur[b].constraint == base[b].constraint);
                    if found is None {
                        if a == index {
                            assert(old(self).by_constraint@[b].constraint@ == base[b].constraint);
                        } else if b == index {
                            assert(old(self).by_constraint@[a].constraint@ == base[a].constraint);
                        }
                    }
                }
            }
        }
    }
}

proof fn lemma_coherent_increasing(model: StuckModel)
    requires
        model.coherent(),
    ensures
        increasing(model.entries),
{
    assert forall|i: int, j: int| 0 <= i < j < model.entries.len() implies #[trigger] model.entries[i].order
        < #[trigger] model.entries[j].order by {}
}

/// Entry `k` is among the woken orders exactly when solving `solved` wakes it.
proof fn lemma_woken_by_order(entries: Seq<StuckEntry>, solved: Set<u32>, k: int)
    requires
        increasing(entries),
        0 <= k < entries.len(),
        entries[k].order <= usize::MAX,
    ensures
        woken_orders(entries, solved).contains(entries[k].order as usize) == wakes(entries[k], solved),
{
    let order = entries[k].order as usize;
    if woken_orders(entries, solved).contains(order) {
        let i = choose|i: int|
            0 <= i < entries.len() && (#[trigger] entries[i]).order == order as nat && wakes(entries[i], solved);
        if i < k {
            assert(entries[i].order < entries[k].order);
        } else if i > k {
            assert(entries[k].order < entries[i].order);
        }
    } else if wakes(entries[k], solved) {
        assert(entries[k].order == order as nat);
        assert(woken_orders(entries, solved).contains(order));
    }
}

/// The orders of the entries that solving any of `solved` wakes.
spec fn woken_orders(entries: Seq<StuckEntry>, solved: Set<u32>) -> Set<usize> {
    Set::new(
        |order: usize|
            exists|i: int|
                0 <= i < entries.len() && (#[trigger] entries[i]).order == order as nat && wakes(entries[i], solved),
    )
}

proof fn lemma_woken_orders_insert(entries: Seq<StuckEntry>, solved: Set<u32>, blocker: u32)
    ensures
        woken_orders(entries, solved.insert(blocker)) == woken_orders(entries, solved).union(waiting_on(entries, blocker)),
{
    let wider = solved.insert(blocker);
    assert forall|o: usize| #[trigger] woken_orders(entries, wider).contains(o)
        implies woken_orders(entries, solved).union(waiting_on(entries, blocker)).contains(o) by {
        let i = choose|i: int|
            0 <= i < entries.len() && (#[trigger] entries[i]).order == o as nat && wakes(entries[i], wider);
        let b = choose|b: u32| entries[i].blockers.contains(b) && #[trigger] wider.contains(b);
        if b == blocker {
            assert(waiting_on(entries, blocker).contains(o));
        } else {
            assert(solved.contains(b));
            assert(wakes(entries[i], solved));
            assert(woken_orders(entries, solved).contains(o));
        }
    }
    assert forall|o: usize| #[trigger] woken_orders(entries, solved).union(waiting_on(entries, blocker)).contains(o)
        implies woken_orders(entries, wider).contains(o) by {
        if woken_orders(entries, solved).contains(o) {
            let i = choose|i: int|
                0 <= i < entries.len() && (#[trigger] entries[i]).order == o as nat && wakes(entries[i], solved);
            let b = choose|b: u32| entries[i].blockers.contains(b) && #[trigger] solved.contains(b);
            assert(wider.contains(b));
            assert(wakes(entries[i], wider));
        } else {
            let i = choose|i: int|
                0 <= i < entries.len() && (#[trigger] entries[i]).order == o as nat
                    && entries[i].blockers.contains(blocker);
            assert(wider.contains(blocker));
            assert(wakes(entries[i], wider));
        }
    }
    assert(woken_orders(entries, wider) =~= woken_orders(entries, solved).union(waiting_on(entries, blocker)));
}

proof fn lemma_coherent_remove(model: StuckModel, i: int)
    requires
        model.coherent(),
        0 <= i < model.entries.len(),
    ensures
        (StuckModel { entries: model.entries.remove(i), next_order: model.next_order }).coherent(),
{
    let e = model.entries;
    let r = e.remove(i);
    assert forall|a: int| 0 <= a < r.len() implies #[trigger] r[a] == e[if a < i { a } else { a + 1 }] by {}
    assert forall|a: int, b: int| 0 <= a < b < r.len() implies #[trigger] r[a].order < #[trigger] r[b].order by {
        assert(r[a] == e[if a < i { a } else { a + 1 }]);
        assert(r[b] == e[if b < i { b } else { b + 1 }]);
    }
    assert forall|a: int, b: int| 0 <= a < r.len() && 0 <= b < r.len() && a != b implies #[trigger] r[a].constraint
        != #[trigger] r[b].constraint by {
        assert(r[a] == e[if a < i { a } else { a + 1 }]);
        assert(r[b] == e[if b < i { b } else { b + 1 }]);
    }
    assert forall|a: int| 0 <= a < r.len() implies #[trigger] r[a].order < model.next_order by {
        assert(r[a] == e[if a < i { a } else { a + 1 }]);
    }
    assert forall|a: int| 0 <= a < r.len() implies (#[trigger] r[a]).blockers.finite() by {
        assert(r[a] == e[if a < i { a } else { a + 1 }]);
    }
}

/// The entries of `v` in reverse order.
fn reversed_entries(v: Vec<StuckConstraint>) -> (r: Vec<StuckConstraint>)
    ensures
        r@.len() == v@.len(),
        forall|j: int| 0 <= j < v@.len() ==> #[trigger] r@[j] == v@[v@.len() - 1 - j],
{
    let ghost original = v@;
    let mut v = v;
    let mut r: Vec<StuckConstraint> = Vec::new();
    while v.len() > 0
        invariant
            r@.len() + v@.len() == original.len(),
            forall|i: int| 0 <= i < v@.len() ==> #[trigger] v@[i] == original[i],
            forall|j: int| 0 <= j < r@.len() ==> #[trigger] r@[j] == original[original.len() - 1 - j],
        decreases v@.len(),
    {
        match v.pop() {
            Some(last) => {
                r.push(last);
            },
            None => {},
        }
    }
    r
}

/// The wait-list entries that taking the lists of `solved` scans: every
/// entry waiting for each distinct solved variable.
pub open spec fn solved_scan(entries: Seq<StuckEntry>, solved: Seq<u32>) -> nat
    decreases solved.len(),
{
    if solved.len() == 0 {
        0
    } else {
        solved_scan(entries, solved.drop_last()) + if solved.drop_last().contains(solved.last()) {
            0
        } else {
            waiting_on(entries, solved.last()).len()
        }
    }
}

/// The wait-list entries, as (variable, order) pairs, that unlinking an
/// entry waiting for `blockers` from `current` scans: the whole wait list
/// of each of its variables that is not solved.
pub open spec fn unlink_pairs(current: Seq<StuckEntry>, blockers: Set<u32>, solved: Set<u32>) -> Set<(u32, usize)> {
    Set::new(
        |pair: (u32, usize)|
            blockers.contains(pair.0) && !solved.contains(pair.0) && waiting_on(current, pair.0).contains(pair.1),
    )
}

/// The wait-list entries scanned while the woken entries of `rest` are
/// unlinked one after another, in registration order, `kept` being the
/// entries kept so far.
pub open spec fn unlink_scan(kept: Seq<StuckEntry>, rest: Seq<StuckEntry>, solved: Set<u32>) -> nat
    decreases rest.len(),
{
    if rest.len() == 0 {
        0
    } else if wakes(rest[0], solved) {
        unlink_pairs(kept + rest, rest[0].blockers, solved).len() + unlink_scan(kept, rest.drop_first(), solved)
    } else {
        unlink_scan(kept.push(rest[0]), rest.drop_first(), solved)
    }
}

impl StuckModel {
    /// The wait-list entries that waking the constraints stuck on `solved`
    /// scans.
    pub open spec fn wake_scan(self, solved: Seq<u32>) -> nat {
        solved_scan(self.entries, solved) + unlink_scan(Seq::empty(), self.entries, solved.to_set())
    }
}

/// Adding to a saturating counter twice adds the sum.
proof fn lemma_bump_twice(value: usize, first: nat, second: nat)
    ensures
        bump(bump(value, first as int), second as int) == bump(value, (first + second) as int),
{
}

/// Unlinking through one more variable scans its wait list too, unless it
/// is solved.
proof fn lemma_unlink_pairs_step(current: Seq<StuckEntry>, done: Seq<u32>, blocker: u32, solved: Set<u32>)
    requires
        !done.contains(blocker),
        unlink_pairs(current, done.to_set(), solved).finite(),
        !solved.contains(blocker) ==> waiting_on(current, blocker).finite(),
    ensures
        unlink_pairs(current, done.push(blocker).to_set(), solved).finite(),
        unlink_pairs(current, done.push(blocker).to_set(), solved).len() == unlink_pairs(current, done.to_set(), solved).len()
            + if solved.contains(blocker) {
            0
        } else {
            waiting_on(current, blocker).len()
        },
{
    let before = unlink_pairs(current, done.to_set(), solved);
    let after = unlink_pairs(current, done.push(blocker).to_set(), solved);
    Seq::lemma_to_set_insert_commutes(done, blocker);
    assert(done.push(blocker).to_set() =~= done.to_set().insert(blocker)) by {
        Seq::lemma_to_set_insert_commutes(done, blocker);
        assert(done + seq![blocker] =~= done.push(blocker));
    }
    if solved.contains(blocker) {
        assert(after =~= before);
    } else {
        let waiting = waiting_on(current, blocker);
        let pair_of = |order: usize| (blocker, order);
        let extra = waiting.map(pair_of);
        vstd::set_lib::lemma_map_size(waiting, extra, pair_of);
        assert(after =~= before.union(extra)) by {
            assert forall|pair: (u32, usize)| after.contains(pair) implies before.union(extra).contains(pair) by {
                if pair.0 == blocker {
                    assert(waiting.contains(pair.1));
                    assert(pair_of(pair.1) == pair);
                }
            }
        }
        assert(before.disjoint(extra)) by {
            assert forall|pair: (u32, usize)| before.contains(pair) implies !extra.contains(pair) by {
                assert(done.to_set().contains(pair.0));
            }
        }
        vstd::set_lib::lemma_set_disjoint_lens(before, extra);
    }
}

/// How the wait lists stand while a woken entry is unlinked: the lists of the
/// blockers in `done` agree with `after`, the others still with `before`.
spec fn agrees_during(
    waiting: Map<u32, Vec<usize>>,
    before: Seq<StuckEntry>,
    after: Seq<StuckEntry>,
    solved: Set<u32>,
    done: Seq<u32>,
    blocker: u32,
) -> bool {
    if done.contains(blocker) {
        agrees(waiting, after, solved, blocker)
    } else {
        agrees(waiting, before, solved, blocker)
    }
}

/// Removes the order of a woken entry from the wait lists of its blockers,
/// dropping lists that become empty. The lists of solved blockers are
/// already gone.
fn unlink(
    waiting: &mut FxHashMap<u32, Vec<usize>>,
    blockers: &Vec<u32>,
    order: usize,
    Ghost(before): Ghost<Seq<StuckEntry>>,
    Ghost(at): Ghost<int>,
    Ghost(solved): Ghost<Set<u32>>,
    statistics: &mut WakeStatistics,
)
    requires
        increasing(before),
        0 <= at < before.len(),
        before[at].order == order as nat,
        before[at].blockers == blockers@.to_set(),
        blockers@.no_duplicates(),
        linked(old(waiting)@, before, solved),
    ensures
        linked(final(waiting)@, before.remove(at), solved),
        final(statistics).stuck_entries_scanned == bump(
            old(statistics).stuck_entries_scanned,
            unlink_pairs(before, blockers@.to_set(), solved).len() as int,
        ),
        final(statistics).wake_calls == old(statistics).wake_calls,
        final(statistics).solved_ids_examined == old(statistics).solved_ids_examined,
        final(statistics).stuck_keys_scanned == old(statistics).stuck_keys_scanned,
        final(statistics).awakened_constraints == old(statistics).awakened_constraints,
        final(statistics).duplicate_registrations == old(statistics).duplicate_registrations,
        final(statistics).peak_stuck_entries == old(statistics).peak_stuck_entries,
{
    let ghost after = before.remove(at);
    proof {
        lemma_waiting_on_remove(before, at, order);
        assert forall|x: u32| #[trigger] agrees_during(waiting@, before, after, solved, blockers@.take(0), x) by {
            assert(agrees(waiting@, before, solved, x));
        }
        assert(unlink_pairs(before, blockers@.take(0).to_set(), solved) =~= Set::<(u32, usize)>::empty());
    }
    let mut j: usize = 0;
    while j < blockers.len()
        invariant
            j <= blockers@.len(),
            increasing(before),
            0 <= at < before.len(),
            after == before.remove(at),
            before[at].order == order as nat,
            before[at].blockers == blockers@.to_set(),
            blockers@.no_duplicates(),
            forall|x: u32| #[trigger] waiting_on(after, x) == waiting_on(before, x).remove(order),
            forall|x: u32| #[trigger] agrees_during(waiting@, before, after, solved, blockers@.take(j as int), x),
            unlink_pairs(before, blockers@.take(j as int).to_set(), solved).finite(),
            statistics.stuck_entries_scanned == bump(
                old(statistics).stuck_entries_scanned,
                unlink_pairs(before, blockers@.take(j as int).to_set(), solved).len() as int,
            ),
            statistics.wake_calls == old(statistics).wake_calls,
            statistics.solved_ids_examined == old(statistics).solved_ids_examined,
            statistics.stuck_keys_scanned == old(statistics).stuck_keys_scanned,
            statistics.awakened_constraints == old(statistics).awakened_constraints,
            statistics.duplicate_registrations == old(statistics).duplicate_registrations,
            statistics.peak_stuck_entries == old(statistics).peak_stuck_entries,
        decreases blockers@.len() - j,
    {
        let blocker = blockers[j];
        let ghost waiting_before = waiting@;
        let ghost done = blockers@.take(j as int);
        let ghost scanned_before = statistics.stuck_entries_scanned;
        proof {
            assert(blockers@.take(j as int + 1) =~= done.push(blocker));
            assert(!done.contains(blocker));
            assert(agrees_during(waiting_before, before, after, solved, done, blocker));
            assert(blockers@.to_set().contains(blocker));
        }
        match map_remove(waiting, &blocker) {
            Some(list) => {
                statistics.stuck_entries_scanned = statistics.stuck_entries_scanned.saturating_add(list.len());
                let rest = without_order(&list, order);
                let ghost removed = waiting@;
                if rest.len() > 0 {
                    map_insert(waiting, blocker, rest);
                }
                proof {
                    assert(!solved.contains(blocker));
                    assert(waiting_on(before, blocker).contains(order)) by {
                        assert(before[at].order == order as nat && before[at].blockers.contains(blocker));
                    }
                    assert(list@.to_set() == waiting_on(before, blocker));
                    list@.unique_seq_to_set();
                    lemma_unlink_pairs_step(before, done, blocker, solved);
                    lemma_bump_twice(
                        old(statistics).stuck_entries_scanned,
                        unlink_pairs(before, done.to_set(), solved).len(),
                        list@.len(),
                    );
                    assert(waiting_on(after, blocker) == waiting_on(before, blocker).remove(order));
                    if rest@.len() == 0 {
                        assert(rest@ =~= Seq::<usize>::empty());
                        assert(rest@.to_set() =~= Set::<usize>::empty());
                        assert(waiting_on(after, blocker) =~= rest@.to_set());
                        assert(!waiting@.contains_key(blocker));
                        assert(agrees(waiting@, after, solved, blocker));
                    } else {
                        assert(waiting@[blocker] == rest);
                        assert(agrees(waiting@, after, solved, blocker));
                    }
                }
            },
            None => {
                proof {
                    if !solved.contains(blocker) {
                        assert(waiting_on(before, blocker).contains(order)) by {
                            assert(before[at].order == order as nat && before[at].blockers.contains(blocker));
                        }
                    }
                    lemma_unlink_pairs_step(before, done, blocker, solved);
                }
            },
        }
        proof {
            assert forall|x: u32| #[trigger] agrees_during(waiting@, before, after, solved, blockers@.take(j as int + 1), x) by {
                assert(agrees_during(waiting_before, before, after, solved, done, x));
                if x == blocker {
                    assert(blockers@.take(j as int + 1)[j as int] == blocker);
                    assert(waiting_on(after, blocker) == waiting_on(before, blocker).remove(order));
                } else {
                    assert(blockers@.take(j as int + 1).contains(x) == done.contains(x));
                }
            }
        }
        j = j + 1;
    }
    proof {
        assert(blockers@.take(j as int) =~= blockers@);
        assert(blockers@.take(j as int).to_set() =~= blockers@.to_set());
        assert forall|x: u32| #[trigger] agrees(waiting@, after, solved, x) by {
            assert(agrees_during(waiting@, before, after, solved, blockers@, x));
            if !blockers@.contains(x) {
                assert(!waiting_on(before, x).contains(order)) by {
                    if waiting_on(before, x).contains(order) {
                        let i = choose|i: int|
                            0 <= i < before.len() && (#[trigger] before[i]).order == order as nat
                                && before[i].blockers.contains(x);
                        if i < at {
                            assert(before[i].order < before[at].order);
                        } else if i > at {
                            assert(before[at].order < before[i].order);
                        } else {
                            assert(blockers@.to_set().contains(x));
                        }
                    }
                }
                assert(waiting_on(after, x) =~= waiting_on(before, x));
            }
        }
    }
}

impl Stuck {
    /// Removes the wait lists of the solved unification variables and
    /// gathers the orders they held.
    fn take_solved_lists(&mut self, solved: &Vec<u32>, statistics: &mut WakeStatistics) -> (orders: Vec<usize>)
        requires
            old(self).wf(),
        ensures
            final(self).by_constraint@ == old(self).by_constraint@,
            final(self).next_order == old(self).next_order,
            final(self).entries == old(self).entries,
            linked(final(self).by_unification@, old(self)@.entries, solved@.to_set()),
            orders@.to_set() == woken_orders(old(self)@.entries, solved@.to_set()),
            final(statistics).solved_ids_examined == bump(old(statistics).solved_ids_examined, solved@.len() as int),
            final(statistics).stuck_keys_scanned == bump(old(statistics).stuck_keys_scanned, solved@.len() as int),
            final(statistics).stuck_entries_scanned == bump(
                old(statistics).stuck_entries_scanned,
                solved_scan(old(self)@.entries, solved@) as int,
            ),
            final(statistics).wake_calls == old(statistics).wake_calls,
            final(statistics).awakened_constraints == old(statistics).awakened_constraints,
            final(statistics).duplicate_registrations == old(statistics).duplicate_registrations,
            final(statistics).peak_stuck_entries == old(statistics).peak_stuck_entries,
    {
        let ghost entries = self@.entries;
        let mut orders: Vec<usize> = Vec::new();
        proof {
            assert(solved@.take(0).to_set() =~= Set::<u32>::empty());
            assert(orders@.to_set() =~= woken_orders(entries, Set::<u32>::empty()));
        }
        let mut k: usize = 0;
        while k < solved.len()
            invariant
                self.by_constraint@ == old(self).by_constraint@,
                self.next_order == old(self).next_order,
                self.entries == old(self).entries,
                entries == old(self)@.entries,
                k <= solved@.len(),
                linked(self.by_unification@, entries, solved@.take(k as int).to_set()),
                orders@.to_set() == woken_orders(entries, solved@.take(k as int).to_set()),
                statistics.solved_ids_examined == bump(old(statistics).solved_ids_examined, k as int),
                statistics.stuck_keys_scanned == bump(old(statistics).stuck_keys_scanned, k as int),
                statistics.stuck_entries_scanned == bump(
                    old(statistics).stuck_entries_scanned,
                    solved_scan(entries, solved@.take(k as int)) as int,
                ),
                statistics.wake_calls == old(statistics).wake_calls,
                statistics.awakened_constraints == old(statistics).awakened_constraints,
                statistics.duplicate_registrations == old(statistics).duplicate_registrations,
                statistics.peak_stuck_entries == old(statistics).peak_stuck_entries,
            decreases solved@.len() - k,
        {
            let id = solved[k];
            let ghost prior = solved@.take(k as int).to_set();
            let ghost waiting_before = self.by_unification@;
            let ghost orders_before = orders@;
            let ghost scanned_so_far = solved_scan(entries, solved@.take(k as int));
            proof {
                assert(solved@.take(k as int + 1).drop_last() =~= solved@.take(k as int));
                assert(solved@.take(k as int).to_set().contains(id) == solved@.take(k as int).contains(id));
                assert(solved@.take(k as int + 1) =~= solved@.take(k as int) + seq![id]);
                Seq::lemma_to_set_insert_commutes(solved@.take(k as int), id);
                lemma_woken_orders_insert(entries, prior, id);
                assert(agrees(waiting_before, entries, prior, id));
            }
            statistics.solved_ids_examined = statistics.solved_ids_examined.saturating_add(1);
            statistics.stuck_keys_scanned = statistics.stuck_keys_scanned.saturating_add(1);
            match map_remove(&mut self.by_unification, &id) {
                Some(list) => {
                    statistics.stuck_entries_scanned = statistics.stuck_entries_scanned.saturating_add(list.len());
                    let mut list = list;
                    let ghost taken = list@;
                    proof {
                        assert(!prior.contains(id));
                        assert(list@.to_set() == waiting_on(entries, id));
                        list@.unique_seq_to_set();
                        lemma_bump_twice(old(statistics).stuck_entries_scanned, scanned_so_far, list@.len());
                    }
                    orders.append(&mut list);
                    proof {
                        assert(!prior.contains(id));
                        vstd::seq_lib::seq_to_set_distributes_over_add(orders_before, taken);
                        assert(orders@.to_set() =~= woken_orders(entries, prior.insert(id)));
                    }
                },
                None => {
                    proof {
                        if !prior.contains(id) {
                            assert(waiting_on(entries, id) =~= Set::<usize>::empty());
                        }
                        if prior.contains(id) {
                            assert(prior.insert(id) =~= prior);
                        } else {
                            assert(woken_orders(entries, prior).union(waiting_on(entries, id)) =~= woken_orders(entries, prior));
                        }
                    }
                },
            }
            proof {
                assert forall|x: u32| #[trigger] agrees(self.by_unification@, entries, prior.insert(id), x) by {
                    assert(agrees(waiting_before, entries, prior, x));
                }
            }
            k = k + 1;
        }
        proof {
            assert(solved@.take(k as int) =~= solved@);
        }
        orders
    }
}

impl Stuck {
    /// Wakes the constraints stuck on any of the `solved` unification
    /// variables: each comes out once, in the order of its first
    /// registration, and is no longer stuck on anything.
    #[verifier::rlimit(40)]
    pub fn wake(&mut self, solved: Vec<u32>, statistics: &mut WakeStatistics) -> (awake: Vec<ConstraintInScope>)
        requires
            old(self).wf(),
        ensures
            final(self).wf(),
            constraint_views(awake@) == old(self)@.woken(solved@.to_set()),
            final(self)@ == old(self)@.remaining(solved@.to_set()),
            final(statistics).solved_ids_examined == bump(old(statistics).solved_ids_examined, solved@.len() as int),
            final(statistics).stuck_keys_scanned == bump(old(statistics).stuck_keys_scanned, solved@.len() as int),
            final(statistics).awakened_constraints == bump(old(statistics).awakened_constraints, awake@.len() as int),
            final(statistics).stuck_entries_scanned == bump(
                old(statistics).stuck_entries_scanned,
                old(self)@.wake_scan(solved@) as int,
            ),
            final(statistics).wake_calls == old(statistics).wake_calls,
            final(statistics).duplicate_registrations == old(statistics).duplicate_registrations,
            final(statistics).peak_stuck_entries == old(statistics).peak_stuck_entries,
    {
        let ghost entries = self@.entries;
        let ghost solved_set = solved@.to_set();
        let ghost model = self@;
        let awake_orders = self.take_solved_lists(&solved, statistics);
        let mut pending: Vec<StuckConstraint> = Vec::new();
        std::mem::swap(&mut pending, &mut self.by_constraint);
        let ghost original = pending@;
        let n = pending.len();
        let mut rest = reversed_entries(pending);
        let mut kept: Vec<StuckConstraint> = Vec::new();
        let mut awake: Vec<ConstraintInScope> = Vec::new();
        let ghost mut current = entries;
        let ghost mut unlinked: nat = 0;
        let ghost taken = solved_scan(entries, solved@);
        proof {
            assert(entries.subrange(0, n as int) =~= entries);
            assert(entry_views(kept@) =~= Seq::<StuckEntry>::empty());
            assert(entries == entry_views(original));
            assert(entry_views(kept@) + entries.subrange(0, n as int) =~= current);
            assert(entries.take(0) =~= Seq::<StuckEntry>::empty());
            reveal(Seq::filter);
            assert(entry_views(kept@) =~= entries.take(0).filter(kept_by(solved_set)));
            assert(constraint_views(awake@) =~= constraints_of(entries.take(0).filter(woken_by(solved_set))));
        }
        let mut k: usize = 0;
        while k < n
            invariant
                n == original.len(),
                entries == entry_views(original),
                entries == model.entries,
                model.coherent(),
                forall|i: int| 0 <= i < original.len() ==> (#[trigger] original[i]).blockers@.no_duplicates(),
                k <= n,
                rest@.len() == n - k,
                forall|j: int| 0 <= j < rest@.len() ==> #[trigger] rest@[j] == original[n - 1 - j],
                current == entry_views(kept@) + entries.subrange(k as int, n as int),
                (StuckModel { entries: current, next_order: model.next_order }).coherent(),
                forall|i: int| 0 <= i < kept@.len() ==> (#[trigger] kept@[i]).blockers@.no_duplicates(),
                entry_views(kept@) == entries.take(k as int).filter(kept_by(solved_set)),
                constraint_views(awake@) == constraints_of(entries.take(k as int).filter(woken_by(solved_set))),
                linked(self.by_unification@, current, solved_set),
                self.entries as nat == pair_total(current),
                self.next_order as nat == model.next_order,
                awake_orders@.to_set() == woken_orders(entries, solved_set),
                statistics.solved_ids_examined == bump(old(statistics).solved_ids_examined, solved@.len() as int),
                statistics.stuck_keys_scanned == bump(old(statistics).stuck_keys_scanned, solved@.len() as int),
                taken == solved_scan(entries, solved@),
                statistics.stuck_entries_scanned == bump(old(statistics).stuck_entries_scanned, (taken + unlinked) as int),
                unlinked + unlink_scan(entry_views(kept@), entries.subrange(k as int, n as int), solved_set) == unlink_scan(
                    Seq::empty(),
                    entries,
                    solved_set,
                ),
                statistics.wake_calls == old(statistics).wake_calls,
                statistics.awakened_constraints == old(statistics).awakened_constraints,
                statistics.duplicate_registrations == old(statistics).duplicate_registrations,
                statistics.peak_stuck_entries == old(statistics).peak_stuck_entries,
            decreases n - k,
        {
            let ghost at = kept@.len() as int;
            let ghost before = current;
            let ghost prefix = entries.take(k as int);
            let ghost remaining = entries.subrange(k as int, n as int);
            let ghost kept_view = entry_views(kept@);
            let ghost scanned_before = statistics.stuck_entries_scanned;
            let entry = rest.pop().unwrap();
            proof {
                assert(remaining[0] == entries[k as int]);
                assert(remaining.drop_first() =~= entries.subrange(k as int + 1, n as int));
                assert(before == kept_view + remaining);
            }
            proof {
                assert(entry == original[k as int]);
                assert(entries[k as int] == entry_view(entry));
                assert(before[at] == entries[k as int]);
                assert(entries.take(k as int + 1) =~= prefix.push(entries[k as int]));
                prefix.lemma_filter_push(entries[k as int], kept_by(solved_set));
                prefix.lemma_filter_push(entries[k as int], woken_by(solved_set));
            }
            let is_woken = holds_order(&awake_orders, entry.order);
            proof {
                lemma_woken_by_order(entries, solved_set, k as int);
            }
            if is_woken {
                let ghost awake_before = awake@;
                let ghost woken_constraint = entry.constraint@;
                proof {
                    lemma_coherent_increasing(StuckModel { entries: before, next_order: model.next_order });
                    lemma_coherent_remove(StuckModel { entries: before, next_order: model.next_order }, at);
                    lemma_pair_total_remove(before, at);
                    original[k as int].blockers@.unique_seq_to_set();
                }
                unlink(
                    &mut self.by_unification,
                    &entry.blockers,
                    entry.order,
                    Ghost(before),
                    Ghost(at),
                    Ghost(solved_set),
                    statistics,
                );
                self.entries = self.entries - entry.blockers.len();
                awake.push(entry.constraint);
                proof {
                    assert(wakes(remaining[0], solved_set));
                    assert(remaining[0].blockers == entry.blockers@.to_set());
                    lemma_bump_twice(
                        old(statistics).stuck_entries_scanned,
                        taken + unlinked,
                        unlink_pairs(before, entry.blockers@.to_set(), solved_set).len(),
                    );
                    unlinked = unlinked + unlink_pairs(before, entry.blockers@.to_set(), solved_set).len();
                    assert(entry_views(kept@) == kept_view);
                    current = before.remove(at);
                    assert(current =~= entry_views(kept@) + entries.subrange(k as int + 1, n as int));
                    assert(constraint_views(awake@) =~= constraint_views(awake_before).push(woken_constraint));
                    assert(constraints_of(prefix.filter(woken_by(solved_set)).push(entries[k as int])) =~= constraints_of(
                        prefix.filter(woken_by(solved_set)),
                    ).push(woken_constraint));
                }
            } else {
                let ghost kept_before = kept@;
                kept.push(entry);
                proof {
                    assert(!wakes(remaining[0], solved_set));
                    assert(entry_views(kept@) =~= kept_view.push(remaining[0]));
                    assert(entry_views(kept@) =~= entries.take(k as int + 1).filter(kept_by(solved_set)));
                    assert(current =~= entry_views(kept@) + entries.subrange(k as int + 1, n as int));
                }
            }
            k = k + 1;
        }
        proof {
            assert(entries.take(n as int) =~= entries);
            assert(current =~= entry_views(kept@));
        }
        self.by_constraint = kept;
        statistics.awakened_constraints = statistics.awakened_constraints.saturating_add(awake.len());
        proof {
            let remaining = entries.filter(kept_by(solved_set));
            assert forall|x: u32| #[trigger] agrees(self.by_unification@, current, Set::empty(), x) by {
                assert(agrees(self.by_unification@, current, solved_set, x));
                if solved_set.contains(x) {
                    assert(waiting_on(current, x) =~= Set::<usize>::empty()) by {
                        assert forall|o: usize| !waiting_on(current, x).contains(o) by {
                            if waiting_on(current, x).contains(o) {
                                let i = choose|i: int|
                                    0 <= i < current.len() && (#[trigger] current[i]).order == o as nat
                                        && current[i].blockers.contains(x);
                                entries.lemma_filter_pred(kept_by(solved_set), i);
                                assert(wakes(current[i], solved_set));
                            }
                        }
                    }
                }
            }
        }
        awake
    }
}

impl Stuck {
    /// The constraints still waiting for some unification variable, each
    /// once, in the order of their first registration.
    pub fn into_constraints(self) -> (constraints: Vec<ConstraintInScope>)
        ensures
            constraint_views(constraints@) == self@.waiting(),
    {
        let ghost entries = self@.entries;
        let ghost original = self.by_constraint@;
        let n = self.by_constraint.len();
        let mut rest = reversed_entries(self.by_constraint);
        let mut constraints: Vec<ConstraintInScope> = Vec::new();
        proof {
            assert(entries.take(0) =~= Seq::<StuckEntry>::empty());
            reveal(Seq::filter);
            assert(constraint_views(constraints@) =~= constraints_of(entries.take(0).filter(still_waiting())));
        }
        let mut k: usize = 0;
        while k < n
            invariant
                n == original.len(),
                entries == entry_views(original),
                k <= n,
                rest@.len() == n - k,
                forall|j: int| 0 <= j < rest@.len() ==> #[trigger] rest@[j] == original[n - 1 - j],
                constraint_views(constraints@) == constraints_of(entries.take(k as int).filter(still_waiting())),
            decreases n - k,
        {
            let entry = rest.pop().unwrap();
            let ghost prefix = entries.take(k as int);
            let ghost before = constraints@;
            proof {
                assert(entry == original[k as int]);
                assert(entries.take(k as int + 1) =~= prefix.push(entries[k as int]));
                prefix.lemma_filter_push(entries[k as int], still_waiting());
                if entry.blockers.len() > 0 {
                    assert(entry.blockers@.to_set().contains(entry.blockers@[0]));
                } else {
                    assert(entry.blockers@.to_set() =~= Set::<u32>::empty());
                }
            }
            if entry.blockers.len() > 0 {
                let ghost waiting_constraint = entry.constraint@;
                constraints.push(entry.constraint);
                proof {
                    assert(constraint_views(constraints@) =~= constraint_views(before).push(waiting_constraint));
                    assert(constraints_of(prefix.filter(still_waiting()).push(entries[k as int])) =~= constraints_of(
                        prefix.filter(still_waiting()),
                    ).push(waiting_constraint));
                }
            }
            k = k + 1;
        }
        proof {
            assert(entries.take(n as int) =~= entries);
        }
        constraints
    }
}

/// Wakes the constraints stuck on the `solved` unification variables and
/// queues them, in registration order, as unclassified work.
pub fn wake_constraints(work: &mut Work, stuck: &mut Stuck, solved: Vec<u32>, statistics: &mut WakeStatistics)
    requires
        old(stuck).wf(),
    ensures
        final(stuck).wf(),
        final(stuck)@ == old(stuck)@.remaining(solved@.to_set()),
        constraint_views(final(work).unclassified@) == constraint_views(old(work).unclassified@) + old(
            stuck,
        )@.woken(solved@.to_set()),
        final(work).unifications@ == old(work).unifications@,
        final(work).constraints@ == old(work).constraints@,
        final(statistics).wake_calls == bump(old(statistics).wake_calls, 1),
        final(statistics).solved_ids_examined == bump(old(statistics).solved_ids_examined, solved@.len() as int),
        final(statistics).stuck_keys_scanned == bump(old(statistics).stuck_keys_scanned, solved@.len() as int),
        final(statistics).awakened_constraints == bump(
            old(statistics).awakened_constraints,
            old(stuck)@.woken(solved@.to_set()).len() as int,
        ),
        final(statistics).stuck_entries_scanned == bump(
            old(statistics).stuck_entries_scanned,
            old(stuck)@.wake_scan(solved@) as int,
        ),
        final(statistics).duplicate_registrations == old(statistics).duplicate_registrations,
        final(statistics).peak_stuck_entries == old(statistics).peak_stuck_entries,
{
    statistics.wake_calls = statistics.wake_calls.saturating_add(1);
    let awake = stuck.wake(solved, statistics);
    let ghost queued = work.unclassified@;
    let ghost woken = awake@;
    work.extend_constraints(awake);
    proof {
        assert(constraint_views(queued + woken) =~= constraint_views(queued) + constraint_views(woken));
    }
}

spec fn distinct_constraints(entries: Seq<StuckEntry>) -> bool {
    forall|i: int, j: int|
        0 <= i < entries.len() && 0 <= j < entries.len() && i != j ==> #[trigger] entries[i].constraint
            != #[trigger] entries[j].constraint
}

proof fn lemma_filter_keeps_distinct(entries: Seq<StuckEntry>, pred: spec_fn(StuckEntry) -> bool)
    requires
        distinct_constraints(entries),
    ensures
        constraints_of(entries.filter(pred)).no_duplicates(),
    decreases entries.len(),
{
    reveal(Seq::filter);
    if entries.len() > 0 {
        let rest = entries.drop_last();
        let last = entries.last();
        assert(distinct_constraints(rest)) by {
            assert forall|i: int, j: int| 0 <= i < rest.len() && 0 <= j < rest.len() && i != j implies #[trigger] rest[i].constraint
                != #[trigger] rest[j].constraint by {
                assert(rest[i] == entries[i] && rest[j] == entries[j]);
            }
        }
        lemma_filter_keeps_distinct(rest, pred);
        let sub = rest.filter(pred);
        if pred(last) {
            assert forall|j: int| 0 <= j < sub.len() implies #[trigger] sub[j].constraint != last.constraint by {
                assert(sub.contains(sub[j]));
                rest.lemma_filter_contains_rev(pred, sub[j]);
                let i = choose|i: int| 0 <= i < rest.len() && rest[i] == sub[j];
                assert(entries[i] == rest[i]);
                assert(entries[entries.len() - 1] == last);
            }
            let views = constraints_of(sub.push(last));
            assert forall|a: int, b: int| 0 <= a < views.len() && 0 <= b < views.len() && a != b implies views[a]
                != views[b] by {
                if a < sub.len() && b < sub.len() {
                    assert(views[a] == constraints_of(sub)[a]);
                    assert(views[b] == constraints_of(sub)[b]);
                }
            }
        }
    }
}

proof fn lemma_filter_none(entries: Seq<StuckEntry>, pred: spec_fn(StuckEntry) -> bool)
    requires
        forall|i: int| 0 <= i < entries.len() ==> !pred(#[trigger] entries[i]),
    ensures
        entries.filter(pred) == Seq::<StuckEntry>::empty(),
{
    let filtered = entries.filter(pred);
    if filtered.len() > 0 {
        entries.lemma_filter_pred(pred, 0);
        assert(filtered.contains(filtered[0]));
        entries.lemma_filter_contains_rev(pred, filtered[0]);
    }
    assert(filtered =~= Seq::<StuckEntry>::empty());
}

/// Waking never hands out a constraint twice.
pub proof fn law_woken_constraints_distinct(model: StuckModel, solved: Set<u32>)
    requires
        model.coherent(),
    ensures
        model.woken(solved).no_duplicates(),
{
    lemma_filter_keeps_distinct(model.entries, woken_by(solved));
}

/// Once woken, a constraint is no longer stuck: solving the same variables
/// again wakes nothing.
pub proof fn law_wake_again_wakes_nothing(model: StuckModel, solved: Set<u32>)
    ensures
        model.remaining(solved).woken(solved) == Seq::<ConstraintView>::empty(),
{
    let kept = model.entries.filter(kept_by(solved));
    assert forall|i: int| 0 <= i < kept.len() implies !woken_by(solved)(#[trigger] kept[i]) by {
        model.entries.lemma_filter_pred(kept_by(solved), i);
    }
    lemma_filter_none(kept, woken_by(solved));
    assert(constraints_of(kept.filter(woken_by(solved))) =~= Seq::<ConstraintView>::empty());
}

/// A constraint registered as stuck on `blocker` is woken when `blocker`
/// is solved.
pub proof fn law_registered_constraint_wakes(
    model: StuckModel,
    constraint: ConstraintView,
    blockers: Set<u32>,
    blocker: u32,
)
    requires
        blockers.contains(blocker),
    ensures
        model.registered(constraint, blockers).woken(set![blocker]).contains(constraint),
{
    let after = model.registered(constraint, blockers);
    let i = if model.has_constraint(constraint) {
        model.constraint_position(constraint)
    } else {
        model.entries.len() as int
    };
    assert(after.entries[i].constraint == constraint);
    assert(after.entries[i].blockers.contains(blocker));
    assert(set![blocker].contains(blocker));
    assert(wakes(after.entries[i], set![blocker]));
    after.entries.lemma_filter_contains(woken_by(set![blocker]), i);
    let filtered = after.entries.filter(woken_by(set![blocker]));
    let j = choose|j: int| 0 <= j < filtered.len() && filtered[j] == after.entries[i];
    assert(constraints_of(filtered)[j] == constraint);
}

/// What taking the next constraint did, when `passed` unclassified
/// constraints were examined and refused before it.
pub open spec fn pop_outcome<F: Fn(CanonicalConstraintId) -> bool>(
    improving: F,
    unclassified: Seq<ConstraintInScope>,
    constraints: Seq<ConstraintInScope>,
    unclassified_after: Seq<ConstraintInScope>,
    constraints_after: Seq<ConstraintInScope>,
    next: Option<ConstraintInScope>,
    passed: int,
) -> bool {
    &&& 0 <= passed <= unclassified.len()
    &&& forall|i: int| 0 <= i < passed ==> improving.ensures((#[trigger] unclassified[i].wanted,), false)
    &&& if passed < unclassified.len() {
        &&& improving.ensures((unclassified[passed].wanted,), true)
        &&& next == Some(unclassified[passed])
        &&& unclassified_after == unclassified.skip(passed + 1)
        &&& constraints_after == constraints + unclassified.take(passed)
    } else {
        let all = constraints + unclassified;
        &&& unclassified_after == Seq::<ConstraintInScope>::empty()
        &&& if all.len() == 0 {
            &&& next == None::<ConstraintInScope>
            &&& constraints_after == all
        } else {
            &&& next == Some(all[0])
            &&& constraints_after == all.drop_first()
        }
    }
}

impl Work {
    /// Takes the next constraint to solve. Unclassified constraints are
    /// examined in order: the first that `improving` accepts is taken, and
    /// those examined before it join the remaining constraints. When none is
    /// accepted, all of them join, and the first remaining constraint is
    /// taken, if there is one.
    pub fn pop_next<F: Fn(CanonicalConstraintId) -> bool>(&mut self, improving: F) -> (next: Option<ConstraintInScope>)
        requires
            forall|wanted: CanonicalConstraintId| improving.requires((wanted,)),
        ensures
            final(self).unifications@ == old(self).unifications@,
            exists|passed: int|
                pop_outcome(
                    improving,
                    old(self).unclassified@,
                    old(self).constraints@,
                    final(self).unclassified@,
                    final(self).constraints@,
                    next,
                    passed,
                ),
    {
        let ghost queue = self.unclassified@;
        let ghost remaining = self.constraints@;
        let ghost mut passed: int = 0;
        while self.unclassified.len() > 0
            invariant
                forall|wanted: CanonicalConstraintId| improving.requires((wanted,)),
                0 <= passed <= queue.len(),
                self.unclassified@ == queue.skip(passed),
                self.constraints@ == remaining + queue.take(passed),
                self.unifications@ == old(self).unifications@,
                queue == old(self).unclassified@,
                remaining == old(self).constraints@,
                forall|i: int| 0 <= i < passed ==> improving.ensures((#[trigger] queue[i].wanted,), false),
            decreases self.unclassified@.len(),
        {
            let constraint = self.unclassified.pop_front().unwrap();
            proof {
                assert(constraint == queue[passed]);
            }
            if improving(constraint.wanted) {
                proof {
                    assert(self.unclassified@ =~= queue.skip(passed + 1));
                    assert(pop_outcome(improving, queue, remaining, self.unclassified@, self.constraints@, Some(constraint), passed));
                }
                return Some(constraint);
            }
            self.constraints.push_back(constraint);
            proof {
                assert(self.constraints@ =~= remaining + queue.take(passed + 1));
                passed = passed + 1;
                assert(self.unclassified@ =~= queue.skip(passed));
            }
        }
        proof {
            assert(queue.take(passed) =~= queue);
            assert(self.unclassified@ =~= Seq::<ConstraintInScope>::empty());
        }
        let next = self.constraints.pop_front();
        proof {
            let all = remaining + queue;
            if all.len() > 0 {
                assert(self.constraints@ =~= all.drop_first());
            }
            assert(pop_outcome(improving, queue, remaining, self.unclassified@, self.constraints@, next, passed));
        }
        next
    }
}

/// The raw identifiers of `constraints`.
pub open spec fn constraint_ids(constraints: Seq<CanonicalConstraintId>) -> Seq<u32> {
    constraints.map_values(|constraint: CanonicalConstraintId| constraint.0)
}

/// `constraint` is among `constraints` exactly when its identifier is among
/// theirs.
proof fn lemma_constraint_ids_contains(constraints: Seq<CanonicalConstraintId>, constraint: CanonicalConstraintId)
    ensures
        constraint_ids(constraints).contains(constraint.0) == constraints.contains(constraint),
{
    if constraints.contains(constraint) {
        let i = choose|i: int| 0 <= i < constraints.len() && constraints[i] == constraint;
        assert(constraint_ids(constraints)[i] == constraint.0);
    }
    if constraint_ids(constraints).contains(constraint.0) {
        let i = choose|i: int| 0 <= i < constraints.len() && constraint_ids(constraints)[i] == constraint.0;
        assert(constraints[i] == constraint);
    }
}

/// The given constraints in scope, each once, in the order first given.
pub struct GivenInScope {
    constraints: Vec<CanonicalConstraintId>,
    seen: IndexSet<u32, FxBuildHasher>,
}

impl View for GivenInScope {
    type V = Seq<CanonicalConstraintId>;

    closed spec fn view(&self) -> Seq<CanonicalConstraintId> {
        self.constraints@
    }
}

impl GivenInScope {
    /// The constraints are distinct and the set of seen identifiers lists
    /// them in the same order.
    pub closed spec fn wf(&self) -> bool {
        &&& self.constraints@.no_duplicates()
        &&& ordered_elements(self.seen) == constraint_ids(self.constraints@)
    }

    /// Adds `constraint` unless it is already in scope.
    pub fn insert(&mut self, constraint: CanonicalConstraintId)
        requires
            old(self).wf(),
        ensures
            final(self).wf(),
            final(self)@ == (if old(self)@.contains(constraint) {
                old(self)@
            } else {
                old(self)@.push(constraint)
            }),
    {
        proof {
            lemma_constraint_ids_contains(self.constraints@, constraint);
        }
        if ordered_set_insert(&mut self.seen, constraint.0) {
            self.constraints.push(constraint);
            proof {
                assert(constraint_ids(self.constraints@) =~= ordered_elements(self.seen));
            }
        }
    }

    /// Whether `constraint` is in scope.
    pub fn contains(&self, constraint: CanonicalConstraintId) -> (found: bool)
        requires
            self.wf(),
        ensures
            found == self@.contains(constraint),
    {
        proof {
            lemma_constraint_ids_contains(self.constraints@, constraint);
        }
        ordered_set_contains(&self.seen, constraint.0)
    }

    /// The constraints in scope, in the order first given.
    pub fn constraints(&self) -> (constraints: &Vec<CanonicalConstraintId>)
        ensures
            constraints@ == self@,
    {
        &self.constraints
    }
}

impl Default for GivenInScope {
    fn default() -> (given: GivenInScope)
        ensures
            given@ == Seq::<CanonicalConstraintId>::empty(),
            given.wf(),
    {
        let given = GivenInScope { constraints: Vec::new(), seen: ordered_set_new() };
        proof {
            assert(constraint_ids(given.constraints@) =~= Seq::<u32>::empty());
        }
        given
    }
}

impl Clone for GivenInScope {
    fn clone(&self) -> (copy: GivenInScope)
        ensures
            copy@ == self@,
            self.wf() ==> copy.wf(),
    {
        GivenInScope { constraints: copy_given(&self.constraints), seen: ordered_set_clone(&self.seen) }
    }
}

} // verus!
