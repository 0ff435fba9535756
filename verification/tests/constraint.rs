use std::collections::VecDeque;

use compiler_core::checking::constraint::{
    wake_constraints, CanonicalConstraintId, ConstraintInScope, GivenInScope, Stuck, WakeStatistics, Work,
};
use compiler_core::checking::types::TypeId;
use rustc_hash::FxHashSet;

fn constraint(id: u32) -> ConstraintInScope {
    ConstraintInScope { given: vec![], wanted: CanonicalConstraintId(id) }
}

fn given_constraint(given: &[u32], id: u32) -> ConstraintInScope {
    ConstraintInScope {
        given: given.iter().map(|given| CanonicalConstraintId(*given)).collect(),
        wanted: CanonicalConstraintId(id),
    }
}

#[test]
fn many_blockers_only_examine_solved_wait_lists() {
    const BLOCKERS: u32 = 1_000;

    let mut stuck = Stuck::default();
    let mut statistics = WakeStatistics::default();

    for blocker in 0..BLOCKERS {
        stuck.register(constraint(blocker + 1), FxHashSet::from_iter([blocker]), &mut statistics);
    }

    let mut work = Work::new(Default::default());
    for blocker in (0..BLOCKERS).rev() {
        wake_constraints(&mut work, &mut stuck, vec![blocker], &mut statistics);
        assert!(work.unclassified.pop_front() == Some(constraint(blocker + 1)));
    }

    assert_eq!(statistics.wake_calls, BLOCKERS as usize);
    assert_eq!(statistics.solved_ids_examined, BLOCKERS as usize);
    assert_eq!(statistics.stuck_keys_scanned, BLOCKERS as usize);
    assert_eq!(statistics.stuck_entries_scanned, BLOCKERS as usize);
    assert_eq!(statistics.awakened_constraints, BLOCKERS as usize);
    assert_eq!(statistics.peak_stuck_entries, BLOCKERS as usize);
    assert!(stuck.into_constraints().is_empty());
}

#[test]
fn multiple_solved_blockers_requeue_each_constraint_once_in_registration_order() {
    let first = constraint(1);
    let second = constraint(2);
    let mut stuck = Stuck::default();
    let mut statistics = WakeStatistics::default();

    stuck.register(first.clone(), FxHashSet::from_iter([10, 20]), &mut statistics);
    stuck.register(second.clone(), FxHashSet::from_iter([20]), &mut statistics);
    stuck.register(first.clone(), FxHashSet::from_iter([10, 20]), &mut statistics);

    let mut work = Work::new(Default::default());
    wake_constraints(&mut work, &mut stuck, vec![20, 10], &mut statistics);
    let awake = work.unclassified.into_iter().collect::<Vec<_>>();

    assert!(awake == [first, second]);
    assert_eq!(statistics.wake_calls, 1);
    assert_eq!(statistics.duplicate_registrations, 2);
    assert_eq!(statistics.awakened_constraints, 2);
    assert!(stuck.into_constraints().is_empty());
}

#[test]
fn waking_again_wakes_nothing() {
    let mut stuck = Stuck::default();
    let mut statistics = WakeStatistics::default();
    stuck.register(constraint(1), FxHashSet::from_iter([4]), &mut statistics);
    assert_eq!(stuck.wake(vec![4], &mut statistics), vec![constraint(1)]);
    assert!(stuck.wake(vec![4], &mut statistics).is_empty());
    assert_eq!(statistics.awakened_constraints, 1);
    assert_eq!(statistics.solved_ids_examined, 2);
}

#[test]
fn unsolved_constraints_stay_stuck_in_registration_order() {
    let mut stuck = Stuck::default();
    let mut statistics = WakeStatistics::default();
    stuck.register(constraint(3), FxHashSet::from_iter([7, 8]), &mut statistics);
    stuck.register(given_constraint(&[1, 2], 4), FxHashSet::from_iter([9]), &mut statistics);
    stuck.register(constraint(5), FxHashSet::from_iter([8]), &mut statistics);
    stuck.register(constraint(6), FxHashSet::default(), &mut statistics);
    assert_eq!(statistics.peak_stuck_entries, 4);

    let awake = stuck.wake(vec![8], &mut statistics);
    assert_eq!(awake, vec![constraint(3), constraint(5)]);
    assert_eq!(stuck.into_constraints(), vec![given_constraint(&[1, 2], 4)]);
}

#[test]
fn registering_again_adds_blockers_and_counts_duplicates() {
    let mut stuck = Stuck::default();
    let mut statistics = WakeStatistics::default();
    stuck.register(constraint(1), FxHashSet::from_iter([1]), &mut statistics);
    stuck.register(constraint(1), FxHashSet::from_iter([1, 2]), &mut statistics);
    assert_eq!(statistics.duplicate_registrations, 1);
    assert_eq!(statistics.peak_stuck_entries, 2);
    assert_eq!(stuck.wake(vec![2], &mut statistics), vec![constraint(1)]);
    assert!(stuck.wake(vec![1], &mut statistics).is_empty());
}

#[test]
fn constraints_with_different_givens_are_distinct() {
    let mut stuck = Stuck::default();
    let mut statistics = WakeStatistics::default();
    stuck.register(given_constraint(&[1], 2), FxHashSet::from_iter([5]), &mut statistics);
    stuck.register(given_constraint(&[3], 2), FxHashSet::from_iter([5]), &mut statistics);
    assert_eq!(statistics.duplicate_registrations, 0);
    let awake = stuck.wake(vec![5], &mut statistics);
    assert_eq!(awake, vec![given_constraint(&[1], 2), given_constraint(&[3], 2)]);
}

#[test]
fn pop_next_prefers_the_first_improving_constraint() {
    let mut work = Work::new(VecDeque::from(vec![constraint(1), constraint(2), constraint(3)]));
    let next = work.pop_next(|wanted| wanted == CanonicalConstraintId(2));
    assert_eq!(next, Some(constraint(2)));
    assert_eq!(work.constraints, VecDeque::from(vec![constraint(1)]));
    assert_eq!(work.unclassified, VecDeque::from(vec![constraint(3)]));

    let next = work.pop_next(|_| false);
    assert_eq!(next, Some(constraint(1)));
    assert_eq!(work.constraints, VecDeque::from(vec![constraint(3)]));
    assert!(work.unclassified.is_empty());

    assert_eq!(work.pop_next(|_| false), Some(constraint(3)));
    assert_eq!(work.pop_next(|_| true), None);
}

#[test]
fn work_queues_parts_in_order() {
    let mut work = Work::new(VecDeque::new());
    work.extend_from_parts(vec![(TypeId(1), TypeId(2))], vec![constraint(1)]);
    work.extend_constraints(vec![constraint(2)]);
    assert_eq!(work.unifications, vec![(TypeId(1), TypeId(2))]);
    assert_eq!(work.unclassified, VecDeque::from(vec![constraint(1), constraint(2)]));
}

#[test]
fn given_constraints_are_kept_once_in_order() {
    let mut given = GivenInScope::default();
    given.insert(CanonicalConstraintId(4));
    given.insert(CanonicalConstraintId(2));
    given.insert(CanonicalConstraintId(4));
    assert!(given.contains(CanonicalConstraintId(2)));
    assert!(!given.contains(CanonicalConstraintId(3)));
    let copy = given.clone();
    assert_eq!(copy.constraints(), &vec![CanonicalConstraintId(4), CanonicalConstraintId(2)]);
}
