use compiler_core::checking::fd::{compute_closure, compute_covering_sets, get_all_determined, is_improving, Fd};
use rustc_hash::FxHashSet;

#[test]
fn test_no_fundeps() {
    let initial = FxHashSet::from_iter([0, 1]);
    let result = compute_closure(&[], &initial);
    assert_eq!(result, initial);
}

#[test]
fn test_single_fundep() {
    let fundeps = vec![Fd::new(&[0], &[1])];
    let initial = FxHashSet::from_iter([0]);
    let result = compute_closure(&fundeps, &initial);
    assert_eq!(result, FxHashSet::from_iter([0, 1]));
}

#[test]
fn test_fundep_not_triggered() {
    let fundeps = vec![Fd::new(&[0], &[1])];
    let initial = FxHashSet::from_iter([1]);
    let result = compute_closure(&fundeps, &initial);
    assert_eq!(result, FxHashSet::from_iter([1]));
}

#[test]
fn test_transitive_fundeps() {
    let fundeps = vec![Fd::new(&[0], &[1]), Fd::new(&[1], &[2])];
    let initial = FxHashSet::from_iter([0]);
    let result = compute_closure(&fundeps, &initial);
    assert_eq!(result, FxHashSet::from_iter([0, 1, 2]));
}

#[test]
fn test_multi_determiner() {
    let fundeps = vec![Fd::new(&[0, 1], &[2])];

    let initial = FxHashSet::from_iter([0]);
    let result = compute_closure(&fundeps, &initial);
    assert_eq!(result, FxHashSet::from_iter([0]));

    let initial = FxHashSet::from_iter([0, 1]);
    let result = compute_closure(&fundeps, &initial);
    assert_eq!(result, FxHashSet::from_iter([0, 1, 2]));
}

#[test]
fn test_multiple_determined() {
    let fundeps = vec![Fd::new(&[0], &[1, 2])];
    let initial = FxHashSet::from_iter([0]);
    let result = compute_closure(&fundeps, &initial);
    assert_eq!(result, FxHashSet::from_iter([0, 1, 2]));
}

#[test]
fn test_empty_determiners() {
    let fundeps = vec![Fd::new(&[], &[0])];
    let initial: FxHashSet<usize> = FxHashSet::default();
    let result = compute_closure(&fundeps, &initial);
    assert_eq!(result, FxHashSet::from_iter([0]));
}

#[test]
fn test_all_determined_no_fundeps() {
    let result = get_all_determined(&[]);
    assert_eq!(result, FxHashSet::default());
}

#[test]
fn test_all_determined_single_fundep() {
    let fundeps = vec![Fd::new(&[0], &[1])];
    let result = get_all_determined(&fundeps);
    assert_eq!(result, FxHashSet::from_iter([1]));
}

#[test]
fn test_all_determined_multiple_fundeps() {
    let fundeps = vec![Fd::new(&[0], &[1]), Fd::new(&[1], &[2])];
    let result = get_all_determined(&fundeps);
    assert_eq!(result, FxHashSet::from_iter([1, 2]));
}

#[test]
fn test_all_determined_overlapping() {
    let fundeps = vec![Fd::new(&[0], &[1, 2]), Fd::new(&[3], &[1])];
    let result = get_all_determined(&fundeps);
    assert_eq!(result, FxHashSet::from_iter([1, 2]));
}

#[test]
fn test_all_determined_empty_determiners() {
    let fundeps = vec![Fd::new(&[], &[0])];
    let result = get_all_determined(&fundeps);
    assert_eq!(result, FxHashSet::from_iter([0]));
}

#[test]
fn test_covering_sets_no_fundeps() {
    let result = compute_covering_sets(&[], 2);
    assert_eq!(result, vec![FxHashSet::from_iter([0, 1])]);
}

#[test]
fn test_covering_sets_single_fundep() {
    let fundeps = vec![Fd::new(&[0], &[1])];
    let result = compute_covering_sets(&fundeps, 2);
    assert_eq!(result, vec![FxHashSet::from_iter([0])]);
}

#[test]
fn test_covering_sets_symmetric_fundeps() {
    let fundeps = vec![Fd::new(&[0], &[1]), Fd::new(&[1], &[0])];
    let result = compute_covering_sets(&fundeps, 2);

    assert_eq!(result.len(), 2);
    assert!(result.contains(&FxHashSet::from_iter([0])));
    assert!(result.contains(&FxHashSet::from_iter([1])));
}

#[test]
fn test_covering_sets_empty_determiner() {
    let fundeps = vec![Fd::new(&[], &[0])];
    let result = compute_covering_sets(&fundeps, 1);
    assert_eq!(result, vec![FxHashSet::default()]);
}

#[test]
fn closure_is_idempotent_on_a_chain() {
    let fundeps = vec![Fd::new(&[2], &[3]), Fd::new(&[0], &[1]), Fd::new(&[1], &[2])];
    let once = compute_closure(&fundeps, &FxHashSet::from_iter([0]));
    assert_eq!(once, FxHashSet::from_iter([0, 1, 2, 3]));
    let twice = compute_closure(&fundeps, &once);
    assert_eq!(twice, once);
}

#[test]
fn covering_sets_come_in_enumeration_order() {
    let fundeps = vec![Fd::new(&[0], &[2]), Fd::new(&[1], &[2])];
    let result = compute_covering_sets(&fundeps, 3);
    assert_eq!(result, vec![FxHashSet::from_iter([0, 1])]);
    let result = compute_covering_sets(&[], 0);
    assert_eq!(result, vec![FxHashSet::default()]);
}

#[test]
fn fd_equality_compares_position_sets() {
    assert_eq!(Fd::new(&[0, 1], &[2]), Fd::new(&[1, 0], &[2, 2]));
    assert_ne!(Fd::new(&[0], &[2]), Fd::new(&[0], &[1]));
    let copy = Fd::new(&[0], &[1]).clone();
    assert_eq!(copy, Fd::new(&[0], &[1]));
}

#[test]
fn a_dependency_from_known_to_blocked_positions_improves() {
    let fundeps = vec![Fd::new(&[0], &[1])];
    assert!(is_improving(&fundeps, &vec![false, true]));
    assert!(!is_improving(&fundeps, &vec![true, true]));
    assert!(!is_improving(&fundeps, &vec![false, false]));
    assert!(!is_improving(&[], &vec![false, true]));
}

#[test]
fn improvement_follows_dependencies_transitively() {
    let fundeps = vec![Fd::new(&[0], &[1]), Fd::new(&[1], &[2])];
    assert!(is_improving(&fundeps, &vec![false, false, true]));
    assert!(is_improving(&fundeps, &vec![true, false, true]));
    assert!(!is_improving(&fundeps, &vec![true, true, false]));
}
