use compiler_core::checking::state::{Names, UnificationEntry, UnificationState, Unifications};
use compiler_core::checking::types::{Depth, Name, TypeId};
use compiler_core::files::FileId;

#[test]
fn names_are_fresh_within_their_file() {
    let file = FileId::new(3);
    let mut names = Names::new(file);
    let first = names.fresh();
    let second = names.fresh();
    assert_eq!(first, Name { file, unique: 0 });
    assert_eq!(second, Name { file, unique: 1 });
    assert_ne!(first, second);
}

#[test]
fn unification_variables_are_numbered_and_solved() {
    let mut unifications = Unifications::default();
    let first = unifications.fresh(Depth(0), TypeId(1));
    let second = unifications.fresh(Depth(2), TypeId(5));
    assert_eq!((first, second), (0, 1));
    assert_eq!(unifications.get(1).state, UnificationState::Unsolved);
    unifications.solve(1, TypeId(8));
    assert_eq!(
        *unifications.get(1),
        UnificationEntry { depth: Depth(2), kind: TypeId(5), state: UnificationState::Solved(TypeId(8)) }
    );
    assert_eq!(unifications.get(0).state, UnificationState::Unsolved);
    unifications.get_mut(0).depth = Depth(4);
    assert_eq!(unifications.iter().len(), 2);
    assert_eq!(unifications.iter()[0].depth, Depth(4));
}
