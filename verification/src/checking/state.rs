//! Name supplies and unification variables of the checker's state.
use vstd::prelude::*;

use super::types::{Depth, Name, TypeId};
use crate::files::FileId;

verus! {

/// Hands out [`Name`]s that are unique within one file.
pub struct Names {
    unique: u32,
    file: FileId,
}

impl View for Names {
    /// The file the names belong to, and the next unique number.
    type V = (FileId, u32);

    closed spec fn view(&self) -> (FileId, u32) {
        (self.file, self.unique)
    }
}

impl Names {
    pub fn new(file: FileId) -> (names: Names)
        ensures
            names@ == (file, 0u32),
    {
        Names { unique: 0, file }
    }

    /// A name of this file that was not handed out before.
    pub fn fresh(&mut self) -> (name: Name)
        requires
            old(self)@.1 < u32::MAX,
        ensures
            name == (Name { file: old(self)@.0, unique: old(self)@.1 }),
            final(self)@ == (old(self)@.0, (old(self)@.1 + 1) as u32),
    {
        let unique = self.unique;
        self.unique = self.unique + 1;
        Name { file: self.file, unique }
    }
}

/// Successive calls of [`Names::fresh`] never return the same name twice.
pub proof fn law_fresh_names_distinct(first: (FileId, u32), second: (FileId, u32))
    requires
        first.0 == second.0,
        first.1 < second.1,
    ensures
        (Name { file: first.0, unique: first.1 }) != (Name { file: second.0, unique: second.1 }),
{
}

#[derive(Debug, Clone, Copy, PartialEq, Eq, PartialOrd, Ord, Structural)]
pub enum UnificationState {
    Unsolved,
    Solved(TypeId),
}

#[derive(Debug, Clone, Copy, PartialEq, Eq, PartialOrd, Ord, Structural)]
pub struct UnificationEntry {
    pub depth: Depth,
    pub kind: TypeId,
    pub state: UnificationState,
}

/// The unification variables of a module: variable `i` is entry `i`.
#[derive(Debug)]
pub struct Unifications {
    entries: Vec<UnificationEntry>,
    unique: u32,
}

impl View for Unifications {
    type V = Seq<UnificationEntry>;

    closed spec fn view(&self) -> Seq<UnificationEntry> {
        self.entries@
    }
}

impl Default for Unifications {
    fn default() -> (unifications: Unifications)
        ensures
            unifications.wf(),
            unifications@ == Seq::<UnificationEntry>::empty(),
    {
        Unifications { entries: Vec::new(), unique: 0 }
    }
}

impl Unifications {
    /// The invariant: the next variable is the next entry.
    pub closed spec fn wf(&self) -> bool {
        self.unique == self.entries@.len()
    }

    /// Creates an unsolved variable at `depth` with the given kind and
    /// returns its index.
    pub fn fresh(&mut self, depth: Depth, kind: TypeId) -> (index: u32)
        requires
            old(self).wf(),
            old(self)@.len() < u32::MAX,
        ensures
            final(self).wf(),
            index == old(self)@.len(),
            final(self)@ == old(self)@.push(
                UnificationEntry { depth, kind, state: UnificationState::Unsolved },
            ),
    {
        let unique = self.unique;
        self.unique = self.unique + 1;
        self.entries.push(UnificationEntry { depth, kind, state: UnificationState::Unsolved });
        unique
    }

    pub fn get(&self, index: u32) -> (entry: &UnificationEntry)
        requires
            index < self@.len(),
        ensures
            *entry == self@[index as int],
    {
        &self.entries[index as usize]
    }

    /// A mutable borrow of the entry of variable `index`.
    pub fn get_mut(&mut self, index: u32) -> (entry: &mut UnificationEntry)
        requires
            old(self).wf(),
            index < old(self)@.len(),
        ensures
            *entry == old(self)@[index as int],
            final(self).wf(),
            final(self)@ == old(self)@.update(index as int, *final(entry)),
    {
        &mut self.entries[index as usize]
    }

    /// Records `solution` as the solution of variable `index`.
    pub fn solve(&mut self, index: u32, solution: TypeId)
        requires
            old(self).wf(),
            index < old(self)@.len(),
        ensures
            final(self).wf(),
            final(self)@ == old(self)@.update(
                index as int,
                UnificationEntry { state: UnificationState::Solved(solution), ..old(self)@[index as int] },
            ),
    {
        self.get_mut(index).state = UnificationState::Solved(solution);
    }

    /// The entries of all variables, in creation order.
    pub fn iter(&self) -> (entries: &[UnificationEntry])
        ensures
            entries@ == self@,
    {
        self.entries.as_slice()
    }
}

/// Solving a variable changes only that variable's state: its depth and kind,
/// and every other variable, stay as they were.
pub proof fn law_solve_touches_one_variable(
    before: Seq<UnificationEntry>,
    index: int,
    solution: TypeId,
    other: int,
)
    requires
        0 <= index < before.len(),
        0 <= other < before.len(),
    ensures
        ({
            let after = before.update(
                index,
                UnificationEntry { state: UnificationState::Solved(solution), ..before[index] },
            );
            &&& after[index].state == UnificationState::Solved(solution)
            &&& after[index].depth == before[index].depth
            &&& after[index].kind == before[index].kind
            &&& other != index ==> after[other] == before[other]
        }),
{
}

} // verus!
