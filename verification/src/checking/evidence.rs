//! Type class evidence produced by constraint solving.
//!
//! Evidence variables identify wanted occurrences rather than canonical
//! constraints. Multiple occurrences of the same constraint therefore remain
//! distinguishable even when the solver deduplicates their work.
use vstd::prelude::*;

use super::types::{InstanceCandidateOrigin, TypeId};

verus! {

/// A solver-written evidence variable for one wanted occurrence.
#[derive(Debug, Clone, Copy, PartialEq, Eq, PartialOrd, Ord, Hash, Structural)]
pub struct EvidenceVarId(pub u32);

/// An identifier for a term in a module's evidence table.
#[derive(Debug, Clone, Copy, PartialEq, Eq, PartialOrd, Ord, Hash, Structural)]
pub struct EvidenceId(pub u32);

/// A dictionary parameter introduced by a given or generalised constraint.
#[derive(Debug, Clone, Copy, PartialEq, Eq, PartialOrd, Ord, Hash, Structural)]
pub struct EvidenceBinderId(pub u32);

#[derive(Debug, Clone, Copy, PartialEq, Eq, Structural)]
pub enum EvidenceState {
    Unsolved,
    Solved(EvidenceId),
    Error,
}

#[derive(Debug, Clone, Copy, PartialEq, Eq, Structural)]
pub struct EvidenceEntry {
    /// The latest canonical form known for this wanted occurrence.
    pub constraint: Option<TypeId>,
    pub state: EvidenceState,
}

#[derive(Debug, Clone, Copy, PartialEq, Eq, Structural)]
pub struct EvidenceBinder {
    /// The canonical constraint represented by this dictionary parameter.
    pub constraint: Option<TypeId>,
    /// Whether the dictionary is a compiler-only proof with no runtime argument.
    pub erased: bool,
}

#[derive(Debug, Clone)]
pub enum Evidence {
    /// Indirection from a deduplicated wanted occurrence to its representative.
    Variable(EvidenceVarId),
    /// A dictionary parameter in scope.
    Given(EvidenceBinderId),
    /// A declared or derived instance applied to its prerequisite dictionaries.
    Instance { origin: InstanceCandidateOrigin, subgoals: Vec<EvidenceVarId> },
    /// A superclass dictionary projected from another dictionary.
    Superclass { parent: EvidenceId, index: usize },
    /// Evidence discharged by compiler-known machinery and erased downstream.
    Compiler,
}

/// The value of an evidence term, with instance subgoals as a sequence.
pub enum EvidenceView {
    Variable(EvidenceVarId),
    Given(EvidenceBinderId),
    Instance { origin: InstanceCandidateOrigin, subgoals: Seq<EvidenceVarId> },
    Superclass { parent: EvidenceId, index: usize },
    Compiler,
}

impl View for Evidence {
    type V = EvidenceView;

    open spec fn view(&self) -> EvidenceView {
        match self {
            Evidence::Variable(variable) => EvidenceView::Variable(*variable),
            Evidence::Given(binder) => EvidenceView::Given(*binder),
            Evidence::Instance { origin, subgoals } => EvidenceView::Instance {
                origin: *origin,
                subgoals: subgoals@,
            },
            Evidence::Superclass { parent, index } => EvidenceView::Superclass {
                parent: *parent,
                index: *index,
            },
            Evidence::Compiler => EvidenceView::Compiler,
        }
    }
}

impl PartialEq for Evidence {
    fn eq(&self, other: &Evidence) -> (equal: bool) {
        match (self, other) {
            (Evidence::Variable(a), Evidence::Variable(b)) => a.0 == b.0,
            (Evidence::Given(a), Evidence::Given(b)) => a.0 == b.0,
            (
                Evidence::Instance { origin: a, subgoals: xs },
                Evidence::Instance { origin: b, subgoals: ys },
            ) => *a == *b && same_variables(xs, ys),
            (
                Evidence::Superclass { parent: a, index: i },
                Evidence::Superclass { parent: b, index: j },
            ) => a.0 == b.0 && *i == *j,
            (Evidence::Compiler, Evidence::Compiler) => true,
            _ => false,
        }
    }
}

impl vstd::std_specs::cmp::PartialEqSpecImpl for Evidence {
    open spec fn obeys_eq_spec() -> bool {
        true
    }

    open spec fn eq_spec(&self, other: &Evidence) -> bool {
        self@ == other@
    }
}

impl Eq for Evidence {

}

/// Whether two lists of evidence variables are equal.
fn same_variables(xs: &Vec<EvidenceVarId>, ys: &Vec<EvidenceVarId>) -> (equal: bool)
    ensures
        equal == (xs@ == ys@),
{
    if xs.len() != ys.len() {
        return false;
    }
    let mut k: usize = 0;
    while k < xs.len()
        invariant
            xs@.len() == ys@.len(),
            k <= xs@.len(),
            forall|j: int| 0 <= j < k ==> xs@[j] == ys@[j],
        decreases xs@.len() - k,
    {
        if xs[k].0 != ys[k].0 {
            return false;
        }
        k = k + 1;
    }
    assert(xs@ =~= ys@);
    true
}

/// The abstract evidence table: wanted occurrences, dictionary parameters
/// and evidence terms, each indexed by its identifier.
pub struct EvidencesModel {
    pub variables: Seq<EvidenceEntry>,
    pub binders: Seq<EvidenceBinder>,
    pub terms: Seq<EvidenceView>,
}

impl EvidencesModel {
    pub open spec fn has_variable(self, id: EvidenceVarId) -> bool {
        id.0 < self.variables.len()
    }

    pub open spec fn has_binder(self, id: EvidenceBinderId) -> bool {
        id.0 < self.binders.len()
    }

    pub open spec fn has_term(self, id: EvidenceId) -> bool {
        id.0 < self.terms.len()
    }

    pub open spec fn variable_state(self, id: EvidenceVarId) -> EvidenceState {
        self.variables[id.0 as int].state
    }

    /// Whether `merge_duplicate(duplicate, representative)` is a legitimate
    /// request: the duplicate is the representative itself, is still
    /// unsolved, or already points at the representative.
    pub open spec fn can_merge(self, duplicate: EvidenceVarId, representative: EvidenceVarId) -> bool {
        ||| duplicate == representative
        ||| self.variable_state(duplicate) is Unsolved
        ||| match self.variable_state(duplicate) {
            EvidenceState::Solved(term) => self.has_term(term) && self.terms[term.0 as int]
                == EvidenceView::Variable(representative),
            _ => false,
        }
    }

    /// Every identifier that the table refers to names an existing entry.
    pub open spec fn references_valid(self) -> bool {
        &&& forall|k: int|
            #![trigger self.variables[k]]
            0 <= k < self.variables.len() ==> match self.variables[k].state {
                EvidenceState::Solved(term) => self.has_term(term),
                _ => true,
            }
        &&& forall|t: int|
            #![trigger self.terms[t]]
            0 <= t < self.terms.len() ==> match self.terms[t] {
                EvidenceView::Variable(variable) => self.has_variable(variable),
                EvidenceView::Given(binder) => self.has_binder(binder),
                EvidenceView::Instance { subgoals, .. } => forall|i: int|
                    0 <= i < subgoals.len() ==> self.has_variable(#[trigger] subgoals[i]),
                EvidenceView::Superclass { parent, .. } => self.has_term(parent),
                EvidenceView::Compiler => true,
            }
    }

    /// Following superclass parents from `term` reaches a term that is not a
    /// superclass projection within `fuel` steps; the result is the number
    /// of steps.
    pub open spec fn superclass_chain(self, term: EvidenceId, fuel: nat) -> Option<nat>
        decreases fuel,
    {
        if fuel == 0 {
            None
        } else {
            match self.terms[term.0 as int] {
                EvidenceView::Superclass { parent, .. } => match self.superclass_chain(
                    parent,
                    (fuel - 1) as nat,
                ) {
                    Some(depth) => Some(depth + 1),
                    None => None,
                },
                _ => Some(0),
            }
        }
    }

    /// No superclass projection is (indirectly) its own parent.
    pub open spec fn superclass_chains_end(self) -> bool {
        forall|t: u32|
            #![trigger self.superclass_chain(EvidenceId(t), (self.terms.len() + 1) as nat)]
            t < self.terms.len() ==> self.superclass_chain(
                EvidenceId(t),
                (self.terms.len() + 1) as nat,
            ) is Some
    }

    /// Every wanted occurrence was resolved, successfully or with an error.
    pub open spec fn finished(self) -> bool {
        forall|k: int| 0 <= k < self.variables.len() ==> !(#[trigger] self.variables[k].state is Unsolved)
    }
}

#[derive(Debug)]
pub struct Evidences {
    variables: Vec<EvidenceEntry>,
    binders: Vec<EvidenceBinder>,
    terms: Vec<Evidence>,
}

impl View for Evidences {
    type V = EvidencesModel;

    closed spec fn view(&self) -> EvidencesModel {
        EvidencesModel {
            variables: self.variables@,
            binders: self.binders@,
            terms: self.terms@.map_values(|term: Evidence| term@),
        }
    }
}

impl Default for Evidences {
    fn default() -> (evidences: Evidences)
        ensures
            evidences@.variables == Seq::<EvidenceEntry>::empty(),
            evidences@.binders == Seq::<EvidenceBinder>::empty(),
            evidences@.terms == Seq::<EvidenceView>::empty(),
    {
        let evidences = Evidences { variables: Vec::new(), binders: Vec::new(), terms: Vec::new() };
        assert(evidences@.terms =~= Seq::<EvidenceView>::empty());
        evidences
    }
}

impl Evidences {
    /// A new, unsolved wanted occurrence with no constraint recorded yet.
    pub fn fresh_variable(&mut self) -> (id: EvidenceVarId)
        requires
            old(self)@.variables.len() < u32::MAX,
        ensures
            id.0 == old(self)@.variables.len(),
            final(self)@ == (EvidencesModel {
                variables: old(self)@.variables.push(
                    EvidenceEntry { constraint: None, state: EvidenceState::Unsolved },
                ),
                ..old(self)@
            }),
    {
        let id = EvidenceVarId(self.variables.len() as u32);
        let entry = EvidenceEntry { constraint: None, state: EvidenceState::Unsolved };
        self.variables.push(entry);
        id
    }

    /// A new dictionary parameter with no constraint recorded yet.
    pub fn fresh_binder(&mut self) -> (id: EvidenceBinderId)
        requires
            old(self)@.binders.len() < u32::MAX,
        ensures
            id.0 == old(self)@.binders.len(),
            final(self)@ == (EvidencesModel {
                binders: old(self)@.binders.push(EvidenceBinder { constraint: None, erased: false }),
                ..old(self)@
            }),
    {
        let id = EvidenceBinderId(self.binders.len() as u32);
        self.binders.push(EvidenceBinder { constraint: None, erased: false });
        id
    }

    pub fn bind_variable(&mut self, id: EvidenceVarId, constraint: TypeId)
        requires
            old(self)@.has_variable(id),
        ensures
            final(self)@ == (EvidencesModel {
                variables: old(self)@.variables.update(
                    id.0 as int,
                    EvidenceEntry { constraint: Some(constraint), ..old(self)@.variables[id.0 as int] },
                ),
                ..old(self)@
            }),
    {
        let entry = self.variables[id.0 as usize];
        self.variables.set(id.0 as usize, EvidenceEntry { constraint: Some(constraint), ..entry });
    }

    pub fn bind_binder(&mut self, id: EvidenceBinderId, constraint: TypeId)
        requires
            old(self)@.has_binder(id),
        ensures
            final(self)@ == (EvidencesModel {
                binders: old(self)@.binders.update(
                    id.0 as int,
                    EvidenceBinder { constraint: Some(constraint), ..old(self)@.binders[id.0 as int] },
                ),
                ..old(self)@
            }),
    {
        let binder = self.binders[id.0 as usize];
        self.binders.set(id.0 as usize, EvidenceBinder { constraint: Some(constraint), ..binder });
    }

    /// Marks a dictionary parameter as a compiler-only proof.
    pub fn erase_binder(&mut self, id: EvidenceBinderId)
        requires
            old(self)@.has_binder(id),
        ensures
            final(self)@ == (EvidencesModel {
                binders: old(self)@.binders.update(
                    id.0 as int,
                    EvidenceBinder { erased: true, ..old(self)@.binders[id.0 as int] },
                ),
                ..old(self)@
            }),
    {
        let binder = self.binders[id.0 as usize];
        self.binders.set(id.0 as usize, EvidenceBinder { erased: true, ..binder });
    }

    /// Adds an evidence term to the table.
    pub fn allocate(&mut self, evidence: Evidence) -> (id: EvidenceId)
        requires
            old(self)@.terms.len() < u32::MAX,
        ensures
            id.0 == old(self)@.terms.len(),
            final(self)@ == (EvidencesModel { terms: old(self)@.terms.push(evidence@), ..old(self)@ }),
    {
        let id = EvidenceId(self.terms.len() as u32);
        let ghost term = evidence@;
        self.terms.push(evidence);
        assert(self@.terms =~= old(self)@.terms.push(term));
        id
    }

    /// Evidence by a dictionary parameter in scope.
    pub fn given(&mut self, binder: EvidenceBinderId) -> (id: EvidenceId)
        requires
            old(self)@.terms.len() < u32::MAX,
        ensures
            id.0 == old(self)@.terms.len(),
            final(self)@ == (EvidencesModel {
                terms: old(self)@.terms.push(EvidenceView::Given(binder)),
                ..old(self)@
            }),
    {
        self.allocate(Evidence::Given(binder))
    }

    /// Evidence discharged by compiler-known machinery.
    pub fn compiler(&mut self) -> (id: EvidenceId)
        requires
            old(self)@.terms.len() < u32::MAX,
        ensures
            id.0 == old(self)@.terms.len(),
            final(self)@ == (EvidencesModel {
                terms: old(self)@.terms.push(EvidenceView::Compiler),
                ..old(self)@
            }),
    {
        self.allocate(Evidence::Compiler)
    }

    /// Records `evidence` as the solution of an unsolved wanted occurrence.
    pub fn solve(&mut self, id: EvidenceVarId, evidence: EvidenceId)
        requires
            old(self)@.has_variable(id),
            old(self)@.variable_state(id) is Unsolved,
        ensures
            final(self)@ == (EvidencesModel {
                variables: old(self)@.variables.update(
                    id.0 as int,
                    EvidenceEntry {
                        state: EvidenceState::Solved(evidence),
                        ..old(self)@.variables[id.0 as int]
                    },
                ),
                ..old(self)@
            }),
    {
        let entry = self.variables[id.0 as usize];
        if let EvidenceState::Unsolved = entry.state {
            self.variables.set(
                id.0 as usize,
                EvidenceEntry { state: EvidenceState::Solved(evidence), ..entry },
            );
        }
    }

    /// Makes a deduplicated wanted occurrence an alias of its representative.
    /// An occurrence that already is such an alias, or the representative
    /// itself, is left as it is.
    pub fn merge_duplicate(&mut self, duplicate: EvidenceVarId, representative: EvidenceVarId)
        requires
            duplicate != representative ==> old(self)@.has_variable(duplicate),
            duplicate != representative && old(self)@.variable_state(duplicate) is Unsolved ==> old(self)@.terms.len()
                < u32::MAX,
            old(self)@.can_merge(duplicate, representative),
        ensures
            if old(self)@.variable_state(duplicate) is Unsolved && duplicate != representative {
                final(self)@ == (EvidencesModel {
                    variables: old(self)@.variables.update(
                        duplicate.0 as int,
                        EvidenceEntry {
                            state: EvidenceState::Solved(EvidenceId(old(self)@.terms.len() as u32)),
                            ..old(self)@.variables[duplicate.0 as int]
                        },
                    ),
                    terms: old(self)@.terms.push(EvidenceView::Variable(representative)),
                    ..old(self)@
                })
            } else {
                final(self)@ == old(self)@
            },
    {
        if duplicate.0 == representative.0 {
            return;
        }
        match self.variables[duplicate.0 as usize].state {
            EvidenceState::Unsolved => {},
            EvidenceState::Solved(term) => {
                return;
            },
            EvidenceState::Error => {
                return;
            },
        }
        let evidence = self.allocate(Evidence::Variable(representative));
        self.solve(duplicate, evidence);
    }

    /// Records that no evidence could be found for an unsolved wanted
    /// occurrence; an occurrence already marked as an error stays so.
    pub fn mark_error(&mut self, id: EvidenceVarId)
        requires
            old(self)@.has_variable(id),
            !(old(self)@.variable_state(id) is Solved),
        ensures
            final(self)@ == (EvidencesModel {
                variables: old(self)@.variables.update(
                    id.0 as int,
                    EvidenceEntry { state: EvidenceState::Error, ..old(self)@.variables[id.0 as int] },
                ),
                ..old(self)@
            }),
    {
        let entry = self.variables[id.0 as usize];
        match entry.state {
            EvidenceState::Unsolved => {
                self.variables.set(id.0 as usize, EvidenceEntry { state: EvidenceState::Error, ..entry });
            },
            _ => {
                assert(self@.variables =~= self@.variables.update(
                    id.0 as int,
                    EvidenceEntry { state: EvidenceState::Error, ..entry },
                ));
            },
        }
    }

    pub fn variable(&self, id: EvidenceVarId) -> (entry: &EvidenceEntry)
        requires
            self@.has_variable(id),
        ensures
            *entry == self@.variables[id.0 as int],
    {
        &self.variables[id.0 as usize]
    }

    pub fn binder(&self, id: EvidenceBinderId) -> (binder: &EvidenceBinder)
        requires
            self@.has_binder(id),
        ensures
            *binder == self@.binders[id.0 as int],
    {
        &self.binders[id.0 as usize]
    }

    pub fn evidence(&self, id: EvidenceId) -> (evidence: &Evidence)
        requires
            self@.has_term(id),
        ensures
            evidence@ == self@.terms[id.0 as int],
    {
        &self.terms[id.0 as usize]
    }

    /// Every wanted occurrence with its identifier, in creation order.
    pub fn variables(&self) -> (variables: Vec<(EvidenceVarId, EvidenceEntry)>)
        requires
            self@.variables.len() <= u32::MAX + 1,
        ensures
            variables@.len() == self@.variables.len(),
            forall|k: int|
                0 <= k < variables@.len() ==> #[trigger] variables@[k] == (
                    EvidenceVarId(k as u32),
                    self@.variables[k],
                ),
    {
        let mut variables: Vec<(EvidenceVarId, EvidenceEntry)> = Vec::new();
        let mut k: usize = 0;
        while k < self.variables.len()
            invariant
                k <= self@.variables.len(),
                self@.variables.len() <= u32::MAX + 1,
                variables@.len() == k,
                forall|j: int|
                    0 <= j < k ==> #[trigger] variables@[j] == (
                        EvidenceVarId(j as u32),
                        self@.variables[j],
                    ),
            decreases self@.variables.len() - k,
        {
            variables.push((EvidenceVarId(k as u32), self.variables[k]));
            k = k + 1;
        }
        variables
    }

    /// Every dictionary parameter with its identifier, in creation order.
    pub fn binders(&self) -> (binders: Vec<(EvidenceBinderId, EvidenceBinder)>)
        requires
            self@.binders.len() <= u32::MAX + 1,
        ensures
            binders@.len() == self@.binders.len(),
            forall|k: int|
                0 <= k < binders@.len() ==> #[trigger] binders@[k] == (
                    EvidenceBinderId(k as u32),
                    self@.binders[k],
                ),
    {
        let mut binders: Vec<(EvidenceBinderId, EvidenceBinder)> = Vec::new();
        let mut k: usize = 0;
        while k < self.binders.len()
            invariant
                k <= self@.binders.len(),
                self@.binders.len() <= u32::MAX + 1,
                binders@.len() == k,
                forall|j: int|
                    0 <= j < k ==> #[trigger] binders@[j] == (
                        EvidenceBinderId(j as u32),
                        self@.binders[j],
                    ),
            decreases self@.binders.len() - k,
        {
            binders.push((EvidenceBinderId(k as u32), self.binders[k]));
            k = k + 1;
        }
        binders
    }

    /// States that every wanted occurrence was resolved, successfully or
    /// with an error; checking a module ends here.
    pub fn assert_finished(&self)
        requires
            self@.finished(),
    {
    }
}

} // verus!
