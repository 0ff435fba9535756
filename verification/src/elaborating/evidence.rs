//! Turns solved checker evidence into ordinary Core expressions.
//!
//! `None` means compiler-known evidence and is intentionally erased. Every
//! other state, including checker recovery, has a concrete Core result.
use vstd::prelude::*;
use vstd::set_lib::*;

use super::core_module::{CoreError, CoreExpression, CoreExpressionId, CoreModule, CoreVariable};
use crate::checking::evidence::{
    Evidence, EvidenceBinderId, EvidenceId, EvidenceState, EvidenceVarId, EvidenceView,
    Evidences, EvidencesModel,
};
use crate::checking::types::InstanceCandidateOrigin;

verus! {

/// The Core shape that a piece of evidence resolves to.
pub enum ResolvedEvidence {
    /// A recovery expression for unsolved, errored or cyclic evidence.
    Error,
    /// A dictionary parameter in scope.
    Given(EvidenceBinderId),
    /// An instance dictionary applied to the dictionaries of its subgoals that
    /// are not erased, in subgoal order.
    Instance { origin: InstanceCandidateOrigin, arguments: Seq<ResolvedEvidence> },
    /// The `index`-th superclass of a dictionary.
    Superclass { dictionary: Box<ResolvedEvidence>, index: usize },
}

/// The evidence table can be resolved: it refers only to existing entries,
/// and superclass projections do not form cycles.
pub open spec fn resolvable(model: EvidencesModel) -> bool {
    model.references_valid() && model.superclass_chains_end()
}

/// The wanted occurrences that are being resolved, innermost last: distinct
/// and existing.
pub open spec fn resolving_valid(model: EvidencesModel, resolving: Seq<EvidenceVarId>) -> bool {
    &&& resolving.no_duplicates()
    &&& forall|i: int| 0 <= i < resolving.len() ==> model.has_variable(#[trigger] resolving[i])
}

/// The number of superclass projections from `term` down to a term that is
/// not a projection.
pub open spec fn superclass_depth(model: EvidencesModel, term: EvidenceId) -> nat {
    model.superclass_chain(term, (model.terms.len() + 1) as nat)->0
}

/// Distinct existing wanted occurrences are no more than all of them.
pub proof fn lemma_resolving_bound(model: EvidencesModel, resolving: Seq<EvidenceVarId>, variable: EvidenceVarId)
    requires
        resolving_valid(model, resolving),
        model.has_variable(variable),
        !resolving.contains(variable),
    ensures
        resolving.len() < model.variables.len(),
        resolving_valid(model, resolving.push(variable)),
{
    let ids = resolving.push(variable).map_values(|v: EvidenceVarId| v.0 as int);
    assert(ids.no_duplicates()) by {
        assert forall|i: int, j: int| 0 <= i < ids.len() && 0 <= j < ids.len() && i != j implies ids[i]
            != ids[j] by {
            let pushed = resolving.push(variable);
            if i < resolving.len() && j < resolving.len() {
                assert(pushed[i] != pushed[j]);
            } else if i == resolving.len() {
                assert(resolving[j] != variable);
            } else {
                assert(resolving[i] != variable);
            }
        }
    }
    ids.unique_seq_to_set();
    lemma_int_range(0, model.variables.len() as int);
    assert(ids.to_set().subset_of(set_int_range(0, model.variables.len() as int)));
    lemma_len_subset(ids.to_set(), set_int_range(0, model.variables.len() as int));
}

/// More fuel does not change where a superclass chain ends.
pub proof fn lemma_chain_fuel(model: EvidencesModel, term: EvidenceId, fuel: nat, more: nat)
    requires
        model.superclass_chain(term, fuel) is Some,
        fuel <= more,
    ensures
        model.superclass_chain(term, more) == model.superclass_chain(term, fuel),
    decreases fuel,
{
    if fuel > 0 {
        match model.terms[term.0 as int] {
            EvidenceView::Superclass { parent, .. } => {
                lemma_chain_fuel(model, parent, (fuel - 1) as nat, (more - 1) as nat);
            },
            _ => {},
        }
    }
}

/// The parent of a superclass projection is closer to the chain's end.
pub proof fn lemma_parent_depth(model: EvidenceView, m: EvidencesModel, term: EvidenceId)
    requires
        resolvable(m),
        m.has_term(term),
        model == m.terms[term.0 as int],
        model is Superclass,
    ensures
        m.has_term(model->parent),
        superclass_depth(m, model->parent) < superclass_depth(m, term),
{
    let n = (m.terms.len() + 1) as nat;
    assert(m.superclass_chain(EvidenceId(term.0), n) is Some);
    let parent = model->parent;
    assert(m.terms[term.0 as int] == m.terms[term.0 as int]);
    assert(m.has_term(parent));
    lemma_chain_fuel(m, parent, (n - 1) as nat, n);
}

/// What resolving `variable` yields while the occurrences in `resolving` are
/// being resolved: an occurrence met again is a cycle and resolves to an
/// error, as does one that is unsolved or errored; a solved one resolves to
/// its evidence term.
pub open spec fn resolve_variable(
    model: EvidencesModel,
    resolving: Seq<EvidenceVarId>,
    variable: EvidenceVarId,
) -> Option<ResolvedEvidence>
    decreases model.variables.len() - resolving.len(), 0int, 0int,
    when resolvable(model) && resolving_valid(model, resolving) && model.has_variable(variable)
{
    if resolving.contains(variable) {
        Some(ResolvedEvidence::Error)
    } else {
        match model.variables[variable.0 as int].state {
            EvidenceState::Solved(term) => {
                proof {
                    lemma_resolving_bound(model, resolving, variable);
                }
                resolve_term(model, resolving.push(variable), term)
            },
            _ => Some(ResolvedEvidence::Error),
        }
    }
}

/// What an evidence term resolves to: erased (`None`) for compiler evidence
/// and erased dictionary parameters.
pub open spec fn resolve_term(
    model: EvidencesModel,
    resolving: Seq<EvidenceVarId>,
    term: EvidenceId,
) -> Option<ResolvedEvidence>
    decreases model.variables.len() - resolving.len(), 1int, superclass_depth(model, term),
    when resolvable(model) && resolving_valid(model, resolving) && model.has_term(term)
{
    match model.terms[term.0 as int] {
        EvidenceView::Variable(variable) => resolve_variable(model, resolving, variable),
        EvidenceView::Given(binder) => if model.binders[binder.0 as int].erased {
            None
        } else {
            Some(ResolvedEvidence::Given(binder))
        },
        EvidenceView::Instance { origin, subgoals } => Some(
            ResolvedEvidence::Instance {
                origin,
                arguments: resolve_arguments(model, resolving, subgoals, subgoals.len()),
            },
        ),
        EvidenceView::Superclass { parent, index } => {
            proof {
                lemma_parent_depth(model.terms[term.0 as int], model, term);
            }
            let dictionary = match resolve_term(model, resolving, parent) {
                Some(resolved) => resolved,
                None => ResolvedEvidence::Error,
            };
            Some(ResolvedEvidence::Superclass { dictionary: Box::new(dictionary), index })
        },
        EvidenceView::Compiler => None,
    }
}

/// The resolved dictionaries of the first `count` subgoals, leaving out the
/// erased ones.
pub open spec fn resolve_arguments(
    model: EvidencesModel,
    resolving: Seq<EvidenceVarId>,
    subgoals: Seq<EvidenceVarId>,
    count: nat,
) -> Seq<ResolvedEvidence>
    decreases model.variables.len() - resolving.len(), 0int, count + 1,
    when resolvable(model) && resolving_valid(model, resolving) && count <= subgoals.len() && (
    forall|i: int| 0 <= i < subgoals.len() ==> model.has_variable(#[trigger] subgoals[i]))
{
    if count == 0 {
        Seq::empty()
    } else {
        let previous = resolve_arguments(model, resolving, subgoals, (count - 1) as nat);
        match resolve_variable(model, resolving, subgoals[count - 1]) {
            Some(resolved) => previous.push(resolved),
            None => previous,
        }
    }
}

/// The number of Core expressions that a resolved shape consists of.
pub open spec fn node_count(resolved: ResolvedEvidence) -> nat
    decreases resolved,
{
    match resolved {
        ResolvedEvidence::Error => 1,
        ResolvedEvidence::Given(_) => 1,
        ResolvedEvidence::Instance { arguments, .. } => 1 + argument_count(arguments),
        ResolvedEvidence::Superclass { dictionary, .. } => 1 + node_count(*dictionary),
    }
}

pub open spec fn argument_count(arguments: Seq<ResolvedEvidence>) -> nat
    decreases arguments,
{
    if arguments.len() == 0 {
        0
    } else {
        argument_count(arguments.subrange(0, arguments.len() - 1)) + node_count(
            arguments[arguments.len() - 1],
        ) + 1
    }
}

pub open spec fn optional_node_count(resolved: Option<ResolvedEvidence>) -> nat {
    match resolved {
        Some(resolved) => node_count(resolved),
        None => 0,
    }
}

/// Expression `id` of `expressions` is the Core form of `resolved`.
pub open spec fn denotes(expressions: Seq<CoreExpression>, id: CoreExpressionId, resolved: ResolvedEvidence) -> bool
    decreases resolved,
{
    &&& id.0 < expressions.len()
    &&& match resolved {
        ResolvedEvidence::Error => expressions[id.0 as int] == CoreExpression::Error(CoreError::Evidence),
        ResolvedEvidence::Given(binder) => expressions[id.0 as int] == CoreExpression::Variable(
            CoreVariable::Evidence(binder),
        ),
        ResolvedEvidence::Instance { origin, arguments } => denotes_application(
            expressions,
            id,
            origin,
            arguments,
        ),
        ResolvedEvidence::Superclass { dictionary, index } => match expressions[id.0 as int] {
            CoreExpression::SuperclassProjection { dictionary: inner, index: projected } => projected
                == index && denotes(expressions, inner, *dictionary),
            _ => false,
        },
    }
}

/// Expression `id` applies the dictionary of `origin` to `arguments`.
pub open spec fn denotes_application(
    expressions: Seq<CoreExpression>,
    id: CoreExpressionId,
    origin: InstanceCandidateOrigin,
    arguments: Seq<ResolvedEvidence>,
) -> bool
    decreases arguments,
{
    &&& id.0 < expressions.len()
    &&& if arguments.len() == 0 {
        expressions[id.0 as int] == CoreExpression::Variable(CoreVariable::Instance(origin))
    } else {
        match expressions[id.0 as int] {
            CoreExpression::Apply { function, argument } => denotes(
                expressions,
                argument,
                arguments[arguments.len() - 1],
            ) && denotes_application(
                expressions,
                function,
                origin,
                arguments.subrange(0, arguments.len() - 1),
            ),
            _ => false,
        }
    }
}

/// Denotation only looks at the expressions it refers to, so it survives
/// further allocation.
pub proof fn lemma_denotes_extend(
    expressions: Seq<CoreExpression>,
    more: Seq<CoreExpression>,
    id: CoreExpressionId,
    resolved: ResolvedEvidence,
)
    requires
        denotes(expressions, id, resolved),
        expressions.len() <= more.len(),
        more.subrange(0, expressions.len() as int) == expressions,
    ensures
        denotes(more, id, resolved),
    decreases resolved,
{
    assert(more[id.0 as int] == expressions[id.0 as int]);
    match resolved {
        ResolvedEvidence::Instance { origin, arguments } => {
            lemma_denotes_application_extend(expressions, more, id, origin, arguments);
        },
        ResolvedEvidence::Superclass { dictionary, index } => {
            match expressions[id.0 as int] {
                CoreExpression::SuperclassProjection { dictionary: inner, index: projected } => {
                    lemma_denotes_extend(expressions, more, inner, *dictionary);
                },
                _ => {},
            }
        },
        _ => {},
    }
}

pub proof fn lemma_denotes_application_extend(
    expressions: Seq<CoreExpression>,
    more: Seq<CoreExpression>,
    id: CoreExpressionId,
    origin: InstanceCandidateOrigin,
    arguments: Seq<ResolvedEvidence>,
)
    requires
        denotes_application(expressions, id, origin, arguments),
        expressions.len() <= more.len(),
        more.subrange(0, expressions.len() as int) == expressions,
    ensures
        denotes_application(more, id, origin, arguments),
    decreases arguments,
{
    assert(more[id.0 as int] == expressions[id.0 as int]);
    if arguments.len() > 0 {
        match expressions[id.0 as int] {
            CoreExpression::Apply { function, argument } => {
                lemma_denotes_extend(expressions, more, argument, arguments[arguments.len() - 1]);
                lemma_denotes_application_extend(
                    expressions,
                    more,
                    function,
                    origin,
                    arguments.subrange(0, arguments.len() - 1),
                );
            },
            _ => {},
        }
    }
}

/// The arguments of the first subgoals take no more expressions than those
/// of all subgoals.
pub proof fn lemma_argument_count_grows(
    model: EvidencesModel,
    resolving: Seq<EvidenceVarId>,
    subgoals: Seq<EvidenceVarId>,
    count: nat,
    total: nat,
)
    requires
        resolvable(model),
        resolving_valid(model, resolving),
        count <= total <= subgoals.len(),
        forall|i: int| 0 <= i < subgoals.len() ==> model.has_variable(#[trigger] subgoals[i]),
    ensures
        argument_count(resolve_arguments(model, resolving, subgoals, count)) <= argument_count(
            resolve_arguments(model, resolving, subgoals, total),
        ),
    decreases total - count,
{
    if count < total {
        lemma_argument_count_grows(model, resolving, subgoals, count, (total - 1) as nat);
        let previous = resolve_arguments(model, resolving, subgoals, (total - 1) as nat);
        match resolve_variable(model, resolving, subgoals[total - 1]) {
            Some(resolved) => {
                assert(previous.push(resolved).subrange(0, previous.len() as int) =~= previous);
            },
            None => {},
        }
    }
}

/// Whether `variable` occurs in `resolving`.
fn is_resolving(resolving: &Vec<EvidenceVarId>, variable: EvidenceVarId) -> (found: bool)
    ensures
        found == resolving@.contains(variable),
{
    let mut k: usize = 0;
    while k < resolving.len()
        invariant
            k <= resolving@.len(),
            forall|j: int| 0 <= j < k ==> resolving@[j] != variable,
        decreases resolving@.len() - k,
    {
        if resolving[k].0 == variable.0 {
            assert(resolving@[k as int] == variable);
            return true;
        }
        k = k + 1;
    }
    false
}

/// The recovery expression for evidence that cannot be resolved.
fn allocate_error(module: &mut CoreModule) -> (id: CoreExpressionId)
    requires
        old(module).expressions@.len() < u32::MAX,
    ensures
        id.0 == old(module).expressions@.len(),
        final(module).expressions@ == old(module).expressions@.push(
            CoreExpression::Error(CoreError::Evidence),
        ),
        denotes(final(module).expressions@, id, ResolvedEvidence::Error),
{
    module.allocate_expression(CoreExpression::Error(CoreError::Evidence))
}

/// `after` extends `before` by `count` expressions.
pub open spec fn extends_by(before: Seq<CoreExpression>, after: Seq<CoreExpression>, count: nat) -> bool {
    &&& after.len() == before.len() + count
    &&& after.subrange(0, before.len() as int) == before
}

/// The result of resolution is allocated as described by `resolved`.
pub open spec fn allocated_as(
    expressions: Seq<CoreExpression>,
    result: Option<CoreExpressionId>,
    resolved: Option<ResolvedEvidence>,
) -> bool {
    match (result, resolved) {
        (None, None) => true,
        (Some(id), Some(resolved)) => denotes(expressions, id, resolved),
        _ => false,
    }
}

fn resolve_variable_in(
    evidence: &Evidences,
    module: &mut CoreModule,
    resolving: &mut Vec<EvidenceVarId>,
    variable: EvidenceVarId,
) -> (result: Option<CoreExpressionId>)
    requires
        resolvable(evidence@),
        resolving_valid(evidence@, old(resolving)@),
        evidence@.has_variable(variable),
        old(module).expressions@.len() + optional_node_count(
            resolve_variable(evidence@, old(resolving)@, variable),
        ) <= u32::MAX,
    ensures
        final(resolving)@ == old(resolving)@,
        extends_by(
            old(module).expressions@,
            final(module).expressions@,
            optional_node_count(resolve_variable(evidence@, old(resolving)@, variable)),
        ),
        allocated_as(
            final(module).expressions@,
            result,
            resolve_variable(evidence@, old(resolving)@, variable),
        ),
    decreases evidence@.variables.len() - old(resolving)@.len(), 0int, 0int,
{
    let ghost before = module.expressions@;
    if is_resolving(resolving, variable) {
        let id = allocate_error(module);
        assert(module.expressions@.subrange(0, before.len() as int) =~= before);
        return Some(id);
    }
    proof {
        lemma_resolving_bound(evidence@, resolving@, variable);
    }
    let ghost outer = resolving@;
    resolving.push(variable);
    let resolved = match evidence.variable(variable).state {
        EvidenceState::Solved(term) => resolve_term_in(evidence, module, resolving, term),
        _ => {
            let id = allocate_error(module);
            assert(module.expressions@.subrange(0, before.len() as int) =~= before);
            Some(id)
        },
    };
    resolving.pop();
    assert(resolving@ =~= outer);
    resolved
}

fn resolve_term_in(
    evidence: &Evidences,
    module: &mut CoreModule,
    resolving: &mut Vec<EvidenceVarId>,
    term: EvidenceId,
) -> (result: Option<CoreExpressionId>)
    requires
        resolvable(evidence@),
        resolving_valid(evidence@, old(resolving)@),
        evidence@.has_term(term),
        old(module).expressions@.len() + optional_node_count(
            resolve_term(evidence@, old(resolving)@, term),
        ) <= u32::MAX,
    ensures
        final(resolving)@ == old(resolving)@,
        extends_by(
            old(module).expressions@,
            final(module).expressions@,
            optional_node_count(resolve_term(evidence@, old(resolving)@, term)),
        ),
        allocated_as(
            final(module).expressions@,
            result,
            resolve_term(evidence@, old(resolving)@, term),
        ),
    decreases evidence@.variables.len() - old(resolving)@.len(), 1int, superclass_depth(
        evidence@,
        term,
    ),
{
    let ghost model = evidence@;
    let ghost before = module.expressions@;
    let ghost r = resolving@;
    proof {
        assert(model.terms[term.0 as int] == model.terms[term.0 as int]);
    }
    match evidence.evidence(term) {
        Evidence::Variable(variable) => resolve_variable_in(evidence, module, resolving, *variable),
        Evidence::Given(binder) => {
            if evidence.binder(*binder).erased {
                assert(module.expressions@.subrange(0, before.len() as int) =~= before);
                return None;
            }
            let id = module.allocate_expression(
                CoreExpression::Variable(CoreVariable::Evidence(*binder)),
            );
            assert(module.expressions@.subrange(0, before.len() as int) =~= before);
            Some(id)
        },
        Evidence::Instance { origin, subgoals } => {
            let ghost goals = subgoals@;
            let ghost total = resolve_arguments(model, r, goals, goals.len());
            proof {
                assert(forall|i: int| 0 <= i < goals.len() ==> model.has_variable(#[trigger] goals[i]));
            }
            let mut expression = module.allocate_expression(
                CoreExpression::Variable(CoreVariable::Instance(*origin)),
            );
            proof {
                assert(module.expressions@.subrange(0, before.len() as int) =~= before);
                assert(resolve_arguments(model, r, goals, 0) =~= Seq::<ResolvedEvidence>::empty());
            }
            let mut k: usize = 0;
            while k < subgoals.len()
                invariant
                    model == evidence@,
                    resolvable(model),
                    resolving_valid(model, r),
                    resolving@ == r,
                    r == old(resolving)@,
                    term.0 < model.terms.len(),
                    model.terms[term.0 as int] == (EvidenceView::Instance { origin: *origin, subgoals: goals }),
                    goals == subgoals@,
                    forall|i: int| 0 <= i < goals.len() ==> model.has_variable(#[trigger] goals[i]),
                    k <= goals.len(),
                    total == resolve_arguments(model, r, goals, goals.len()),
                    before.len() + 1 + argument_count(total) <= u32::MAX,
                    extends_by(
                        before,
                        module.expressions@,
                        1 + argument_count(resolve_arguments(model, r, goals, k as nat)),
                    ),
                    denotes_application(
                        module.expressions@,
                        expression,
                        *origin,
                        resolve_arguments(model, r, goals, k as nat),
                    ),
                decreases goals.len() - k,
            {
                let subgoal = subgoals[k];
                let ghost arguments = resolve_arguments(model, r, goals, k as nat);
                let ghost middle = module.expressions@;
                proof {
                    lemma_argument_count_grows(model, r, goals, (k + 1) as nat, goals.len());
                    assert(goals[k as int] == subgoal);
                    let next = resolve_arguments(model, r, goals, (k + 1) as nat);
                    match resolve_variable(model, r, subgoal) {
                        Some(resolved) => {
                            assert(next == arguments.push(resolved));
                            assert(arguments.push(resolved).subrange(0, arguments.len() as int) =~= arguments);
                            assert(argument_count(next) == argument_count(arguments) + node_count(resolved) + 1);
                        },
                        None => {
                            assert(next == arguments);
                        },
                    }
                }
                match resolve_variable_in(evidence, module, resolving, subgoal) {
                    None => {
                        proof {
                            assert(resolve_arguments(model, r, goals, (k + 1) as nat) == arguments);
                            assert(module.expressions@ =~= middle);
                        }
                    },
                    Some(argument) => {
                        let ghost resolved = resolve_variable(model, r, subgoal)->0;
                        let ghost after_argument = module.expressions@;
                        proof {
                            assert(resolve_arguments(model, r, goals, (k + 1) as nat) == arguments.push(resolved));
                            assert(arguments.push(resolved).subrange(0, arguments.len() as int) =~= arguments);
                            lemma_denotes_application_extend(middle, after_argument, expression, *origin, arguments);
                        }
                        let applied = module.allocate_expression(
                            CoreExpression::Apply { function: expression, argument },
                        );
                        proof {
                            assert(module.expressions@.subrange(0, after_argument.len() as int) =~= after_argument);
                            lemma_denotes_application_extend(after_argument, module.expressions@, expression, *origin, arguments);
                            lemma_denotes_extend(after_argument, module.expressions@, argument, resolved);
                            assert(module.expressions@.subrange(0, before.len() as int) =~= before);
                        }
                        expression = applied;
                    },
                }
                proof {
                    assert(module.expressions@.subrange(0, before.len() as int) =~= before) by {
                        assert(middle.subrange(0, before.len() as int) == before);
                    }
                }
                k = k + 1;
            }
            proof {
                assert(resolve_term(model, r, term) == Some(ResolvedEvidence::Instance { origin: *origin, arguments: total }));
            }
            Some(expression)
        },
        Evidence::Superclass { parent, index } => {
            proof {
                lemma_parent_depth(model.terms[term.0 as int], model, term);
            }
            let ghost parent_resolved = resolve_term(model, r, *parent);
            let ghost dictionary_resolved = match parent_resolved {
                Some(resolved) => resolved,
                None => ResolvedEvidence::Error,
            };
            proof {
                assert(resolve_term(model, r, term) == Some(ResolvedEvidence::Superclass {
                    dictionary: Box::new(dictionary_resolved),
                    index: *index,
                }));
                assert(node_count(ResolvedEvidence::Superclass {
                    dictionary: Box::new(dictionary_resolved),
                    index: *index,
                }) == 1 + node_count(dictionary_resolved));
            }
            let dictionary = match resolve_term_in(evidence, module, resolving, *parent) {
                Some(dictionary) => dictionary,
                None => {
                    let ghost middle = module.expressions@;
                    let id = allocate_error(module);
                    assert(module.expressions@.subrange(0, before.len() as int) =~= before) by {
                        assert(middle.subrange(0, before.len() as int) == before);
                    }
                    id
                },
            };
            let ghost middle = module.expressions@;
            let projection = module.allocate_expression(
                CoreExpression::SuperclassProjection { dictionary, index: *index },
            );
            proof {
                assert(module.expressions@.subrange(0, middle.len() as int) =~= middle);
                lemma_denotes_extend(middle, module.expressions@, dictionary, dictionary_resolved);
                assert(module.expressions@.subrange(0, before.len() as int) =~= before) by {
                    assert(middle.subrange(0, before.len() as int) == before);
                }
            }
            Some(projection)
        },
        Evidence::Compiler => {
            assert(module.expressions@.subrange(0, before.len() as int) =~= before);
            None
        },
    }
}

/// Resolves the evidence of one checked module into Core expressions of a
/// [`CoreModule`], detecting cyclic aliases between wanted occurrences.
pub struct EvidenceResolver<'a> {
    evidence: &'a Evidences,
    resolving: Vec<EvidenceVarId>,
}

impl<'a> EvidenceResolver<'a> {
    pub closed spec fn evidences(&self) -> EvidencesModel {
        self.evidence@
    }

    /// Nothing is being resolved between calls.
    pub closed spec fn idle(&self) -> bool {
        self.resolving@.len() == 0
    }

    pub fn new(evidence: &'a Evidences) -> (resolver: EvidenceResolver<'a>)
        ensures
            resolver.evidences() == evidence@,
            resolver.idle(),
    {
        EvidenceResolver { evidence, resolving: Vec::new() }
    }

    /// The Core expression for the evidence of a wanted occurrence, added to
    /// `module`; `None` when the evidence is erased.
    pub fn resolve_variable(&mut self, module: &mut CoreModule, variable: EvidenceVarId) -> (result:
        Option<CoreExpressionId>)
        requires
            old(self).idle(),
            resolvable(old(self).evidences()),
            old(self).evidences().has_variable(variable),
            old(module).expressions@.len() + optional_node_count(
                resolve_variable(old(self).evidences(), Seq::empty(), variable),
            ) <= u32::MAX,
        ensures
            final(self).idle(),
            final(self).evidences() == old(self).evidences(),
            extends_by(
                old(module).expressions@,
                final(module).expressions@,
                optional_node_count(resolve_variable(old(self).evidences(), Seq::empty(), variable)),
            ),
            allocated_as(
                final(module).expressions@,
                result,
                resolve_variable(old(self).evidences(), Seq::empty(), variable),
            ),
    {
        assert(self.resolving@ =~= Seq::<EvidenceVarId>::empty());
        resolve_variable_in(self.evidence, module, &mut self.resolving, variable)
    }
}

/// A deduplicated occurrence resolves as its representative does, with the
/// duplicate itself counted as being resolved.
pub proof fn law_alias_resolves_as_representative(
    model: EvidencesModel,
    duplicate: EvidenceVarId,
    representative: EvidenceVarId,
    alias: EvidenceId,
)
    requires
        resolvable(model),
        model.has_variable(duplicate),
        model.has_term(alias),
        model.terms[alias.0 as int] == EvidenceView::Variable(representative),
        model.variable_state(duplicate) == EvidenceState::Solved(alias),
    ensures
        resolve_variable(model, Seq::empty(), duplicate) == resolve_variable(
            model,
            seq![duplicate],
            representative,
        ),
{
    let empty = Seq::<EvidenceVarId>::empty();
    assert(!empty.contains(duplicate));
    lemma_resolving_bound(model, empty, duplicate);
    assert(empty.push(duplicate) =~= seq![duplicate]);
    assert(model.terms[alias.0 as int] == model.terms[alias.0 as int]);
}

/// An alias of an occurrence solved by a dictionary parameter that is not
/// erased resolves to that dictionary parameter.
pub proof fn law_alias_of_given(
    model: EvidencesModel,
    duplicate: EvidenceVarId,
    representative: EvidenceVarId,
    alias: EvidenceId,
    given: EvidenceId,
    binder: EvidenceBinderId,
)
    requires
        resolvable(model),
        model.has_variable(duplicate),
        duplicate != representative,
        model.has_term(alias),
        model.terms[alias.0 as int] == EvidenceView::Variable(representative),
        model.variable_state(duplicate) == EvidenceState::Solved(alias),
        model.variable_state(representative) == EvidenceState::Solved(given),
        model.terms[given.0 as int] == EvidenceView::Given(binder),
        !model.binders[binder.0 as int].erased,
    ensures
        resolve_variable(model, Seq::empty(), duplicate) == Some(ResolvedEvidence::Given(binder)),
{
    law_alias_resolves_as_representative(model, duplicate, representative, alias);
    let stack = seq![duplicate];
    assert(model.terms[alias.0 as int] == model.terms[alias.0 as int]);
    assert(model.has_variable(representative));
    assert(resolving_valid(model, stack));
    assert(!stack.contains(representative)) by {
        if stack.contains(representative) {
            assert(stack[0] == representative);
        }
    }
    lemma_resolving_bound(model, stack, representative);
    assert(model.has_term(given));
    assert(model.terms[given.0 as int] == model.terms[given.0 as int]);
}

/// Compiler-known evidence has no Core expression: it is erased.
pub proof fn law_compiler_evidence_erased(model: EvidencesModel, variable: EvidenceVarId, term: EvidenceId)
    requires
        resolvable(model),
        model.has_variable(variable),
        model.variable_state(variable) == EvidenceState::Solved(term),
        model.terms[term.0 as int] == EvidenceView::Compiler,
    ensures
        resolve_variable(model, Seq::empty(), variable) is None,
{
    let empty = Seq::<EvidenceVarId>::empty();
    assert(!empty.contains(variable));
    lemma_resolving_bound(model, empty, variable);
}

/// Unsolved and errored occurrences still resolve to a recovery expression.
pub proof fn law_unresolved_evidence_recovers(model: EvidencesModel, variable: EvidenceVarId)
    requires
        resolvable(model),
        model.has_variable(variable),
        !(model.variable_state(variable) is Solved),
    ensures
        resolve_variable(model, Seq::empty(), variable) == Some(ResolvedEvidence::Error),
{
    let empty = Seq::<EvidenceVarId>::empty();
    assert(!empty.contains(variable));
}

/// When each of the first `count` subgoals resolves to a dictionary, the
/// arguments are those dictionaries, position by position.
proof fn lemma_arguments_by_position(
    model: EvidencesModel,
    resolving: Seq<EvidenceVarId>,
    subgoals: Seq<EvidenceVarId>,
    count: nat,
)
    requires
        resolvable(model),
        resolving_valid(model, resolving),
        count <= subgoals.len(),
        forall|i: int| 0 <= i < subgoals.len() ==> model.has_variable(#[trigger] subgoals[i]),
        forall|i: int| 0 <= i < count ==> (#[trigger] resolve_variable(model, resolving, subgoals[i])) is Some,
    ensures
        resolve_arguments(model, resolving, subgoals, count) == Seq::new(
            count,
            |i: int| resolve_variable(model, resolving, subgoals[i])->0,
        ),
    decreases count,
{
    if count > 0 {
        lemma_arguments_by_position(model, resolving, subgoals, (count - 1) as nat);
        let last = resolve_variable(model, resolving, subgoals[count - 1]);
        assert(last is Some);
        assert(resolve_arguments(model, resolving, subgoals, count) =~= Seq::new(
            count,
            |i: int| resolve_variable(model, resolving, subgoals[i])->0,
        ));
    }
}

/// An occurrence solved by an instance whose subgoals all resolve to
/// dictionaries resolves to that instance applied to those dictionaries,
/// the i-th argument being the dictionary of the i-th subgoal (each
/// resolved with the occurrence itself counted as being resolved).
pub proof fn law_instance_arguments_in_subgoal_order(
    model: EvidencesModel,
    variable: EvidenceVarId,
    term: EvidenceId,
    origin: InstanceCandidateOrigin,
    subgoals: Seq<EvidenceVarId>,
)
    requires
        resolvable(model),
        model.has_variable(variable),
        model.variable_state(variable) == EvidenceState::Solved(term),
        model.terms[term.0 as int] == (EvidenceView::Instance { origin, subgoals }),
        forall|i: int| 0 <= i < subgoals.len() ==> (#[trigger] resolve_variable(model, seq![variable], subgoals[i])) is Some,
    ensures
        resolve_variable(model, Seq::empty(), variable) == Some(
            ResolvedEvidence::Instance {
                origin,
                arguments: Seq::new(
                    subgoals.len(),
                    |i: int| resolve_variable(model, seq![variable], subgoals[i])->0,
                ),
            },
        ),
{
    let empty = Seq::<EvidenceVarId>::empty();
    assert(!empty.contains(variable));
    lemma_resolving_bound(model, empty, variable);
    let inner = empty.push(variable);
    assert(inner =~= seq![variable]);
    assert(model.variables[variable.0 as int] == model.variables[variable.0 as int]);
    assert(model.has_term(term));
    assert(model.terms[term.0 as int] == model.terms[term.0 as int]);
    assert forall|i: int| 0 <= i < subgoals.len() implies model.has_variable(#[trigger] subgoals[i]) by {}
    lemma_arguments_by_position(model, inner, subgoals, subgoals.len());
}

/// The arguments for the first `count` subgoals are the dictionaries of
/// those of them that resolve to one, in subgoal order: the returned
/// strictly increasing subgoal positions, which hold every subgoal that
/// resolves to a dictionary, give the arguments one by one.
proof fn lemma_arguments_in_order(
    model: EvidencesModel,
    resolving: Seq<EvidenceVarId>,
    subgoals: Seq<EvidenceVarId>,
    count: nat,
) -> (positions: Seq<int>)
    requires
        resolvable(model),
        resolving_valid(model, resolving),
        count <= subgoals.len(),
        forall|i: int| 0 <= i < subgoals.len() ==> model.has_variable(#[trigger] subgoals[i]),
    ensures
        picks_resolved_subgoals(
            model,
            resolving,
            subgoals,
            count as int,
            resolve_arguments(model, resolving, subgoals, count),
            positions,
        ),
    decreases count,
{
    if count == 0 {
        Seq::<int>::empty()
    } else {
        let shorter = (count - 1) as nat;
        let earlier = lemma_arguments_in_order(model, resolving, subgoals, shorter);
        let previous = resolve_arguments(model, resolving, subgoals, shorter);
        assert forall|j: int| #![trigger earlier[j]] 0 <= j < earlier.len() implies 0 <= earlier[j] < shorter && resolve_variable(
            model,
            resolving,
            subgoals[earlier[j]],
        ) == Some(previous[j]) by {
            assert(previous[j] == resolve_arguments(model, resolving, subgoals, shorter)[j]);
        }
        let last = count - 1;
        let arguments = resolve_arguments(model, resolving, subgoals, count);
        match resolve_variable(model, resolving, subgoals[last]) {
            Some(resolved) => {
                let positions = earlier.push(last);
                assert(arguments == previous.push(resolved));
                assert forall|i: int|
                    0 <= i < count && (#[trigger] resolve_variable(model, resolving, subgoals[i])) is Some
                        implies positions.contains(i) by {
                    if i < last {
                        assert(earlier.contains(i));
                        let m = choose|m: int| 0 <= m < earlier.len() && earlier[m] == i;
                        assert(positions[m] == i);
                    } else {
                        assert(positions[earlier.len() as int] == i);
                    }
                }
                assert forall|j: int|
                    0 <= j < positions.len() implies 0 <= positions[j] < count && resolve_variable(
                        model,
                        resolving,
                        subgoals[positions[j]],
                    ) == Some(#[trigger] arguments[j]) by {
                    if j < earlier.len() {
                        assert(previous[j] == arguments[j]);
                        assert(positions[j] == earlier[j]);
                    } else {
                        assert(positions[j] == last);
                        assert(arguments[j] == resolved);
                    }
                }
                assert forall|a: int, b: int| 0 <= a < b < positions.len() implies positions[a] < positions[b] by {
                    assert(positions[a] == earlier[a]);
                    assert(0 <= earlier[a] < shorter);
                    if b < earlier.len() {
                        assert(positions[b] == earlier[b]);
                        assert(earlier[a] < earlier[b]);
                    } else {
                        assert(b == earlier.len());
                        assert(positions[b] == last);
                        assert(shorter == last);
                    }
                }
                positions
            },
            None => {
                assert(arguments == previous);
                assert forall|j: int|
                    #![trigger earlier[j]]
                    0 <= j < earlier.len() implies 0 <= earlier[j] < count && resolve_variable(
                        model,
                        resolving,
                        subgoals[earlier[j]],
                    ) == Some(#[trigger] arguments[j]) by {
                    assert(previous[j] == arguments[j]);
                }
                earlier
            },
        }
    }
}

/// `positions` picks, in increasing order, exactly those of the first
/// `count` subgoals that resolve to a dictionary, and `arguments` lists
/// their dictionaries one by one.
pub open spec fn picks_resolved_subgoals(
    model: EvidencesModel,
    resolving: Seq<EvidenceVarId>,
    subgoals: Seq<EvidenceVarId>,
    count: int,
    arguments: Seq<ResolvedEvidence>,
    positions: Seq<int>,
) -> bool {
    &&& positions.len() == arguments.len()
    &&& forall|a: int, b: int| 0 <= a < b < positions.len() ==> positions[a] < positions[b]
    &&& forall|j: int|
        0 <= j < positions.len() ==> 0 <= positions[j] < count && resolve_variable(
            model,
            resolving,
            subgoals[positions[j]],
        ) == Some(#[trigger] arguments[j])
    &&& forall|i: int|
        0 <= i < count && (#[trigger] resolve_variable(model, resolving, subgoals[i])) is Some ==> positions.contains(i)
}

/// An occurrence solved by an instance resolves to that instance applied to
/// the dictionaries of its subgoals, in subgoal order, leaving out the
/// subgoals whose evidence is erased (each subgoal resolved with the
/// occurrence itself counted as being resolved).
pub proof fn law_instance_arguments_skip_erased(
    model: EvidencesModel,
    variable: EvidenceVarId,
    term: EvidenceId,
    origin: InstanceCandidateOrigin,
    subgoals: Seq<EvidenceVarId>,
)
    requires
        resolvable(model),
        model.has_variable(variable),
        model.variable_state(variable) == EvidenceState::Solved(term),
        model.terms[term.0 as int] == (EvidenceView::Instance { origin, subgoals }),
    ensures
        exists|arguments: Seq<ResolvedEvidence>, positions: Seq<int>|
            resolve_variable(model, Seq::empty(), variable) == Some(ResolvedEvidence::Instance { origin, arguments })
                && #[trigger] picks_resolved_subgoals(
                model,
                seq![variable],
                subgoals,
                subgoals.len() as int,
                arguments,
                positions,
            ),
{
    let empty = Seq::<EvidenceVarId>::empty();
    assert(!empty.contains(variable));
    lemma_resolving_bound(model, empty, variable);
    let inner = empty.push(variable);
    assert(inner =~= seq![variable]);
    assert(model.variables[variable.0 as int] == model.variables[variable.0 as int]);
    assert(model.has_term(term));
    assert(model.terms[term.0 as int] == model.terms[term.0 as int]);
    assert forall|i: int| 0 <= i < subgoals.len() implies model.has_variable(#[trigger] subgoals[i]) by {}
    let positions = lemma_arguments_in_order(model, inner, subgoals, subgoals.len());
    let arguments = resolve_arguments(model, inner, subgoals, subgoals.len());
    assert(resolve_variable(model, Seq::empty(), variable) == Some(ResolvedEvidence::Instance { origin, arguments }));
    assert(picks_resolved_subgoals(model, inner, subgoals, subgoals.len() as int, arguments, positions));
    assert(picks_resolved_subgoals(model, seq![variable], subgoals, subgoals.len() as int, arguments, positions));
}

} // verus!
