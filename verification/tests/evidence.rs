use compiler_core::checking::evidence::{Evidence, EvidenceId, EvidenceState, EvidenceVarId, Evidences};
use compiler_core::checking::types::{InstanceCandidateOrigin, InstanceId, TypeId};
use compiler_core::files::FileId;
use compiler_core::elaborating::core_module::{CoreError, CoreExpression, CoreModule, CoreVariable};
use compiler_core::elaborating::evidence::EvidenceResolver;

#[test]
fn compiler_known_binders_retain_erasure_metadata() {
    let mut evidence = Evidences::default();
    let binder = evidence.fresh_binder();

    evidence.erase_binder(binder);

    assert!(evidence.binder(binder).erased);
}

#[test]
fn duplicate_occurrences_retain_indirection() {
    let mut evidence = Evidences::default();
    let representative = evidence.fresh_variable();
    let duplicate = evidence.fresh_variable();

    evidence.merge_duplicate(duplicate, representative);

    let EvidenceState::Solved(term) = evidence.variable(duplicate).state else {
        panic!("duplicate evidence was not solved");
    };
    assert_eq!(evidence.evidence(term), &Evidence::Variable(representative));

    evidence.merge_duplicate(duplicate, representative);
}

#[test]
fn aliases_resolve_to_the_given_dictionary() {
    let mut evidence = Evidences::default();
    let binder = evidence.fresh_binder();
    let representative = evidence.fresh_variable();
    let duplicate = evidence.fresh_variable();
    let given = evidence.given(binder);
    evidence.solve(representative, given);
    evidence.merge_duplicate(duplicate, representative);

    let mut module = CoreModule::default();
    let resolved = EvidenceResolver::new(&evidence)
        .resolve_variable(&mut module, duplicate)
        .expect("given evidence must be retained");

    assert_eq!(
        module.expressions[resolved.0 as usize],
        CoreExpression::Variable(CoreVariable::Evidence(binder))
    );
}

#[test]
fn compiler_evidence_is_erased() {
    let mut evidence = Evidences::default();
    let variable = evidence.fresh_variable();
    let compiler = evidence.allocate(Evidence::Compiler);
    evidence.solve(variable, compiler);

    let mut module = CoreModule::default();
    assert_eq!(EvidenceResolver::new(&evidence).resolve_variable(&mut module, variable), None);
    assert!(module.expressions.is_empty());
}

#[test]
fn errored_evidence_has_a_recovery_expression() {
    let mut evidence = Evidences::default();
    let variable = evidence.fresh_variable();
    evidence.mark_error(variable);
    assert_eq!(evidence.variable(variable).state, EvidenceState::Error);

    let mut module = CoreModule::default();
    assert!(EvidenceResolver::new(&evidence).resolve_variable(&mut module, variable).is_some());
}

#[test]
fn cyclic_aliases_resolve_to_an_error() {
    let mut evidence = Evidences::default();
    let first = evidence.fresh_variable();
    let second = evidence.fresh_variable();
    let to_second = evidence.allocate(Evidence::Variable(second));
    let to_first = evidence.allocate(Evidence::Variable(first));
    evidence.solve(first, to_second);
    evidence.solve(second, to_first);

    let mut module = CoreModule::default();
    let resolved = EvidenceResolver::new(&evidence).resolve_variable(&mut module, first).unwrap();
    assert_eq!(module.expressions[resolved.0 as usize], CoreExpression::Error(CoreError::Evidence));
    assert_eq!(module.expressions.len(), 1);
}

#[test]
fn instances_apply_their_non_erased_subgoals() {
    let mut evidence = Evidences::default();
    let binder = evidence.fresh_binder();
    let erased = evidence.fresh_binder();
    evidence.erase_binder(erased);
    evidence.bind_binder(binder, TypeId(3));
    let goal = evidence.fresh_variable();
    let kept = evidence.fresh_variable();
    let dropped = evidence.fresh_variable();
    let given = evidence.given(binder);
    let erased_given = evidence.given(erased);
    evidence.solve(kept, given);
    evidence.solve(dropped, erased_given);
    let origin = InstanceCandidateOrigin::Instance(FileId::new(0), InstanceId(4));
    let instance = evidence.allocate(Evidence::Instance { origin, subgoals: vec![kept, dropped] });
    let projection = evidence.allocate(Evidence::Superclass { parent: instance, index: 1 });
    evidence.solve(goal, projection);
    evidence.bind_variable(goal, TypeId(9));
    assert_eq!(evidence.variable(goal).constraint, Some(TypeId(9)));
    assert_eq!(evidence.binder(binder).constraint, Some(TypeId(3)));

    let mut module = CoreModule::default();
    let resolved = EvidenceResolver::new(&evidence).resolve_variable(&mut module, goal).unwrap();
    assert_eq!(module.expressions.len(), 4);
    assert_eq!(
        module.expressions[0],
        CoreExpression::Variable(CoreVariable::Instance(origin))
    );
    assert_eq!(module.expressions[1], CoreExpression::Variable(CoreVariable::Evidence(binder)));
    assert_eq!(
        module.expressions[2],
        CoreExpression::Apply {
            function: compiler_core::elaborating::core_module::CoreExpressionId(0),
            argument: compiler_core::elaborating::core_module::CoreExpressionId(1)
        }
    );
    assert_eq!(
        module.expressions[resolved.0 as usize],
        CoreExpression::SuperclassProjection {
            dictionary: compiler_core::elaborating::core_module::CoreExpressionId(2),
            index: 1
        }
    );
}

#[test]
fn variables_and_binders_are_listed_in_creation_order() {
    let mut evidence = Evidences::default();
    let first = evidence.fresh_variable();
    let second = evidence.fresh_variable();
    evidence.mark_error(second);
    let listed = evidence.variables();
    assert_eq!(listed.len(), 2);
    assert_eq!(listed[0].0, first);
    assert_eq!(listed[1].1.state, EvidenceState::Error);
    let binder = evidence.fresh_binder();
    assert_eq!(evidence.binders()[0].0, binder);
    let compiler = evidence.compiler();
    evidence.solve(first, compiler);
    evidence.assert_finished();
}

#[test]
fn merging_an_occurrence_with_itself_or_again_changes_nothing() {
    let mut evidence = Evidences::default();
    // an identifier with no entry is not touched when it is its own representative
    evidence.merge_duplicate(EvidenceVarId(7), EvidenceVarId(7));
    let representative = evidence.fresh_variable();
    let duplicate = evidence.fresh_variable();
    evidence.merge_duplicate(representative, representative);
    assert_eq!(evidence.variable(representative).state, EvidenceState::Unsolved);
    evidence.merge_duplicate(duplicate, representative);
    evidence.merge_duplicate(duplicate, representative);
    // only the first merge allocated a term
    assert_eq!(evidence.compiler(), EvidenceId(1));
}
