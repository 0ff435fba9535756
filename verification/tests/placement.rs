use compiler_core::checking::placement::{
    EvidenceAbstractionSite, EvidenceApplicationSite, PlacementState, WantedCollector, WantedConstraint,
};
use compiler_core::checking::types::{DeriveId, InstanceId, TypeId};
use compiler_core::ids::ExpressionId;

#[test]
fn nested_wanted_collectors_record_only_their_own_sites() {
    let mut state = PlacementState::new();
    let constraint = TypeId(1);
    let outer_expression = ExpressionId(1);
    let inner_expression = ExpressionId(2);
    let outer_application = EvidenceApplicationSite::Expression(outer_expression);
    let inner_application = EvidenceApplicationSite::Expression(inner_expression);

    let (outer_first, inner, outer_second) =
        state.with_wanted_collector(WantedCollector::application(outer_application), |state, outer| {
            let outer_first = outer.collect(state, constraint);
            let inner = state.with_wanted_collector(
                WantedCollector::application(inner_application),
                |state, inner| inner.collect(state, constraint),
            );
            let outer_second = outer.collect(state, constraint);
            (outer_first, inner, outer_second)
        });

    assert_eq!(
        state.placements().applications_at(outer_application),
        Some(&vec![outer_first, outer_second])
    );
    assert_eq!(state.placements().applications_at(inner_application), Some(&vec![inner]));

    let outer_abstraction = EvidenceAbstractionSite::Expression(outer_expression);
    let inner_abstraction = EvidenceAbstractionSite::Expression(inner_expression);
    let (outer_first, inner, outer_second) = state.capture_binders(outer_abstraction, |state| {
        let outer_first = state.fresh_evidence_binder();
        let inner = state.capture_binders(inner_abstraction, |state| state.fresh_evidence_binder());
        let outer_second = state.fresh_evidence_binder();
        (outer_first, inner, outer_second)
    });

    assert_eq!(
        state.placements().abstractions_at(outer_abstraction),
        Some(&vec![outer_first, outer_second])
    );
    assert_eq!(state.placements().abstractions_at(inner_abstraction), Some(&vec![inner]));
}

#[test]
fn collected_constraints_are_wanted_in_order() {
    let mut state = PlacementState::new();
    let mut collector = WantedCollector::compiler();
    let first = collector.collect(&mut state, TypeId(4));
    let second = collector.collect(&mut state, TypeId(5));
    assert_eq!(
        state.wanted().iter().copied().collect::<Vec<_>>(),
        vec![
            WantedConstraint { constraint: TypeId(4), evidence: first },
            WantedConstraint { constraint: TypeId(5), evidence: second },
        ]
    );
    assert_eq!(state.evidence().variables().len(), 2);
    assert!(state.placements().applications.is_empty());
}

#[test]
fn instance_and_derive_collectors_record_at_their_declarations() {
    let mut state = PlacementState::new();
    let mut superclass = WantedCollector::instance_superclass(InstanceId(3));
    let mut derived = WantedCollector::derived_requirement(DeriveId(8));
    let mut ignored = WantedCollector::non_collecting();
    let a = superclass.collect(&mut state, TypeId(1));
    let b = derived.collect(&mut state, TypeId(2));
    let _ = ignored.collect(&mut state, TypeId(3));
    let c = superclass.collect(&mut state, TypeId(4));
    assert_eq!(state.placements().instance_superclasses, vec![(InstanceId(3), vec![a, c])]);
    assert_eq!(state.placements().derived_requirements, vec![(DeriveId(8), vec![b])]);
    assert_eq!(state.wanted().len(), 4);
}

#[test]
fn captures_without_binders_place_nothing() {
    let mut state = PlacementState::new();
    let site = EvidenceAbstractionSite::Derived(DeriveId(1));
    state.capture_binders(site, |_| ());
    assert_eq!(state.placements().abstractions_at(site), None);
    let binder = state.fresh_evidence_binder();
    state.begin_binder_capture(site);
    state.end_binder_capture();
    assert_eq!(state.placements().abstractions_at(site), None);
    assert_eq!(binder.0, 0);
}
