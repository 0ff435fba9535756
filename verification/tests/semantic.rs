use compiler_core::checking::semantic::{
    CheckedBinder, CheckedBinderKind, CheckedCore, CheckedExpressionId, CheckedExpressionKind, CheckedLiteral,
};
use compiler_core::checking::types::TypeId;
use compiler_core::files::FileId;
use compiler_core::ids::{BinderId, ExpressionId, TermItemId, TermVariableResolution};

#[test]
fn checked_nodes_are_linked_to_their_sources() {
    let mut core = CheckedCore::default();
    let literal = core.allocate_expression(
        TypeId(1),
        CheckedExpressionKind::Literal { literal: CheckedLiteral::Boolean(true) },
    );
    let variable = core.allocate_expression(
        TypeId(2),
        CheckedExpressionKind::Variable { resolution: TermVariableResolution::Reference(FileId::new(0), TermItemId(5)) },
    );
    assert_eq!((literal, variable), (CheckedExpressionId(0), CheckedExpressionId(1)));

    core.record_expression(ExpressionId(10), literal);
    core.record_term_root(TermItemId(5), variable);
    assert_eq!(core.lookup_expression(ExpressionId(10)), Some(literal));
    assert_eq!(core.lookup_expression(ExpressionId(11)), None);
    assert_eq!(core.lookup_term_root(TermItemId(5)), Some(variable));
    assert_eq!(core.lookup_term_root(TermItemId(6)), None);
}

#[test]
fn source_binders_are_recorded_and_synthesized_ones_are_not() {
    let mut core = CheckedCore::default();
    let source = core.allocate_source_binder(BinderId(3), TypeId(1), CheckedBinderKind::Variable);
    let synthesized = core.allocate_synthesized_binder(TypeId(1), CheckedBinderKind::Wildcard);
    assert_eq!((source.0, synthesized.0), (0, 1));
    assert_eq!(core.lookup_binder(BinderId(3)), Some(source));
    assert_eq!(core.binders[1], CheckedBinder { source: None, type_id: TypeId(1), kind: CheckedBinderKind::Wildcard });
    core.record_binder(BinderId(4), synthesized);
    assert_eq!(core.lookup_binder(BinderId(4)), Some(synthesized));
    assert_eq!(core.binders_by_source.len(), 2);
}
