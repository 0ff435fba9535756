use compiler_core::checking::tree::{
    Binder, BinderKind, DataConstructor, Expression, ExpressionId, ExpressionKind, GuardedExpression, Module,
    TermDeclaration, TermDeclarationId, TermDeclarationKind, TypeDeclaration, TypeDeclarationId,
    TypeDeclarationKind, DataDeclaration, WhereExpression,
};
use compiler_core::checking::types::{Role, TypeId};
use compiler_core::ids::{BinderId, TermItemId, TypeItemId};

#[test]
fn declarations_are_found_by_their_items() {
    let mut module = Module::default();
    let constructor = TermDeclaration {
        type_id: TypeId(4),
        kind: TermDeclarationKind::Constructor(DataConstructor { arguments: vec![TypeId(1)] }),
    };
    let term = module.insert_term(TermItemId(9), constructor);
    assert_eq!(term, TermDeclarationId(0));
    assert_eq!(module.lookup_term(TermItemId(9)), Some(term));
    assert_eq!(module.lookup_term(TermItemId(8)), None);

    let data = TypeDeclaration {
        kind: TypeId(2),
        roles: vec![Role::Representational],
        declaration: TypeDeclarationKind::Data(DataDeclaration { parameters: vec![], constructors: vec![term] }),
    };
    let declaration = module.insert_type_declaration(TypeItemId(3), data);
    assert_eq!(declaration, TypeDeclarationId(0));
    assert_eq!(module.lookup_type_declaration(TypeItemId(3)), Some(declaration));
    assert_eq!(module.lookup_type_declaration(TypeItemId(4)), None);
}

#[test]
fn nodes_are_numbered_by_position() {
    let mut module = Module::default();
    let first = module.allocate_expression(Expression { type_id: TypeId(1), kind: ExpressionKind::Boolean { value: true } });
    let second = module.allocate_expression(Expression { type_id: TypeId(1), kind: ExpressionKind::Error });
    assert_eq!((first, second), (ExpressionId(0), ExpressionId(1)));
    let binder = module.allocate_binder(Binder { source: BinderId(2), type_id: TypeId(1), kind: BinderKind::Wildcard });
    assert_eq!(binder.0, 0);
    assert_eq!(module.expressions[1].kind, ExpressionKind::Error);
}

#[test]
fn unconditional_expressions_have_one_unguarded_alternative() {
    let guarded = GuardedExpression::unconditional(WhereExpression { expression: ExpressionId(5) });
    assert_eq!(guarded.alternatives.len(), 1);
    assert!(guarded.alternatives[0].pattern_guards.is_empty());
    assert_eq!(guarded.alternatives[0].where_expression, WhereExpression { expression: ExpressionId(5) });
}
