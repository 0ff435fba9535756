use compiler_core::elaborating::core_module::{
    CoreAlternative, CoreBinding, CoreBindingGroup, CoreBindingSource, CoreBindingValue, CoreExpression,
    CoreExpressionId, CoreLiteral, CoreModule, CorePattern, CoreVariable,
};
use compiler_core::ids::{BinderId, ExpressionId, TermItemId};

#[test]
fn nodes_are_numbered_in_allocation_order() {
    let mut module = CoreModule::default();
    let first = module.allocate_expression(CoreExpression::Literal(CoreLiteral::Boolean(true)));
    let second = module.allocate_expression(CoreExpression::Literal(CoreLiteral::Integer(Some(3))));
    assert_eq!((first.0, second.0), (0, 1));

    let pattern = module.allocate_pattern(CorePattern::Variable(CoreVariable::Binder(BinderId(4))));
    let wildcard = module.allocate_pattern(CorePattern::Wildcard);
    assert_eq!((pattern.0, wildcard.0), (0, 1));

    let alternative = module.allocate_alternative(vec![pattern, wildcard], second);
    assert_eq!(alternative.0, 0);
    assert_eq!(module.alternatives[0], CoreAlternative { patterns: vec![pattern, wildcard], body: second });

    let binding = module.allocate_binding(CoreBinding {
        source: CoreBindingSource::Item(TermItemId(2)),
        value: CoreBindingValue::Expression(first),
    });
    let group = module.allocate_binding_group(CoreBindingGroup { recursive: false, bindings: vec![binding] });
    assert_eq!((binding.0, group.0), (0, 0));
    assert_eq!(module.expressions.len(), 2);
    assert_eq!(module.patterns.len(), 2);
}

#[test]
fn source_expressions_are_looked_up_by_their_final_node() {
    let mut module = CoreModule::default();
    assert_eq!(module.lookup_expression(ExpressionId(7)), None);
    module.expressions_by_source.insert(7, CoreExpressionId(3));
    assert_eq!(module.lookup_expression(ExpressionId(7)), Some(CoreExpressionId(3)));
    assert_eq!(module.lookup_expression(ExpressionId(8)), None);
}
