use compiler_core::checking::types::{InstanceCandidateOrigin, InstanceId};
use compiler_core::elaborating::core_module::{
    CoreBinding, CoreBindingGroup, CoreBindingGroupId, CoreBindingId, CoreBindingSource, CoreBindingValue,
    CoreExpression, CoreExternalBinding, CoreLiteral, CoreModule, CoreVariable,
};
use compiler_core::files::FileId;
use compiler_core::ids::{LetBindingNameGroupId, TermItemId};
use rustc_hash::FxHashSet;

fn file() -> FileId {
    FileId::new(0)
}

fn item_reference(module: &mut CoreModule, item: u32) -> compiler_core::elaborating::core_module::CoreExpressionId {
    module.allocate_expression(CoreExpression::Variable(CoreVariable::Item(file(), TermItemId(item))))
}

fn item_binding(module: &mut CoreModule, item: u32, value: compiler_core::elaborating::core_module::CoreExpressionId) -> CoreBindingId {
    let binding = module.allocate_binding(CoreBinding {
        source: CoreBindingSource::Item(TermItemId(item)),
        value: CoreBindingValue::Expression(value),
    });
    module.items.insert(item, binding);
    binding
}

fn literal(module: &mut CoreModule) -> compiler_core::elaborating::core_module::CoreExpressionId {
    module.allocate_expression(CoreExpression::Literal(CoreLiteral::Boolean(true)))
}

fn top_level_groups(module: &CoreModule) -> Vec<(bool, Vec<u32>)> {
    module
        .top_level
        .iter()
        .map(|group| {
            let group = &module.binding_groups[group.0 as usize];
            (group.recursive, group.bindings.iter().map(|binding| binding.0).collect())
        })
        .collect()
}

fn top_level_set(module: &CoreModule) -> FxHashSet<u32> {
    module.items.values().map(|binding| binding.0).collect()
}

#[test]
fn dependencies_follow_references_through_applications_and_lets() {
    let mut module = CoreModule::default();
    // item 0 = (\_ -> item 1) applied to a local `let` whose value refers to item 2
    let reference_one = item_reference(&mut module, 1);
    let reference_two = item_reference(&mut module, 2);
    let local = module.allocate_binding(CoreBinding {
        source: CoreBindingSource::Let(LetBindingNameGroupId(0)),
        value: CoreBindingValue::Expression(reference_two),
    });
    let group = module.allocate_binding_group(CoreBindingGroup { recursive: false, bindings: vec![local] });
    let body = literal(&mut module);
    let let_expression = module.allocate_expression(CoreExpression::Let { group, body });
    let application =
        module.allocate_expression(CoreExpression::Apply { function: reference_one, argument: let_expression });
    let zero = item_binding(&mut module, 0, application);
    let one_value = literal(&mut module);
    let one = item_binding(&mut module, 1, one_value);
    let two_value = literal(&mut module);
    let two = item_binding(&mut module, 2, two_value);

    let top = top_level_set(&module);
    let dependencies = module.binding_dependencies(file(), zero, &top);
    let expected: FxHashSet<u32> = [one.0, two.0].into_iter().collect();
    assert_eq!(dependencies, expected);
    assert!(module.binding_dependencies(file(), one, &top).is_empty());
}

#[test]
fn dependencies_ignore_other_files_and_external_bindings() {
    let mut module = CoreModule::default();
    let elsewhere = module
        .allocate_expression(CoreExpression::Variable(CoreVariable::Item(FileId::new(9), TermItemId(1))));
    let zero = item_binding(&mut module, 0, elsewhere);
    let one_value = literal(&mut module);
    item_binding(&mut module, 1, one_value);
    let external = module.allocate_binding(CoreBinding {
        source: CoreBindingSource::Item(TermItemId(2)),
        value: CoreBindingValue::External(CoreExternalBinding::Foreign),
    });
    module.items.insert(2, external);

    let top = top_level_set(&module);
    assert!(module.binding_dependencies(file(), zero, &top).is_empty());
    assert!(module.binding_dependencies(file(), external, &top).is_empty());
}

#[test]
fn dependencies_include_instance_bindings() {
    let mut module = CoreModule::default();
    let origin = InstanceCandidateOrigin::Instance(file(), InstanceId(4));
    let dictionary_value = literal(&mut module);
    let dictionary = item_binding(&mut module, 1, dictionary_value);
    module.instances.push((origin, dictionary));
    let use_site = module.allocate_expression(CoreExpression::Variable(CoreVariable::Instance(origin)));
    let zero = item_binding(&mut module, 0, use_site);

    let top = top_level_set(&module);
    let dependencies = module.binding_dependencies(file(), zero, &top);
    let expected: FxHashSet<u32> = [dictionary.0].into_iter().collect();
    assert_eq!(dependencies, expected);
}

#[test]
fn mutually_recursive_bindings_share_a_group() {
    let mut module = CoreModule::default();
    let to_one = item_reference(&mut module, 1);
    let to_zero = item_reference(&mut module, 0);
    let zero = item_binding(&mut module, 0, to_one);
    let one = item_binding(&mut module, 1, to_zero);
    let two_value = literal(&mut module);
    let two = item_binding(&mut module, 2, two_value);

    module.group_top_level_bindings(file());
    assert_eq!(top_level_groups(&module), vec![(true, vec![zero.0, one.0]), (false, vec![two.0])]);
    assert_eq!(module.top_level, vec![CoreBindingGroupId(0), CoreBindingGroupId(1)]);
}

#[test]
fn dependencies_are_emitted_before_their_dependents() {
    let mut module = CoreModule::default();
    // item 0 uses item 2, item 2 uses item 1
    let to_two = item_reference(&mut module, 2);
    let zero = item_binding(&mut module, 0, to_two);
    let one_value = literal(&mut module);
    let one = item_binding(&mut module, 1, one_value);
    let to_one = item_reference(&mut module, 1);
    let two = item_binding(&mut module, 2, to_one);

    module.group_top_level_bindings(file());
    assert_eq!(
        top_level_groups(&module),
        vec![(false, vec![one.0]), (false, vec![two.0]), (false, vec![zero.0])]
    );
}

#[test]
fn ready_groups_come_in_source_order() {
    let mut module = CoreModule::default();
    // items 3, 1 and 2 are independent; item 0 depends on item 3
    let to_three = item_reference(&mut module, 3);
    let zero = item_binding(&mut module, 0, to_three);
    let mut others = Vec::new();
    for item in [3, 1, 2] {
        let value = literal(&mut module);
        others.push(item_binding(&mut module, item, value));
    }
    module.group_top_level_bindings(file());
    let (three, one, two) = (others[0], others[1], others[2]);
    assert_eq!(
        top_level_groups(&module),
        vec![(false, vec![one.0]), (false, vec![two.0]), (false, vec![three.0]), (false, vec![zero.0])]
    );
}

#[test]
fn a_binding_that_refers_to_itself_is_recursive() {
    let mut module = CoreModule::default();
    let to_zero = item_reference(&mut module, 0);
    let zero = item_binding(&mut module, 0, to_zero);
    module.group_top_level_bindings(file());
    assert_eq!(top_level_groups(&module), vec![(true, vec![zero.0])]);
}

#[test]
fn groups_list_their_bindings_in_source_order() {
    let mut module = CoreModule::default();
    // a cycle through items 2, 0 and 1, allocated in that order
    let to_zero = item_reference(&mut module, 0);
    let two = item_binding(&mut module, 2, to_zero);
    let to_one = item_reference(&mut module, 1);
    let zero = item_binding(&mut module, 0, to_one);
    let to_two = item_reference(&mut module, 2);
    let one = item_binding(&mut module, 1, to_two);
    module.group_top_level_bindings(file());
    assert_eq!(top_level_groups(&module), vec![(true, vec![zero.0, one.0, two.0])]);
}

#[test]
fn a_module_without_items_gets_no_groups() {
    let mut module = CoreModule::default();
    module.group_top_level_bindings(file());
    assert!(module.top_level.is_empty());
    assert!(module.binding_groups.is_empty());
}
