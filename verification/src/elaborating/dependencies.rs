//! The top-level bindings that a Core binding depends on: those referred to
//! by any expression reachable from its value, looking through lambdas,
//! applications, local `let` bindings and the other compound forms.
use rustc_hash::FxHashSet;
use vstd::prelude::*;

use super::core_module::{
    CoreAlternative, CoreAlternativeId, CoreBinding, CoreBindingId, CoreBindingValue, CoreDerivedEvidence,
    CoreDerivedRequirement, CoreExpression, CoreExpressionId, CoreModule, CoreRecordField, CoreRecordUpdate,
    CoreSuperclassField, CoreVariable,
};
use crate::checking::types::InstanceCandidateOrigin;
use crate::files::FileId;
use crate::hashed::{map_get, set_contains, set_insert};
use crate::text::table::{lemma_table_domain, lemma_table_last, table_map};

verus! {

pub open spec fn expression_ids(ids: Seq<CoreExpressionId>) -> Seq<u32> {
    ids.map_values(|id: CoreExpressionId| id.0)
}

pub open spec fn field_values(fields: Seq<CoreRecordField>) -> Seq<u32> {
    fields.map_values(|field: CoreRecordField| field.value.0)
}

pub open spec fn update_values(updates: Seq<CoreRecordUpdate>) -> Seq<u32> {
    updates.map_values(|update: CoreRecordUpdate| update.value.0)
}

pub open spec fn alternative_bodies(alternatives: Seq<CoreAlternative>, ids: Seq<CoreAlternativeId>) -> Seq<u32> {
    ids.map_values(|id: CoreAlternativeId| alternatives[id.0 as int].body.0)
}

/// The expressions of the superclass slots that have a runtime dictionary.
pub open spec fn runtime_superclasses(fields: Seq<CoreSuperclassField>) -> Seq<u32>
    decreases fields.len(),
{
    if fields.len() == 0 {
        Seq::empty()
    } else {
        let rest = runtime_superclasses(fields.drop_last());
        match fields.last() {
            CoreSuperclassField::Runtime(expression) => rest.push(expression.0),
            CoreSuperclassField::Erased => rest,
        }
    }
}

/// The expressions of the requirements that have a runtime dictionary.
pub open spec fn runtime_requirements(requirements: Seq<CoreDerivedRequirement>) -> Seq<u32>
    decreases requirements.len(),
{
    if requirements.len() == 0 {
        Seq::empty()
    } else {
        let rest = runtime_requirements(requirements.drop_last());
        match requirements.last().evidence {
            CoreDerivedEvidence::Runtime(expression) => rest.push(expression.0),
            CoreDerivedEvidence::Erased => rest,
        }
    }
}

/// The values of the bindings of a `let` group that are not top-level
/// bindings and are defined by an expression.
pub open spec fn let_values(bindings: Seq<CoreBinding>, top_level: Set<u32>, group: Seq<CoreBindingId>) -> Seq<u32>
    decreases group.len(),
{
    if group.len() == 0 {
        Seq::empty()
    } else {
        let rest = let_values(bindings, top_level, group.drop_last());
        let binding = group.last();
        if top_level.contains(binding.0) {
            rest
        } else {
            match bindings[binding.0 as int].value {
                CoreBindingValue::Expression(value) => rest.push(value.0),
                CoreBindingValue::External(_) => rest,
            }
        }
    }
}

/// The expressions through which the dependencies of `expression` are
/// collected, in the order they are visited.
pub open spec fn successors(core: CoreModule, top_level: Set<u32>, expression: CoreExpression) -> Seq<u32> {
    match expression {
        CoreExpression::Lambda { body, .. } => seq![body.0],
        CoreExpression::Apply { function, argument } => seq![function.0, argument.0],
        CoreExpression::TypeApply { function, .. } => seq![function.0],
        CoreExpression::Let { group, body } => let_values(
            core.bindings@,
            top_level,
            core.binding_groups@[group.0 as int].bindings@,
        ).push(body.0),
        CoreExpression::Case { scrutinees, alternatives } => expression_ids(scrutinees@) + alternative_bodies(
            core.alternatives@,
            alternatives@,
        ),
        CoreExpression::IfThenElse { condition, then, else_ } => seq![condition.0, then.0, else_.0],
        CoreExpression::Array(elements) => expression_ids(elements@),
        CoreExpression::Record(fields) => field_values(fields@),
        CoreExpression::Dictionary { superclasses, members } => runtime_superclasses(superclasses@) + field_values(
            members@,
        ),
        CoreExpression::DerivedDictionary { requirements, .. } => runtime_requirements(requirements@),
        CoreExpression::Access { record, .. } => seq![record.0],
        CoreExpression::Update { record, updates } => seq![record.0] + update_values(updates@),
        CoreExpression::SuperclassProjection { dictionary, .. } => seq![dictionary.0],
        _ => Seq::empty(),
    }
}

/// The identifiers an expression names are within the module's lists.
pub open spec fn well_indexed(core: CoreModule, expression: CoreExpression) -> bool {
    match expression {
        CoreExpression::Let { group, .. } => {
            &&& group.0 < core.binding_groups@.len()
            &&& forall|i: int|
                0 <= i < core.binding_groups@[group.0 as int].bindings@.len()
                    ==> (#[trigger] core.binding_groups@[group.0 as int].bindings@[i]).0 < core.bindings@.len()
        },
        CoreExpression::Case { alternatives, .. } => forall|i: int|
            0 <= i < alternatives@.len() ==> (#[trigger] alternatives@[i]).0 < core.alternatives@.len(),
        _ => true,
    }
}

/// Every expression is well indexed and leads only to expressions of the
/// module.
pub open spec fn dependency_graph_wf(core: CoreModule, top_level: Set<u32>) -> bool {
    &&& forall|e: int| 0 <= e < core.expressions@.len() ==> well_indexed(core, #[trigger] core.expressions@[e])
    &&& forall|e: int, k: int|
        0 <= e < core.expressions@.len() && 0 <= k < successors(core, top_level, core.expressions@[e]).len()
            ==> #[trigger] successors(core, top_level, core.expressions@[e])[k] < core.expressions@.len()
}

/// The binding that `expression` refers to directly, if it is a variable for
/// an item of `file` or an instance with a binding of this module.
pub open spec fn referenced_binding(core: CoreModule, file: FileId, expression: CoreExpression) -> Option<u32> {
    match expression {
        CoreExpression::Variable(CoreVariable::Item(item_file, item)) => if item_file == file
            && core.items@.contains_key(item.0) {
            Some(core.items@[item.0].0)
        } else {
            None
        },
        CoreExpression::Variable(CoreVariable::Instance(origin)) => {
            let instances = table_map(core.instances@);
            if instances.contains_key(origin) {
                Some(instances[origin].0)
            } else {
                None
            }
        },
        _ => None,
    }
}

/// `path` starts at `start` and each expression on it is a successor of the
/// one before.
pub open spec fn is_path(core: CoreModule, top_level: Set<u32>, start: u32, path: Seq<u32>) -> bool {
    &&& path.len() > 0
    &&& path[0] == start
    &&& forall|i: int| 0 <= i < path.len() - 1 ==> #[trigger] path_step(core, top_level, path, i)
}

/// The expression at `i + 1` on `path` is a successor of the one at `i`.
pub open spec fn path_step(core: CoreModule, top_level: Set<u32>, path: Seq<u32>, i: int) -> bool {
    path[i] < core.expressions@.len() && successors(core, top_level, core.expressions@[path[i] as int]).contains(
        path[i + 1],
    )
}

pub open spec fn reachable(core: CoreModule, top_level: Set<u32>, start: u32, target: u32) -> bool {
    exists|path: Seq<u32>| #[trigger] is_path(core, top_level, start, path) && path.last() == target
}

/// The bindings referred to by the expressions reachable from `start`.
pub open spec fn dependencies_from(core: CoreModule, file: FileId, top_level: Set<u32>, start: u32) -> Set<u32> {
    Set::new(
        |binding: u32|
            exists|expression: u32|
                expression < core.expressions@.len() && #[trigger] reachable(core, top_level, start, expression)
                    && referenced_binding(core, file, core.expressions@[expression as int]) == Some(binding),
    )
}

fn push_expression_ids(next: &mut Vec<u32>, ids: &Vec<CoreExpressionId>)
    ensures
        final(next)@ == old(next)@ + expression_ids(ids@),
{
    let mut k: usize = 0;
    while k < ids.len()
        invariant
            k <= ids@.len(),
            next@ == old(next)@ + expression_ids(ids@.take(k as int)),
        decreases ids@.len() - k,
    {
        next.push(ids[k].0);
        k = k + 1;
        assert(next@ =~= old(next)@ + expression_ids(ids@.take(k as int)));
    }
    assert(ids@.take(k as int) =~= ids@);
}

fn push_field_values(next: &mut Vec<u32>, fields: &Vec<CoreRecordField>)
    ensures
        final(next)@ == old(next)@ + field_values(fields@),
{
    let mut k: usize = 0;
    while k < fields.len()
        invariant
            k <= fields@.len(),
            next@ == old(next)@ + field_values(fields@.take(k as int)),
        decreases fields@.len() - k,
    {
        next.push(fields[k].value.0);
        k = k + 1;
        assert(next@ =~= old(next)@ + field_values(fields@.take(k as int)));
    }
    assert(fields@.take(k as int) =~= fields@);
}

fn push_update_values(next: &mut Vec<u32>, updates: &Vec<CoreRecordUpdate>)
    ensures
        final(next)@ == old(next)@ + update_values(updates@),
{
    let mut k: usize = 0;
    while k < updates.len()
        invariant
            k <= updates@.len(),
            next@ == old(next)@ + update_values(updates@.take(k as int)),
        decreases updates@.len() - k,
    {
        next.push(updates[k].value.0);
        k = k + 1;
        assert(next@ =~= old(next)@ + update_values(updates@.take(k as int)));
    }
    assert(updates@.take(k as int) =~= updates@);
}

fn push_alternative_bodies(next: &mut Vec<u32>, alternatives: &Vec<CoreAlternative>, ids: &Vec<CoreAlternativeId>)
    requires
        forall|i: int| 0 <= i < ids@.len() ==> (#[trigger] ids@[i]).0 < alternatives@.len(),
    ensures
        final(next)@ == old(next)@ + alternative_bodies(alternatives@, ids@),
{
    let mut k: usize = 0;
    while k < ids.len()
        invariant
            k <= ids@.len(),
            forall|i: int| 0 <= i < ids@.len() ==> (#[trigger] ids@[i]).0 < alternatives@.len(),
            next@ == old(next)@ + alternative_bodies(alternatives@, ids@.take(k as int)),
        decreases ids@.len() - k,
    {
        let alternative = ids[k].0 as usize;
        next.push(alternatives[alternative].body.0);
        k = k + 1;
        assert(next@ =~= old(next)@ + alternative_bodies(alternatives@, ids@.take(k as int)));
    }
    assert(ids@.take(k as int) =~= ids@);
}

fn push_runtime_superclasses(next: &mut Vec<u32>, fields: &Vec<CoreSuperclassField>)
    ensures
        final(next)@ == old(next)@ + runtime_superclasses(fields@),
{
    let mut k: usize = 0;
    while k < fields.len()
        invariant
            k <= fields@.len(),
            next@ == old(next)@ + runtime_superclasses(fields@.take(k as int)),
        decreases fields@.len() - k,
    {
        assert(fields@.take(k as int + 1).drop_last() =~= fields@.take(k as int));
        match fields[k] {
            CoreSuperclassField::Runtime(expression) => {
                next.push(expression.0);
            },
            CoreSuperclassField::Erased => {},
        }
        k = k + 1;
        assert(next@ =~= old(next)@ + runtime_superclasses(fields@.take(k as int)));
    }
    assert(fields@.take(k as int) =~= fields@);
}

fn push_runtime_requirements(next: &mut Vec<u32>, requirements: &Vec<CoreDerivedRequirement>)
    ensures
        final(next)@ == old(next)@ + runtime_requirements(requirements@),
{
    let mut k: usize = 0;
    while k < requirements.len()
        invariant
            k <= requirements@.len(),
            next@ == old(next)@ + runtime_requirements(requirements@.take(k as int)),
        decreases requirements@.len() - k,
    {
        assert(requirements@.take(k as int + 1).drop_last() =~= requirements@.take(k as int));
        match requirements[k].evidence {
            CoreDerivedEvidence::Runtime(expression) => {
                next.push(expression.0);
            },
            CoreDerivedEvidence::Erased => {},
        }
        k = k + 1;
        assert(next@ =~= old(next)@ + runtime_requirements(requirements@.take(k as int)));
    }
    assert(requirements@.take(k as int) =~= requirements@);
}

fn push_let_values(
    next: &mut Vec<u32>,
    bindings: &Vec<CoreBinding>,
    top_level: &FxHashSet<u32>,
    group: &Vec<CoreBindingId>,
)
    requires
        forall|i: int| 0 <= i < group@.len() ==> (#[trigger] group@[i]).0 < bindings@.len(),
    ensures
        final(next)@ == old(next)@ + let_values(bindings@, top_level@, group@),
{
    let mut k: usize = 0;
    while k < group.len()
        invariant
            k <= group@.len(),
            forall|i: int| 0 <= i < group@.len() ==> (#[trigger] group@[i]).0 < bindings@.len(),
            next@ == old(next)@ + let_values(bindings@, top_level@, group@.take(k as int)),
        decreases group@.len() - k,
    {
        assert(group@.take(k as int + 1).drop_last() =~= group@.take(k as int));
        let binding = group[k];
        if !set_contains(top_level, &binding.0) {
            match bindings[binding.0 as usize].value {
                CoreBindingValue::Expression(value) => {
                    next.push(value.0);
                },
                CoreBindingValue::External(_) => {},
            }
        }
        k = k + 1;
        assert(next@ =~= old(next)@ + let_values(bindings@, top_level@, group@.take(k as int)));
    }
    assert(group@.take(k as int) =~= group@);
}

impl CoreModule {
    /// The expressions through which the dependencies of expression
    /// `expression` are collected.
    fn expression_successors(&self, top_level: &FxHashSet<u32>, expression: u32) -> (next: Vec<u32>)
        requires
            expression < self.expressions@.len(),
            well_indexed(*self, self.expressions@[expression as int]),
        ensures
            next@ == successors(*self, top_level@, self.expressions@[expression as int]),
    {
        let mut next: Vec<u32> = Vec::new();
        match &self.expressions[expression as usize] {
            CoreExpression::Lambda { body, .. } => {
                next.push(body.0);
            },
            CoreExpression::Apply { function, argument } => {
                next.push(function.0);
                next.push(argument.0);
            },
            CoreExpression::TypeApply { function, .. } => {
                next.push(function.0);
            },
            CoreExpression::Let { group, body } => {
                push_let_values(&mut next, &self.bindings, top_level, &self.binding_groups[group.0 as usize].bindings);
                next.push(body.0);
            },
            CoreExpression::Case { scrutinees, alternatives } => {
                push_expression_ids(&mut next, scrutinees);
                push_alternative_bodies(&mut next, &self.alternatives, alternatives);
            },
            CoreExpression::IfThenElse { condition, then, else_ } => {
                next.push(condition.0);
                next.push(then.0);
                next.push(else_.0);
            },
            CoreExpression::Array(elements) => {
                push_expression_ids(&mut next, elements);
            },
            CoreExpression::Record(fields) => {
                push_field_values(&mut next, fields);
            },
            CoreExpression::Dictionary { superclasses, members } => {
                push_runtime_superclasses(&mut next, superclasses);
                push_field_values(&mut next, members);
            },
            CoreExpression::DerivedDictionary { requirements, .. } => {
                push_runtime_requirements(&mut next, requirements);
            },
            CoreExpression::Access { record, .. } => {
                next.push(record.0);
            },
            CoreExpression::Update { record, updates } => {
                next.push(record.0);
                push_update_values(&mut next, updates);
            },
            CoreExpression::SuperclassProjection { dictionary, .. } => {
                next.push(dictionary.0);
            },
            _ => {},
        }
        proof {
            assert(next@ =~= successors(*self, top_level@, self.expressions@[expression as int]));
        }
        next
    }

    /// The binding of this module for the instance `origin`, if it has one.
    fn instance_binding(&self, origin: InstanceCandidateOrigin) -> (binding: Option<CoreBindingId>)
        ensures
            binding == (if table_map(self.instances@).contains_key(origin) {
                Some(table_map(self.instances@)[origin])
            } else {
                None
            }),
    {
        let ghost entries = self.instances@;
        let mut k: usize = self.instances.len();
        while k > 0
            invariant
                k <= entries.len(),
                entries == self.instances@,
                forall|j: int| k <= j < entries.len() ==> (#[trigger] entries[j]).0 != origin,
            decreases k,
        {
            k = k - 1;
            if self.instances[k].0 == origin {
                proof {
                    lemma_table_last(entries, k as int);
                }
                return Some(self.instances[k].1);
            }
        }
        proof {
            lemma_table_domain(entries, origin);
        }
        None
    }

    /// The binding that expression `expression` refers to directly, if any.
    fn expression_reference(&self, file_id: FileId, expression: u32) -> (binding: Option<u32>)
        requires
            expression < self.expressions@.len(),
        ensures
            binding == referenced_binding(*self, file_id, self.expressions@[expression as int]),
    {
        match &self.expressions[expression as usize] {
            CoreExpression::Variable(CoreVariable::Item(item_file, item)) => {
                if *item_file == file_id {
                    match map_get(&self.items, &item.0) {
                        Some(binding) => Some(binding.0),
                        None => None,
                    }
                } else {
                    None
                }
            },
            CoreExpression::Variable(CoreVariable::Instance(origin)) => {
                match self.instance_binding(*origin) {
                    Some(binding) => Some(binding.0),
                    None => None,
                }
            },
            _ => None,
        }
    }
}

/// The bindings referred to by the expressions in `visited`.
pub open spec fn referenced_by(core: CoreModule, file: FileId, visited: Set<u32>) -> Set<u32> {
    Set::new(
        |binding: u32|
            exists|expression: u32|
                #[trigger] visited.contains(expression) && referenced_binding(
                    core,
                    file,
                    core.expressions@[expression as int],
                ) == Some(binding),
    )
}

/// A set that holds `start` and is closed under successors holds every
/// expression on a path from `start`.
proof fn lemma_closed_holds_path(
    core: CoreModule,
    top_level: Set<u32>,
    start: u32,
    visited: Set<u32>,
    path: Seq<u32>,
    i: int,
)
    requires
        visited.contains(start),
        forall|v: u32, k: int|
            #![trigger visited.contains(v), successors(core, top_level, core.expressions@[v as int])[k]]
            visited.contains(v) && 0 <= k < successors(core, top_level, core.expressions@[v as int]).len()
                ==> visited.contains(successors(core, top_level, core.expressions@[v as int])[k]),
        is_path(core, top_level, start, path),
        0 <= i < path.len(),
    ensures
        visited.contains(path[i]),
    decreases i,
{
    if i > 0 {
        lemma_closed_holds_path(core, top_level, start, visited, path, i - 1);
        assert(path_step(core, top_level, path, i - 1));
        let next = successors(core, top_level, core.expressions@[path[i - 1] as int]);
        assert(next.contains(path[i]));
        let k = choose|k: int| 0 <= k < next.len() && next[k] == path[i];
        assert(visited.contains(next[k]));
    }
}

/// A successor of a reachable expression is reachable.
proof fn lemma_successor_reachable(core: CoreModule, top_level: Set<u32>, start: u32, expression: u32, k: int)
    requires
        expression < core.expressions@.len(),
        reachable(core, top_level, start, expression),
        0 <= k < successors(core, top_level, core.expressions@[expression as int]).len(),
    ensures
        reachable(core, top_level, start, successors(core, top_level, core.expressions@[expression as int])[k]),
{
    let path = choose|path: Seq<u32>| #[trigger] is_path(core, top_level, start, path) && path.last() == expression;
    let next = successors(core, top_level, core.expressions@[expression as int]);
    let longer = path.push(next[k]);
    assert(next.contains(next[k]));
    assert forall|i: int| 0 <= i < longer.len() - 1 implies #[trigger] path_step(core, top_level, longer, i) by {
        if i < path.len() - 1 {
            assert(path_step(core, top_level, path, i));
            assert(longer[i] == path[i] && longer[i + 1] == path[i + 1]);
        } else {
            assert(longer[i] == expression);
        }
    }
    assert(longer[0] == path[0]);
    assert(is_path(core, top_level, start, longer));
}

/// The identifiers below `count`.
pub(crate) proof fn lemma_bounded_set_len(set: Set<u32>, count: nat)
    requires
        forall|x: u32| #[trigger] set.contains(x) ==> x < count,
        count <= u32::MAX,
    ensures
        set.finite(),
        set.len() <= count,
{
    let all = Seq::new(count, |i: int| i as u32);
    assert(all.no_duplicates());
    all.unique_seq_to_set();
    assert forall|x: u32| set.contains(x) implies all.to_set().contains(x) by {
        assert(all[x as int] == x);
    }
    vstd::set_lib::lemma_len_subset(set, all.to_set());
}

impl CoreModule {
    /// The top-level bindings that binding `binding` depends on: those
    /// referred to by the expressions reachable from its value; a binding
    /// without a value expression depends on none.
    pub fn binding_dependencies(&self, file_id: FileId, binding: CoreBindingId, top_level: &FxHashSet<u32>) -> (dependencies:
        FxHashSet<u32>)
        requires
            dependency_graph_wf(*self, top_level@),
            binding.0 < self.bindings@.len(),
            self.expressions@.len() <= u32::MAX,
            self.bindings@[binding.0 as int].value matches CoreBindingValue::Expression(value) ==> value.0
                < self.expressions@.len(),
        ensures
            dependencies@ == (match self.bindings@[binding.0 as int].value {
                CoreBindingValue::Expression(value) => dependencies_from(*self, file_id, top_level@, value.0),
                CoreBindingValue::External(_) => Set::<u32>::empty(),
            }),
    {
        let mut dependencies: FxHashSet<u32> = FxHashSet::default();
        let start = match self.bindings[binding.0 as usize].value {
            CoreBindingValue::Expression(value) => value.0,
            CoreBindingValue::External(_) => {
                return dependencies;
            },
        };
        let ghost core = *self;
        let ghost top = top_level@;
        let ghost count = self.expressions@.len();
        let mut visited: FxHashSet<u32> = FxHashSet::default();
        let mut stack: Vec<u32> = Vec::new();
        stack.push(start);
        proof {
            assert(stack@[0] == start);
            assert(is_path(core, top, start, seq![start]));
            assert(dependencies@ =~= referenced_by(core, file_id, visited@));
            lemma_bounded_set_len(visited@, count);
        }
        while stack.len() > 0
            invariant
                core == *self,
                top == top_level@,
                count == self.expressions@.len(),
                count <= u32::MAX,
                dependency_graph_wf(core, top),
                start < count,
                visited@.finite(),
                visited@.len() <= count,
                forall|v: u32| #[trigger] visited@.contains(v) ==> v < count && reachable(core, top, start, v),
                forall|i: int| 0 <= i < stack@.len() ==> #[trigger] stack@[i] < count && reachable(core, top, start, stack@[i]),
                forall|v: u32, k: int|
                    #![trigger visited@.contains(v), successors(core, top, core.expressions@[v as int])[k]]
                    visited@.contains(v) && 0 <= k < successors(core, top, core.expressions@[v as int]).len()
                        ==> visited@.contains(successors(core, top, core.expressions@[v as int])[k]) || stack@.contains(
                        successors(core, top, core.expressions@[v as int])[k],
                    ),
                visited@.contains(start) || stack@.contains(start),
                dependencies@ == referenced_by(core, file_id, visited@),
            decreases count - visited@.len(), stack@.len(),
        {
            let ghost stack_before = stack@;
            let ghost visited_before = visited@;
            let expression = stack.pop().unwrap();
            proof {
                assert(stack_before.last() == expression);
                assert(stack@ =~= stack_before.drop_last());
                assert forall|x: u32| stack_before.contains(x) implies x == expression || stack@.contains(x) by {
                    let i = choose|i: int| 0 <= i < stack_before.len() && stack_before[i] == x;
                    if i < stack_before.len() - 1 {
                        assert(stack@[i] == x);
                    }
                }
            }
            if set_insert(&mut visited, expression) {
                let reference = self.expression_reference(file_id, expression);
                let ghost dependencies_before = dependencies@;
                match reference {
                    Some(referenced) => {
                        set_insert(&mut dependencies, referenced);
                    },
                    None => {},
                }
                let mut next = self.expression_successors(top_level, expression);
                let ghost next_view = next@;
                let ghost popped = stack@;
                stack.append(&mut next);
                proof {
                    assert(stack@ =~= popped + next_view);
                    assert(dependencies@ =~= referenced_by(core, file_id, visited@)) by {
                        assert forall|b: u32| dependencies@.contains(b) implies referenced_by(core, file_id, visited@).contains(b) by {
                            if dependencies_before.contains(b) {
                                let w = choose|w: u32|
                                    #[trigger] visited_before.contains(w) && referenced_binding(
                                        core,
                                        file_id,
                                        core.expressions@[w as int],
                                    ) == Some(b);
                                assert(visited@.contains(w));
                            } else {
                                assert(visited@.contains(expression));
                            }
                        }
                        assert forall|b: u32| referenced_by(core, file_id, visited@).contains(b) implies dependencies@.contains(b) by {
                            let w = choose|w: u32|
                                #[trigger] visited@.contains(w) && referenced_binding(
                                    core,
                                    file_id,
                                    core.expressions@[w as int],
                                ) == Some(b);
                            if w != expression {
                                assert(visited_before.contains(w));
                            }
                        }
                    }
                    assert forall|i: int| 0 <= i < stack@.len() implies #[trigger] stack@[i] < count && reachable(
                        core,
                        top,
                        start,
                        stack@[i],
                    ) by {
                        if i >= popped.len() {
                            let k = i - popped.len();
                            assert(stack@[i] == next_view[k]);
                            lemma_successor_reachable(core, top, start, expression, k);
                        } else {
                            assert(stack@[i] == stack_before[i]);
                        }
                    }
                    assert forall|v: u32, k: int|
                        #![trigger visited@.contains(v), successors(core, top, core.expressions@[v as int])[k]]
                        visited@.contains(v) && 0 <= k < successors(core, top, core.expressions@[v as int]).len()
                            implies visited@.contains(successors(core, top, core.expressions@[v as int])[k])
                            || stack@.contains(successors(core, top, core.expressions@[v as int])[k]) by {
                        let x = successors(core, top, core.expressions@[v as int])[k];
                        if v == expression {
                            assert(stack@[popped.len() + k] == x);
                        } else {
                            assert(visited_before.contains(v));
                            if stack_before.contains(x) && x != expression {
                                let i = choose|i: int| 0 <= i < popped.len() && popped[i] == x;
                                assert(stack@[i] == x);
                            }
                        }
                    }
                    if !visited_before.contains(start) && start != expression {
                        let i = choose|i: int| 0 <= i < popped.len() && popped[i] == start;
                        assert(stack@[i] == start);
                    }
                    lemma_bounded_set_len(visited@, count);
                }
            } else {
                proof {
                    assert(visited@ =~= visited_before);
                }
            }
        }
        proof {
            assert forall|v: u32, k: int|
                #![trigger visited@.contains(v), successors(core, top, core.expressions@[v as int])[k]]
                visited@.contains(v) && 0 <= k < successors(core, top, core.expressions@[v as int]).len()
                    implies visited@.contains(successors(core, top, core.expressions@[v as int])[k]) by {}
            assert(dependencies@ =~= dependencies_from(core, file_id, top, start)) by {
                assert forall|b: u32| dependencies@.contains(b) implies dependencies_from(core, file_id, top, start).contains(b) by {
                    let w = choose|w: u32|
                        #[trigger] visited@.contains(w) && referenced_binding(core, file_id, core.expressions@[w as int])
                            == Some(b);
                    assert(reachable(core, top, start, w));
                }
                assert forall|b: u32| dependencies_from(core, file_id, top, start).contains(b) implies dependencies@.contains(b) by {
                    let w = choose|w: u32|
                        w < core.expressions@.len() && #[trigger] reachable(core, top, start, w) && referenced_binding(
                            core,
                            file_id,
                            core.expressions@[w as int],
                        ) == Some(b);
                    let path = choose|path: Seq<u32>| #[trigger] is_path(core, top, start, path) && path.last() == w;
                    lemma_closed_holds_path(core, top, start, visited@, path, path.len() - 1);
                }
            }
        }
        dependencies
    }
}

/// One step from a reachable expression to one of its successors reaches
/// the successor.
proof fn lemma_successor_in_reach(core: CoreModule, top_level: Set<u32>, start: u32, expression: u32, next: u32)
    requires
        reachable(core, top_level, start, expression),
        expression < core.expressions@.len(),
        successors(core, top_level, core.expressions@[expression as int]).contains(next),
    ensures
        reachable(core, top_level, start, next),
{
    let path = choose|path: Seq<u32>| #[trigger] is_path(core, top_level, start, path) && path.last() == expression;
    let longer = path.push(next);
    assert forall|i: int| 0 <= i < longer.len() - 1 implies #[trigger] path_step(core, top_level, longer, i) by {
        if i < path.len() - 1 {
            assert(path_step(core, top_level, path, i));
            assert(longer[i] == path[i] && longer[i + 1] == path[i + 1]);
        } else {
            assert(longer[i] == expression && longer[i + 1] == next);
        }
    }
    assert(is_path(core, top_level, start, longer));
    assert(longer.last() == next);
}

/// The value of a non-top-level binding of a `let` group that is defined by
/// an expression is among the group's values.
proof fn lemma_let_values_contains(bindings: Seq<CoreBinding>, top_level: Set<u32>, group: Seq<CoreBindingId>, i: int)
    requires
        0 <= i < group.len(),
        !top_level.contains(group[i].0),
    ensures
        bindings[group[i].0 as int].value matches CoreBindingValue::Expression(value) ==> let_values(
            bindings,
            top_level,
            group,
        ).contains(value.0),
    decreases group.len(),
{
    if let CoreBindingValue::Expression(value) = bindings[group[i].0 as int].value {
        let rest = let_values(bindings, top_level, group.drop_last());
        if i == group.len() - 1 {
            assert(let_values(bindings, top_level, group) == rest.push(value.0));
            assert(rest.push(value.0)[rest.len() as int] == value.0);
        } else {
            lemma_let_values_contains(bindings, top_level, group.drop_last(), i);
            assert(group.drop_last()[i] == group[i]);
            let k = choose|k: int| 0 <= k < rest.len() && rest[k] == value.0;
            let all = let_values(bindings, top_level, group);
            if !top_level.contains(group.last().0) {
                if let CoreBindingValue::Expression(last) = bindings[group.last().0 as int].value {
                    assert(all == rest.push(last.0));
                    assert(all[k] == value.0);
                } else {
                    assert(all == rest);
                }
            } else {
                assert(all == rest);
            }
        }
    }
}

/// The expression of a runtime superclass slot is among the runtime
/// superclasses.
proof fn lemma_runtime_superclasses_contains(fields: Seq<CoreSuperclassField>, i: int)
    requires
        0 <= i < fields.len(),
    ensures
        fields[i] matches CoreSuperclassField::Runtime(value) ==> runtime_superclasses(fields).contains(value.0),
    decreases fields.len(),
{
    if let CoreSuperclassField::Runtime(value) = fields[i] {
        let rest = runtime_superclasses(fields.drop_last());
        if i == fields.len() - 1 {
            assert(runtime_superclasses(fields) == rest.push(value.0));
            assert(rest.push(value.0)[rest.len() as int] == value.0);
        } else {
            lemma_runtime_superclasses_contains(fields.drop_last(), i);
            assert(fields.drop_last()[i] == fields[i]);
            let k = choose|k: int| 0 <= k < rest.len() && rest[k] == value.0;
            match fields.last() {
                CoreSuperclassField::Runtime(last) => assert(runtime_superclasses(fields)[k] == value.0),
                CoreSuperclassField::Erased => assert(runtime_superclasses(fields) == rest),
            }
        }
    }
}

/// The expression of a runtime requirement is among the runtime
/// requirements.
proof fn lemma_runtime_requirements_contains(requirements: Seq<CoreDerivedRequirement>, i: int)
    requires
        0 <= i < requirements.len(),
    ensures
        requirements[i].evidence matches CoreDerivedEvidence::Runtime(value) ==> runtime_requirements(
            requirements,
        ).contains(value.0),
    decreases requirements.len(),
{
    if let CoreDerivedEvidence::Runtime(value) = requirements[i].evidence {
        let rest = runtime_requirements(requirements.drop_last());
        if i == requirements.len() - 1 {
            assert(runtime_requirements(requirements) == rest.push(value.0));
            assert(rest.push(value.0)[rest.len() as int] == value.0);
        } else {
            lemma_runtime_requirements_contains(requirements.drop_last(), i);
            assert(requirements.drop_last()[i] == requirements[i]);
            let k = choose|k: int| 0 <= k < rest.len() && rest[k] == value.0;
            match requirements.last().evidence {
                CoreDerivedEvidence::Runtime(last) => assert(runtime_requirements(requirements)[k] == value.0),
                CoreDerivedEvidence::Erased => assert(runtime_requirements(requirements) == rest),
            }
        }
    }
}

/// Dependencies are collected through every immediate sub-expression of a
/// reachable compound expression: the body of a lambda, both sides of an
/// application, the function of a type application, the body of a `let`
/// and the values of its bindings that are not top-level, every scrutinee of
/// a `case` and the body of every alternative, the condition and both
/// branches of an `if`, every array element and record field, the runtime
/// superclasses and the members of a dictionary, the runtime requirements of
/// a derived dictionary, the record of an access, the record and every value
/// of an update, and the dictionary of a superclass projection.
pub proof fn law_subexpressions_followed(core: CoreModule, top_level: Set<u32>, start: u32, expression: u32)
    requires
        reachable(core, top_level, start, expression),
        expression < core.expressions@.len(),
    ensures
        match core.expressions@[expression as int] {
            CoreExpression::Lambda { body, .. } => reachable(core, top_level, start, body.0),
            CoreExpression::Apply { function, argument } => reachable(core, top_level, start, function.0) && reachable(
                core,
                top_level,
                start,
                argument.0,
            ),
            CoreExpression::TypeApply { function, .. } => reachable(core, top_level, start, function.0),
            CoreExpression::Let { group, body } => reachable(core, top_level, start, body.0) && forall|i: int|
                0 <= i < core.binding_groups@[group.0 as int].bindings@.len() && !top_level.contains(
                    core.binding_groups@[group.0 as int].bindings@[i].0,
                ) ==> (core.bindings@[(#[trigger] core.binding_groups@[group.0 as int].bindings@[i]).0 as int].value matches CoreBindingValue::Expression(
                    value,
                ) ==> reachable(core, top_level, start, value.0)),
            CoreExpression::Case { scrutinees, alternatives } => (forall|i: int|
                0 <= i < scrutinees@.len() ==> reachable(core, top_level, start, (#[trigger] scrutinees@[i]).0)) && (
            forall|i: int|
                0 <= i < alternatives@.len() ==> reachable(
                    core,
                    top_level,
                    start,
                    core.alternatives@[(#[trigger] alternatives@[i]).0 as int].body.0,
                )),
            CoreExpression::IfThenElse { condition, then, else_ } => reachable(core, top_level, start, condition.0)
                && reachable(core, top_level, start, then.0) && reachable(core, top_level, start, else_.0),
            CoreExpression::Array(elements) => forall|i: int|
                0 <= i < elements@.len() ==> reachable(core, top_level, start, (#[trigger] elements@[i]).0),
            CoreExpression::Record(fields) => forall|i: int|
                0 <= i < fields@.len() ==> reachable(core, top_level, start, (#[trigger] fields@[i]).value.0),
            CoreExpression::Dictionary { superclasses, members } => (forall|i: int|
                0 <= i < superclasses@.len() ==> ((#[trigger] superclasses@[i]) matches CoreSuperclassField::Runtime(
                    value,
                ) ==> reachable(core, top_level, start, value.0))) && (forall|i: int|
                0 <= i < members@.len() ==> reachable(core, top_level, start, (#[trigger] members@[i]).value.0)),
            CoreExpression::DerivedDictionary { requirements, .. } => forall|i: int|
                0 <= i < requirements@.len() ==> ((#[trigger] requirements@[i]).evidence matches CoreDerivedEvidence::Runtime(
                    value,
                ) ==> reachable(core, top_level, start, value.0)),
            CoreExpression::Access { record, .. } => reachable(core, top_level, start, record.0),
            CoreExpression::Update { record, updates } => reachable(core, top_level, start, record.0) && forall|i: int|
                0 <= i < updates@.len() ==> reachable(core, top_level, start, (#[trigger] updates@[i]).value.0),
            CoreExpression::SuperclassProjection { dictionary, .. } => reachable(core, top_level, start, dictionary.0),
            _ => true,
        },
{
    let node = core.expressions@[expression as int];
    let next = successors(core, top_level, node);
    match node {
        CoreExpression::Lambda { body, .. } => {
            assert(next[0] == body.0);
            lemma_successor_in_reach(core, top_level, start, expression, body.0);
        },
        CoreExpression::Apply { function, argument } => {
            assert(next[0] == function.0 && next[1] == argument.0);
            lemma_successor_in_reach(core, top_level, start, expression, function.0);
            lemma_successor_in_reach(core, top_level, start, expression, argument.0);
        },
        CoreExpression::TypeApply { function, .. } => {
            assert(next[0] == function.0);
            lemma_successor_in_reach(core, top_level, start, expression, function.0);
        },
        CoreExpression::Let { group, body } => {
            let members = core.binding_groups@[group.0 as int].bindings@;
            let values = let_values(core.bindings@, top_level, members);
            assert(next == values.push(body.0));
            assert(next[values.len() as int] == body.0);
            lemma_successor_in_reach(core, top_level, start, expression, body.0);
            assert forall|i: int|
                0 <= i < members.len() && !top_level.contains(members[i].0) implies (core.bindings@[(#[trigger] members[i]).0 as int].value matches CoreBindingValue::Expression(
                value,
            ) ==> reachable(core, top_level, start, value.0)) by {
                lemma_let_values_contains(core.bindings@, top_level, members, i);
                if let CoreBindingValue::Expression(value) = core.bindings@[members[i].0 as int].value {
                    let k = choose|k: int| 0 <= k < values.len() && values[k] == value.0;
                    assert(next[k] == value.0);
                    lemma_successor_in_reach(core, top_level, start, expression, value.0);
                }
            }
        },
        CoreExpression::Case { scrutinees, alternatives } => {
            let first = expression_ids(scrutinees@);
            let second = alternative_bodies(core.alternatives@, alternatives@);
            assert(next == first + second);
            assert forall|i: int| 0 <= i < scrutinees@.len() implies reachable(core, top_level, start, (#[trigger] scrutinees@[i]).0) by {
                assert(next[i] == scrutinees@[i].0);
                lemma_successor_in_reach(core, top_level, start, expression, scrutinees@[i].0);
            }
            assert forall|i: int| 0 <= i < alternatives@.len() implies reachable(
                core,
                top_level,
                start,
                core.alternatives@[(#[trigger] alternatives@[i]).0 as int].body.0,
            ) by {
                assert(next[first.len() + i] == core.alternatives@[alternatives@[i].0 as int].body.0);
                lemma_successor_in_reach(core, top_level, start, expression, core.alternatives@[alternatives@[i].0 as int].body.0);
            }
        },
        CoreExpression::IfThenElse { condition, then, else_ } => {
            assert(next[0] == condition.0 && next[1] == then.0 && next[2] == else_.0);
            lemma_successor_in_reach(core, top_level, start, expression, condition.0);
            lemma_successor_in_reach(core, top_level, start, expression, then.0);
            lemma_successor_in_reach(core, top_level, start, expression, else_.0);
        },
        CoreExpression::Array(elements) => {
            assert forall|i: int| 0 <= i < elements@.len() implies reachable(core, top_level, start, (#[trigger] elements@[i]).0) by {
                assert(next[i] == elements@[i].0);
                lemma_successor_in_reach(core, top_level, start, expression, elements@[i].0);
            }
        },
        CoreExpression::Record(fields) => {
            assert forall|i: int| 0 <= i < fields@.len() implies reachable(core, top_level, start, (#[trigger] fields@[i]).value.0) by {
                assert(next[i] == fields@[i].value.0);
                lemma_successor_in_reach(core, top_level, start, expression, fields@[i].value.0);
            }
        },
        CoreExpression::Dictionary { superclasses, members } => {
            let first = runtime_superclasses(superclasses@);
            assert(next == first + field_values(members@));
            assert forall|i: int| 0 <= i < superclasses@.len() implies ((#[trigger] superclasses@[i]) matches CoreSuperclassField::Runtime(
                value,
            ) ==> reachable(core, top_level, start, value.0)) by {
                lemma_runtime_superclasses_contains(superclasses@, i);
                if let CoreSuperclassField::Runtime(value) = superclasses@[i] {
                    let k = choose|k: int| 0 <= k < first.len() && first[k] == value.0;
                    assert(next[k] == value.0);
                    lemma_successor_in_reach(core, top_level, start, expression, value.0);
                }
            }
            assert forall|i: int| 0 <= i < members@.len() implies reachable(core, top_level, start, (#[trigger] members@[i]).value.0) by {
                assert(next[first.len() + i] == members@[i].value.0);
                lemma_successor_in_reach(core, top_level, start, expression, members@[i].value.0);
            }
        },
        CoreExpression::DerivedDictionary { requirements, .. } => {
            assert forall|i: int| 0 <= i < requirements@.len() implies ((#[trigger] requirements@[i]).evidence matches CoreDerivedEvidence::Runtime(
                value,
            ) ==> reachable(core, top_level, start, value.0)) by {
                lemma_runtime_requirements_contains(requirements@, i);
                if let CoreDerivedEvidence::Runtime(value) = requirements@[i].evidence {
                    let k = choose|k: int| 0 <= k < next.len() && next[k] == value.0;
                    lemma_successor_in_reach(core, top_level, start, expression, value.0);
                }
            }
        },
        CoreExpression::Access { record, .. } => {
            assert(next[0] == record.0);
            lemma_successor_in_reach(core, top_level, start, expression, record.0);
        },
        CoreExpression::Update { record, updates } => {
            assert(next[0] == record.0);
            lemma_successor_in_reach(core, top_level, start, expression, record.0);
            assert forall|i: int| 0 <= i < updates@.len() implies reachable(core, top_level, start, (#[trigger] updates@[i]).value.0) by {
                assert(next[1 + i] == updates@[i].value.0);
                lemma_successor_in_reach(core, top_level, start, expression, updates@[i].value.0);
            }
        },
        CoreExpression::SuperclassProjection { dictionary, .. } => {
            assert(next[0] == dictionary.0);
            lemma_successor_in_reach(core, top_level, start, expression, dictionary.0);
        },
        _ => {},
    }
}

/// The binding that any expression reachable from a value refers to is
/// among the dependencies collected from that value.
pub proof fn law_reachable_references_are_dependencies(
    core: CoreModule,
    file: FileId,
    top_level: Set<u32>,
    start: u32,
    expression: u32,
)
    requires
        reachable(core, top_level, start, expression),
        expression < core.expressions@.len(),
        referenced_binding(core, file, core.expressions@[expression as int]) is Some,
    ensures
        dependencies_from(core, file, top_level, start).contains(
            referenced_binding(core, file, core.expressions@[expression as int])->0,
        ),
{
}

} // verus!
