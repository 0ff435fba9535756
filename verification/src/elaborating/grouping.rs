//! Grouping the top-level Core bindings into binding groups: the strongly
//! connected components of the dependency graph, each emitted after the
//! groups it depends on, the one of smallest source order first whenever
//! several are ready.
use rustc_hash::{FxHashMap, FxHashSet};
use vstd::prelude::*;

use super::core_module::{
    CoreBindingGroup, CoreBindingGroupId, CoreBindingId, CoreBindingSource, CoreBindingValue, CoreExpression,
    CoreExpressionId, CoreModule, CoreVariable,
};
use super::dependencies::{
    dependencies_from, dependency_graph_wf, lemma_bounded_set_len, reachable, referenced_binding,
};
use crate::text::table::{lemma_table_entry, table_map};
use petgraph::graphmap::GraphMap;
use petgraph::Directed;
use rustc_hash::FxBuildHasher;
use super::graph::{
    add_graph_edge, add_graph_node, graph_edge_list, graph_edges, graph_has_edge, graph_nodes, in_component, new_graph, component_views, edge_reaches,
    reverse_topological_components, strongly_connected_components,
};
use crate::files::FileId;
use crate::hashed::{map_get, map_insert, map_value_list, set_elements, set_insert};

verus! {

/// The source order of a top-level binding: the raw identifier of its item;
/// a binding of no item comes last.
pub open spec fn binding_order(core: CoreModule, binding: u32) -> u32 {
    match core.bindings@[binding as int].source {
        CoreBindingSource::Item(item) => item.0,
        _ => u32::MAX,
    }
}

/// `bindings` are in non-decreasing source order.
pub open spec fn in_binding_order(core: CoreModule, bindings: Seq<u32>) -> bool {
    forall|i: int, j: int| 0 <= i <= j < bindings.len() ==> binding_order(core, #[trigger] bindings[i]) <= binding_order(core, #[trigger] bindings[j])
}

impl CoreModule {
    /// The source order of the top-level binding `binding`.
    pub fn top_level_binding_order(&self, binding: CoreBindingId) -> (order: u32)
        requires
            binding.0 < self.bindings@.len(),
        ensures
            order == binding_order(*self, binding.0),
    {
        match self.bindings[binding.0 as usize].source {
            CoreBindingSource::Item(item) => item.0,
            _ => u32::MAX,
        }
    }

    /// The bindings of `component` in source order.
    fn sort_component(&self, component: &Vec<u32>) -> (sorted: Vec<u32>)
        requires
            forall|i: int| 0 <= i < component@.len() ==> #[trigger] component@[i] < self.bindings@.len(),
            component@.no_duplicates(),
        ensures
            sorted@.len() == component@.len(),
            sorted@.to_set() == component@.to_set(),
            sorted@.no_duplicates(),
            in_binding_order(*self, sorted@),
    {
        let mut sorted: Vec<u32> = Vec::new();
        let mut k: usize = 0;
        while k < component.len()
            invariant
                k <= component@.len(),
                forall|i: int| 0 <= i < component@.len() ==> #[trigger] component@[i] < self.bindings@.len(),
                component@.no_duplicates(),
                sorted@.len() == k,
                forall|j: int| 0 <= j < sorted@.len() ==> #[trigger] sorted@[j] < self.bindings@.len(),
                sorted@.to_set() == component@.take(k as int).to_set(),
                sorted@.no_duplicates(),
                in_binding_order(*self, sorted@),
            decreases component@.len() - k,
        {
            let binding = component[k];
            let order = self.top_level_binding_order(CoreBindingId(binding));
            let mut position: usize = sorted.len();
            while position > 0 && self.top_level_binding_order(CoreBindingId(sorted[position - 1])) > order
                invariant
                    position <= sorted@.len(),
                    forall|i: int| 0 <= i < component@.len() ==> #[trigger] component@[i] < self.bindings@.len(),
                    forall|j: int| 0 <= j < sorted@.len() ==> #[trigger] sorted@[j] < self.bindings@.len(),
                    sorted@.to_set() == component@.take(k as int).to_set(),
                    forall|j: int| position <= j < sorted@.len() ==> binding_order(*self, #[trigger] sorted@[j]) > order,
                    k < component@.len(),
                    binding == component@[k as int],
                    order == binding_order(*self, binding),
                decreases position,
            {
                proof {
                    assert(sorted@.to_set().contains(sorted@[position - 1]));
                    assert(component@.take(k as int).to_set().contains(sorted@[position - 1]));
                }
                position = position - 1;
            }
            let ghost before = sorted@;
            proof {
                assert(!component@.take(k as int).contains(binding));
                assert(!before.contains(binding)) by {
                    if before.contains(binding) {
                        assert(before.to_set().contains(binding));
                    }
                }
            }
            sorted.insert(position, binding);
            proof {
                assert(sorted@ =~= before.take(position as int).push(binding) + before.skip(position as int));
                assert(component@.take(k as int + 1) =~= component@.take(k as int).push(binding));
                assert(sorted@.to_set() =~= component@.take(k as int + 1).to_set()) by {
                    assert forall|x: u32| sorted@.to_set().contains(x) implies component@.take(k as int + 1).to_set().contains(x) by {
                        let i = choose|i: int| 0 <= i < sorted@.len() && sorted@[i] == x;
                        if i == position {
                            assert(component@.take(k as int + 1)[k as int] == x);
                        } else {
                            if i < position {
                                assert(before[i] == x);
                            } else {
                                assert(before[i - 1] == x);
                            }
                            assert(before.to_set().contains(x));
                            assert(component@.take(k as int).to_set().contains(x));
                            let w = choose|w: int| 0 <= w < k && component@.take(k as int)[w] == x;
                            assert(component@.take(k as int + 1)[w] == x);
                        }
                        assert(component@.take(k as int + 1).contains(x));
                    }
                    assert forall|x: u32| component@.take(k as int + 1).to_set().contains(x) implies sorted@.to_set().contains(x) by {
                        if x == binding {
                            assert(sorted@[position as int] == x);
                        } else {
                            assert(component@.take(k as int).contains(x));
                            assert(component@.take(k as int).to_set().contains(x));
                            assert(before.to_set().contains(x));
                            let i = choose|i: int| 0 <= i < before.len() && before[i] == x;
                            if i < position {
                                assert(sorted@[i] == x);
                            } else {
                                assert(sorted@[i + 1] == x);
                            }
                        }
                        assert(sorted@.contains(x));
                    }
                }
                assert forall|a: int, b: int| 0 <= a < sorted@.len() && 0 <= b < sorted@.len() && a != b implies sorted@[a] != sorted@[b] by {
                    if a != position && b != position {
                        let pa = if a < position { a } else { a - 1 };
                        let pb = if b < position { b } else { b - 1 };
                        assert(sorted@[a] == before[pa] && sorted@[b] == before[pb]);
                    } else if a == position {
                        let pb = if b < position { b } else { b - 1 };
                        assert(sorted@[b] == before[pb]);
                    } else {
                        let pa = if a < position { a } else { a - 1 };
                        assert(sorted@[a] == before[pa]);
                    }
                }
                assert forall|i: int, j: int| 0 <= i <= j < sorted@.len() implies binding_order(*self, #[trigger] sorted@[i])
                    <= binding_order(*self, #[trigger] sorted@[j]) by {
                    let pi = if i < position { i } else { i - 1 };
                    let pj = if j < position { j } else { j - 1 };
                    if i != position && j != position {
                        assert(sorted@[i] == before[pi] && sorted@[j] == before[pj]);
                        assert(binding_order(*self, before[pi]) <= binding_order(*self, before[pj]));
                    } else if i == position && j != position {
                        assert(sorted@[j] == before[pj]);
                        assert(binding_order(*self, before[pj]) > order);
                    } else if i != position && j == position {
                        if position > 0 {
                            assert(sorted@[i] == before[pi]);
                            assert(binding_order(*self, before[pi]) <= binding_order(*self, before[position - 1]));
                        }
                    }
                }
            }
            k = k + 1;
        }
        proof {
            assert(component@.take(k as int) =~= component@);
        }
        sorted
    }
}

/// All dependencies of component `component` are among `emitted`.
pub open spec fn is_ready(dependencies: Seq<Seq<usize>>, emitted: Seq<usize>, component: int) -> bool {
    forall|i: int| 0 <= i < dependencies[component].len() ==> emitted.contains(#[trigger] dependencies[component][i])
}

/// `order` emits every component once, each after its dependencies, and at
/// each step one of smallest key among those ready.
pub open spec fn greedy_emission(keys: Seq<u32>, dependencies: Seq<Seq<usize>>, order: Seq<usize>) -> bool {
    &&& order.len() == keys.len()
    &&& order.no_duplicates()
    &&& forall|i: int| 0 <= i < order.len() ==> #[trigger] order[i] < keys.len()
    &&& forall|i: int| 0 <= i < order.len() ==> is_ready(dependencies, order.take(i), #[trigger] order[i] as int)
    &&& forall|i: int, c: int|
        0 <= i < order.len() && 0 <= c < keys.len() && !order.take(i).contains(c as usize) && is_ready(
            dependencies,
            order.take(i),
            c,
        ) ==> keys[#[trigger] order[i] as int] <= #[trigger] keys[c]
}

/// When some component is not emitted and every dependency is earlier than
/// its dependent, some component that is not emitted is ready.
proof fn lemma_ready_exists(dependencies: Seq<Seq<usize>>, emitted: Seq<usize>, component: int)
    requires
        0 <= component < dependencies.len(),
        !emitted.contains(component as usize),
        forall|c: int, i: int|
            0 <= c < dependencies.len() && 0 <= i < dependencies[c].len() ==> #[trigger] dependencies[c][i] < c,
    ensures
        exists|c: int| 0 <= c < dependencies.len() && !emitted.contains(c as usize) && #[trigger] is_ready(dependencies, emitted, c),
    decreases component,
{
    if !is_ready(dependencies, emitted, component) {
        let i = choose|i: int| 0 <= i < dependencies[component].len() && !emitted.contains(#[trigger] dependencies[component][i]);
        assert(dependencies[component][i] < component);
        lemma_ready_exists(dependencies, emitted, dependencies[component][i] as int);
    }
}

/// A list of fewer than `count` distinct indices below `count` misses one.
proof fn lemma_missing_index(order: Seq<usize>, count: nat)
    requires
        order.no_duplicates(),
        order.len() < count,
        count <= usize::MAX + 1,
    ensures
        exists|c: usize| c < count && !#[trigger] order.contains(c),
{
    if forall|c: usize| c < count ==> #[trigger] order.contains(c) {
        let all = Seq::new(count, |i: int| i as usize);
        assert(all.no_duplicates());
        all.unique_seq_to_set();
        order.unique_seq_to_set();
        assert forall|x: usize| all.to_set().contains(x) implies order.to_set().contains(x) by {
            let i = choose|i: int| 0 <= i < all.len() && all[i] == x;
            assert(order.contains(x));
        }
        vstd::set_lib::lemma_len_subset(all.to_set(), order.to_set());
    }
}

/// Whether every dependency of component `component` is emitted.
fn ready(dependencies: &Vec<Vec<usize>>, emitted: &Vec<bool>, component: usize) -> (all_emitted: bool)
    requires
        component < dependencies@.len(),
        forall|i: int| 0 <= i < dependencies@[component as int]@.len() ==> #[trigger] dependencies@[component as int]@[i] < emitted@.len(),
    ensures
        all_emitted == forall|i: int| 0 <= i < dependencies@[component as int]@.len() ==> emitted@[#[trigger] dependencies@[component as int]@[i] as int],
{
    let row = &dependencies[component];
    let mut k: usize = 0;
    while k < row.len()
        invariant
            row@ == dependencies@[component as int]@,
            k <= row@.len(),
            forall|i: int| 0 <= i < row@.len() ==> #[trigger] row@[i] < emitted@.len(),
            forall|i: int| 0 <= i < k ==> emitted@[#[trigger] row@[i] as int],
        decreases row@.len() - k,
    {
        if !emitted[row[k]] {
            return false;
        }
        k = k + 1;
    }
    true
}

/// The order in which to emit components: repeatedly the ready component of
/// smallest key, the earliest one on ties.
fn emission_order(keys: &Vec<u32>, dependencies: &Vec<Vec<usize>>) -> (order: Vec<usize>)
    requires
        keys@.len() == dependencies@.len(),
        forall|c: int, i: int|
            0 <= c < dependencies@.len() && 0 <= i < dependencies@[c]@.len() ==> #[trigger] dependencies@[c]@[i] < c,
    ensures
        greedy_emission(keys@, row_views(dependencies@), order@),
{
    let ghost rows = row_views(dependencies@);
    let count = keys.len();
    let mut emitted: Vec<bool> = Vec::new();
    while emitted.len() < count
        invariant
            emitted@.len() <= count,
            count == keys@.len(),
            forall|c: int| 0 <= c < emitted@.len() ==> !#[trigger] emitted@[c],
        decreases count - emitted@.len(),
    {
        emitted.push(false);
    }
    let mut order: Vec<usize> = Vec::new();
    proof {
        assert forall|c: int, i: int| 0 <= c < rows.len() && 0 <= i < rows[c].len() implies #[trigger] rows[c][i] < c by {
            assert(rows[c] == dependencies@[c]@);
        }
    }
    while order.len() < count
        invariant
            count == keys@.len(),
            count == dependencies@.len(),
            rows == row_views(dependencies@),
            forall|c: int, i: int|
                0 <= c < dependencies@.len() && 0 <= i < dependencies@[c]@.len() ==> #[trigger] dependencies@[c]@[i] < c,
            forall|c: int, i: int| 0 <= c < rows.len() && 0 <= i < rows[c].len() ==> #[trigger] rows[c][i] < c,
            emitted@.len() == count,
            order@.len() <= count,
            order@.no_duplicates(),
            forall|c: int| 0 <= c < count ==> (#[trigger] emitted@[c] <==> order@.contains(c as usize)),
            forall|i: int| 0 <= i < order@.len() ==> #[trigger] order@[i] < count,
            forall|i: int| 0 <= i < order@.len() ==> is_ready(rows, order@.take(i), #[trigger] order@[i] as int),
            forall|i: int, c: int|
                0 <= i < order@.len() && 0 <= c < count && !order@.take(i).contains(c as usize) && is_ready(
                    rows,
                    order@.take(i),
                    c,
                ) ==> keys@[#[trigger] order@[i] as int] <= #[trigger] keys@[c],
        decreases count - order@.len(),
    {
        let mut best: Option<usize> = None;
        let mut c: usize = 0;
        while c < count
            invariant
                count == keys@.len(),
                count == dependencies@.len(),
                rows == row_views(dependencies@),
                forall|c: int, i: int|
                    0 <= c < dependencies@.len() && 0 <= i < dependencies@[c]@.len() ==> #[trigger] dependencies@[c]@[i] < c,
                emitted@.len() == count,
                forall|c: int| 0 <= c < count ==> (#[trigger] emitted@[c] <==> order@.contains(c as usize)),
                c <= count,
                match best {
                    Some(b) => b < c && !order@.contains(b) && is_ready(rows, order@, b as int) && forall|d: int|
                        0 <= d < c && !order@.contains(d as usize) && is_ready(rows, order@, d) ==> keys@[b as int]
                            <= #[trigger] keys@[d],
                    None => forall|d: int| 0 <= d < c ==> order@.contains(d as usize) || !#[trigger] is_ready(rows, order@, d),
                },
            decreases count - c,
        {
            if !emitted[c] {
                proof {
                    assert forall|i: int| 0 <= i < dependencies@[c as int]@.len() implies #[trigger] dependencies@[c as int]@[i] < emitted@.len() by {
                        assert(dependencies@[c as int]@[i] < c);
                    }
                }
                let is_ready_now = ready(dependencies, &emitted, c);
                proof {
                    assert(rows[c as int] == dependencies@[c as int]@);
                    assert(is_ready_now == is_ready(rows, order@, c as int)) by {
                        if is_ready_now {
                            assert forall|i: int| 0 <= i < rows[c as int].len() implies order@.contains(#[trigger] rows[c as int][i]) by {
                                let d = dependencies@[c as int]@[i];
                                assert(emitted@[d as int]);
                                assert(d < c);
                            }
                        } else {
                            let i = choose|i: int| 0 <= i < dependencies@[c as int]@.len() && !emitted@[#[trigger] dependencies@[c as int]@[i] as int];
                            let d = dependencies@[c as int]@[i];
                            assert(d < c);
                            assert(!order@.contains(rows[c as int][i]));
                        }
                    }
                }
                if is_ready_now {
                    match best {
                        Some(b) => {
                            if keys[c] < keys[b] {
                                best = Some(c);
                            }
                        },
                        None => {
                            best = Some(c);
                        },
                    }
                }
            }
            c = c + 1;
        }
        proof {
            lemma_missing_index(order@, count as nat);
            let missing = choose|m: usize| m < count && !order@.contains(m);
            lemma_ready_exists(rows, order@, missing as int);
        }
        let chosen = best.unwrap();
        let ghost before = order@;
        emitted.set(chosen, true);
        order.push(chosen);
        proof {
            assert(order@.take(before.len() as int) =~= before);
            assert forall|i: int| 0 <= i < order@.len() implies is_ready(rows, order@.take(i), #[trigger] order@[i] as int) by {
                if i < before.len() {
                    assert(order@.take(i) =~= before.take(i));
                }
            }
            assert forall|i: int, d: int|
                0 <= i < order@.len() && 0 <= d < count && !order@.take(i).contains(d as usize) && is_ready(
                    rows,
                    order@.take(i),
                    d,
                ) implies keys@[#[trigger] order@[i] as int] <= #[trigger] keys@[d] by {
                if i < before.len() {
                    assert(order@.take(i) =~= before.take(i));
                }
            }
            assert forall|c: int| 0 <= c < count implies (#[trigger] emitted@[c] <==> order@.contains(c as usize)) by {
                if c == chosen {
                    assert(order@[before.len() as int] == chosen);
                } else if before.contains(c as usize) {
                    let i = choose|i: int| 0 <= i < before.len() && before[i] == c as usize;
                    assert(order@[i] == c as usize);
                }
            }
        }
    }
    order
}

/// The index of the component of each node.
fn index_components(components: &Vec<Vec<u32>>) -> (index: FxHashMap<u32, usize>)
    requires
        forall|i: int, k: int, node: u32|
            #![trigger in_component(component_views(components@), i, node), in_component(component_views(components@), k, node)]
            in_component(component_views(components@), i, node) && in_component(
                component_views(components@),
                k,
                node,
            ) ==> i == k,
    ensures
        forall|node: u32| #[trigger] index@.contains_key(node) ==> in_component(component_views(components@), index@[node] as int, node),
        forall|i: int, node: u32| #[trigger] in_component(component_views(components@), i, node) ==> index@.contains_key(node) && index@[node] == i,
{
    let ghost comps = component_views(components@);
    let mut index: FxHashMap<u32, usize> = FxHashMap::default();
    let mut c: usize = 0;
    while c < components.len()
        invariant
            comps == component_views(components@),
            c <= comps.len(),
            forall|i: int, k: int, node: u32|
                #![trigger in_component(comps, i, node), in_component(comps, k, node)]
                in_component(comps, i, node) && in_component(comps, k, node) ==> i == k,
            forall|node: u32| #[trigger] index@.contains_key(node) ==> index@[node] < c && in_component(comps, index@[node] as int, node),
            forall|i: int, node: u32| 0 <= i < c && #[trigger] in_component(comps, i, node) ==> index@.contains_key(node) && index@[node] == i,
        decreases comps.len() - c,
    {
        let component = &components[c];
        let mut j: usize = 0;
        while j < component.len()
            invariant
                comps == component_views(components@),
                c < comps.len(),
                component@ == comps[c as int],
                j <= component@.len(),
                forall|i: int, k: int, node: u32|
                    #![trigger in_component(comps, i, node), in_component(comps, k, node)]
                    in_component(comps, i, node) && in_component(comps, k, node) ==> i == k,
                forall|node: u32| #[trigger] index@.contains_key(node) ==> index@[node] <= c && in_component(comps, index@[node] as int, node),
                forall|i: int, node: u32| 0 <= i < c && #[trigger] in_component(comps, i, node) ==> index@.contains_key(node) && index@[node] == i,
                forall|m: int| 0 <= m < j ==> index@.contains_key(#[trigger] component@[m]) && index@[component@[m]] == c,
            decreases component@.len() - j,
        {
            let node = component[j];
            proof {
                assert(in_component(comps, c as int, node));
            }
            map_insert(&mut index, node, c);
            j = j + 1;
        }
        proof {
            assert forall|i: int, node: u32| 0 <= i < c + 1 && #[trigger] in_component(comps, i, node) implies index@.contains_key(node) && index@[node] == i by {
                if i == c {
                    let m = choose|m: int| 0 <= m < component@.len() && component@[m] == node;
                    assert(index@.contains_key(component@[m]));
                }
            }
        }
        c = c + 1;
    }
    index
}

/// The entries of `rows`.
pub open spec fn row_views(rows: Seq<Vec<usize>>) -> Seq<Seq<usize>> {
    rows.map_values(|row: Vec<usize>| row@)
}

/// Some of the first `upto` edges leads from component `from` to component
/// `to`.
pub open spec fn edge_between(edges: Seq<(u32, u32)>, upto: int, index: Map<u32, usize>, from: int, to: usize) -> bool {
    exists|f: int| 0 <= f < upto && index[#[trigger] edges[f].0] == from && index[edges[f].1] == to
}

/// For each of `count` components, the components that its edges lead to,
/// other than itself.
fn component_dependencies(edges: &Vec<(u32, u32)>, index: &FxHashMap<u32, usize>, count: usize) -> (rows: Vec<Vec<usize>>)
    requires
        forall|e: int|
            #![trigger edges@[e]]
            0 <= e < edges@.len() ==> index@.contains_key(edges@[e].0) && index@.contains_key(edges@[e].1)
                && index@[edges@[e].1] <= index@[edges@[e].0] < count,
    ensures
        rows@.len() == count,
        forall|c: int, i: int| 0 <= c < count && 0 <= i < row_views(rows@)[c].len() ==> #[trigger] row_views(rows@)[c][i] < c,
        forall|c: int, i: int|
            0 <= c < count && 0 <= i < row_views(rows@)[c].len() ==> edge_between(edges@, edges@.len() as int, index@, c, #[trigger] row_views(rows@)[c][i]),
        forall|e: int|
            0 <= e < edges@.len() && index@[#[trigger] edges@[e].0] != index@[edges@[e].1] ==> row_views(rows@)[index@[edges@[e].0] as int].contains(
                index@[edges@[e].1],
            ),
{
    let mut rows: Vec<Vec<usize>> = Vec::new();
    while rows.len() < count
        invariant
            rows@.len() <= count,
            forall|c: int| 0 <= c < rows@.len() ==> #[trigger] rows@[c]@.len() == 0,
            forall|e: int|
                #![trigger edges@[e]]
                0 <= e < edges@.len() ==> index@.contains_key(edges@[e].0) && index@.contains_key(edges@[e].1)
                    && index@[edges@[e].1] <= index@[edges@[e].0] < count,
        decreases count - rows@.len(),
    {
        rows.push(Vec::new());
    }
    let mut e: usize = 0;
    while e < edges.len()
        invariant
            e <= edges@.len(),
            rows@.len() == count,
            forall|e: int|
                #![trigger edges@[e]]
                0 <= e < edges@.len() ==> index@.contains_key(edges@[e].0) && index@.contains_key(edges@[e].1)
                    && index@[edges@[e].1] <= index@[edges@[e].0] < count,
            forall|c: int, i: int| 0 <= c < count && 0 <= i < row_views(rows@)[c].len() ==> #[trigger] row_views(rows@)[c][i] < c,
            forall|c: int, i: int|
                0 <= c < count && 0 <= i < row_views(rows@)[c].len() ==> edge_between(edges@, e as int, index@, c, #[trigger] row_views(rows@)[c][i]),
            forall|f: int|
                0 <= f < e && index@[#[trigger] edges@[f].0] != index@[edges@[f].1] ==> row_views(rows@)[index@[edges@[f].0] as int].contains(
                    index@[edges@[f].1],
                ),
        decreases edges@.len() - e,
    {
        let (from, to) = edges[e];
        let a = map_get(index, &from).unwrap();
        let b = map_get(index, &to).unwrap();
        let ghost before = row_views(rows@);
        if a != b {
            rows[a].push(b);
        }
        proof {
            let after = row_views(rows@);
            assert(after.len() == count);
            assert forall|c: int| 0 <= c < count && c != a implies after[c] == before[c] by {}
            if a != b {
                assert(after[a as int] == before[a as int].push(b));
            } else {
                assert(after =~= before);
            }
            assert forall|c: int, i: int| 0 <= c < count && 0 <= i < after[c].len() implies edge_between(edges@, e + 1, index@, c, #[trigger] after[c][i]) by {
                if a != b && c == a && i == before[c].len() {
                    assert(edges@[e as int].0 == from);
                    assert(index@[edges@[e as int].0] == c && index@[edges@[e as int].1] == after[c][i]);
                } else {
                    assert(after[c][i] == before[c][i]);
                    assert(edge_between(edges@, e as int, index@, c, before[c][i]));
                    let f = choose|f: int| 0 <= f < e && index@[#[trigger] edges@[f].0] == c && index@[edges@[f].1] == before[c][i];
                    assert(index@[edges@[f].0] == c && index@[edges@[f].1] == after[c][i]);
                }
            }
            assert forall|f: int|
                0 <= f < e + 1 && index@[#[trigger] edges@[f].0] != index@[edges@[f].1] implies after[index@[edges@[f].0] as int].contains(
                    index@[edges@[f].1],
                ) by {
                if f == e {
                    assert(after[a as int][after[a as int].len() - 1] == b);
                } else {
                    let c = index@[edges@[f].0] as int;
                    let i = choose|i: int| 0 <= i < before[c].len() && before[c][i] == index@[edges@[f].1];
                    assert(after[c][i] == before[c][i]);
                }
            }
        }
        e = e + 1;
    }
    rows
}

/// Each edge from group `later` leads into itself or into one of the
/// groups before `emitted`.
pub open spec fn ready_after(edges: Set<(u32, u32)>, groups: Seq<Seq<u32>>, emitted: int, later: int) -> bool {
    forall|k: int, from: u32, to: u32|
        #![trigger in_component(groups, later, from), in_component(groups, k, to)]
        in_component(groups, later, from) && in_component(groups, k, to) && edges.contains((from, to)) ==> k
            < emitted || k == later
}

/// The components of `components` in the order `order`.
pub open spec fn reordered(components: Seq<Seq<u32>>, order: Seq<usize>) -> Seq<Seq<u32>> {
    Seq::new(order.len(), |i: int| components[order[i] as int])
}

/// Some edge leads from component `from` to component `to`.
pub open spec fn linked(edges: Set<(u32, u32)>, components: Seq<Seq<u32>>, from: int, to: int) -> bool {
    exists|a: u32, b: u32|
        #![trigger in_component(components, from, a), in_component(components, to, b)]
        in_component(components, from, a) && in_component(components, to, b) && edges.contains((a, b))
}

/// A list of `count` distinct indices below `count` holds each of them.
proof fn lemma_indices_cover(order: Seq<usize>, count: nat)
    requires
        order.no_duplicates(),
        order.len() == count,
        forall|i: int| 0 <= i < order.len() ==> #[trigger] order[i] < count,
        count <= usize::MAX + 1,
    ensures
        forall|c: usize| c < count ==> #[trigger] order.contains(c),
{
    assert forall|c: usize| c < count implies #[trigger] order.contains(c) by {
        if !order.contains(c) {
            let all = Seq::new(count, |i: int| i as usize);
            assert(all.no_duplicates());
            all.unique_seq_to_set();
            order.unique_seq_to_set();
            assert forall|x: usize| order.to_set().contains(x) implies all.to_set().remove(c).contains(x) by {
                let i = choose|i: int| 0 <= i < order.len() && order[i] == x;
                assert(all[x as int] == x);
            }
            assert(all[c as int] == c);
            vstd::set_lib::lemma_len_subset(order.to_set(), all.to_set().remove(c));
        }
    }
}

/// Emitting the components of a dependency graph in an order that puts each
/// after the components it depends on keeps them the graph's components,
/// each edge leading to the same or an earlier one, and a greedy emission
/// picks at each step a ready component of smallest key.
proof fn lemma_emitted_components(
    nodes: Set<u32>,
    edges: Set<(u32, u32)>,
    components: Seq<Seq<u32>>,
    rows: Seq<Seq<usize>>,
    keys: Seq<u32>,
    order: Seq<usize>,
)
    requires
        reverse_topological_components(nodes, edges, components),
        rows.len() == components.len(),
        keys.len() == components.len(),
        components.len() <= usize::MAX,
        forall|c: int, i: int| 0 <= c < rows.len() && 0 <= i < rows[c].len() ==> #[trigger] rows[c][i] < c,
        forall|c: int, i: int|
            0 <= c < rows.len() && 0 <= i < rows[c].len() ==> linked(edges, components, c, #[trigger] rows[c][i] as int),
        forall|c: int, d: int, from: u32, to: u32|
            #![trigger in_component(components, c, from), in_component(components, d, to)]
            in_component(components, c, from) && in_component(components, d, to) && edges.contains((from, to)) && c
                != d ==> rows[c].contains(d as usize),
        greedy_emission(keys, rows, order),
    ensures
        reverse_topological_components(nodes, edges, reordered(components, order)),
        forall|i: int, j: int|
            0 <= i < j < order.len() && ready_after(edges, reordered(components, order), i, j) ==> #[trigger] keys[order[i] as int]
                <= #[trigger] keys[order[j] as int],
{
    let groups = reordered(components, order);
    let n = components.len();
    lemma_indices_cover(order, n);
    assert forall|i: int, node: u32| #[trigger] in_component(groups, i, node) implies in_component(components, order[i] as int, node) by {}
    assert forall|i: int| 0 <= i < groups.len() implies #[trigger] groups[i].len() > 0 && groups[i].no_duplicates() by {
        assert(groups[i] == components[order[i] as int]);
    }
    assert forall|node: u32| #[trigger] nodes.contains(node) implies exists|i: int| #[trigger] in_component(groups, i, node) by {
        let c = choose|c: int| #[trigger] in_component(components, c, node);
        assert(order.contains(c as usize));
        let i = choose|i: int| 0 <= i < order.len() && order[i] == c as usize;
        assert(in_component(groups, i, node));
    }
    assert forall|i: int, k: int, node: u32|
        #![trigger in_component(groups, i, node), in_component(groups, k, node)]
        in_component(groups, i, node) && in_component(groups, k, node) implies i == k by {
        assert(in_component(components, order[i] as int, node));
        assert(in_component(components, order[k] as int, node));
    }
    assert forall|i: int, k: int, from: u32, to: u32|
        #![trigger in_component(groups, i, from), in_component(groups, k, to)]
        in_component(groups, i, from) && in_component(groups, k, to) && edges.contains((from, to)) implies k <= i by {
        let c = order[i] as int;
        let d = order[k] as int;
        assert(in_component(components, c, from));
        assert(in_component(components, d, to));
        if c != d {
            assert(rows[c].contains(d as usize));
            let t = choose|t: int| 0 <= t < rows[c].len() && rows[c][t] == d as usize;
            assert(is_ready(rows, order.take(i), order[i] as int));
            assert(order.take(i).contains(rows[c][t]));
            let m = choose|m: int| 0 <= m < i && order.take(i)[m] == d as usize;
            assert(order[m] == order[k]);
        }
    }
    assert forall|i: int, k: int, from: u32, to: u32|
        #![trigger in_component(groups, i, from), in_component(groups, k, to)]
        in_component(groups, i, from) && in_component(groups, k, to) implies ((i == k) == (edge_reaches(edges, from, to)
            && edge_reaches(edges, to, from))) by {
        assert(in_component(components, order[i] as int, from));
        assert(in_component(components, order[k] as int, to));
    }
    assert forall|i: int, j: int|
        0 <= i < j < order.len() && ready_after(edges, groups, i, j) implies #[trigger] keys[order[i] as int]
            <= #[trigger] keys[order[j] as int] by {
        let c = order[j] as int;
        assert forall|t: int| 0 <= t < rows[c].len() implies order.take(i).contains(#[trigger] rows[c][t]) by {
            let d = rows[c][t];
            assert(linked(edges, components, c, d as int));
            let (from, to) = choose|from: u32, to: u32|
                #![trigger in_component(components, c, from), in_component(components, d as int, to)]
                in_component(components, c, from) && in_component(components, d as int, to) && edges.contains((from, to));
            assert(order.contains(d));
            let m = choose|m: int| 0 <= m < order.len() && order[m] == d;
            assert(in_component(groups, j, from));
            assert(in_component(groups, m, to));
            assert(m < i || m == j);
            assert(m != j);
            assert(order.take(i)[m] == d);
        }
        assert(is_ready(rows, order.take(i), c));
        if order.take(i).contains(c as usize) {
            let m = choose|m: int| 0 <= m < i && order.take(i)[m] == c as usize;
            assert(order[m] == order[j]);
        }
    }
}

/// The bindings of the module's items: the top-level bindings.
pub open spec fn item_bindings(core: CoreModule) -> Set<u32> {
    Set::new(|binding: u32| exists|item: u32| #[trigger] core.items@.contains_key(item) && core.items@[item].0 == binding)
}

/// The bindings that top-level binding `binding` depends on.
pub open spec fn binding_dependency_set(core: CoreModule, file: FileId, binding: u32) -> Set<u32> {
    match core.bindings@[binding as int].value {
        CoreBindingValue::Expression(value) => dependencies_from(core, file, item_bindings(core), value.0),
        CoreBindingValue::External(_) => Set::empty(),
    }
}

/// The edges of the dependency graph: from each top-level binding to each
/// binding it depends on.
pub open spec fn dependency_edges(core: CoreModule, file: FileId) -> Set<(u32, u32)> {
    Set::new(
        |edge: (u32, u32)|
            item_bindings(core).contains(edge.0) && binding_dependency_set(core, file, edge.0).contains(edge.1),
    )
}

/// The nodes that the edges of `edges` lead to.
pub open spec fn edge_targets(edges: Set<(u32, u32)>) -> Set<u32> {
    Set::new(|node: u32| exists|from: u32| #[trigger] edges.contains((from, node)))
}

/// The nodes of the dependency graph: the top-level bindings and those they
/// depend on.
pub open spec fn dependency_nodes(core: CoreModule, file: FileId) -> Set<u32> {
    item_bindings(core).union(edge_targets(dependency_edges(core, file)))
}

/// `groups` are the binding groups of the top-level bindings of `core`: the
/// strongly connected components of the dependency graph, each after those
/// it depends on, each in source order, and at each point the ready group
/// whose first binding comes first in source order.
pub open spec fn top_level_grouping(core: CoreModule, file: FileId, groups: Seq<Seq<u32>>) -> bool {
    &&& reverse_topological_components(dependency_nodes(core, file), dependency_edges(core, file), groups)
    &&& forall|i: int| 0 <= i < groups.len() ==> in_binding_order(core, #[trigger] groups[i])
    &&& forall|i: int, j: int|
        0 <= i < j < groups.len() && ready_after(dependency_edges(core, file), groups, i, j) ==> binding_order(
            core,
            #[trigger] groups[i][0],
        ) <= binding_order(core, #[trigger] groups[j][0])
}

/// The binding identifiers of each group.
pub open spec fn group_bindings(groups: Seq<CoreBindingGroup>) -> Seq<Seq<u32>> {
    groups.map_values(|group: CoreBindingGroup| binding_id_values(group.bindings@))
}

/// What grouping needs of a module: well-formed expressions, identifiers of
/// bindings that exist, and room for the new groups.
pub open spec fn grouping_ready(core: CoreModule) -> bool {
    &&& dependency_graph_wf(core, item_bindings(core))
    &&& core.expressions@.len() <= u32::MAX
    &&& core.binding_groups@.len() + core.bindings@.len() < u32::MAX
    &&& forall|item: u32| #[trigger] core.items@.contains_key(item) ==> core.items@[item].0 < core.bindings@.len()
    &&& forall|i: int| 0 <= i < core.instances@.len() ==> (#[trigger] core.instances@[i]).1.0 < core.bindings@.len()
    &&& forall|b: int|
        0 <= b < core.bindings@.len() ==> ((#[trigger] core.bindings@[b]).value matches CoreBindingValue::Expression(
            value,
        ) ==> value.0 < core.expressions@.len())
}

/// Every node of the dependency graph is a binding of the module.
proof fn lemma_dependency_nodes_bounded(core: CoreModule, file: FileId)
    requires
        grouping_ready(core),
    ensures
        forall|node: u32| #[trigger] dependency_nodes(core, file).contains(node) ==> node < core.bindings@.len(),
{
    assert forall|node: u32| #[trigger] dependency_nodes(core, file).contains(node) implies node < core.bindings@.len() by {
        if !item_bindings(core).contains(node) {
            let from = choose|from: u32| #[trigger] dependency_edges(core, file).contains((from, node));
            assert(binding_dependency_set(core, file, from).contains(node));
            let value = match core.bindings@[from as int].value {
                CoreBindingValue::Expression(value) => value,
                CoreBindingValue::External(_) => CoreExpressionId(0),
            };
            assert(dependencies_from(core, file, item_bindings(core), value.0).contains(node));
            let expression = choose|expression: u32|
                expression < core.expressions@.len() && #[trigger] reachable(core, item_bindings(core), value.0, expression)
                    && referenced_binding(core, file, core.expressions@[expression as int]) == Some(node);
            match core.expressions@[expression as int] {
                CoreExpression::Variable(CoreVariable::Instance(origin)) => {
                    lemma_table_entry(core.instances@, origin);
                    let i = choose|i: int| 0 <= i < core.instances@.len() && #[trigger] core.instances@[i] == (
                        origin,
                        table_map(core.instances@)[origin],
                    );
                    assert(core.instances@[i].1.0 < core.bindings@.len());
                },
                _ => {},
            }
        }
    }
}

/// Disjoint, non-empty components of bindings below `bound` are at most
/// `bound` many.
proof fn lemma_component_count(components: Seq<Seq<u32>>, bound: nat)
    requires
        bound <= u32::MAX,
        forall|i: int| 0 <= i < components.len() ==> #[trigger] components[i].len() > 0,
        forall|i: int, node: u32| #[trigger] in_component(components, i, node) ==> node < bound,
        forall|i: int, k: int, node: u32|
            #![trigger in_component(components, i, node), in_component(components, k, node)]
            in_component(components, i, node) && in_component(components, k, node) ==> i == k,
    ensures
        components.len() <= bound,
{
    let firsts = Seq::new(components.len(), |i: int| components[i][0]);
    assert forall|i: int, k: int| 0 <= i < firsts.len() && 0 <= k < firsts.len() && i != k implies firsts[i] != firsts[k] by {
        assert(in_component(components, i, components[i][0]));
        assert(in_component(components, k, components[k][0]));
    }
    assert forall|x: u32| #[trigger] firsts.to_set().contains(x) implies x < bound by {
        let i = choose|i: int| 0 <= i < firsts.len() && firsts[i] == x;
        assert(in_component(components, i, components[i][0]));
    }
    lemma_bounded_set_len(firsts.to_set(), bound);
    firsts.unique_seq_to_set();
}

/// Listing the nodes of each component in another order keeps them the
/// graph's components.
proof fn lemma_components_rearranged(
    nodes: Set<u32>,
    edges: Set<(u32, u32)>,
    components: Seq<Seq<u32>>,
    rearranged: Seq<Seq<u32>>,
)
    requires
        reverse_topological_components(nodes, edges, components),
        rearranged.len() == components.len(),
        forall|i: int|
            0 <= i < components.len() ==> (#[trigger] rearranged[i]).to_set() == components[i].to_set()
                && rearranged[i].no_duplicates() && rearranged[i].len() == components[i].len(),
    ensures
        reverse_topological_components(nodes, edges, rearranged),
{
    assert forall|i: int, node: u32| in_component(rearranged, i, node) <==> in_component(components, i, node) by {
        if 0 <= i < components.len() {
            assert(rearranged[i].to_set().contains(node) == rearranged[i].contains(node));
            assert(components[i].to_set().contains(node) == components[i].contains(node));
        }
    }
    assert forall|i: int| 0 <= i < rearranged.len() implies #[trigger] rearranged[i].len() > 0 && rearranged[i].no_duplicates() by {
        assert(components[i].len() > 0);
    }
    assert forall|node: u32| #[trigger] nodes.contains(node) implies exists|i: int| #[trigger] in_component(rearranged, i, node) by {
        let i = choose|i: int| #[trigger] in_component(components, i, node);
        assert(in_component(rearranged, i, node));
    }
}

/// The groups that `after` has beyond those of `before`.
pub open spec fn added_groups(before: CoreModule, after: CoreModule) -> Seq<CoreBindingGroup> {
    after.binding_groups@.skip(before.binding_groups@.len() as int)
}

/// The lookup tables of the two modules agree.
pub open spec fn same_lookups(a: CoreModule, b: CoreModule) -> bool {
    &&& a.items == b.items
    &&& a.instances == b.instances
    &&& a.lets == b.lets
    &&& a.expressions_by_source == b.expressions_by_source
    &&& a.expressions_by_core == b.expressions_by_core
    &&& a.expression_types == b.expression_types
    &&& a.pun_types == b.pun_types
    &&& a.patterns_by_source == b.patterns_by_source
    &&& a.pattern_types == b.pattern_types
    &&& a.binding_types == b.binding_types
}

/// The edges collected so far: those from the bindings of `done`, and those
/// from `current` to the bindings of `targets`.
pub open spec fn collected_edges(core: CoreModule, file: FileId, done: Seq<u32>, current: u32, targets: Seq<u32>) -> Set<
    (u32, u32),
> {
    Set::new(
        |edge: (u32, u32)|
            dependency_edges(core, file).contains(edge) && (done.contains(edge.0) || (edge.0 == current
                && targets.contains(edge.1))),
    )
}

/// The raw identifiers of `ids`.
pub open spec fn binding_id_values(ids: Seq<CoreBindingId>) -> Seq<u32> {
    ids.map_values(|binding: CoreBindingId| binding.0)
}

/// The identifiers of `bindings`.
fn binding_ids(bindings: &Vec<u32>) -> (ids: Vec<CoreBindingId>)
    ensures
        binding_id_values(ids@) == bindings@,
{
    let mut ids: Vec<CoreBindingId> = Vec::new();
    let mut k: usize = 0;
    while k < bindings.len()
        invariant
            k <= bindings@.len(),
            ids@.len() == k,
            binding_id_values(ids@) == bindings@.take(k as int),
        decreases bindings@.len() - k,
    {
        let ghost before = ids@;
        ids.push(CoreBindingId(bindings[k]));
        proof {
            assert forall|j: int| 0 <= j < k + 1 implies #[trigger] binding_id_values(ids@)[j] == bindings@.take(k + 1)[j] by {
                if j < k {
                    assert(ids@[j] == before[j]);
                    assert(binding_id_values(before)[j] == bindings@.take(k as int)[j]);
                }
            }
            assert(binding_id_values(ids@) =~= bindings@.take(k + 1));
        }
        k = k + 1;
    }
    proof {
        assert(bindings@.take(k as int) =~= bindings@);
    }
    ids
}

impl CoreModule {
    /// The top-level bindings, each once, and the set of them.
    fn top_level_bindings(&self) -> (bindings: (Vec<u32>, FxHashSet<u32>))
        ensures
            bindings.0@.to_set() == item_bindings(*self),
            bindings.1@ == item_bindings(*self),
    {
        let values = map_value_list(&self.items);
        let mut list: Vec<u32> = Vec::new();
        let mut set: FxHashSet<u32> = FxHashSet::default();
        let mut k: usize = 0;
        while k < values.len()
            invariant
                k <= values@.len(),
                list@.len() == k,
                forall|j: int| 0 <= j < k ==> #[trigger] list@[j] == values@[j].0,
                set@ == list@.to_set(),
            decreases values@.len() - k,
        {
            let binding = values[k].0;
            let ghost before = list@;
            list.push(binding);
            set_insert(&mut set, binding);
            proof {
                assert(list@ == before.push(binding));
                assert(set@ =~= list@.to_set()) by {
                    assert forall|x: u32| list@.to_set().contains(x) implies set@.contains(x) by {
                        let j = choose|j: int| 0 <= j < list@.len() && list@[j] == x;
                        if j < k {
                            assert(before[j] == x);
                            assert(before.to_set().contains(x));
                        }
                    }
                    assert forall|x: u32| set@.contains(x) implies list@.to_set().contains(x) by {
                        if x != binding {
                            assert(before.to_set().contains(x));
                            let j = choose|j: int| 0 <= j < before.len() && before[j] == x;
                            assert(list@[j] == x);
                        } else {
                            assert(list@[k as int] == x);
                        }
                    }
                }
            }
            k = k + 1;
        }
        proof {
            assert(list@.to_set() =~= item_bindings(*self)) by {
                assert forall|x: u32| list@.to_set().contains(x) implies item_bindings(*self).contains(x) by {
                    let j = choose|j: int| 0 <= j < list@.len() && list@[j] == x;
                    assert(values@.to_set().contains(values@[j]));
                    assert(self.items@.values().contains(values@[j]));
                    let item = choose|item: u32| #[trigger] self.items@.contains_key(item) && self.items@[item] == values@[j];
                    assert(self.items@.contains_key(item) && self.items@[item].0 == x);
                }
                assert forall|x: u32| item_bindings(*self).contains(x) implies list@.to_set().contains(x) by {
                    let item = choose|item: u32| #[trigger] self.items@.contains_key(item) && self.items@[item].0 == x;
                    assert(self.items@.values().contains(self.items@[item]));
                    assert(values@.to_set().contains(self.items@[item]));
                    let j = choose|j: int| 0 <= j < values@.len() && values@[j] == self.items@[item];
                    assert(list@[j] == x);
                }
            }
        }
        (list, set)
    }
}

impl CoreModule {
    /// The dependency graph of the top-level bindings `list`, which `top`
    /// also holds.
    fn dependency_graph(&self, file_id: FileId, list: &Vec<u32>, top: &FxHashSet<u32>) -> (graph: GraphMap<
        u32,
        (),
        Directed,
        FxBuildHasher,
    >)
        requires
            grouping_ready(*self),
            list@.to_set() == item_bindings(*self),
            top@ == item_bindings(*self),
        ensures
            graph_nodes(graph) == dependency_nodes(*self, file_id),
            graph_edges(graph) == dependency_edges(*self, file_id),
    {
        let ghost core = *self;
        let ghost top_set = item_bindings(core);
        let mut graph = new_graph();
        let mut k: usize = 0;
        while k < list.len()
            invariant
                k <= list@.len(),
                graph_nodes(graph) == list@.take(k as int).to_set(),
                graph_edges(graph) == Set::<(u32, u32)>::empty(),
            decreases list@.len() - k,
        {
            add_graph_node(&mut graph, list[k]);
            proof {
                let next = list@.take(k + 1);
                assert(next == list@.take(k as int).push(list@[k as int]));
                assert(graph_nodes(graph) =~= next.to_set()) by {
                    assert forall|x: u32| next.to_set().contains(x) implies graph_nodes(graph).contains(x) by {
                        let j = choose|j: int| 0 <= j < next.len() && next[j] == x;
                        if j < k {
                            assert(list@.take(k as int)[j] == x);
                            assert(list@.take(k as int).to_set().contains(x));
                        }
                    }
                    assert forall|x: u32| graph_nodes(graph).contains(x) implies next.to_set().contains(x) by {
                        if x != list@[k as int] {
                            let prev = list@.take(k as int);
                            let j = choose|j: int| 0 <= j < prev.len() && prev[j] == x;
                            assert(next[j] == x);
                        } else {
                            assert(next[k as int] == x);
                        }
                    }
                }
            }
            k = k + 1;
        }
        proof {
            assert(list@.take(k as int) =~= list@);
            assert(collected_edges(core, file_id, list@.take(0), 0, Seq::empty()) =~= Set::<(u32, u32)>::empty());
        }
        k = 0;
        while k < list.len()
            invariant
                core == *self,
                top_set == item_bindings(core),
                grouping_ready(core),
                list@.to_set() == top_set,
                top@ == top_set,
                k <= list@.len(),
                graph_edges(graph) == collected_edges(core, file_id, list@.take(k as int), 0, Seq::empty()),
                graph_nodes(graph) == top_set.union(edge_targets(graph_edges(graph))),
            decreases list@.len() - k,
        {
            let binding = list[k];
            proof {
                assert(list@.to_set().contains(binding));
                let item = choose|item: u32| #[trigger] core.items@.contains_key(item) && core.items@[item].0 == binding;
                let b = binding as int;
                assert(core.bindings@[b] == core.bindings@[b]);
            }
            let dependencies = self.binding_dependencies(file_id, CoreBindingId(binding), top);
            let targets = set_elements(&dependencies);
            proof {
                assert(dependencies@ == binding_dependency_set(core, file_id, binding));
                assert(graph_edges(graph) =~= collected_edges(core, file_id, list@.take(k as int), binding, targets@.take(0)));
            }
            let mut m: usize = 0;
            while m < targets.len()
                invariant
                    core == *self,
                    top_set == item_bindings(core),
                    top_set.contains(binding),
                    k < list@.len(),
                    binding == list@[k as int],
                    targets@.to_set() == binding_dependency_set(core, file_id, binding),
                    m <= targets@.len(),
                    graph_edges(graph) == collected_edges(core, file_id, list@.take(k as int), binding, targets@.take(m as int)),
                    graph_nodes(graph) == top_set.union(edge_targets(graph_edges(graph))),
                decreases targets@.len() - m,
            {
                let target = targets[m];
                let ghost edges_before = graph_edges(graph);
                add_graph_edge(&mut graph, binding, target);
                proof {
                    assert(targets@.to_set().contains(target));
                    assert(dependency_edges(core, file_id).contains((binding, target)));
                    let next = targets@.take(m + 1);
                    assert(next == targets@.take(m as int).push(target));
                    assert(graph_edges(graph) =~= collected_edges(core, file_id, list@.take(k as int), binding, next)) by {
                        assert forall|edge: (u32, u32)| collected_edges(core, file_id, list@.take(k as int), binding, next).contains(edge)
                            implies graph_edges(graph).contains(edge) by {
                            if !list@.take(k as int).contains(edge.0) && edge != (binding, target) {
                                let j = choose|j: int| 0 <= j < next.len() && next[j] == edge.1;
                                assert(j != m);
                                assert(targets@.take(m as int)[j] == edge.1);
                            }
                        }
                        assert forall|edge: (u32, u32)| graph_edges(graph).contains(edge) implies collected_edges(core, file_id, list@.take(k as int), binding, next).contains(edge) by {
                            if edge != (binding, target) {
                                assert(edges_before.contains(edge));
                                if !list@.take(k as int).contains(edge.0) {
                                    let prev = targets@.take(m as int);
                                    let j = choose|j: int| 0 <= j < prev.len() && prev[j] == edge.1;
                                    assert(next[j] == edge.1);
                                }
                            } else {
                                assert(next[m as int] == target);
                            }
                        }
                    }
                    assert(graph_nodes(graph) =~= top_set.union(edge_targets(graph_edges(graph)))) by {
                        assert(graph_edges(graph).contains((binding, target)));
                        assert(edge_targets(graph_edges(graph)).contains(target));
                        assert forall|x: u32| edge_targets(edges_before).contains(x) implies edge_targets(graph_edges(graph)).contains(x) by {
                            let from = choose|from: u32| #[trigger] edges_before.contains((from, x));
                            assert(graph_edges(graph).contains((from, x)));
                        }
                        assert forall|x: u32| edge_targets(graph_edges(graph)).contains(x) implies x == target || edge_targets(edges_before).contains(x) by {
                            let from = choose|from: u32| #[trigger] graph_edges(graph).contains((from, x));
                            if (from, x) != (binding, target) {
                                assert(edges_before.contains((from, x)));
                            }
                        }
                    }
                }
                m = m + 1;
            }
            proof {
                assert(targets@.take(m as int) =~= targets@);
                let next = list@.take(k + 1);
                let prev = list@.take(k as int);
                assert(next == prev.push(binding));
                assert(graph_edges(graph) =~= collected_edges(core, file_id, next, 0, Seq::empty())) by {
                    assert forall|edge: (u32, u32)| graph_edges(graph).contains(edge)
                        implies collected_edges(core, file_id, next, 0, Seq::empty()).contains(edge) by {
                        if prev.contains(edge.0) {
                            let j = choose|j: int| 0 <= j < prev.len() && prev[j] == edge.0;
                            assert(next[j] == edge.0);
                        } else {
                            assert(next[k as int] == edge.0);
                        }
                    }
                    assert forall|edge: (u32, u32)| collected_edges(core, file_id, next, 0, Seq::empty()).contains(edge)
                        implies graph_edges(graph).contains(edge) by {
                        let j = choose|j: int| 0 <= j < next.len() && next[j] == edge.0;
                        if j < k {
                            assert(prev[j] == edge.0);
                        } else {
                            assert(binding_dependency_set(core, file_id, binding).contains(edge.1));
                            assert(targets@.to_set().contains(edge.1));
                        }
                    }
                }
            }
            k = k + 1;
        }
        proof {
            assert(list@.take(k as int) =~= list@);
            assert(graph_edges(graph) =~= dependency_edges(core, file_id)) by {
                assert forall|edge: (u32, u32)| dependency_edges(core, file_id).contains(edge) implies graph_edges(graph).contains(edge) by {
                    assert(top_set.contains(edge.0));
                    assert(list@.to_set().contains(edge.0));
                }
            }
        }
        graph
    }
}

impl CoreModule {
    /// Groups the top-level bindings: one binding group per strongly
    /// connected component of their dependency graph, each after the groups
    /// it depends on and, among the groups ready at each point, the one whose
    /// first binding comes first in source order; the bindings of a group are
    /// in source order. The groups are added to the module and appended to
    /// its top-level groups. A group is recursive when it holds several
    /// bindings or its binding depends on itself.
    pub fn group_top_level_bindings(&mut self, file_id: FileId)
        requires
            grouping_ready(*old(self)),
        ensures
            final(self).expressions == old(self).expressions,
            final(self).patterns == old(self).patterns,
            final(self).alternatives == old(self).alternatives,
            final(self).bindings == old(self).bindings,
            same_lookups(*final(self), *old(self)),
            final(self).binding_groups@.len() >= old(self).binding_groups@.len(),
            final(self).binding_groups@.take(old(self).binding_groups@.len() as int) == old(self).binding_groups@,
            final(self).top_level@ == old(self).top_level@ + Seq::new(
                added_groups(*old(self), *final(self)).len(),
                |i: int| CoreBindingGroupId((old(self).binding_groups@.len() + i) as u32),
            ),
            top_level_grouping(*old(self), file_id, group_bindings(added_groups(*old(self), *final(self)))),
            forall|i: int|
                0 <= i < added_groups(*old(self), *final(self)).len() ==> (#[trigger] added_groups(
                    *old(self),
                    *final(self),
                )[i]).recursive == (added_groups(*old(self), *final(self))[i].bindings@.len() > 1 || dependency_edges(
                    *old(self),
                    file_id,
                ).contains(
                    (
                        added_groups(*old(self), *final(self))[i].bindings@[0].0,
                        added_groups(*old(self), *final(self))[i].bindings@[0].0,
                    ),
                )),
    {
        let ghost core = *self;
        let ghost nodes = dependency_nodes(core, file_id);
        let ghost edges = dependency_edges(core, file_id);
        let (list, top) = self.top_level_bindings();
        let graph = self.dependency_graph(file_id, &list, &top);
        let components = strongly_connected_components(&graph);
        proof {
            lemma_dependency_nodes_bounded(core, file_id);
        }
        let mut sorted: Vec<Vec<u32>> = Vec::new();
        let mut c: usize = 0;
        while c < components.len()
            invariant
                core == *self,
                nodes == dependency_nodes(core, file_id),
                edges == dependency_edges(core, file_id),
                reverse_topological_components(nodes, edges, component_views(components@)),
                forall|node: u32| #[trigger] nodes.contains(node) ==> node < core.bindings@.len(),
                c <= components@.len(),
                sorted@.len() == c,
                forall|j: int|
                    0 <= j < c ==> (#[trigger] component_views(sorted@)[j]).to_set() == component_views(components@)[j].to_set()
                        && component_views(sorted@)[j].no_duplicates() && component_views(sorted@)[j].len()
                        == component_views(components@)[j].len() && in_binding_order(core, component_views(sorted@)[j]),
            decreases components@.len() - c,
        {
            proof {
                let views = component_views(components@);
                assert(views[c as int] == components@[c as int]@);
                assert(views[c as int].no_duplicates());
                assert forall|i: int| 0 <= i < components@[c as int]@.len() implies #[trigger] components@[c as int]@[i] < self.bindings@.len() by {
                    assert(in_component(views, c as int, views[c as int][i]));
                }
            }
            let component = self.sort_component(&components[c]);
            let ghost before = sorted@;
            sorted.push(component);
            proof {
                assert forall|j: int| 0 <= j < c + 1 implies (#[trigger] component_views(sorted@)[j]).to_set() == component_views(components@)[j].to_set()
                    && component_views(sorted@)[j].no_duplicates() && component_views(sorted@)[j].len()
                    == component_views(components@)[j].len() && in_binding_order(core, component_views(sorted@)[j]) by {
                    if j < c {
                        assert(sorted@[j] == before[j]);
                        assert(component_views(before)[j] == component_views(sorted@)[j]);
                    }
                }
            }
            c = c + 1;
        }
        let ghost groups = component_views(sorted@);
        proof {
            lemma_components_rearranged(nodes, edges, component_views(components@), groups);
            assert forall|i: int, node: u32| #[trigger] in_component(groups, i, node) implies node < core.bindings@.len() by {}
            lemma_component_count(groups, core.bindings@.len());
        }
        let count = sorted.len();
        let mut keys: Vec<u32> = Vec::new();
        let mut c: usize = 0;
        while c < count
            invariant
                core == *self,
                count == sorted@.len(),
                nodes == dependency_nodes(core, file_id),
                edges == dependency_edges(core, file_id),
                reverse_topological_components(nodes, edges, groups),
                count <= core.bindings@.len(),
                groups == component_views(sorted@),
                forall|i: int| 0 <= i < groups.len() ==> #[trigger] groups[i].len() > 0,
                forall|i: int, node: u32| #[trigger] in_component(groups, i, node) ==> node < core.bindings@.len(),
                c <= count,
                keys@.len() == c,
                forall|j: int| 0 <= j < c ==> #[trigger] keys@[j] == binding_order(core, groups[j][0]),
            decreases count - c,
        {
            proof {
                assert(groups[c as int] == sorted@[c as int]@);
                assert(in_component(groups, c as int, groups[c as int][0]));
            }
            let order = self.top_level_binding_order(CoreBindingId(sorted[c][0]));
            keys.push(order);
            c = c + 1;
        }
        let index = index_components(&sorted);
        let edge_list = graph_edge_list(&graph);
        proof {
            assert forall|e: int| #![trigger edge_list@[e]] 0 <= e < edge_list@.len() implies index@.contains_key(edge_list@[e].0)
                && index@.contains_key(edge_list@[e].1) && index@[edge_list@[e].1] <= index@[edge_list@[e].0] < count by {
                let (from, to) = edge_list@[e];
                assert(edge_list@.to_set().contains(edge_list@[e]));
                assert(edges.contains((from, to)));
                assert(nodes.contains(from));
                assert(edge_targets(edges).contains(to));
                assert(nodes.contains(to));
                let i = choose|i: int| #[trigger] in_component(groups, i, from);
                let k = choose|k: int| #[trigger] in_component(groups, k, to);
                assert(index@[from] == i && index@[to] == k);
            }
        }
        let rows = component_dependencies(&edge_list, &index, count);
        proof {
            assert forall|c: int, i: int|
                0 <= c < row_views(rows@).len() && 0 <= i < row_views(rows@)[c].len() implies linked(edges, groups, c, #[trigger] row_views(rows@)[c][i] as int) by {
                assert(edge_between(edge_list@, edge_list@.len() as int, index@, c, row_views(rows@)[c][i]));
                let f = choose|f: int|
                    0 <= f < edge_list@.len() && index@[#[trigger] edge_list@[f].0] == c && index@[edge_list@[f].1] == row_views(rows@)[c][i];
                let (from, to) = edge_list@[f];
                assert(edge_list@.to_set().contains(edge_list@[f]));
                assert(in_component(groups, c, from));
                assert(in_component(groups, row_views(rows@)[c][i] as int, to));
            }
            assert forall|c: int, d: int, from: u32, to: u32|
                #![trigger in_component(groups, c, from), in_component(groups, d, to)]
                in_component(groups, c, from) && in_component(groups, d, to) && edges.contains((from, to)) && c != d
                    implies row_views(rows@)[c].contains(d as usize) by {
                assert(edge_list@.to_set().contains((from, to)));
                let f = choose|f: int| 0 <= f < edge_list@.len() && edge_list@[f] == (from, to);
                assert(index@[edge_list@[f].0] != index@[edge_list@[f].1]);
            }
        }
        proof {
            assert forall|c: int, i: int|
                0 <= c < rows@.len() && 0 <= i < rows@[c]@.len() implies #[trigger] rows@[c]@[i] < c by {
                assert(row_views(rows@)[c] == rows@[c]@);
                assert(row_views(rows@)[c][i] < c);
            }
        }
        let order = emission_order(&keys, &rows);
        proof {
            lemma_emitted_components(nodes, edges, groups, row_views(rows@), keys@, order@);
        }
        let ghost old_groups = self.binding_groups@;
        let ghost old_top = self.top_level@;
        let ghost start = old_groups.len();
        let mut i: usize = 0;
        while i < order.len()
            invariant
                core.expressions == self.expressions,
                core.patterns == self.patterns,
                core.alternatives == self.alternatives,
                core.bindings == self.bindings,
                same_lookups(*self, core),
                old_groups == core.binding_groups@,
                old_top == core.top_level@,
                start == old_groups.len(),
                grouping_ready(core),
                count <= core.bindings@.len(),
                order@.len() == count,
                count == sorted@.len(),
                groups == component_views(sorted@),
                edges == dependency_edges(core, file_id),
                graph_edges(graph) == edges,
                forall|j: int| 0 <= j < groups.len() ==> #[trigger] groups[j].len() > 0,
                forall|j: int| 0 <= j < order@.len() ==> #[trigger] order@[j] < count,
                i <= order@.len(),
                self.binding_groups@.len() == start + i,
                self.binding_groups@.take(start as int) == old_groups,
                forall|j: int|
                    0 <= j < i ==> binding_id_values(#[trigger] self.binding_groups@[start + j].bindings@) == groups[order@[j] as int]
                        && self.binding_groups@[start + j].recursive == (groups[order@[j] as int].len() > 1 || edges.contains(
                        (groups[order@[j] as int][0], groups[order@[j] as int][0]),
                    )),
                self.top_level@ == old_top + Seq::new(i as nat, |j: int| CoreBindingGroupId((start + j) as u32)),
            decreases order@.len() - i,
        {
            let c = order[i];
            proof {
                assert(groups[c as int] == sorted@[c as int]@);
            }
            let bindings = binding_ids(&sorted[c]);
            let first = sorted[c][0];
            let recursive = sorted[c].len() > 1 || graph_has_edge(&graph, first, first);
            let ghost before = self.binding_groups@;
            let ghost top_before = self.top_level@;
            let id = self.allocate_binding_group(CoreBindingGroup { recursive, bindings });
            self.top_level.push(id);
            proof {
                assert(self.binding_groups@.take(start as int) =~= old_groups) by {
                    assert forall|j: int| 0 <= j < start implies self.binding_groups@[j] == before[j] by {}
                }
                assert forall|j: int|
                    0 <= j < i + 1 implies binding_id_values(#[trigger] self.binding_groups@[start + j].bindings@) == groups[order@[j] as int]
                        && self.binding_groups@[start + j].recursive == (groups[order@[j] as int].len() > 1 || edges.contains(
                        (groups[order@[j] as int][0], groups[order@[j] as int][0]),
                    )) by {
                    if j < i {
                        assert(self.binding_groups@[start + j] == before[start + j]);
                    }
                }
                assert(self.top_level@ =~= old_top + Seq::new((i + 1) as nat, |j: int| CoreBindingGroupId((start + j) as u32)));
            }
            i = i + 1;
        }
        proof {
            let added = added_groups(core, *self);
            assert(added.len() == count);
            assert(group_bindings(added) =~= reordered(groups, order@)) by {
                assert forall|j: int| 0 <= j < count implies #[trigger] group_bindings(added)[j] == reordered(groups, order@)[j] by {
                    assert(added[j] == self.binding_groups@[start + j]);
                }
            }
            let result = group_bindings(added);
            assert forall|j: int| 0 <= j < result.len() implies in_binding_order(core, #[trigger] result[j]) by {
                assert(result[j] == groups[order@[j] as int]);
                assert(in_binding_order(core, component_views(sorted@)[order@[j] as int]));
            }
            assert forall|a: int, b: int|
                0 <= a < b < result.len() && ready_after(edges, result, a, b) implies binding_order(core, #[trigger] result[a][0])
                    <= binding_order(core, #[trigger] result[b][0]) by {
                assert(keys@[order@[a] as int] <= keys@[order@[b] as int]);
            }
            assert forall|j: int| 0 <= j < added.len() implies (#[trigger] added[j]).recursive == (added[j].bindings@.len() > 1
                || edges.contains((added[j].bindings@[0].0, added[j].bindings@[0].0))) by {
                assert(added[j] == self.binding_groups@[start + j]);
                assert(binding_id_values(added[j].bindings@) == groups[order@[j] as int]);
                assert(binding_id_values(added[j].bindings@)[0] == added[j].bindings@[0].0);
            }
        }
    }
}

/// Each top-level binding is in exactly one group.
pub proof fn law_each_binding_grouped_once(core: CoreModule, file: FileId, groups: Seq<Seq<u32>>, binding: u32)
    requires
        top_level_grouping(core, file, groups),
        item_bindings(core).contains(binding),
    ensures
        exists|i: int| #[trigger] in_component(groups, i, binding),
        forall|i: int, k: int|
            #![trigger in_component(groups, i, binding), in_component(groups, k, binding)]
            in_component(groups, i, binding) && in_component(groups, k, binding) ==> i == k,
{
    assert(dependency_nodes(core, file).contains(binding));
}

/// Whatever a grouped top-level binding depends on is grouped as well, in
/// the same group or an earlier one.
pub proof fn law_dependencies_grouped_first(
    core: CoreModule,
    file: FileId,
    groups: Seq<Seq<u32>>,
    i: int,
    binding: u32,
    dependency: u32,
)
    requires
        top_level_grouping(core, file, groups),
        in_component(groups, i, binding),
        item_bindings(core).contains(binding),
        binding_dependency_set(core, file, binding).contains(dependency),
    ensures
        exists|k: int| k <= i && #[trigger] in_component(groups, k, dependency),
{
    let edges = dependency_edges(core, file);
    assert(edges.contains((binding, dependency)));
    assert(edge_targets(edges).contains(dependency));
    assert(dependency_nodes(core, file).contains(dependency));
    let k = choose|k: int| #[trigger] in_component(groups, k, dependency);
    assert(k <= i);
}

} // verus!
