//! Directed graphs of Core bindings, kept in `petgraph`'s `GraphMap`, and
//! their strongly connected components.
use std::hash::BuildHasher;

use petgraph::algo::tarjan_scc;
use petgraph::graphmap::GraphMap;
use petgraph::Directed;
use rustc_hash::FxBuildHasher;
use vstd::prelude::*;

verus! {

#[verifier::external_type_specification]
#[verifier::external_body]
#[verifier::reject_recursive_types(N)]
#[verifier::reject_recursive_types(E)]
#[verifier::reject_recursive_types(Ty)]
#[verifier::reject_recursive_types(S)]
pub struct ExGraphMap<N, E, Ty, S>(GraphMap<N, E, Ty, S>) where S: BuildHasher;

#[verifier::external_type_specification]
#[verifier::external_body]
pub struct ExDirected(Directed);

/// The nodes of a dependency graph.
pub uninterp spec fn graph_nodes(graph: GraphMap<u32, (), Directed, FxBuildHasher>) -> Set<u32>;

/// The edges of a dependency graph, each from a node to one it depends on.
pub uninterp spec fn graph_edges(graph: GraphMap<u32, (), Directed, FxBuildHasher>) -> Set<(u32, u32)>;

/// `path` follows edges of `edges`.
pub open spec fn edge_path(edges: Set<(u32, u32)>, path: Seq<u32>) -> bool {
    &&& path.len() > 0
    &&& forall|i: int| 0 <= i < path.len() - 1 ==> #[trigger] edge_step(edges, path, i)
}

/// The path goes along an edge from position `i` to the next.
pub open spec fn edge_step(edges: Set<(u32, u32)>, path: Seq<u32>, i: int) -> bool {
    edges.contains((path[i], path[i + 1]))
}

/// `to` can be reached from `from` along the edges.
pub open spec fn edge_reaches(edges: Set<(u32, u32)>, from: u32, to: u32) -> bool {
    exists|path: Seq<u32>| #[trigger] edge_path(edges, path) && path[0] == from && path.last() == to
}

/// The node lists of `components`.
pub open spec fn component_views(components: Seq<Vec<u32>>) -> Seq<Seq<u32>> {
    components.map_values(|component: Vec<u32>| component@)
}

/// Node `node` belongs to component `i` of `components`.
pub open spec fn in_component(components: Seq<Seq<u32>>, i: int, node: u32) -> bool {
    0 <= i < components.len() && components[i].contains(node)
}

/// `components` are the strongly connected components of the graph with
/// `nodes` and `edges`, each edge leading to the same or an earlier one: no
/// component is empty or holds a node twice, every node is in exactly one
/// component, and two nodes share a component exactly when each reaches the
/// other.
pub open spec fn reverse_topological_components(
    nodes: Set<u32>,
    edges: Set<(u32, u32)>,
    components: Seq<Seq<u32>>,
) -> bool {
    &&& forall|i: int| 0 <= i < components.len() ==> #[trigger] components[i].len() > 0 && components[i].no_duplicates()
    &&& forall|i: int, node: u32| #[trigger] in_component(components, i, node) ==> nodes.contains(node)
    &&& forall|node: u32| #[trigger] nodes.contains(node) ==> exists|i: int| #[trigger] in_component(components, i, node)
    &&& forall|i: int, k: int, node: u32|
        #![trigger in_component(components, i, node), in_component(components, k, node)]
        in_component(components, i, node) && in_component(components, k, node) ==> i == k
    &&& forall|i: int, k: int, from: u32, to: u32|
        #![trigger in_component(components, i, from), in_component(components, k, to)]
        in_component(components, i, from) && in_component(components, k, to) && edges.contains((from, to)) ==> k <= i
    &&& forall|i: int, k: int, from: u32, to: u32|
        #![trigger in_component(components, i, from), in_component(components, k, to)]
        in_component(components, i, from) && in_component(components, k, to) ==> ((i == k) == (edge_reaches(
            edges,
            from,
            to,
        ) && edge_reaches(edges, to, from)))
}

/// Calls `GraphMap::default`: a graph without nodes or edges.
#[verifier::external_body]
pub(crate) fn new_graph() -> (graph: GraphMap<u32, (), Directed, FxBuildHasher>)
    ensures
        graph_nodes(graph) == Set::<u32>::empty(),
        graph_edges(graph) == Set::<(u32, u32)>::empty(),
{
    GraphMap::default()
}

/// Calls `GraphMap::add_node`: the graph has `node` afterwards.
#[verifier::external_body]
pub(crate) fn add_graph_node(graph: &mut GraphMap<u32, (), Directed, FxBuildHasher>, node: u32)
    ensures
        graph_nodes(*final(graph)) == graph_nodes(*old(graph)).insert(node),
        graph_edges(*final(graph)) == graph_edges(*old(graph)),
{
    graph.add_node(node);
}

/// Calls `GraphMap::add_edge`: the graph has the edge from `from` to `to`
/// afterwards, and both its ends as nodes.
#[verifier::external_body]
pub(crate) fn add_graph_edge(graph: &mut GraphMap<u32, (), Directed, FxBuildHasher>, from: u32, to: u32)
    ensures
        graph_nodes(*final(graph)) == graph_nodes(*old(graph)).insert(from).insert(to),
        graph_edges(*final(graph)) == graph_edges(*old(graph)).insert((from, to)),
{
    graph.add_edge(from, to, ());
}

/// Calls `GraphMap::contains_edge`.
#[verifier::external_body]
pub(crate) fn graph_has_edge(graph: &GraphMap<u32, (), Directed, FxBuildHasher>, from: u32, to: u32) -> (found: bool)
    ensures
        found == graph_edges(*graph).contains((from, to)),
{
    graph.contains_edge(from, to)
}

/// Calls `GraphMap::all_edges` and copies out the ends of each edge, each
/// edge once, in the graph's order.
#[verifier::external_body]
pub(crate) fn graph_edge_list(graph: &GraphMap<u32, (), Directed, FxBuildHasher>) -> (edges: Vec<(u32, u32)>)
    ensures
        edges@.to_set() == graph_edges(*graph),
        edges@.no_duplicates(),
{
    graph.all_edges().map(|(from, to, _)| (from, to)).collect()
}

/// Calls `petgraph::algo::tarjan_scc`, which returns the strongly connected
/// components in postorder, that is in reverse topological order. The order
/// of the nodes within a component is left open; the algorithm recurses once
/// per node on a path, which the contract does not bound.
#[verifier::external_body]
pub(crate) fn strongly_connected_components(graph: &GraphMap<u32, (), Directed, FxBuildHasher>) -> (components: Vec<
    Vec<u32>,
>)
    ensures
        reverse_topological_components(
            graph_nodes(*graph),
            graph_edges(*graph),
            component_views(components@),
        ),
{
    tarjan_scc(graph)
}

} // verus!
