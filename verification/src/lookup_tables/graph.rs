//! The undirected graph that holds which numbers are coprime.
//!
//! The graph is a `petgraph::graphmap::GraphMap`. Verus cannot look inside
//! it: its nodes and its edges have names, and the calls below are believed
//! to treat them as the source of `petgraph` shows.

use petgraph::graphmap::UnGraphMap;
use vstd::prelude::*;

verus! {

/// Makes `petgraph::graphmap::GraphMap` known as a type whose inside is not
/// looked at.
#[verifier::external_type_specification]
#[verifier::external_body]
#[verifier::reject_recursive_types(N)]
#[verifier::reject_recursive_types(E)]
#[verifier::reject_recursive_types(Ty)]
#[verifier::reject_recursive_types(S)]
pub struct ExGraphMap<N, E, Ty, S: std::hash::BuildHasher>(petgraph::graphmap::GraphMap<N, E, Ty, S>);

/// Makes `petgraph::Undirected`, the marker of graphs without directions,
/// known as a type.
#[verifier::external_type_specification]
#[verifier::external_body]
pub struct ExUndirected(petgraph::Undirected);

/// The nodes of a graph.
pub uninterp spec fn graph_nodes(graph: UnGraphMap<usize, ()>) -> Set<usize>;

/// The edges of a graph, each as the pair of its ends with the smaller
/// end first.
pub uninterp spec fn graph_edges(graph: UnGraphMap<usize, ()>) -> Set<(usize, usize)>;

/// The pair under which the graph keeps the edge between two nodes.
pub open spec fn edge_key(a: usize, b: usize) -> (usize, usize) {
    if a <= b {
        (a, b)
    } else {
        (b, a)
    }
}

/// Whether the graph has an edge between the two nodes.
pub open spec fn linked(graph: UnGraphMap<usize, ()>, a: usize, b: usize) -> bool {
    graph_edges(graph).contains(edge_key(a, b))
}

/// Calls `GraphMap::with_capacity`, which makes a graph without nodes or
/// edges.
#[verifier::external_body]
pub(crate) fn graph_with_capacity(nodes: usize, edges: usize) -> (graph: UnGraphMap<usize, ()>)
    ensures
        graph_nodes(graph) == Set::<usize>::empty(),
        graph_edges(graph) == Set::<(usize, usize)>::empty(),
{
    UnGraphMap::with_capacity(nodes, edges)
}

/// Calls `GraphMap::add_node`, which adds the node where it is missing and
/// leaves the edges alone.
#[verifier::external_body]
pub(crate) fn graph_add_node(graph: &mut UnGraphMap<usize, ()>, node: usize)
    ensures
        graph_nodes(*final(graph)) == graph_nodes(*old(graph)).insert(node),
        graph_edges(*final(graph)) == graph_edges(*old(graph)),
{
    graph.add_node(node);
}

/// Calls `GraphMap::add_edge`, which adds the edge between the two nodes,
/// and the nodes themselves where they are missing.
#[verifier::external_body]
pub(crate) fn graph_add_edge(graph: &mut UnGraphMap<usize, ()>, a: usize, b: usize)
    ensures
        graph_nodes(*final(graph)) == graph_nodes(*old(graph)).insert(a).insert(b),
        graph_edges(*final(graph)) == graph_edges(*old(graph)).insert(edge_key(a, b)),
{
    graph.add_edge(a, b, ());
}

/// Calls `GraphMap::remove_node`, which takes out the node and every edge
/// that ends at it.
#[verifier::external_body]
pub(crate) fn graph_remove_node(graph: &mut UnGraphMap<usize, ()>, node: usize)
    ensures
        graph_nodes(*final(graph)) == graph_nodes(*old(graph)).remove(node),
        graph_edges(*final(graph)) == graph_edges(*old(graph)).filter(
            |edge: (usize, usize)| edge.0 != node && edge.1 != node,
        ),
{
    graph.remove_node(node);
}

/// Calls `GraphMap::clone`, which copies the nodes and the edges.
#[verifier::external_body]
pub(crate) fn graph_clone(graph: &UnGraphMap<usize, ()>) -> (copy: UnGraphMap<usize, ()>)
    ensures
        graph_nodes(copy) == graph_nodes(*graph),
        graph_edges(copy) == graph_edges(*graph),
{
    graph.clone()
}

/// Calls `GraphMap::neighbors`, which walks the nodes that share an edge
/// with the given one, each once.
#[verifier::external_body]
pub(crate) fn graph_neighbors(graph: &UnGraphMap<usize, ()>, node: usize) -> (neighbors: Vec<usize>)
    ensures
        neighbors@.no_duplicates(),
        forall|other: usize| neighbors@.contains(other) <==> linked(*graph, node, other),
{
    graph.neighbors(node).collect()
}

/// Calls `GraphMap::nodes`, which walks the nodes of the graph, each once.
#[verifier::external_body]
pub(crate) fn graph_node_list(graph: &UnGraphMap<usize, ()>) -> (nodes: Vec<usize>)
    ensures
        nodes@.no_duplicates(),
        forall|node: usize| nodes@.contains(node) <==> graph_nodes(*graph).contains(node),
{
    graph.nodes().collect()
}

/// Calls `GraphMap::contains_edge`, which tells whether an edge joins the
/// two nodes, whichever is given first.
#[verifier::external_body]
pub(crate) fn graph_contains_edge(graph: &UnGraphMap<usize, ()>, a: usize, b: usize) -> (found: bool)
    ensures
        found == linked(*graph, a, b),
{
    graph.contains_edge(a, b)
}

} // verus!
