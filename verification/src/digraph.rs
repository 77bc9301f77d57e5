//! The directed graph that keeps the shape of the graphs of this crate.
//!
//! The graph comes from `petgraph`. Its nodes carry a number each, and its
//! edges carry nothing; indices are `usize`, so the graph has no size limit
//! of its own. Nothing here is proved: each contract states what the method
//! it calls does, as its source shows.

use petgraph::graph::{EdgeIndex, Graph, NodeIndex};
use petgraph::Directed;
use vstd::prelude::*;

verus! {

/// `petgraph::graph::Graph`. Nothing is known of a graph but what the
/// contracts below say of it.
#[verifier::external_type_specification]
#[verifier::external_body]
#[verifier::reject_recursive_types(NodeWeight)]
#[verifier::reject_recursive_types(EdgeWeight)]
#[verifier::reject_recursive_types(Kind)]
#[verifier::reject_recursive_types(Index)]
pub struct ExGraph<NodeWeight, EdgeWeight, Kind, Index>(Graph<NodeWeight, EdgeWeight, Kind, Index>);

/// `petgraph::Directed`, the marker of graphs whose edges have a direction.
#[verifier::external_type_specification]
#[verifier::external_body]
pub struct ExDirected(Directed);

/// The numbers that the nodes of a graph carry, by node index.
pub uninterp spec fn node_weights(g: Graph<usize, (), Directed, usize>) -> Seq<usize>;

/// The source and target node index of each edge of a graph, by edge index.
pub uninterp spec fn edge_ends(g: Graph<usize, (), Directed, usize>) -> Seq<(usize, usize)>;

/// `Graph::with_capacity(0, 0)`: a graph with no nodes and no edges.
#[verifier::external_body]
pub(crate) fn graph_new() -> (g: Graph<usize, (), Directed, usize>)
    ensures
        node_weights(g) == Seq::<usize>::empty(),
        edge_ends(g) == Seq::<(usize, usize)>::empty(),
{
    Graph::with_capacity(0, 0)
}

/// `Graph::add_node`: appends a node that carries `weight` and returns its
/// index, which is the number of nodes there were. The edges stay as they
/// are. With `usize` indices the method has no capacity check to fail.
#[verifier::external_body]
pub(crate) fn graph_add_node(g: &mut Graph<usize, (), Directed, usize>, weight: usize) -> (index:
    usize)
    ensures
        node_weights(*final(g)) == node_weights(*old(g)).push(weight),
        edge_ends(*final(g)) == edge_ends(*old(g)),
        index == node_weights(*old(g)).len(),
{
    g.add_node(weight).index()
}

/// `Graph::add_edge`: appends an edge from node `a` to node `b` and returns
/// its index, which is the number of edges there were. The nodes stay as
/// they are. The method panics if `a` or `b` is not a node, which the
/// precondition rules out; parallel edges are allowed.
#[verifier::external_body]
pub(crate) fn graph_add_edge(g: &mut Graph<usize, (), Directed, usize>, a: usize, b: usize) -> (index:
    usize)
    requires
        a < node_weights(*old(g)).len(),
        b < node_weights(*old(g)).len(),
    ensures
        edge_ends(*final(g)) == edge_ends(*old(g)).push((a, b)),
        node_weights(*final(g)) == node_weights(*old(g)),
        index == edge_ends(*old(g)).len(),
{
    g.add_edge(NodeIndex::new(a), NodeIndex::new(b), ()).index()
}

/// `Graph::edge_count`: the number of edges.
#[verifier::external_body]
pub(crate) fn graph_edge_count(g: &Graph<usize, (), Directed, usize>) -> (n: usize)
    ensures
        n == edge_ends(*g).len(),
{
    g.edge_count()
}

/// `Graph::edge_endpoints`: the source and target of edge `e`, or `None` if
/// there is no such edge.
#[verifier::external_body]
pub(crate) fn graph_edge_endpoints(g: &Graph<usize, (), Directed, usize>, e: usize) -> (ends: Option<
    (usize, usize),
>)
    ensures
        e < edge_ends(*g).len() ==> ends == Some(edge_ends(*g)[e as int]),
        e >= edge_ends(*g).len() ==> ends is None,
{
    g.edge_endpoints(EdgeIndex::new(e)).map(|(a, b)| (a.index(), b.index()))
}

} // verus!
