//! The directed multigraph that crafting graphs are stored in, and the
//! operations on it that the library relies on.
use crate::entities::ItemAmount;
use petgraph::graph::{Graph, NodeIndex};
use vstd::prelude::*;

verus! {

/// petgraph's graph type, held opaque: its contents are read through
/// `graph_nodes` and `graph_edges`.
#[verifier::external_type_specification]
#[verifier::external_body]
#[verifier::reject_recursive_types(N)]
#[verifier::reject_recursive_types(E)]
#[verifier::reject_recursive_types(Ty)]
#[verifier::reject_recursive_types(Ix)]
pub struct ExGraph<N, E, Ty, Ix>(petgraph::graph::Graph<N, E, Ty, Ix>);

/// petgraph's marker for directed graphs.
#[verifier::external_type_specification]
#[verifier::external_body]
pub struct ExDirected(petgraph::Directed);

/// Largest number of nodes or edges the library plans for.
pub const MAX_INDEX: usize = usize::MAX;

/// A node of a crafting graph: an item or a recipe, given by its index in the
/// data set's table, with its tier.
#[derive(Debug, Clone, Copy, PartialEq, Eq, Structural, Hash)]
pub enum Node {
    Item(usize, usize),
    Recipe(usize, usize),
}

/// A directed graph of nodes and amounts, indexed by `usize`.
pub type NodeGraph = Graph<Node, ItemAmount, petgraph::Directed, usize>;

/// The node weights of a graph, by node index.
pub uninterp spec fn graph_nodes(g: NodeGraph) -> Seq<Node>;

/// The edges of a graph, by edge index: source, target and weight.
pub uninterp spec fn graph_edges(g: NodeGraph) -> Seq<(usize, usize, ItemAmount)>;

/// Relies on petgraph's Graph::with_capacity: a graph without nodes or
/// edges.
#[verifier::external_body]
pub(crate) fn graph_new() -> (g: NodeGraph)
    ensures
        graph_nodes(g) == Seq::<Node>::empty(),
        graph_edges(g) == Seq::<(usize, usize, ItemAmount)>::empty(),
{
    Graph::with_capacity(0, 0)
}

/// Relies on petgraph's Graph::add_node: the node is appended and its index is
/// the former node count (with `usize` indices there is no index limit).
#[verifier::external_body]
pub(crate) fn graph_add_node(g: &mut NodeGraph, n: Node) -> (r: usize)
    ensures
        r == graph_nodes(*old(g)).len(),
        graph_nodes(*final(g)) == graph_nodes(*old(g)).push(n),
        graph_edges(*final(g)) == graph_edges(*old(g)),
{
    g.add_node(n).index()
}

/// Relies on petgraph's Graph::add_edge: the edge is appended; it panics only
/// when an endpoint is missing (with `usize` indices there is no index
/// limit).
#[verifier::external_body]
pub(crate) fn graph_add_edge(g: &mut NodeGraph, a: usize, b: usize, w: ItemAmount)
    requires
        a < graph_nodes(*old(g)).len(),
        b < graph_nodes(*old(g)).len(),
    ensures
        graph_nodes(*final(g)) == graph_nodes(*old(g)),
        graph_edges(*final(g)) == graph_edges(*old(g)).push((a, b, w)),
{
    g.add_edge(NodeIndex::new(a), NodeIndex::new(b), w);
}

/// Relies on petgraph's Graph::node_count: the number of nodes.
#[verifier::external_body]
pub(crate) fn graph_node_count(g: &NodeGraph) -> (r: usize)
    ensures
        r == graph_nodes(*g).len(),
{
    g.node_count()
}

/// Relies on petgraph's Graph::edge_count: the number of edges.
#[verifier::external_body]
pub(crate) fn graph_edge_count(g: &NodeGraph) -> (r: usize)
    ensures
        r == graph_edges(*g).len(),
{
    g.edge_count()
}

/// Relies on indexing a petgraph Graph by node: the weight of that node.
#[verifier::external_body]
pub(crate) fn graph_node(g: &NodeGraph, i: usize) -> (r: Node)
    requires
        i < graph_nodes(*g).len(),
    ensures
        r == graph_nodes(*g)[i as int],
{
    g[NodeIndex::new(i)]
}

/// Relies on mutable indexing of a petgraph Graph by node: only that weight
/// changes.
#[verifier::external_body]
pub(crate) fn graph_set_node(g: &mut NodeGraph, i: usize, n: Node)
    requires
        i < graph_nodes(*old(g)).len(),
    ensures
        graph_nodes(*final(g)) == graph_nodes(*old(g)).update(i as int, n),
        graph_edges(*final(g)) == graph_edges(*old(g)),
{
    g[NodeIndex::new(i)] = n;
}

/// Relies on petgraph's Graph::raw_edges: the endpoints and weight of an edge.
#[verifier::external_body]
pub(crate) fn graph_edge(g: &NodeGraph, e: usize) -> (r: (usize, usize, ItemAmount))
    requires
        e < graph_edges(*g).len(),
    ensures
        r == graph_edges(*g)[e as int],
{
    let edge = &g.raw_edges()[e];
    (edge.source().index(), edge.target().index(), edge.weight)
}

/// Relies on petgraph's Graph::clone: the copy keeps every node and edge at
/// its index.
#[verifier::external_body]
pub(crate) fn graph_clone(g: &NodeGraph) -> (r: NodeGraph)
    ensures
        graph_nodes(r) == graph_nodes(*g),
        graph_edges(r) == graph_edges(*g),
{
    g.clone()
}

} // verus!
