//! The crafting graph: its nodes, the facts that hold of a graph built from a
//! data set, and the builder.
use crate::data::DataSet;
use crate::entities::ItemAmount;
use crate::graph::{graph_edges, graph_nodes, Node, NodeGraph};
use vstd::prelude::*;

verus! {

/// Chain depth of a node.
pub type Tier = usize;

/// Marks an entity that has no node yet.
pub const NO_NODE: usize = usize::MAX;

impl Node {
    pub open spec fn tier_of(self) -> Tier {
        match self {
            Node::Item(_, t) => t,
            Node::Recipe(_, t) => t,
        }
    }

    pub open spec fn entity(self) -> usize {
        match self {
            Node::Item(e, _) => e,
            Node::Recipe(e, _) => e,
        }
    }

    pub open spec fn is_item(self) -> bool {
        self is Item
    }

    /// Both nodes stand for the same item or the same recipe.
    pub open spec fn same_entity(self, o: Node) -> bool {
        self.is_item() == o.is_item() && self.entity() == o.entity()
    }

    pub open spec fn with_tier(self, t: Tier) -> Node {
        match self {
            Node::Item(e, _) => Node::Item(e, t),
            Node::Recipe(e, _) => Node::Recipe(e, t),
        }
    }

    pub fn get_tier(&self) -> (r: Tier)
        ensures
            r == self.tier_of(),
    {
        match self {
            Node::Item(_, t) => *t,
            Node::Recipe(_, t) => *t,
        }
    }

    pub fn set_tier(&mut self, new_tier: Tier)
        ensures
            *final(self) == old(self).with_tier(new_tier),
    {
        match self {
            Node::Item(_, t) => {
                *t = new_tier;
            },
            Node::Recipe(_, t) => {
                *t = new_tier;
            },
        }
    }
}

/// A directed, bipartite graph of item and recipe nodes. An edge from an item
/// to a recipe carries the amount the recipe consumes; an edge from a recipe
/// to an item carries the amount it produces.
pub struct CraftingGraph {
    pub data: NodeGraph,
    pub natural_items: Vec<usize>,
}

/// There is an edge from `a` to `b` with weight `w`.
pub open spec fn has_edge(edges: Seq<(usize, usize, ItemAmount)>, a: usize, b: usize, w: ItemAmount) -> bool {
    exists|e: int| 0 <= e < edges.len() && #[trigger] edges[e] == (a, b, w)
}

/// Some node stands for item `i`.
pub open spec fn has_item_node(nodes: Seq<Node>, i: usize) -> bool {
    exists|n: int| 0 <= n < nodes.len() && #[trigger] nodes[n].is_item() && nodes[n].entity() == i
}

/// Some node stands for recipe `r`.
pub open spec fn has_recipe_node(nodes: Seq<Node>, r: usize) -> bool {
    exists|n: int| 0 <= n < nodes.len() && !(#[trigger] nodes[n].is_item()) && nodes[n].entity() == r
}

/// Item `i` is reachable from the natural items in at most `n` steps.
pub open spec fn item_reach_in(data: DataSet, i: usize, n: nat) -> bool
    decreases n,
{
    n > 0 && i < data.items@.len() && (data.items@[i as int].natural || exists|r: int|
        #[trigger] data.produces(r, i) && recipe_reach_in(data, r, (n - 1) as nat))
}

/// Recipe `r` is reachable from the natural items in at most `n` steps.
pub open spec fn recipe_reach_in(data: DataSet, r: int, n: nat) -> bool
    decreases n,
{
    n > 0 && 0 <= r < data.recipes@.len() && exists|i: usize|
        #[trigger] data.consumes(r, i) && item_reach_in(data, i, (n - 1) as nat)
}

/// Item `i` can be crafted from natural items (or is one).
pub open spec fn item_reachable(data: DataSet, i: usize) -> bool {
    exists|n: nat| #[trigger] item_reach_in(data, i, n)
}

/// Recipe `r` has an ingredient that can be crafted from natural items.
pub open spec fn recipe_reachable(data: DataSet, r: int) -> bool {
    exists|n: nat| #[trigger] recipe_reach_in(data, r, n)
}

/// Every edge joins an item and a recipe, both present.
pub open spec fn bipartite(nodes: Seq<Node>, edges: Seq<(usize, usize, ItemAmount)>) -> bool {
    forall|e: int|
        0 <= e < edges.len() ==> {
            &&& (#[trigger] edges[e]).0 < nodes.len()
            &&& edges[e].1 < nodes.len()
            &&& nodes[edges[e].0 as int].is_item() != nodes[edges[e].1 as int].is_item()
        }
}

/// No two nodes stand for the same item or recipe.
pub open spec fn entities_unique(nodes: Seq<Node>) -> bool {
    forall|a: int, b: int|
        0 <= a < nodes.len() && 0 <= b < nodes.len() && a != b ==> !(#[trigger] nodes[a]).same_entity(
            #[trigger] nodes[b],
        )
}

/// The edge agrees with the data set: an item-to-recipe edge is an
/// ingredient of the recipe with its amount, a recipe-to-item edge one of its
/// results with its amount.
pub open spec fn edge_in_data(data: DataSet, nodes: Seq<Node>, e: (usize, usize, ItemAmount)) -> bool {
    let a = nodes[e.0 as int];
    let b = nodes[e.1 as int];
    if a.is_item() {
        data.consumes(b.entity() as int, a.entity()) && e.2 == data.ingredient_amount(
            b.entity() as int,
            a.entity(),
        )
    } else {
        exists|k: int|
            0 <= k < data.recipes@[a.entity() as int].results@.len()
                && #[trigger] data.recipes@[a.entity() as int].results@[k] == (e.2, b.entity())
    }
}

/// The graph of all items and recipes reachable from the natural items of
/// `data`, with the edges the data set gives them.
pub open spec fn is_full_graph(data: DataSet, nodes: Seq<Node>, edges: Seq<(usize, usize, ItemAmount)>) -> bool {
    &&& bipartite(nodes, edges)
    &&& entities_unique(nodes)
    &&& forall|n: int|
        0 <= n < nodes.len() ==> if (#[trigger] nodes[n]).is_item() {
            nodes[n].entity() < data.items@.len()
        } else {
            nodes[n].entity() < data.recipes@.len()
        }
    &&& forall|i: usize| i < data.items@.len() ==> (#[trigger] has_item_node(nodes, i) <==> item_reachable(data, i))
    &&& forall|r: usize| r < data.recipes@.len() ==> (#[trigger] has_recipe_node(nodes, r) <==> recipe_reachable(data, r as int))
    &&& forall|e: int| 0 <= e < edges.len() ==> edge_in_data(data, nodes, #[trigger] edges[e])
    &&& forall|a: int, b: int|
        0 <= a < nodes.len() && 0 <= b < nodes.len() && (#[trigger] nodes[a]).is_item() && !(#[trigger] nodes[b]).is_item()
            && data.consumes(nodes[b].entity() as int, nodes[a].entity()) ==> has_edge(
            edges,
            a as usize,
            b as usize,
            data.ingredient_amount(nodes[b].entity() as int, nodes[a].entity()),
        )
    &&& forall|a: int, b: int, k: int|
        0 <= a < nodes.len() && 0 <= b < nodes.len() && !(#[trigger] nodes[a]).is_item() && (#[trigger] nodes[b]).is_item()
            && 0 <= k < data.recipes@[nodes[a].entity() as int].results@.len()
            && (#[trigger] data.recipes@[nodes[a].entity() as int].results@[k]).1 == nodes[b].entity() ==> has_edge(
            edges,
            a as usize,
            b as usize,
            data.recipes@[nodes[a].entity() as int].results@[k].0,
        )
    &&& forall|e1: int, e2: int|
        0 <= e1 < edges.len() && 0 <= e2 < edges.len() && e1 != e2 && nodes[(#[trigger] edges[e1]).0 as int].is_item()
            ==> (edges[e1].0, edges[e1].1) != ((#[trigger] edges[e2]).0, edges[e2].1)
}

impl CraftingGraph {
    pub open spec fn nodes(&self) -> Seq<Node> {
        graph_nodes(self.data)
    }

    pub open spec fn edges(&self) -> Seq<(usize, usize, ItemAmount)> {
        graph_edges(self.data)
    }

    /// Item `i` is one of the graph's natural items.
    pub open spec fn is_natural(&self, i: usize) -> bool {
        self.natural_items@.contains(i)
    }

    /// Every item node that is not natural has an edge into it (from a
    /// recipe producing it).
    pub open spec fn producers_present(&self) -> bool {
        forall|v: int|
            0 <= v < self.nodes().len() && (#[trigger] self.nodes()[v]).is_item() && !self.natural_items@.contains(self.nodes()[v].entity())
                ==> exists|e: int| 0 <= e < self.edges().len() && #[trigger] self.edges()[e].1 == v
    }

    /// Edges stay within the nodes and join an item and a recipe.
    pub open spec fn wf(&self) -> bool {
        bipartite(self.nodes(), self.edges())
    }
}

} // verus!
