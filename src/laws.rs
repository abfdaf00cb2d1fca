//! Facts about the graphs the library builds that relate several of its
//! definitions.
use crate::crafting::{
    has_item_node, has_recipe_node, is_full_graph, item_reachable, recipe_reachable, CraftingGraph,
};
use crate::data::DataSet;
use crate::entities::ItemAmount;
use crate::enumerate::{is_solution, tree_copy};
use crate::graph::Node;
use crate::tiers::shape;
use vstd::prelude::*;
use vstd::set_lib::{lemma_int_range, lemma_map_size, lemma_set_disjoint_lens, set_int_range};

verus! {

/// The items reachable from the natural items of `data`.
pub open spec fn reachable_items(data: DataSet) -> Set<usize> {
    Set::new(|i: usize| i < data.items@.len() && item_reachable(data, i))
}

/// The recipes reachable from the natural items of `data`.
pub open spec fn reachable_recipes(data: DataSet) -> Set<usize> {
    Set::new(|r: usize| r < data.recipes@.len() && recipe_reachable(data, r as int))
}

/// A full graph has as many nodes as there are reachable items and
/// reachable recipes together.
pub proof fn lemma_node_count(data: DataSet, nodes: Seq<Node>, edges: Seq<(usize, usize, ItemAmount)>)
    requires
        is_full_graph(data, nodes, edges),
    ensures
        nodes.len() == reachable_items(data).len() + reachable_recipes(data).len(),
{
    let len = nodes.len() as int;
    let all = set_int_range(0, len);
    let x = Set::new(|n: int| 0 <= n < len && nodes[n].is_item());
    let y = Set::new(|n: int| 0 <= n < len && !nodes[n].is_item());
    lemma_int_range(0, len);
    assert(x.subset_of(all));
    assert(y.subset_of(all));
    vstd::set_lib::lemma_len_subset(x, all);
    vstd::set_lib::lemma_len_subset(y, all);
    assert(x + y =~= all);
    assert(x.disjoint(y));
    lemma_set_disjoint_lens(x, y);
    let f = |n: int| nodes[n].entity();
    assert(vstd::relations::injective_on(f, x)) by {
        assert forall|a: int, b: int| x.contains(a) && x.contains(b) && #[trigger] f(a) == #[trigger] f(b) implies a == b by {
            if a != b {
                assert(!nodes[a].same_entity(nodes[b]));
            }
        }
    }
    assert(vstd::relations::injective_on(f, y)) by {
        assert forall|a: int, b: int| y.contains(a) && y.contains(b) && #[trigger] f(a) == #[trigger] f(b) implies a == b by {
            if a != b {
                assert(!nodes[a].same_entity(nodes[b]));
            }
        }
    }
    assert(x.map(f) =~= reachable_items(data)) by {
        assert forall|i: usize| #[trigger] x.map(f).contains(i) <==> reachable_items(data).contains(i) by {
            if x.map(f).contains(i) {
                let n = choose|n: int| x.contains(n) && f(n) == i;
                assert(nodes[n].is_item() && nodes[n].entity() == i);
                assert(has_item_node(nodes, i));
            }
            if reachable_items(data).contains(i) {
                assert(has_item_node(nodes, i));
                let n = choose|n: int| 0 <= n < nodes.len() && #[trigger] nodes[n].is_item() && nodes[n].entity() == i;
                assert(x.contains(n) && f(n) == i);
            }
        }
    }
    assert(y.map(f) =~= reachable_recipes(data)) by {
        assert forall|r: usize| #[trigger] y.map(f).contains(r) <==> reachable_recipes(data).contains(r) by {
            if y.map(f).contains(r) {
                let n = choose|n: int| y.contains(n) && f(n) == r;
                assert(!nodes[n].is_item() && nodes[n].entity() == r);
                assert(has_recipe_node(nodes, r));
            }
            if reachable_recipes(data).contains(r) {
                assert(has_recipe_node(nodes, r));
                let n = choose|n: int| 0 <= n < nodes.len() && !(#[trigger] nodes[n].is_item()) && nodes[n].entity() == r;
                assert(y.contains(n) && f(n) == r);
            }
        }
    }
    lemma_map_size(x, reachable_items(data), f);
    lemma_map_size(y, reachable_recipes(data), f);
}

/// The graph built from a data set has one node per reachable item and per
/// reachable recipe.
pub proof fn lemma_full_graph_node_count(data: DataSet, g: CraftingGraph)
    requires
        is_full_graph(data, shape(g.nodes()), g.edges()),
    ensures
        g.nodes().len() == reachable_items(data).len() + reachable_recipes(data).len(),
{
    lemma_node_count(data, shape(g.nodes()), g.edges());
}

/// Every edge of a solution points from a node to one of smaller index, so
/// a solution has no cycle.
pub proof fn lemma_solution_acyclic(full: CraftingGraph, target: Node, sol: CraftingGraph)
    requires
        is_solution(full, target, sol),
    ensures
        forall|k: int| 0 <= k < sol.edges().len() ==> (#[trigger] sol.edges()[k]).1 < sol.edges()[k].0,
{
    let o = choose|o: Seq<usize>| #[trigger] tree_copy(full, target, sol.nodes(), sol.edges(), o) && forall|j: int|
        0 <= j < sol.nodes().len() ==> #[trigger] crate::enumerate::expanded(full, sol.nodes(), sol.edges(), o, j);
}

/// Every edge of a solution joins an item and a recipe, as in the graph it
/// was taken from.
pub proof fn lemma_solution_bipartite(full: CraftingGraph, target: Node, sol: CraftingGraph)
    requires
        full.wf(),
        is_solution(full, target, sol),
    ensures
        sol.wf(),
{
    let o = choose|o: Seq<usize>| #[trigger] tree_copy(full, target, sol.nodes(), sol.edges(), o) && forall|j: int|
        0 <= j < sol.nodes().len() ==> #[trigger] crate::enumerate::expanded(full, sol.nodes(), sol.edges(), o, j);
    let sn = sol.nodes();
    let se = sol.edges();
    assert forall|k: int| 0 <= k < se.len() implies {
        &&& (#[trigger] se[k]).0 < sn.len()
        &&& se[k].1 < sn.len()
        &&& sn[se[k].0 as int].is_item() != sn[se[k].1 as int].is_item()
    } by {
        let a = o[k + 1];
        let b = o[se[k].1 as int];
        let e = choose|e: int| 0 <= e < full.edges().len() && #[trigger] full.edges()[e] == (a, b, se[k].2);
        assert(full.edges()[e].0 == a);
        assert(sn[k + 1] == full.nodes()[a as int]);
        assert(sn[se[k].1 as int] == full.nodes()[b as int]);
    }
}

} // verus!
