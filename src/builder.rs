//! Building the full crafting graph of a data set by a worklist traversal
//! from its natural items.
use crate::counting::{
    count_set, count_true, lemma_count_set_bound, lemma_count_set_push_none,
    lemma_count_set_update, lemma_count_true_bound, lemma_count_true_push, lemma_count_true_set,
};
use crate::crafting::{
    bipartite, has_edge, has_item_node, has_recipe_node, is_full_graph, item_reach_in,
    item_reachable, recipe_reach_in, recipe_reachable, edge_in_data, CraftingGraph, NO_NODE,
};
use crate::data::{amount_from, lists, lemma_max_results, lemma_natural_prefix, max_results, natural_prefix, DataSet};
use crate::entities::ItemAmount;
use crate::laws::{lemma_full_graph_node_count, reachable_items, reachable_recipes};
use crate::tiers::shape;
use crate::graph::{graph_add_edge, graph_add_node, graph_new, graph_node, graph_node_count, Node};
use vstd::prelude::*;

verus! {

proof fn lemma_has_edge_push(
    edges: Seq<(usize, usize, ItemAmount)>,
    x: (usize, usize, ItemAmount),
    a: usize,
    b: usize,
    w: ItemAmount,
)
    requires
        has_edge(edges, a, b, w),
    ensures
        has_edge(edges.push(x), a, b, w),
{
    let e = choose|e: int| 0 <= e < edges.len() && #[trigger] edges[e] == (a, b, w);
    assert(edges.push(x)[e] == (a, b, w));
}

/// The first amount listed for item `i` among `entries`, if any.
fn first_amount(entries: &Vec<(ItemAmount, usize)>, i: usize) -> (r: Option<ItemAmount>)
    ensures
        r is Some <==> lists(entries@, i),
        r is Some ==> r->0 == amount_from(entries@, i, 0),
{
    let mut k: usize = 0;
    while k < entries.len()
        invariant
            k <= entries@.len(),
            forall|j: int| 0 <= j < k ==> entries@[j].1 != i,
            amount_from(entries@, i, 0) == amount_from(entries@, i, k as int),
        decreases entries@.len() - k,
    {
        if entries[k].1 == i {
            return Some(entries[k].0);
        }
        k = k + 1;
    }
    None
}

/// Node indices of the item and recipe entities agree with the nodes.
spec fn maps_ok(data: DataSet, nodes: Seq<Node>, im: Seq<usize>, rm: Seq<usize>) -> bool {
    &&& im.len() == data.items@.len()
    &&& rm.len() == data.recipes@.len()
    &&& forall|i: int|
        0 <= i < im.len() && #[trigger] im[i] != NO_NODE ==> im[i] < nodes.len() && nodes[im[i] as int]
            == Node::Item(i as usize, 0)
    &&& forall|r: int|
        0 <= r < rm.len() && #[trigger] rm[r] != NO_NODE ==> rm[r] < nodes.len() && nodes[rm[r] as int]
            == Node::Recipe(r as usize, 0)
    &&& forall|n: int|
        0 <= n < nodes.len() ==> match #[trigger] nodes[n] {
            Node::Item(i, t) => i < im.len() && im[i as int] == n && t == 0,
            Node::Recipe(r, t) => r < rm.len() && rm[r as int] == n && t == 0,
        }
    &&& nodes.len() == count_set(im, NO_NODE) + count_set(rm, NO_NODE)
}

/// Every node stands for a reachable entity.
spec fn sound(data: DataSet, nodes: Seq<Node>) -> bool {
    forall|n: int|
        0 <= n < nodes.len() ==> match #[trigger] nodes[n] {
            Node::Item(i, _) => item_reachable(data, i),
            Node::Recipe(r, _) => recipe_reachable(data, r as int),
        }
}

/// Item node `n` (item `i`) has an edge to every recipe consuming `i`.
spec fn item_done(data: DataSet, edges: Seq<(usize, usize, ItemAmount)>, rm: Seq<usize>, n: usize, i: usize) -> bool {
    forall|r: int|
        0 <= r < rm.len() && #[trigger] data.consumes(r, i) ==> rm[r] != NO_NODE && has_edge(
            edges,
            n,
            rm[r],
            data.ingredient_amount(r, i),
        )
}

/// Recipe node `n` (recipe `r`) has an edge to each of its results.
spec fn recipe_done(data: DataSet, edges: Seq<(usize, usize, ItemAmount)>, im: Seq<usize>, n: usize, r: usize) -> bool {
    forall|k: int|
        0 <= k < data.recipes@[r as int].results@.len() ==> im[(#[trigger] data.recipes@[r as int].results@[k]).1 as int]
            != NO_NODE && has_edge(
            edges,
            n,
            im[data.recipes@[r as int].results@[k].1 as int],
            data.recipes@[r as int].results@[k].0,
        )
}

spec fn done_ok(
    data: DataSet,
    nodes: Seq<Node>,
    edges: Seq<(usize, usize, ItemAmount)>,
    im: Seq<usize>,
    rm: Seq<usize>,
    visited: Seq<bool>,
) -> bool {
    &&& visited.len() == nodes.len()
    &&& forall|n: int|
        0 <= n < nodes.len() && #[trigger] visited[n] ==> match nodes[n] {
            Node::Item(i, _) => item_done(data, edges, rm, n as usize, i),
            Node::Recipe(r, _) => recipe_done(data, edges, im, n as usize, r),
        }
}

proof fn lemma_done_push_edge(
    data: DataSet,
    nodes: Seq<Node>,
    edges: Seq<(usize, usize, ItemAmount)>,
    im: Seq<usize>,
    rm: Seq<usize>,
    visited: Seq<bool>,
    x: (usize, usize, ItemAmount),
)
    requires
        done_ok(data, nodes, edges, im, rm, visited),
    ensures
        done_ok(data, nodes, edges.push(x), im, rm, visited),
{
    assert forall|n: int| 0 <= n < nodes.len() && #[trigger] visited[n] implies match nodes[n] {
        Node::Item(i, _) => item_done(data, edges.push(x), rm, n as usize, i),
        Node::Recipe(r, _) => recipe_done(data, edges.push(x), im, n as usize, r),
    } by {
        match nodes[n] {
            Node::Item(i, _) => {
                assert forall|r: int| 0 <= r < rm.len() && #[trigger] data.consumes(r, i) implies rm[r] != NO_NODE
                    && has_edge(edges.push(x), n as usize, rm[r], data.ingredient_amount(r, i)) by {
                    lemma_has_edge_push(edges, x, n as usize, rm[r], data.ingredient_amount(r, i));
                }
            },
            Node::Recipe(r, _) => {
                assert forall|k: int| 0 <= k < data.recipes@[r as int].results@.len() implies im[(#[trigger] data.recipes@[r as int].results@[k]).1 as int]
                    != NO_NODE && has_edge(edges.push(x), n as usize, im[data.recipes@[r as int].results@[k].1 as int],
                    data.recipes@[r as int].results@[k].0) by {
                    lemma_has_edge_push(edges, x, n as usize, im[data.recipes@[r as int].results@[k].1 as int],
                        data.recipes@[r as int].results@[k].0);
                }
            },
        }
    }
}

proof fn lemma_done_new_node(
    data: DataSet,
    nodes: Seq<Node>,
    edges: Seq<(usize, usize, ItemAmount)>,
    im: Seq<usize>,
    rm: Seq<usize>,
    visited: Seq<bool>,
    im2: Seq<usize>,
    rm2: Seq<usize>,
    node: Node,
)
    requires
        data.wf(),
        maps_ok(data, nodes, im, rm),
        done_ok(data, nodes, edges, im, rm, visited),
        im2.len() == im.len(),
        rm2.len() == rm.len(),
        forall|i: int| 0 <= i < im.len() && im[i] != NO_NODE ==> #[trigger] im2[i] == im[i],
        forall|r: int| 0 <= r < rm.len() && rm[r] != NO_NODE ==> #[trigger] rm2[r] == rm[r],
    ensures
        done_ok(data, nodes.push(node), edges, im2, rm2, visited.push(false)),
{
    let nodes2 = nodes.push(node);
    let visited2 = visited.push(false);
    assert forall|n: int| 0 <= n < nodes2.len() && #[trigger] visited2[n] implies match nodes2[n] {
        Node::Item(i, _) => item_done(data, edges, rm2, n as usize, i),
        Node::Recipe(r, _) => recipe_done(data, edges, im2, n as usize, r),
    } by {
        assert(visited[n]);
        match nodes[n] {
            Node::Item(i, _) => {
                assert forall|r: int| 0 <= r < rm2.len() && #[trigger] data.consumes(r, i) implies rm2[r] != NO_NODE
                    && has_edge(edges, n as usize, rm2[r], data.ingredient_amount(r, i)) by {
                    assert(rm[r] != NO_NODE);
                }
            },
            Node::Recipe(r, _) => {
                assert forall|k: int| 0 <= k < data.recipes@[r as int].results@.len() implies im2[(#[trigger] data.recipes@[r as int].results@[k]).1 as int]
                    != NO_NODE && has_edge(edges, n as usize, im2[data.recipes@[r as int].results@[k].1 as int],
                    data.recipes@[r as int].results@[k].0) by {
                    assert(data.recipes@[r as int].results@[k].1 < data.items@.len());
                    assert(im[data.recipes@[r as int].results@[k].1 as int] != NO_NODE);
                }
            },
        }
    }
}

/// What the traversal keeps true of the graph under construction.
spec fn walk_ok(
    data: DataSet,
    nodes: Seq<Node>,
    edges: Seq<(usize, usize, ItemAmount)>,
    im: Seq<usize>,
    rm: Seq<usize>,
    visited: Seq<bool>,
) -> bool {
    &&& maps_ok(data, nodes, im, rm)
    &&& sound(data, nodes)
    &&& forall|i: int| 0 <= i < data.items@.len() && (#[trigger] data.items@[i]).natural ==> im[i] != NO_NODE
    &&& done_ok(data, nodes, edges, im, rm, visited)
    &&& bipartite(nodes, edges)
    &&& forall|e: int| 0 <= e < edges.len() ==> edge_in_data(data, nodes, #[trigger] edges[e])
    &&& item_edges_unique(nodes, edges)
}

/// Item-to-recipe edges are never doubled.
spec fn item_edges_unique(nodes: Seq<Node>, edges: Seq<(usize, usize, ItemAmount)>) -> bool {
    forall|e1: int, e2: int|
        0 <= e1 < edges.len() && 0 <= e2 < edges.len() && e1 != e2 && nodes[(#[trigger] edges[e1]).0 as int].is_item()
            ==> (edges[e1].0, edges[e1].1) != ((#[trigger] edges[e2]).0, edges[e2].1)
}

proof fn lemma_complete(
    data: DataSet,
    nodes: Seq<Node>,
    edges: Seq<(usize, usize, ItemAmount)>,
    im: Seq<usize>,
    rm: Seq<usize>,
    visited: Seq<bool>,
    n: nat,
)
    requires
        data.wf(),
        data.fits(),
        maps_ok(data, nodes, im, rm),
        done_ok(data, nodes, edges, im, rm, visited),
        forall|k: int| 0 <= k < visited.len() ==> visited[k],
        forall|i: int| 0 <= i < data.items@.len() && (#[trigger] data.items@[i]).natural ==> im[i] != NO_NODE,
    ensures
        forall|i: usize| #[trigger] item_reach_in(data, i, n) ==> im[i as int] != NO_NODE,
        forall|r: int| #[trigger] recipe_reach_in(data, r, n) ==> rm[r] != NO_NODE,
    decreases n,
{
    if n > 0 {
        lemma_complete(data, nodes, edges, im, rm, visited, (n - 1) as nat);
        assert forall|i: usize| #[trigger] item_reach_in(data, i, n) implies im[i as int] != NO_NODE by {
            if !data.items@[i as int].natural {
                let r = choose|r: int| #[trigger] data.produces(r, i) && recipe_reach_in(data, r, (n - 1) as nat);
                let m = rm[r];
                let ru = r as usize;
                assert(ru as int == r);
                assert(nodes[m as int] == Node::Recipe(ru, 0));
                assert(visited[m as int]);
                let k = choose|k: int| 0 <= k < data.recipes@[r].results@.len() && #[trigger] data.recipes@[r].results@[k].1 == i;
                assert(recipe_done(data, edges, im, m, ru));
                assert(data.recipes@[ru as int].results@[k].1 == i);
            } else {
                assert(data.items@[i as int].natural);
            }
        }
        assert forall|r: int| #[trigger] recipe_reach_in(data, r, n) implies rm[r] != NO_NODE by {
            let i = choose|i: usize| #[trigger] data.consumes(r, i) && item_reach_in(data, i, (n - 1) as nat);
            let m = im[i as int];
            assert(nodes[m as int] == Node::Item(i, 0));
            assert(visited[m as int]);
            assert(item_done(data, edges, rm, m, i));
        }
    }
}

/// The items and recipes reachable from the natural items of `dataset`, with
/// their edges; every tier is zero.
fn build_structure(dataset: &DataSet) -> (g: CraftingGraph)
    requires
        dataset.wf(),
        dataset.fits(),
    ensures
        is_full_graph(*dataset, g.nodes(), g.edges()),
        forall|n: int| 0 <= n < g.nodes().len() ==> (#[trigger] g.nodes()[n]).tier_of() == 0,
        g.natural_items@ == natural_prefix(dataset.items@, dataset.items@.len() as int),
{

    let ghost data = *dataset;
    let ni = dataset.items.len();
    let nr = dataset.recipes.len();
    let mut g = CraftingGraph { data: graph_new(), natural_items: dataset.natural_items() };
    let mut im: Vec<usize> = Vec::new();
    let mut rm: Vec<usize> = Vec::new();
    let mut visited: Vec<bool> = Vec::new();
    let mut stack: Vec<usize> = Vec::new();
    let mut k: usize = 0;
    while k < nr
        invariant
            k <= nr,
            nr == dataset.recipes@.len(),
            rm@.len() == k,
            forall|r: int| 0 <= r < k ==> rm@[r] == NO_NODE,
            count_set(rm@, NO_NODE) == 0,
        decreases nr - k,
    {
        proof {
            lemma_count_set_push_none(rm@, NO_NODE);
        }
        rm.push(NO_NODE);
        k = k + 1;
    }
    k = 0;
    while k < ni
        invariant
            k <= ni,
            ni == dataset.items@.len(),
            im@.len() == k,
            forall|i: int| 0 <= i < k ==> im@[i] == NO_NODE,
            count_set(im@, NO_NODE) == 0,
        decreases ni - k,
    {
        proof {
            lemma_count_set_push_none(im@, NO_NODE);
        }
        im.push(NO_NODE);
        k = k + 1;
    }
    k = 0;
    while k < ni
        invariant
            k <= ni,
            ni == dataset.items@.len(),
            nr == dataset.recipes@.len(),
            data == *dataset,
            dataset.wf(),
            dataset.fits(),
            maps_ok(data, g.nodes(), im@, rm@),
            count_set(rm@, NO_NODE) == 0,
            forall|i: int| k <= i < ni ==> im@[i] == NO_NODE,
            g.edges().len() == 0,
            g.natural_items@ == natural_prefix(dataset.items@, ni as int),
            sound(data, g.nodes()),
            visited@.len() == g.nodes().len(),
            forall|n: int| 0 <= n < visited@.len() ==> !visited@[n],
            count_true(visited@) == 0,
            forall|n: usize| n < g.nodes().len() ==> #[trigger] stack@.contains(n),
            forall|j: int| 0 <= j < stack@.len() ==> stack@[j] < g.nodes().len(),
            forall|i: int| 0 <= i < k && (#[trigger] dataset.items@[i]).natural ==> im@[i] != NO_NODE,
        decreases ni - k,
    {
        if dataset.items[k].natural {
            proof {
                lemma_count_set_bound(im@, NO_NODE);
                lemma_count_set_bound(rm@, NO_NODE);
            }
            let ghost old_im = im@;
            let ghost old_nodes = g.nodes();
            let n = graph_add_node(&mut g.data, Node::Item(k, 0));
            im.set(k, n);
            proof {
                lemma_count_true_push(visited@, false);
            }
            visited.push(false);
            let ghost old_stack = stack@;
            stack.push(n);
            proof {
                assert forall|m: usize| m < g.nodes().len() implies #[trigger] stack@.contains(m) by {
                    if m < old_nodes.len() {
                        assert(old_stack.contains(m));
                        let j = choose|j: int| 0 <= j < old_stack.len() && old_stack[j] == m;
                        assert(stack@[j] == m);
                    } else {
                        assert(m == n);
                        assert(stack@[stack@.len() - 1] == m);
                    }
                }
                lemma_count_set_update(old_im, NO_NODE, k as int, n);
                assert(item_reach_in(data, k, 1));
                assert(stack@[stack@.len() - 1] == n);
            }
        }
        k = k + 1;
    }
    let ghost per: int = nr + max_results(dataset.recipes@);
    while stack.len() > 0
        invariant
            ni == dataset.items@.len(),
            nr == dataset.recipes@.len(),
            data == *dataset,
            dataset.wf(),
            dataset.fits(),
            per == nr + max_results(dataset.recipes@),
            walk_ok(data, g.nodes(), g.edges(), im@, rm@, visited@),
            g.natural_items@ == natural_prefix(dataset.items@, ni as int),
            forall|e: int| 0 <= e < g.edges().len() ==> visited@[(#[trigger] g.edges()[e]).0 as int],
            forall|j: int| 0 <= j < stack@.len() ==> stack@[j] < g.nodes().len(),
            forall|n: usize| n < g.nodes().len() && !visited@[n as int] ==> #[trigger] stack@.contains(n),
            g.edges().len() <= count_true(visited@) * per,
            count_true(visited@) <= ni + nr,
        decreases (ni + nr) - count_true(visited@), stack@.len(),
    {
        let ghost stack0 = stack@;
        let ghost ct0 = count_true(visited@);
        let cur = match stack.pop() {
            Some(c) => c,
            None => 0,
        };
        proof {
            assert forall|n: usize| n < g.nodes().len() && !visited@[n as int] && n != cur implies #[trigger] stack@.contains(n) by {
                assert(stack0.contains(n));
                let j = choose|j: int| 0 <= j < stack0.len() && stack0[j] == n;
                assert(stack@[j] == n);
            }
        }
        if visited[cur] {
            continue;
        }
        proof {
            lemma_count_true_bound(visited@);
            lemma_count_set_bound(im@, NO_NODE);
            lemma_count_set_bound(rm@, NO_NODE);
        }
        let node = graph_node(&g.data, cur);
        match node {
            Node::Item(i, _) => {
                let mut r: usize = 0;
                while r < nr
                    invariant
                        ni == dataset.items@.len(),
                        nr == dataset.recipes@.len(),
                        data == *dataset,
                        dataset.wf(),
                        dataset.fits(),
                        per == nr + max_results(dataset.recipes@),
                        r <= nr,
                        walk_ok(data, g.nodes(), g.edges(), im@, rm@, visited@),
                        g.natural_items@ == natural_prefix(dataset.items@, ni as int),
                        cur < g.nodes().len(),
                        !visited@[cur as int],
                        g.nodes()[cur as int] == Node::Item(i, 0),
                        forall|e: int| 0 <= e < g.edges().len() ==> visited@[(#[trigger] g.edges()[e]).0 as int] || g.edges()[e].0 == cur,
                        forall|e: int| 0 <= e < g.edges().len() && (#[trigger] g.edges()[e]).0 == cur ==>
                            !g.nodes()[g.edges()[e].1 as int].is_item() && g.nodes()[g.edges()[e].1 as int].entity() < r,
                        forall|r2: int| 0 <= r2 < r && #[trigger] data.consumes(r2, i) ==> rm@[r2] != NO_NODE && has_edge(
                            g.edges(), cur, rm@[r2], data.ingredient_amount(r2, i)),
                        forall|j: int| 0 <= j < stack@.len() ==> stack@[j] < g.nodes().len(),
                        forall|n: usize| n < g.nodes().len() && !visited@[n as int] && n != cur ==> #[trigger] stack@.contains(n),
                        g.edges().len() <= count_true(visited@) * per + r,
                        count_true(visited@) < g.nodes().len(),
                        count_true(visited@) == ct0,
                    decreases nr - r,
                {
                    match first_amount(&dataset.recipes[r].ingredients, i) {
                        Some(w) => {
                            proof {
                                lemma_count_set_bound(im@, NO_NODE);
                                lemma_count_set_bound(rm@, NO_NODE);
                                let ct = count_true(visited@);
                                assert((ct + 1) * per <= (ni + nr) * per) by (nonlinear_arith)
                                    requires ct + 1 <= ni + nr, per >= 0;
                                assert(ct * per + r < (ct + 1) * per) by (nonlinear_arith)
                                    requires r < per;
                            }
                            let ridx = if rm[r] == NO_NODE {
                                let ghost nodes0 = g.nodes();
                                let ghost rm0 = rm@;
                                let ghost stack1 = stack@;
                                let ghost visited0 = visited@;
                                let n = graph_add_node(&mut g.data, Node::Recipe(r, 0));
                                rm.set(r, n);
                                proof {
                                    lemma_done_new_node(data, nodes0, g.edges(), im@, rm0, visited0, im@, rm@, Node::Recipe(r, 0));
                                    lemma_count_set_update(rm0, NO_NODE, r as int, n);
                                    lemma_count_true_push(visited@, false);
                                    let d = choose|d: nat| #[trigger] item_reach_in(data, i, d);
                                    assert(data.consumes(r as int, i));
                                    assert(recipe_reach_in(data, r as int, d + 1));
                                }
                                visited.push(false);
                                stack.push(n);
                                proof {
                                    assert forall|m: usize| m < g.nodes().len() && !visited@[m as int] && m != cur implies #[trigger] stack@.contains(m) by {
                                        if m < nodes0.len() {
                                            assert(stack1.contains(m));
                                            let j = choose|j: int| 0 <= j < stack1.len() && stack1[j] == m;
                                            assert(stack@[j] == m);
                                        } else {
                                            assert(stack@[stack@.len() - 1] == m);
                                        }
                                    }
                                }
                                n
                            } else {
                                rm[r]
                            };
                            let ghost edges0 = g.edges();
                            graph_add_edge(&mut g.data, cur, ridx, w);
                            proof {
                                lemma_done_push_edge(data, g.nodes(), edges0, im@, rm@, visited@, (cur, ridx, w));
                                assert forall|r2: int| 0 <= r2 < r && #[trigger] data.consumes(r2, i) implies rm@[r2] != NO_NODE && has_edge(
                                    g.edges(), cur, rm@[r2], data.ingredient_amount(r2, i)) by {
                                    lemma_has_edge_push(edges0, (cur, ridx, w), cur, rm@[r2], data.ingredient_amount(r2, i));
                                }
                                assert(g.edges()[edges0.len() as int] == (cur, ridx, w));
                                assert(has_edge(g.edges(), cur, ridx, w));
                            }
                        },
                        None => {},
                    }
                    r = r + 1;
                }
            },
            Node::Recipe(r, _) => {
                let nres = dataset.recipes[r].results.len();
                proof {
                    lemma_max_results(dataset.recipes@, r as int);
                }
                let mut k: usize = 0;
                while k < nres
                    invariant
                        ni == dataset.items@.len(),
                        nr == dataset.recipes@.len(),
                        data == *dataset,
                        dataset.wf(),
                        dataset.fits(),
                        per == nr + max_results(dataset.recipes@),
                        r < nr,
                        nres == dataset.recipes@[r as int].results@.len(),
                        nres <= max_results(dataset.recipes@),
                        k <= nres,
                        walk_ok(data, g.nodes(), g.edges(), im@, rm@, visited@),
                        g.natural_items@ == natural_prefix(dataset.items@, ni as int),
                        cur < g.nodes().len(),
                        !visited@[cur as int],
                        g.nodes()[cur as int] == Node::Recipe(r, 0),
                        forall|e: int| 0 <= e < g.edges().len() ==> visited@[(#[trigger] g.edges()[e]).0 as int] || g.edges()[e].0 == cur,
                        forall|k2: int| 0 <= k2 < k ==> im@[(#[trigger] dataset.recipes@[r as int].results@[k2]).1 as int] != NO_NODE
                            && has_edge(g.edges(), cur, im@[dataset.recipes@[r as int].results@[k2].1 as int], dataset.recipes@[r as int].results@[k2].0),
                        forall|j: int| 0 <= j < stack@.len() ==> stack@[j] < g.nodes().len(),
                        forall|n: usize| n < g.nodes().len() && !visited@[n as int] && n != cur ==> #[trigger] stack@.contains(n),
                        g.edges().len() <= count_true(visited@) * per + k,
                        count_true(visited@) < g.nodes().len(),
                        count_true(visited@) == ct0,
                    decreases nres - k,
                {
                    let (w, j) = dataset.recipes[r].results[k];
                    proof {
                        lemma_count_set_bound(im@, NO_NODE);
                        lemma_count_set_bound(rm@, NO_NODE);
                        let ct = count_true(visited@);
                        assert((ct + 1) * per <= (ni + nr) * per) by (nonlinear_arith)
                            requires ct + 1 <= ni + nr, per >= 0;
                        assert(ct * per + k < (ct + 1) * per) by (nonlinear_arith)
                            requires k < per;
                        assert(dataset.recipes@[r as int].results@[k as int] == (w, j));
                        assert(dataset.recipes@[r as int].results@[k as int].1 < ni);
                    }
                    let jidx = if im[j] == NO_NODE {
                        let ghost nodes0 = g.nodes();
                        let ghost im0 = im@;
                        let ghost stack1 = stack@;
                        let ghost visited0 = visited@;
                        let n = graph_add_node(&mut g.data, Node::Item(j, 0));
                        im.set(j, n);
                        proof {
                            lemma_done_new_node(data, nodes0, g.edges(), im0, rm@, visited0, im@, rm@, Node::Item(j, 0));
                            lemma_count_set_update(im0, NO_NODE, j as int, n);
                            lemma_count_true_push(visited@, false);
                            let d = choose|d: nat| #[trigger] recipe_reach_in(data, r as int, d);
                            assert(data.produces(r as int, j));
                            assert(item_reach_in(data, j, d + 1));
                        }
                        visited.push(false);
                        stack.push(n);
                        proof {
                            assert forall|m: usize| m < g.nodes().len() && !visited@[m as int] && m != cur implies #[trigger] stack@.contains(m) by {
                                if m < nodes0.len() {
                                    assert(stack1.contains(m));
                                    let q = choose|q: int| 0 <= q < stack1.len() && stack1[q] == m;
                                    assert(stack@[q] == m);
                                } else {
                                    assert(stack@[stack@.len() - 1] == m);
                                }
                            }
                        }
                        n
                    } else {
                        im[j]
                    };
                    let ghost edges0 = g.edges();
                    graph_add_edge(&mut g.data, cur, jidx, w);
                    proof {
                        lemma_done_push_edge(data, g.nodes(), edges0, im@, rm@, visited@, (cur, jidx, w));
                        assert forall|k2: int| 0 <= k2 < k implies im@[(#[trigger] dataset.recipes@[r as int].results@[k2]).1 as int] != NO_NODE
                            && has_edge(g.edges(), cur, im@[dataset.recipes@[r as int].results@[k2].1 as int], dataset.recipes@[r as int].results@[k2].0) by {
                            lemma_has_edge_push(edges0, (cur, jidx, w), cur, im@[dataset.recipes@[r as int].results@[k2].1 as int], dataset.recipes@[r as int].results@[k2].0);
                        }
                        assert(g.edges()[edges0.len() as int] == (cur, jidx, w));
                        assert(has_edge(g.edges(), cur, jidx, w));
                    }
                    k = k + 1;
                }
            },
        }
        proof {
            lemma_count_true_set(visited@, cur as int);
            lemma_count_true_bound(visited@);
            lemma_count_set_bound(im@, NO_NODE);
            lemma_count_set_bound(rm@, NO_NODE);
            let ct = count_true(visited@);
            assert(ct * per + per == (ct + 1) * per) by (nonlinear_arith);
        }
        visited.set(cur, true);
        assert(count_true(visited@) == ct0 + 1);
    }
    proof {
        assert forall|n: int| 0 <= n < visited@.len() implies visited@[n] by {
            if !visited@[n] {
                assert(stack@.contains(n as usize));
            }
        }
        let nodes = g.nodes();
        let edges = g.edges();
        assert forall|i: usize| i < ni implies (#[trigger] has_item_node(nodes, i) <==> item_reachable(data, i)) by {
            if item_reachable(data, i) {
                let d = choose|d: nat| #[trigger] item_reach_in(data, i, d);
                lemma_complete(data, nodes, edges, im@, rm@, visited@, d);
                let n = im@[i as int];
                assert(nodes[n as int].is_item() && nodes[n as int].entity() == i);
            }
            if has_item_node(nodes, i) {
                let n = choose|n: int| 0 <= n < nodes.len() && #[trigger] nodes[n].is_item() && nodes[n].entity() == i;
                assert(nodes[n] == Node::Item(i, 0));
            }
        }
        assert forall|r: usize| r < nr implies (#[trigger] has_recipe_node(nodes, r) <==> recipe_reachable(data, r as int)) by {
            if recipe_reachable(data, r as int) {
                let d = choose|d: nat| #[trigger] recipe_reach_in(data, r as int, d);
                lemma_complete(data, nodes, edges, im@, rm@, visited@, d);
                let n = rm@[r as int];
                assert(!nodes[n as int].is_item() && nodes[n as int].entity() == r);
            }
            if has_recipe_node(nodes, r) {
                let n = choose|n: int| 0 <= n < nodes.len() && !(#[trigger] nodes[n].is_item()) && nodes[n].entity() == r;
                assert(nodes[n] == Node::Recipe(r, 0));
            }
        }
        assert forall|a: int, b: int|
            0 <= a < nodes.len() && 0 <= b < nodes.len() && a != b implies !(#[trigger] nodes[a]).same_entity(#[trigger] nodes[b]) by {
            match nodes[a] {
                Node::Item(i, _) => {},
                Node::Recipe(r, _) => {},
            }
            match nodes[b] {
                Node::Item(i, _) => {},
                Node::Recipe(r, _) => {},
            }
        }
        assert forall|n: int| 0 <= n < nodes.len() implies if (#[trigger] nodes[n]).is_item() {
            nodes[n].entity() < data.items@.len()
        } else {
            nodes[n].entity() < data.recipes@.len()
        } by {
            match nodes[n] {
                Node::Item(i, _) => {},
                Node::Recipe(r, _) => {},
            }
        }
        assert forall|a: int, b: int|
            0 <= a < nodes.len() && 0 <= b < nodes.len() && (#[trigger] nodes[a]).is_item() && !(#[trigger] nodes[b]).is_item()
                && data.consumes(nodes[b].entity() as int, nodes[a].entity()) implies has_edge(
                edges, a as usize, b as usize, data.ingredient_amount(nodes[b].entity() as int, nodes[a].entity())) by {
            let i = nodes[a].entity();
            let r = nodes[b].entity();
            assert(nodes[a] == Node::Item(i, 0));
            assert(nodes[b] == Node::Recipe(r, 0));
            assert(visited@[a]);
            assert(item_done(data, edges, rm@, a as usize, i));
            assert(data.consumes(r as int, i));
        }
        assert forall|a: int, b: int, k: int|
            0 <= a < nodes.len() && 0 <= b < nodes.len() && !(#[trigger] nodes[a]).is_item() && (#[trigger] nodes[b]).is_item()
                && 0 <= k < data.recipes@[nodes[a].entity() as int].results@.len()
                && (#[trigger] data.recipes@[nodes[a].entity() as int].results@[k]).1 == nodes[b].entity() implies has_edge(
                edges, a as usize, b as usize, data.recipes@[nodes[a].entity() as int].results@[k].0) by {
            let j = nodes[b].entity();
            let r = nodes[a].entity();
            assert(nodes[a] == Node::Recipe(r, 0));
            assert(nodes[b] == Node::Item(j, 0));
            assert(visited@[a]);
            assert(recipe_done(data, edges, im@, a as usize, r));
        }
    }
    g
}

impl CraftingGraph {
    /// Builds the full crafting graph of `dataset`: a node for every item and
    /// recipe reachable from its natural items, an edge from each ingredient
    /// to each recipe consuming it and from each recipe to each of its
    /// results, weighted by the amounts; then assigns the tiers.
    pub fn from_dataset(dataset: &DataSet) -> (g: CraftingGraph)
        requires
            dataset.wf(),
            dataset.fits(),
        ensures
            is_full_graph(*dataset, shape(g.nodes()), g.edges()),
            g.wf(),
            g.tiers_assigned(),
            g.producers_present(),
            g.natural_items@ == natural_prefix(dataset.items@, dataset.items@.len() as int),
            g.nodes().len() == reachable_items(*dataset).len() + reachable_recipes(*dataset).len(),
            g.entities_within(dataset),
    {
        let mut g = build_structure(dataset);
        let ghost built = g.nodes();
        proof {
            assert(shape(built) =~= built) by {
                assert forall|v: int| 0 <= v < built.len() implies #[trigger] shape(built)[v] == built[v] by {
                    match built[v] {
                        Node::Item(_, _) => {},
                        Node::Recipe(_, _) => {},
                    }
                }
            }
        }
        g.adjust_tiers();
        let node_count = graph_node_count(&g.data);
        proof {
            let nodes = g.nodes();
            assert(node_count == nodes.len());
            lemma_full_graph_node_count(*dataset, g);
            let sh = shape(nodes);
            assert forall|v: int| 0 <= v < nodes.len() implies if (#[trigger] nodes[v]).is_item() {
                nodes[v].entity() < dataset.items@.len()
            } else {
                nodes[v].entity() < dataset.recipes@.len()
            } by {
                crate::tiers::lemma_with_tier(nodes[v], 0);
                assert(sh[v] == nodes[v].with_tier(0));
            }
            let edges = g.edges();
            assert forall|v: int|
                0 <= v < nodes.len() && (#[trigger] nodes[v]).is_item() && !g.natural_items@.contains(nodes[v].entity())
                    implies exists|e: int| 0 <= e < edges.len() && #[trigger] edges[e].1 == v by {
                let i = nodes[v].entity();
                crate::tiers::lemma_with_tier(nodes[v], 0);
                assert(sh[v] == nodes[v].with_tier(0));
                assert(has_item_node(sh, i));
                lemma_natural_prefix(dataset.items@, dataset.items@.len() as int, i);
                let d = choose|d: nat| #[trigger] item_reach_in(*dataset, i, d);
                let r = choose|r: int| #[trigger] dataset.produces(r, i) && recipe_reach_in(*dataset, r, (d - 1) as nat);
                assert(recipe_reachable(*dataset, r));
                let ru = r as usize;
                assert(ru as int == r);
                assert(has_recipe_node(sh, ru));
                let m = choose|m: int| 0 <= m < sh.len() && !(#[trigger] sh[m].is_item()) && sh[m].entity() == ru;
                let k = choose|k: int| 0 <= k < dataset.recipes@[r].results@.len() && #[trigger] dataset.recipes@[r].results@[k].1 == i;
                assert(dataset.recipes@[sh[m].entity() as int].results@[k].1 == sh[v].entity());
                assert(has_edge(edges, m as usize, v as usize, dataset.recipes@[r].results@[k].0));
                let e = choose|e: int| 0 <= e < edges.len() && #[trigger] edges[e] == (m as usize, v as usize, dataset.recipes@[r].results@[k].0);
                assert(edges[e].1 == v);
            }
        }
        g
    }
}

} // verus!
