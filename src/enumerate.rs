//! Enumeration of crafting trees: a bounded best-first search over the
//! alternative recipes of a crafting graph.
use crate::counting::{count_true, lemma_count_true_bound, lemma_count_true_set};
use crate::crafting::{has_edge, CraftingGraph};
use crate::graph::{
    graph_add_edge, graph_add_node, graph_clone, graph_edge, graph_edge_count, graph_new, graph_node,
    graph_node_count, Node,
};
use crate::queries::edges_at;
use vstd::arithmetic::power::{lemma_pow_adds, lemma_pow_positive, lemma_pow_strictly_increases, lemma_pow1, pow};
use vstd::prelude::*;

verus! {

/// A node of a partial solution that is still to be expanded.
struct Pending {
    /// Its index in the full graph.
    gidx: usize,
    /// Its index in the partial solution.
    sidx: usize,
    /// By full-graph index: the items among its ancestors.
    on_path: Vec<bool>,
}

/// A partial solution with the nodes it has left to expand.
struct Branch {
    graph: CraftingGraph,
    pending: Vec<Pending>,
    /// Sum of the tiers of its nodes (capped); cheaper branches go first.
    score: u128,
    /// For each of its nodes, the full-graph node it copies.
    origin: Ghost<Seq<usize>>,
}

/// How far below the search bound an entry stands: one less for each step
/// down the tree, and never below one.
spec fn exponent(full: Seq<Node>, p: Pending) -> nat {
    let c = count_true(p.on_path@) as int;
    let n = full.len() as int;
    if full[p.gidx as int].is_item() {
        (2 * n + 2 - 2 * c) as nat
    } else {
        (2 * n + 3 - 2 * c) as nat
    }
}

/// What a branch has left to do: each entry weighs `base` to its exponent.
spec fn branch_weight(full: Seq<Node>, base: nat, pend: Seq<Pending>) -> nat
    decreases pend.len(),
{
    if pend.len() == 0 {
        0
    } else {
        branch_weight(full, base, pend.drop_last()) + pow(base as int, exponent(full, pend.last())) as nat
    }
}

/// What the search has left to do: each branch weighs `base` to its weight.
/// Every step of the search lowers it.
spec fn frontier_weight(full: Seq<Node>, base: nat, fr: Seq<Branch>) -> nat
    decreases fr.len(),
{
    if fr.len() == 0 {
        0
    } else {
        frontier_weight(full, base, fr.drop_last()) + pow(base as int, branch_weight(full, base, fr.last().pending@)) as nat
    }
}

proof fn lemma_frontier_push(full: Seq<Node>, base: nat, fr: Seq<Branch>, b: Branch)
    requires
        base >= 2,
    ensures
        frontier_weight(full, base, fr.push(b)) == frontier_weight(full, base, fr) + pow(base as int, branch_weight(full, base, b.pending@)),
{
    assert(fr.push(b).drop_last() =~= fr);
    lemma_pow_positive(base as int, branch_weight(full, base, b.pending@));
}

proof fn lemma_frontier_remove(full: Seq<Node>, base: nat, fr: Seq<Branch>, i: int)
    requires
        base >= 2,
        0 <= i < fr.len(),
    ensures
        frontier_weight(full, base, fr.remove(i)) + pow(base as int, branch_weight(full, base, fr[i].pending@))
            == frontier_weight(full, base, fr),
    decreases fr.len(),
{
    lemma_pow_positive(base as int, branch_weight(full, base, fr[i].pending@));
    lemma_pow_positive(base as int, branch_weight(full, base, fr.last().pending@));
    if i == fr.len() - 1 {
        assert(fr.remove(i) =~= fr.drop_last());
    } else {
        lemma_frontier_remove(full, base, fr.drop_last(), i);
        assert(fr.remove(i).drop_last() =~= fr.drop_last().remove(i));
        assert(fr.remove(i).last() == fr.last());
    }
}

proof fn lemma_branch_push(full: Seq<Node>, base: nat, pend: Seq<Pending>, p: Pending)
    requires
        base >= 2,
    ensures
        branch_weight(full, base, pend.push(p)) == branch_weight(full, base, pend) + pow(base as int, exponent(full, p)),
{
    assert(pend.push(p).drop_last() =~= pend);
    lemma_pow_positive(base as int, exponent(full, p));
}

proof fn lemma_branch_pop(full: Seq<Node>, base: nat, pend: Seq<Pending>)
    requires
        base >= 2,
        pend.len() > 0,
    ensures
        branch_weight(full, base, pend) == branch_weight(full, base, pend.drop_last()) + pow(base as int, exponent(full, pend.last())),
{
    lemma_pow_positive(base as int, exponent(full, pend.last()));
}

/// Entries that agree on everything the search reads of them.
spec fn same_pending(a: Pending, b: Pending) -> bool {
    a.gidx == b.gidx && a.sidx == b.sidx && a.on_path@ == b.on_path@
}

proof fn lemma_branch_same(full: Seq<Node>, base: nat, a: Seq<Pending>, b: Seq<Pending>)
    requires
        a.len() == b.len(),
        forall|k: int| 0 <= k < a.len() ==> same_pending(#[trigger] a[k], b[k]),
    ensures
        branch_weight(full, base, a) == branch_weight(full, base, b),
    decreases a.len(),
{
    if a.len() > 0 {
        lemma_branch_same(full, base, a.drop_last(), b.drop_last());
        assert(same_pending(a[a.len() - 1], b[a.len() - 1]));
    }
}

/// `q` steps one below `e`, counted `k` times, stay below one step at `e`.
proof fn lemma_steps_below(base: nat, e: nat, k: nat)
    requires
        base >= 2,
        e >= 1,
        k < base,
    ensures
        k * pow(base as int, (e - 1) as nat) < pow(base as int, e),
        pow(base as int, (e - 1) as nat) >= 1,
{
    lemma_pow_positive(base as int, (e - 1) as nat);
    lemma_pow_adds(base as int, 1, (e - 1) as nat);
    lemma_pow1(base as int);
    let p = pow(base as int, (e - 1) as nat);
    assert(k * p < base * p) by (nonlinear_arith)
        requires k < base, p >= 1;
}

fn copy_flags(v: &Vec<bool>) -> (r: Vec<bool>)
    ensures
        r@ == v@,
{
    let mut r: Vec<bool> = Vec::new();
    let mut k: usize = 0;
    while k < v.len()
        invariant
            k <= v@.len(),
            r@ =~= v@.take(k as int),
        decreases v@.len() - k,
    {
        r.push(v[k]);
        k = k + 1;
    }
    assert(v@.take(v@.len() as int) =~= v@);
    r
}

fn copy_pendings(v: &Vec<Pending>) -> (r: Vec<Pending>)
    ensures
        r@.len() == v@.len(),
        forall|k: int| 0 <= k < v@.len() ==> same_pending(#[trigger] r@[k], v@[k]),
{
    let mut r: Vec<Pending> = Vec::new();
    let mut k: usize = 0;
    while k < v.len()
        invariant
            k <= v@.len(),
            r@.len() == k,
            forall|j: int| 0 <= j < k ==> same_pending(#[trigger] r@[j], v@[j]),
        decreases v@.len() - k,
    {
        let p = &v[k];
        r.push(Pending { gidx: p.gidx, sidx: p.sidx, on_path: copy_flags(&p.on_path) });
        k = k + 1;
    }
    r
}

fn copy_naturals(v: &Vec<usize>) -> (r: Vec<usize>)
    ensures
        r@ == v@,
{
    let mut r: Vec<usize> = Vec::new();
    let mut k: usize = 0;
    while k < v.len()
        invariant
            k <= v@.len(),
            r@ =~= v@.take(k as int),
        decreases v@.len() - k,
    {
        r.push(v[k]);
        k = k + 1;
    }
    assert(v@.take(v@.len() as int) =~= v@);
    r
}

/// Index of the first branch with the least score.
fn cheapest(frontier: &Vec<Branch>) -> (i: usize)
    requires
        frontier@.len() > 0,
    ensures
        i < frontier@.len(),
        forall|j: int| 0 <= j < frontier@.len() ==> frontier@[i as int].score <= #[trigger] frontier@[j].score,
{
    let mut best: usize = 0;
    let mut k: usize = 1;
    while k < frontier.len()
        invariant
            0 < k <= frontier@.len(),
            best < k,
            forall|j: int| 0 <= j < k ==> frontier@[best as int].score <= #[trigger] frontier@[j].score,
        decreases frontier@.len() - k,
    {
        if frontier[k].score < frontier[best].score {
            best = k;
        }
        k = k + 1;
    }
    best
}

/// `a + b`, capped at the largest `u128`.
fn add_capped(a: u128, b: usize) -> (r: u128)
    ensures
        r == if a + b > u128::MAX { u128::MAX as int } else { a + b },
{
    if a > u128::MAX - (b as u128) {
        u128::MAX
    } else {
        a + b as u128
    }
}

/// `sn` and `se` form a tree of copies of nodes of `full`, rooted at a copy
/// of `target`: node `j > 0` hangs from an earlier node by edge `j - 1`
/// (edges point from a node to its parent), `o[j]` is the full-graph node
/// that node `j` copies, and every edge copies an edge of `full`, weight
/// included.
pub open spec fn tree_copy(
    full: CraftingGraph,
    target: Node,
    sn: Seq<Node>,
    se: Seq<(usize, usize, crate::entities::ItemAmount)>,
    o: Seq<usize>,
) -> bool {
    &&& sn.len() >= 1
    &&& sn[0] == target
    &&& o.len() == sn.len()
    &&& forall|j: int| 0 <= j < sn.len() ==> (#[trigger] o[j]) < full.nodes().len() && full.nodes()[o[j] as int] == sn[j]
    &&& se.len() + 1 == sn.len()
    &&& forall|k: int|
        0 <= k < se.len() ==> (#[trigger] se[k]).0 == k + 1 && se[k].1 <= k && has_edge(
            full.edges(),
            o[k + 1],
            o[se[k].1 as int],
            se[k].2,
        )
}


proof fn lemma_tree_extend(
    full: CraftingGraph,
    target: Node,
    sn: Seq<Node>,
    se: Seq<(usize, usize, crate::entities::ItemAmount)>,
    o: Seq<usize>,
    src: usize,
    par: usize,
    w: crate::entities::ItemAmount,
)
    requires
        tree_copy(full, target, sn, se, o),
        src < full.nodes().len(),
        par < sn.len(),
        has_edge(full.edges(), src, o[par as int], w),
        sn.len() <= usize::MAX,
    ensures
        tree_copy(full, target, sn.push(full.nodes()[src as int]), se.push((sn.len() as usize, par, w)), o.push(src)),
{
    let sn2 = sn.push(full.nodes()[src as int]);
    let se2 = se.push((sn.len() as usize, par, w));
    let o2 = o.push(src);
    assert forall|j: int| 0 <= j < sn2.len() implies (#[trigger] o2[j]) < full.nodes().len() && full.nodes()[o2[j] as int] == sn2[j] by {
        if j < sn.len() {
            assert(o2[j] == o[j]);
        }
    }
    assert forall|k: int| 0 <= k < se2.len() implies (#[trigger] se2[k]).0 == k + 1 && se2[k].1 <= k && has_edge(
        full.edges(), o2[k + 1], o2[se2[k].1 as int], se2[k].2) by {
        if k < se.len() {
            assert(se2[k] == se[k]);
            assert(o2[k + 1] == o[k + 1]);
            assert(o2[se[k].1 as int] == o[se[k].1 as int]);
        } else {
            assert(o2[k + 1] == src);
            assert(o2[par as int] == o[par as int]);
        }
    }
}

pub type Edges = Seq<(usize, usize, crate::entities::ItemAmount)>;

/// Node `j` of the tree hangs from node `p`.
pub open spec fn parent_is(se: Edges, j: int, p: int) -> bool {
    1 <= j && j - 1 < se.len() && se[j - 1].1 == p
}

/// No node of the tree hangs from node `p`.
pub open spec fn is_leaf(se: Edges, p: int) -> bool {
    forall|k: int| 0 <= k < se.len() ==> (#[trigger] se[k]).1 != p
}

/// Node `a` lies on the way from node `p` up to the root.
pub open spec fn is_ancestor(se: Edges, a: int, p: int) -> bool
    decreases p,
{
    if 1 <= p && p - 1 < se.len() && se[p - 1].1 < p {
        se[p - 1].1 == a || is_ancestor(se, a, se[p - 1].1 as int)
    } else {
        false
    }
}

/// The ingredients of recipe node `p` hang from it as the nodes `j0`,
/// `j0 + 1`, ...: one for each edge into the full-graph node it copies, in
/// edge order, copying that edge's source and weight; no other node hangs
/// from it.
pub open spec fn ingredients_attached(full: CraftingGraph, se: Edges, o: Seq<usize>, p: int, j0: int) -> bool {
    let ins = edges_at(full.edges(), o[p], true, full.edges().len() as int);
    &&& j0 >= 1
    &&& j0 - 1 + ins.len() <= se.len()
    &&& forall|k: int|
        0 <= k < ins.len() ==> #[trigger] se[j0 + k - 1] == ((j0 + k) as usize, p as usize, full.edges()[ins[k] as int].2)
            && o[j0 + k] == full.edges()[ins[k] as int].0
    &&& forall|k: int| 0 <= k < se.len() && (#[trigger] se[k]).1 == p ==> j0 <= k + 1 < j0 + ins.len()
}

/// Some node above node `p` copies the same node of the full graph.
pub open spec fn repeats_above(se: Edges, o: Seq<usize>, p: int) -> bool {
    exists|a: int| #[trigger] is_ancestor(se, a, p) && o[a] == o[p]
}

/// Node `p` of the tree is fully worked out: a natural item is a leaf; a
/// derived item that repeats an item above it is a leaf (the cycle is cut
/// there), any other derived item has exactly one recipe hanging from it;
/// a recipe has its ingredients attached.
pub open spec fn expanded(full: CraftingGraph, sn: Seq<Node>, se: Edges, o: Seq<usize>, p: int) -> bool {
    if sn[p].is_item() {
        if full.natural_items@.contains(sn[p].entity()) {
            is_leaf(se, p)
        } else if repeats_above(se, o, p) {
            is_leaf(se, p)
        } else {
            exists|j: int| #[trigger] parent_is(se, j, p) && !sn[j].is_item() && forall|j2: int| #[trigger] parent_is(se, j2, p) ==> j2 == j
        }
    } else {
        exists|j0: int| #[trigger] ingredients_attached(full, se, o, p, j0)
    }
}

proof fn lemma_ancestor_prefix(se: Edges, x: (usize, usize, crate::entities::ItemAmount), a: int, p: int)
    requires
        p <= se.len(),
    ensures
        is_ancestor(se.push(x), a, p) == is_ancestor(se, a, p),
    decreases p,
{
    if 1 <= p && p - 1 < se.len() && se[p - 1].1 < p {
        assert(se.push(x)[p - 1] == se[p - 1]);
        lemma_ancestor_prefix(se, x, a, se[p - 1].1 as int);
    } else if 1 <= p {
        assert(se.push(x)[p - 1] == se[p - 1]);
    }
}

/// Hanging a new node `j` from `par` leaves every other node as worked out
/// as it was.
proof fn lemma_expanded_frame(full: CraftingGraph, sn: Seq<Node>, se: Edges, o: Seq<usize>, x: Node, src: usize, par: usize, w: crate::entities::ItemAmount, q: int)
    requires
        se.len() + 1 == sn.len(),
        o.len() == sn.len(),
        0 <= q < sn.len(),
        q != par,
        par < sn.len(),
        expanded(full, sn, se, o, q),
    ensures
        expanded(full, sn.push(x), se.push((sn.len() as usize, par, w)), o.push(src), q),
{
    let e = (sn.len() as usize, par, w);
    let sn2 = sn.push(x);
    let se2 = se.push(e);
    let o2 = o.push(src);
    assert(sn2[q] == sn[q]);
    assert(o2[q] == o[q]);
    assert(repeats_above(se2, o2, q) == repeats_above(se, o, q)) by {
        if repeats_above(se, o, q) {
            let a = choose|a: int| #[trigger] is_ancestor(se, a, q) && o[a] == o[q];
            lemma_ancestor_prefix(se, e, a, q);
            lemma_ancestor_bound(se, a, q);
            assert(o2[a] == o[a]);
        }
        if repeats_above(se2, o2, q) {
            let a = choose|a: int| #[trigger] is_ancestor(se2, a, q) && o2[a] == o2[q];
            lemma_ancestor_prefix(se, e, a, q);
            lemma_ancestor_bound(se, a, q);
            assert(o2[a] == o[a]);
        }
    }
    if sn[q].is_item() {
        if full.natural_items@.contains(sn[q].entity()) || repeats_above(se, o, q) {
            assert forall|k: int| 0 <= k < se2.len() implies (#[trigger] se2[k]).1 != q by {
                if k < se.len() {
                    assert(se2[k] == se[k]);
                }
            }
        } else {
            let j = choose|j: int| #[trigger] parent_is(se, j, q) && !sn[j].is_item() && forall|j2: int| #[trigger] parent_is(se, j2, q) ==> j2 == j;
            assert(se2[j - 1] == se[j - 1]);
            assert(sn2[j] == sn[j]);
            assert(parent_is(se2, j, q));
            assert forall|j2: int| #[trigger] parent_is(se2, j2, q) implies j2 == j by {
                if j2 - 1 < se.len() {
                    assert(se2[j2 - 1] == se[j2 - 1]);
                    assert(parent_is(se, j2, q));
                }
            }
        }
    } else {
        let j0 = choose|j0: int| #[trigger] ingredients_attached(full, se, o, q, j0);
        let ins = edges_at(full.edges(), o[q], true, full.edges().len() as int);
        let ins2 = edges_at(full.edges(), o2[q], true, full.edges().len() as int);
        assert(ins2 == ins);
        assert forall|k: int|
            0 <= k < ins2.len() implies #[trigger] se2[j0 + k - 1] == ((j0 + k) as usize, q as usize, full.edges()[ins2[k] as int].2)
                && o2[j0 + k] == full.edges()[ins2[k] as int].0 by {
            assert(se[j0 + k - 1] == ((j0 + k) as usize, q as usize, full.edges()[ins[k] as int].2));
            assert(j0 + k - 1 < se.len());
            assert(se2[j0 + k - 1] == se[j0 + k - 1]);
            assert(o2[j0 + k] == o[j0 + k]);
        }
        assert forall|k: int| 0 <= k < se2.len() && (#[trigger] se2[k]).1 == q implies j0 <= k + 1 < j0 + ins2.len() by {
            if k < se.len() {
                assert(se2[k] == se[k]);
            }
        }
        assert(j0 >= 1);
        assert(ingredients_attached(full, se2, o2, q, j0));
    }
}

proof fn lemma_ancestor_bound(se: Edges, a: int, p: int)
    requires
        is_ancestor(se, a, p),
    ensures
        0 <= a < p,
    decreases p,
{
    if 1 <= p && p - 1 < se.len() && se[p - 1].1 < p {
        if se[p - 1].1 != a {
            lemma_ancestor_bound(se, a, se[p - 1].1 as int);
        }
    }
}

/// `sol` is one way of crafting `target` from the graph `full`: a tree of
/// copies of its nodes and edges rooted at `target` in which every node is
/// worked out (see `expanded`).
pub open spec fn is_solution(full: CraftingGraph, target: Node, sol: CraftingGraph) -> bool {
    &&& sol.natural_items@ == full.natural_items@
    &&& exists|o: Seq<usize>|
        #[trigger] tree_copy(full, target, sol.nodes(), sol.edges(), o) && forall|j: int|
            0 <= j < sol.nodes().len() ==> #[trigger] expanded(full, sol.nodes(), sol.edges(), o, j)
}

/// What the search keeps true of an entry of a branch: it copies a node of
/// `full`, has nothing hanging from it yet, and marks only items that lie
/// above it.
spec fn entry_ok(full: CraftingGraph, sn: Seq<Node>, se: Edges, o: Seq<usize>, p: Pending) -> bool {
    &&& p.sidx < sn.len()
    &&& p.gidx < full.nodes().len()
    &&& o[p.sidx as int] == p.gidx
    &&& p.on_path@.len() == full.nodes().len()
    &&& full.nodes()[p.gidx as int].is_item() ==> !p.on_path@[p.gidx as int]
    &&& is_leaf(se, p.sidx as int)
    &&& marks_ok(se, o, p)
    &&& marks_all(sn, se, o, p)
}

/// An entry marks every item above it.
spec fn marks_all(sn: Seq<Node>, se: Edges, o: Seq<usize>, p: Pending) -> bool {
    forall|a: int| #[trigger] is_ancestor(se, a, p.sidx as int) && sn[a].is_item() ==> p.on_path@[o[a] as int]
}

proof fn lemma_repeats_prefix(se: Edges, o: Seq<usize>, x: (usize, usize, crate::entities::ItemAmount), src: usize, q: int)
    requires
        0 <= q <= se.len(),
        o.len() == se.len() + 1,
    ensures
        repeats_above(se.push(x), o.push(src), q) == repeats_above(se, o, q),
{
    let se2 = se.push(x);
    let o2 = o.push(src);
    assert(o2[q] == o[q]);
    if repeats_above(se, o, q) {
        let a = choose|a: int| #[trigger] is_ancestor(se, a, q) && o[a] == o[q];
        lemma_ancestor_prefix(se, x, a, q);
        lemma_ancestor_bound(se, a, q);
        assert(o2[a] == o[a]);
    }
    if repeats_above(se2, o2, q) {
        let a = choose|a: int| #[trigger] is_ancestor(se2, a, q) && o2[a] == o2[q];
        lemma_ancestor_prefix(se, x, a, q);
        lemma_ancestor_bound(se, a, q);
        assert(o2[a] == o[a]);
    }
}

/// The ancestors of a node are its parent and the parent's ancestors.
proof fn lemma_ancestor_unfold(se: Edges, a: int, j: int)
    requires
        is_ancestor(se, a, j),
    ensures
        se[j - 1].1 == a || is_ancestor(se, a, se[j - 1].1 as int),
{
}

/// Every item an entry marks is copied by a node above it.
spec fn marks_ok(se: Edges, o: Seq<usize>, p: Pending) -> bool {
    forall|x: int|
        0 <= x < p.on_path@.len() && #[trigger] p.on_path@[x] ==> exists|a: int| #[trigger] is_ancestor(se, a, p.sidx as int) && o[a] == x
}

/// Some entry stands for node `j`.
spec fn pending_at(pend: Seq<Pending>, j: int) -> bool {
    exists|q: int| 0 <= q < pend.len() && #[trigger] pend[q].sidx == j
}

/// What the search keeps true of a partial solution and its entries.
spec fn tree_ok(full: CraftingGraph, target: Node, sn: Seq<Node>, se: Edges, o: Seq<usize>, pend: Seq<Pending>) -> bool {
    &&& tree_copy(full, target, sn, se, o)
    &&& forall|q: int| 0 <= q < pend.len() ==> entry_ok(full, sn, se, o, #[trigger] pend[q])
    &&& forall|q1: int, q2: int|
        0 <= q1 < pend.len() && 0 <= q2 < pend.len() && q1 != q2 ==> (#[trigger] pend[q1]).sidx != (#[trigger] pend[q2]).sidx
    &&& forall|j: int| 0 <= j < sn.len() ==> pending_at(pend, j) || #[trigger] expanded(full, sn, se, o, j)
}

/// The first ingredient edges `ins` of the recipe node `par` have their
/// copies hanging from it as the nodes `j0`, `j0 + 1`, ...
spec fn attached_so_far(full: CraftingGraph, se: Edges, o: Seq<usize>, par: usize, ins: Seq<usize>, j0: int) -> bool {
    forall|k: int|
        0 <= k < ins.len() ==> #[trigger] se[j0 + k - 1] == ((j0 + k) as usize, par, full.edges()[ins[k] as int].2) && o[j0 + k]
            == full.edges()[ins[k] as int].0
}

/// What the search keeps true of a branch.
spec fn branch_ok(full: CraftingGraph, target: Node, b: Branch) -> bool {
    &&& b.graph.natural_items@ == full.natural_items@
    &&& tree_ok(full, target, b.graph.nodes(), b.graph.edges(), b.origin@, b.pending@)
}

proof fn lemma_ancestor_via_parent(se: Edges, a: int, par: int, j: int)
    requires
        1 <= j,
        j - 1 < se.len(),
        se[j - 1].1 == par,
        par < j,
        a == par || is_ancestor(se, a, par),
    ensures
        is_ancestor(se, a, j),
{
}

/// An entry stays as it was when a new node hangs from another one.
proof fn lemma_entry_extend(full: CraftingGraph, sn: Seq<Node>, se: Edges, o: Seq<usize>, p: Pending, x: Node, src: usize, par: usize, w: crate::entities::ItemAmount)
    requires
        entry_ok(full, sn, se, o, p),
        p.sidx != par,
        o.len() == sn.len(),
        se.len() + 1 == sn.len(),
    ensures
        entry_ok(full, sn.push(x), se.push((sn.len() as usize, par, w)), o.push(src), p),
{
    let e = (sn.len() as usize, par, w);
    let se2 = se.push(e);
    let o2 = o.push(src);
    let sn2 = sn.push(x);
    assert(o2[p.sidx as int] == o[p.sidx as int]);
    assert forall|a: int| #[trigger] is_ancestor(se2, a, p.sidx as int) && sn2[a].is_item() implies p.on_path@[o2[a] as int] by {
        lemma_ancestor_prefix(se, e, a, p.sidx as int);
        lemma_ancestor_bound(se, a, p.sidx as int);
        assert(sn2[a] == sn[a]);
        assert(o2[a] == o[a]);
    }
    assert forall|k: int| 0 <= k < se2.len() implies (#[trigger] se2[k]).1 != p.sidx as int by {
        if k < se.len() {
            assert(se2[k] == se[k]);
        }
    }
    assert forall|y: int| 0 <= y < p.on_path@.len() && #[trigger] p.on_path@[y] implies exists|a: int|
        #[trigger] is_ancestor(se2, a, p.sidx as int) && o2[a] == y by {
        let a = choose|a: int| #[trigger] is_ancestor(se, a, p.sidx as int) && o[a] == y;
        lemma_ancestor_prefix(se, e, a, p.sidx as int);
        lemma_ancestor_bound(se, a, p.sidx as int);
        assert(o2[a] == o[a]);
    }
}

/// The marks of an entry stay right when a new node hangs below the tree.
proof fn lemma_marks_extend(sn: Seq<Node>, se: Edges, o: Seq<usize>, p: Pending, x: Node, src: usize, par: usize, w: crate::entities::ItemAmount)
    requires
        marks_ok(se, o, p),
        marks_all(sn, se, o, p),
        p.sidx < sn.len(),
        o.len() == sn.len(),
        se.len() + 1 == sn.len(),
    ensures
        marks_ok(se.push((sn.len() as usize, par, w)), o.push(src), p),
        marks_all(sn.push(x), se.push((sn.len() as usize, par, w)), o.push(src), p),
{
    let e = (sn.len() as usize, par, w);
    let se2 = se.push(e);
    let o2 = o.push(src);
    let sn2 = sn.push(x);
    assert forall|a: int| #[trigger] is_ancestor(se2, a, p.sidx as int) && sn2[a].is_item() implies p.on_path@[o2[a] as int] by {
        lemma_ancestor_prefix(se, e, a, p.sidx as int);
        lemma_ancestor_bound(se, a, p.sidx as int);
        assert(sn2[a] == sn[a]);
        assert(o2[a] == o[a]);
    }
    assert forall|y: int| 0 <= y < p.on_path@.len() && #[trigger] p.on_path@[y] implies exists|a: int|
        #[trigger] is_ancestor(se2, a, p.sidx as int) && o2[a] == y by {
        let a = choose|a: int| #[trigger] is_ancestor(se, a, p.sidx as int) && o[a] == y;
        lemma_ancestor_prefix(se, e, a, p.sidx as int);
        lemma_ancestor_bound(se, a, p.sidx as int);
        assert(o2[a] == o[a]);
    }
}

/// A new entry hanging from an entry `par` of the tree, marking what `par`
/// marks, and `o[par]` too when `mark`.
proof fn lemma_entry_child(full: CraftingGraph, sn: Seq<Node>, se: Edges, o: Seq<usize>, p: Pending, c: Pending, x: Node, w: crate::entities::ItemAmount, mark: bool)
    requires
        p.sidx < sn.len(),
        p.gidx < full.nodes().len(),
        o[p.sidx as int] == p.gidx,
        p.on_path@.len() == full.nodes().len(),
        marks_ok(se, o, p),
        marks_all(sn, se, o, p),
        mark == sn[p.sidx as int].is_item(),
        o.len() == sn.len(),
        se.len() + 1 == sn.len(),
        forall|k: int| 0 <= k < se.len() ==> (#[trigger] se[k]).1 <= k,
        forall|j: int| 0 <= j < o.len() ==> (#[trigger] o[j]) < full.nodes().len(),
        c.sidx == sn.len(),
        c.gidx < full.nodes().len(),
        c.on_path@ == if mark { p.on_path@.update(p.gidx as int, true) } else { p.on_path@ },
        full.nodes()[c.gidx as int].is_item() ==> !c.on_path@[c.gidx as int],
    ensures
        entry_ok(full, sn.push(x), se.push((sn.len() as usize, p.sidx, w)), o.push(c.gidx), c),
{
    let e = (sn.len() as usize, p.sidx, w);
    let se2 = se.push(e);
    let o2 = o.push(c.gidx);
    assert forall|k: int| 0 <= k < se2.len() implies (#[trigger] se2[k]).1 != c.sidx as int by {
        if k < se.len() {
            assert(se2[k] == se[k]);
        }
    }
    assert(se2[c.sidx - 1] == e);
    assert forall|y: int| 0 <= y < c.on_path@.len() && #[trigger] c.on_path@[y] implies exists|a: int|
        #[trigger] is_ancestor(se2, a, c.sidx as int) && o2[a] == y by {
        if mark && y == p.gidx {
            lemma_ancestor_via_parent(se2, p.sidx as int, p.sidx as int, c.sidx as int);
            assert(o2[p.sidx as int] == o[p.sidx as int]);
        } else {
            assert(p.on_path@[y]);
            let a = choose|a: int| #[trigger] is_ancestor(se, a, p.sidx as int) && o[a] == y;
            lemma_ancestor_prefix(se, e, a, p.sidx as int);
            lemma_ancestor_bound(se, a, p.sidx as int);
            lemma_ancestor_via_parent(se2, a, p.sidx as int, c.sidx as int);
            assert(o2[a] == o[a]);
        }
    }
    let sn2 = sn.push(x);
    assert forall|a: int| #[trigger] is_ancestor(se2, a, c.sidx as int) && sn2[a].is_item() implies c.on_path@[o2[a] as int] by {
        lemma_ancestor_unfold(se2, a, c.sidx as int);
        if a == p.sidx {
            assert(sn2[a] == sn[a]);
            assert(o2[a] == p.gidx);
        } else {
            assert(is_ancestor(se2, a, p.sidx as int));
            lemma_ancestor_prefix(se, e, a, p.sidx as int);
            lemma_ancestor_bound(se, a, p.sidx as int);
            assert(sn2[a] == sn[a]);
            assert(o2[a] == o[a]);
            assert(p.on_path@[o[a] as int]);
        }
    }
}

/// An entry as the search reads it: the full-graph node, the tree node and
/// the marks.
pub type EntryView = (usize, usize, Seq<bool>);

/// A partial solution as the search reads it: nodes, edges, origins and
/// entries.
pub type State = (Seq<Node>, Edges, Seq<usize>, Seq<EntryView>);

spec fn entry_view(p: Pending) -> EntryView {
    (p.gidx, p.sidx, p.on_path@)
}

spec fn pend_view(pend: Seq<Pending>) -> Seq<EntryView> {
    Seq::new(pend.len(), |k: int| entry_view(pend[k]))
}

spec fn state_of(b: Branch) -> State {
    (b.graph.nodes(), b.graph.edges(), b.origin@, pend_view(b.pending@))
}

pub open spec fn exponent_v(full: Seq<Node>, p: EntryView) -> nat {
    let c = count_true(p.2) as int;
    let n = full.len() as int;
    if full[p.0 as int].is_item() {
        (2 * n + 2 - 2 * c) as nat
    } else {
        (2 * n + 3 - 2 * c) as nat
    }
}

pub open spec fn weight_v(full: Seq<Node>, base: nat, pend: Seq<EntryView>) -> nat
    decreases pend.len(),
{
    if pend.len() == 0 {
        0
    } else {
        weight_v(full, base, pend.drop_last()) + pow(base as int, exponent_v(full, pend.last())) as nat
    }
}

/// How much work the search has left on a state.
pub open spec fn state_weight(full: CraftingGraph, s: State) -> nat {
    weight_v(full.nodes(), (full.edges().len() + 2) as nat, s.3)
}

/// The entries of a state stay within the full graph, and an item entry
/// does not mark itself.
pub open spec fn state_ok(full: CraftingGraph, s: State) -> bool {
    forall|q: int|
        0 <= q < s.3.len() ==> (#[trigger] s.3[q]).0 < full.nodes().len() && s.3[q].2.len() == full.nodes().len() && (
        full.nodes()[s.3[q].0 as int].is_item() ==> !s.3[q].2[s.3[q].0 as int])
}

/// The state after recipe entry `p` has attached the ingredients of the
/// first `e` edges of the full graph.
pub open spec fn recipe_fold(full: CraftingGraph, s: State, p: EntryView, e: int) -> State
    decreases e,
{
    if e <= 0 {
        s
    } else {
        let prev = recipe_fold(full, s, p, e - 1);
        let edge = full.edges()[e - 1];
        if edge.1 == p.0 {
            let len = prev.0.len() as usize;
            (
                prev.0.push(full.nodes()[edge.0 as int]),
                prev.1.push((len, p.1, edge.2)),
                prev.2.push(edge.0),
                if !p.2[edge.0 as int] {
                    prev.3.push((edge.0, len, p.2))
                } else {
                    prev.3
                },
            )
        } else {
            prev
        }
    }
}

/// The branch in which item entry `p` is made by the recipe of edge `e`.
pub open spec fn item_child(full: CraftingGraph, s: State, p: EntryView, e: usize) -> State {
    let edge = full.edges()[e as int];
    let len = s.0.len() as usize;
    (
        s.0.push(full.nodes()[edge.0 as int]),
        s.1.push((len, p.1, edge.2)),
        s.2.push(edge.0),
        s.3.push((edge.0, len, p.2.update(p.0 as int, true))),
    )
}

/// The states one step of the search makes of `s`, whose last entry it
/// works out.
pub open spec fn successors(full: CraftingGraph, s: State) -> Seq<State> {
    let p = s.3.last();
    let rest = (s.0, s.1, s.2, s.3.drop_last());
    let ins = edges_at(full.edges(), p.0, true, full.edges().len() as int);
    if full.nodes()[p.0 as int].is_item() {
        if full.natural_items@.contains(full.nodes()[p.0 as int].entity()) {
            seq![rest]
        } else {
            Seq::new(ins.len(), |k: int| item_child(full, rest, p, ins[k]))
        }
    } else {
        seq![recipe_fold(full, rest, p, full.edges().len() as int)]
    }
}

/// How many finished solutions the search makes of `s` in at most `fuel`
/// steps down each line.
pub open spec fn solutions_within(full: CraftingGraph, s: State, fuel: nat) -> nat
    decreases fuel, 0nat,
{
    if s.3.len() == 0 {
        1
    } else if fuel == 0 {
        0
    } else {
        sum_solutions(full, successors(full, s), (fuel - 1) as nat)
    }
}

pub open spec fn sum_solutions(full: CraftingGraph, cs: Seq<State>, fuel: nat) -> nat
    decreases fuel, cs.len() + 1,
{
    if cs.len() == 0 {
        0
    } else {
        sum_solutions(full, cs.drop_last(), fuel) + solutions_within(full, cs.last(), fuel)
    }
}

/// How many finished solutions the search makes of `s`.
pub open spec fn solutions_of(full: CraftingGraph, s: State) -> nat {
    solutions_within(full, s, state_weight(full, s))
}

/// The sum of `f` over `s`.
spec fn sum_map<A>(s: Seq<A>, f: spec_fn(A) -> int) -> int
    decreases s.len(),
{
    if s.len() == 0 {
        0
    } else {
        sum_map(s.drop_last(), f) + f(s.last())
    }
}

proof fn lemma_sum_map_push<A>(s: Seq<A>, x: A, f: spec_fn(A) -> int)
    ensures
        sum_map(s.push(x), f) == sum_map(s, f) + f(x),
{
    assert(s.push(x).drop_last() =~= s);
}

proof fn lemma_sum_map_remove<A>(s: Seq<A>, i: int, f: spec_fn(A) -> int)
    requires
        0 <= i < s.len(),
    ensures
        sum_map(s.remove(i), f) + f(s[i]) == sum_map(s, f),
    decreases s.len(),
{
    if i == s.len() - 1 {
        assert(s.remove(i) =~= s.drop_last());
    } else {
        lemma_sum_map_remove(s.drop_last(), i, f);
        assert(s.remove(i).drop_last() =~= s.drop_last().remove(i));
        assert(s.remove(i).last() == s.last());
    }
}

proof fn lemma_sum_map_perm<A>(a: Seq<A>, b: Seq<A>, f: spec_fn(A) -> int)
    requires
        a.to_multiset() == b.to_multiset(),
    ensures
        sum_map(a, f) == sum_map(b, f),
    decreases a.len(),
{
    broadcast use vstd::seq_lib::to_multiset_contains, vstd::seq_lib::to_multiset_len, vstd::seq_lib::to_multiset_remove;

    assert(a.len() == a.to_multiset().len());
    assert(b.len() == b.to_multiset().len());
    if a.len() > 0 {
        let x = a.last();
        assert(a.contains(x)) by {
            assert(a[a.len() - 1] == x);
        }
        assert(a.to_multiset().count(x) > 0);
        assert(b.contains(x));
        let j = choose|j: int| 0 <= j < b.len() && b[j] == x;
        assert(a.remove(a.len() - 1) =~= a.drop_last());
        assert(a.drop_last().to_multiset() == a.to_multiset().remove(x));
        assert(b.remove(j).to_multiset() == b.to_multiset().remove(x));
        lemma_sum_map_perm(a.drop_last(), b.remove(j), f);
        lemma_sum_map_remove(b, j, f);
    } else {
        assert(b.len() == 0);
    }
}

proof fn lemma_sum_map_map<A, B>(s: Seq<A>, g: spec_fn(A) -> B, f: spec_fn(B) -> int, h: spec_fn(A) -> int)
    requires
        forall|x: A| #[trigger] h(x) == f(g(x)),
    ensures
        sum_map(s.map_values(g), f) == sum_map(s, h),
    decreases s.len(),
{
    if s.len() > 0 {
        lemma_sum_map_map(s.drop_last(), g, f, h);
        assert(s.map_values(g).drop_last() =~= s.drop_last().map_values(g));
    }
}

proof fn lemma_weight_view(full: Seq<Node>, base: nat, pend: Seq<Pending>)
    ensures
        branch_weight(full, base, pend) == weight_v(full, base, pend_view(pend)),
    decreases pend.len(),
{
    if pend.len() > 0 {
        lemma_weight_view(full, base, pend.drop_last());
        assert(pend_view(pend).drop_last() =~= pend_view(pend.drop_last()));
    }
}

proof fn lemma_weight_v_push(full: Seq<Node>, base: nat, pend: Seq<EntryView>, p: EntryView)
    requires
        base >= 2,
    ensures
        weight_v(full, base, pend.push(p)) == weight_v(full, base, pend) + pow(base as int, exponent_v(full, p)),
{
    assert(pend.push(p).drop_last() =~= pend);
    lemma_pow_positive(base as int, exponent_v(full, p));
}

proof fn lemma_fold(full: CraftingGraph, s: State, p: EntryView, e: int)
    requires
        full.wf(),
        state_ok(full, s),
        0 <= e <= full.edges().len(),
        p.0 < full.nodes().len(),
        p.2.len() == full.nodes().len(),
        !full.nodes()[p.0 as int].is_item(),
        count_true(p.2) <= full.nodes().len(),
    ensures
        state_ok(full, recipe_fold(full, s, p, e)),
        weight_v(full.nodes(), (full.edges().len() + 2) as nat, recipe_fold(full, s, p, e).3)
            <= weight_v(full.nodes(), (full.edges().len() + 2) as nat, s.3) + e * pow(
            (full.edges().len() + 2) as int,
            (exponent_v(full.nodes(), p) - 1) as nat,
        ),
    decreases e,
{
    let base = (full.edges().len() + 2) as nat;
    let pw = pow(base as int, (exponent_v(full.nodes(), p) - 1) as nat);
    lemma_pow_positive(base as int, (exponent_v(full.nodes(), p) - 1) as nat);
    if e > 0 {
        lemma_fold(full, s, p, e - 1);
        let prev = recipe_fold(full, s, p, e - 1);
        let edge = full.edges()[e - 1];
        assert((e - 1) * pw + pw == e * pw) by (nonlinear_arith);
        assert((e - 1) * pw <= e * pw) by (nonlinear_arith)
            requires pw >= 1;
        if edge.1 == p.0 && !p.2[edge.0 as int] {
            let len = prev.0.len() as usize;
            let c = (edge.0, len, p.2);
            assert(full.nodes()[edge.0 as int].is_item());
            assert(exponent_v(full.nodes(), c) == exponent_v(full.nodes(), p) - 1);
            lemma_weight_v_push(full.nodes(), base, prev.3, c);
            let next = recipe_fold(full, s, p, e);
            assert(next.3 == prev.3.push(c));
            assert forall|q: int| 0 <= q < next.3.len() implies (#[trigger] next.3[q]).0 < full.nodes().len() && next.3[q].2.len()
                == full.nodes().len() && (full.nodes()[next.3[q].0 as int].is_item() ==> !next.3[q].2[next.3[q].0 as int]) by {
                if q < prev.3.len() {
                    assert(next.3[q] == prev.3[q]);
                }
            }
        }
    }
}

proof fn lemma_successors(full: CraftingGraph, s: State)
    requires
        full.wf(),
        full.edges().len() <= usize::MAX,
        state_ok(full, s),
        s.3.len() > 0,
    ensures
        forall|k: int|
            0 <= k < successors(full, s).len() ==> state_ok(full, #[trigger] successors(full, s)[k]) && state_weight(
                full,
                successors(full, s)[k],
            ) < state_weight(full, s),
{
    let n = full.nodes().len();
    let base = (full.edges().len() + 2) as nat;
    let p = s.3.last();
    let rest: State = (s.0, s.1, s.2, s.3.drop_last());
    let ep = exponent_v(full.nodes(), p);
    assert(p == s.3[s.3.len() - 1]);
    lemma_count_true_bound(p.2);
    assert(state_ok(full, rest)) by {
        assert forall|q: int| 0 <= q < rest.3.len() implies (#[trigger] rest.3[q]).0 < n && rest.3[q].2.len() == n && (
            full.nodes()[rest.3[q].0 as int].is_item() ==> !rest.3[q].2[rest.3[q].0 as int]) by {
            assert(rest.3[q] == s.3[q]);
        }
    }
    lemma_pow_positive(base as int, ep);
    assert(state_weight(full, s) == state_weight(full, rest) + pow(base as int, ep));
    let succ = successors(full, s);
    let ins = edges_at(full.edges(), p.0, true, full.edges().len() as int);
    crate::queries::lemma_edges_at(full.edges(), p.0, true, full.edges().len() as int);
    if full.nodes()[p.0 as int].is_item() {
        if !full.natural_items@.contains(full.nodes()[p.0 as int].entity()) {
            lemma_count_true_set(p.2, p.0 as int);
            lemma_steps_below(base, ep, 1);
            assert forall|k: int| 0 <= k < succ.len() implies state_ok(full, #[trigger] succ[k]) && state_weight(full, succ[k])
                < state_weight(full, s) by {
                let e = ins[k];
                let edge = full.edges()[e as int];
                let c: EntryView = (edge.0, rest.0.len() as usize, p.2.update(p.0 as int, true));
                assert(succ[k] == item_child(full, rest, p, e));
                assert(!full.nodes()[edge.0 as int].is_item());
                lemma_count_true_bound(c.2);
                assert(exponent_v(full.nodes(), c) == ep - 1);
                lemma_weight_v_push(full.nodes(), base, rest.3, c);
                assert(succ[k].3 == rest.3.push(c));
                assert forall|q: int| 0 <= q < succ[k].3.len() implies (#[trigger] succ[k].3[q]).0 < n && succ[k].3[q].2.len() == n && (
                    full.nodes()[succ[k].3[q].0 as int].is_item() ==> !succ[k].3[q].2[succ[k].3[q].0 as int]) by {
                    if q < rest.3.len() {
                        assert(succ[k].3[q] == rest.3[q]);
                    }
                }
            }
        } else {
            assert(succ[0] == rest);
        }
    } else {
        lemma_fold(full, rest, p, full.edges().len() as int);
        lemma_steps_below(base, ep, full.edges().len() as nat);
        assert(succ[0] == recipe_fold(full, rest, p, full.edges().len() as int));
    }
}

proof fn lemma_stable(full: CraftingGraph, s: State, f: nat)
    requires
        full.wf(),
        full.edges().len() <= usize::MAX,
        state_ok(full, s),
        f >= state_weight(full, s),
    ensures
        solutions_within(full, s, f) == solutions_of(full, s),
    decreases f, 0nat,
{
    let w = state_weight(full, s);
    if s.3.len() > 0 {
        lemma_successors(full, s);
        let base = (full.edges().len() + 2) as nat;
        lemma_pow_positive(base as int, exponent_v(full.nodes(), s.3.last()));
        assert(w >= 1);
        lemma_sum_stable(full, successors(full, s), (f - 1) as nat);
        lemma_sum_stable(full, successors(full, s), (w - 1) as nat);
    }
}

proof fn lemma_sum_stable(full: CraftingGraph, cs: Seq<State>, f: nat)
    requires
        full.wf(),
        full.edges().len() <= usize::MAX,
        forall|k: int| 0 <= k < cs.len() ==> state_ok(full, #[trigger] cs[k]) && state_weight(full, cs[k]) <= f,
    ensures
        sum_solutions(full, cs, f) == sum_map(cs, |c: State| solutions_of(full, c) as int),
    decreases f, cs.len() + 1,
{
    if cs.len() > 0 {
        lemma_sum_stable(full, cs.drop_last(), f);
        assert(cs.last() == cs[cs.len() - 1]);
        lemma_stable(full, cs.last(), f);
    }
}

/// The state the search starts from: `target`, copying its first node in
/// `full`, left to work out.
pub open spec fn initial_state(full: CraftingGraph, target: Node) -> State {
    let i = choose|i: int|
        0 <= i < full.nodes().len() && full.nodes()[i] == target && forall|j: int| 0 <= j < i ==> full.nodes()[j] != target;
    (seq![target], Seq::empty(), seq![i as usize], seq![(i as usize, 0usize, Seq::new(full.nodes().len(), |x: int| false))])
}

/// How many ways of crafting `target` from the graph `full` the search
/// finds when nothing stops it early: one per choice of a producing recipe
/// for each derived item it meets.
pub open spec fn solution_count(full: CraftingGraph, target: Node) -> nat {
    solutions_of(full, initial_state(full, target))
}

proof fn lemma_branch_state_ok(full: CraftingGraph, target: Node, b: Branch)
    requires
        branch_ok(full, target, b),
    ensures
        state_ok(full, state_of(b)),
{
    let s = state_of(b);
    assert forall|q: int| 0 <= q < s.3.len() implies (#[trigger] s.3[q]).0 < full.nodes().len() && s.3[q].2.len() == full.nodes().len() && (
        full.nodes()[s.3[q].0 as int].is_item() ==> !s.3[q].2[s.3[q].0 as int]) by {
        assert(entry_ok(full, b.graph.nodes(), b.graph.edges(), b.origin@, b.pending@[q]));
    }
}

proof fn lemma_sum_map_nonneg<A>(s: Seq<A>, f: spec_fn(A) -> int)
    requires
        forall|x: A| #[trigger] f(x) >= 0,
    ensures
        sum_map(s, f) >= 0,
    decreases s.len(),
{
    if s.len() > 0 {
        lemma_sum_map_nonneg(s.drop_last(), f);
        assert(f(s.last()) >= 0);
    }
}

impl CraftingGraph {
    /// Enumerates up to `max_number_of_solutions` ways of crafting `target`
    /// from natural items, cheapest partial solutions first. Each way is a
    /// tree of copies of nodes of this graph: the ingredients of a recipe
    /// hang below it; below a derived item hangs one recipe producing it; a
    /// natural item is a leaf; an ingredient that repeats an item above it
    /// is left unexpanded, which cuts the cycle. The search stops at the
    /// bound or when every choice of recipes has been tried, so it returns
    /// the bound or all `solution_count` ways, whichever is fewer. `None`
    /// when `target` is not a node of the graph.
    #[verifier::rlimit(60)]
    pub fn get_crafting_trees(&self, target: Node, max_number_of_solutions: usize) -> (r: Option<Vec<CraftingGraph>>)
        requires
            self.wf(),
        ensures
            r is None <==> !self.nodes().contains(target),
            r is Some ==> r->0@.len() <= max_number_of_solutions,
            r is Some ==> forall|k: int| 0 <= k < r->0@.len() ==> is_solution(*self, target, #[trigger] r->0@[k]),
            r is Some ==> forall|k: int| 0 <= k < r->0@.len() ==> (#[trigger] r->0@[k]).wf(),
            r is Some && max_number_of_solutions >= 1 && self.producers_present() ==> r->0@.len() >= 1,
            r is Some ==> r->0@.len() == if solution_count(*self, target) < max_number_of_solutions {
                solution_count(*self, target) as int
            } else {
                max_number_of_solutions as int
            },
    {
        let target_idx = match self.get_node_idx(target) {
            Some(i) => i,
            None => {
                return None;
            },
        };
        let n = graph_node_count(&self.data);
        let ne = graph_edge_count(&self.data);
        let ghost full = self.nodes();
        let ghost base: nat = (ne + 2) as nat;
        let mut flags: Vec<bool> = Vec::new();
        let mut k: usize = 0;
        while k < n
            invariant
                k <= n,
                flags@.len() == k,
                forall|j: int| 0 <= j < k ==> !flags@[j],
            decreases n - k,
        {
            flags.push(false);
            k = k + 1;
        }
        let mut first = CraftingGraph { data: graph_new(), natural_items: copy_naturals(&self.natural_items) };
        let root = graph_add_node(&mut first.data, target);
        let mut pending: Vec<Pending> = Vec::new();
        pending.push(Pending { gidx: target_idx, sidx: root, on_path: flags });
        let mut frontier: Vec<Branch> = Vec::new();
        let ghost o0 = seq![target_idx];
        frontier.push(Branch { graph: first, pending, score: target.get_tier() as u128, origin: Ghost(o0) });
        let mut complete: Vec<CraftingGraph> = Vec::new();
        proof {
            let b = frontier@[0];
            let sn = b.graph.nodes();
            let se = b.graph.edges();
            assert(tree_copy(*self, target, sn, se, b.origin@));
            assert(entry_ok(*self, sn, se, b.origin@, b.pending@[0]));
            assert(pending_at(b.pending@, 0));
            let i = choose|i: int|
                0 <= i < self.nodes().len() && self.nodes()[i] == target && forall|j: int| 0 <= j < i ==> self.nodes()[j] != target;
            if i < target_idx {
                assert(self.nodes()[i] != target);
            }
            if i > target_idx {
                assert(self.nodes()[target_idx as int] != target);
            }
            assert(b.pending@[0].on_path@ =~= Seq::new(self.nodes().len(), |x: int| false));
            assert(pend_view(b.pending@) =~= seq![(target_idx, 0usize, Seq::new(self.nodes().len(), |x: int| false))]);
            assert(state_of(b) == initial_state(*self, target));
            lemma_sum_map_push(Seq::<Branch>::empty(), b, |b: Branch| solutions_of(*self, state_of(b)) as int);
            assert(frontier@ =~= Seq::<Branch>::empty().push(b));
        }
        while frontier.len() > 0
            invariant
                self.wf(),
                n == self.nodes().len(),
                ne == self.edges().len(),
                full == self.nodes(),
                base == ne + 2,
                complete@.len() <= max_number_of_solutions,
                forall|j: int| 0 <= j < complete@.len() ==> is_solution(*self, target, #[trigger] complete@[j]),
                forall|j: int| 0 <= j < frontier@.len() ==> branch_ok(*self, target, #[trigger] frontier@[j]),
                max_number_of_solutions >= 1 && self.producers_present() ==> complete@.len() >= 1 || frontier@.len() >= 1,
                complete@.len() + sum_map(frontier@, |b: Branch| solutions_of(*self, state_of(b)) as int) == solution_count(*self, target),
            ensures
                complete@.len() == if solution_count(*self, target) < max_number_of_solutions {
                    solution_count(*self, target) as int
                } else {
                    max_number_of_solutions as int
                },
                complete@.len() <= max_number_of_solutions,
                forall|j: int| 0 <= j < complete@.len() ==> is_solution(*self, target, #[trigger] complete@[j]),
                max_number_of_solutions >= 1 && self.producers_present() ==> complete@.len() >= 1,
            decreases frontier_weight(full, base, frontier@),
        {
            if complete.len() >= max_number_of_solutions {
                proof {
                    lemma_sum_map_nonneg(frontier@, |b: Branch| solutions_of(*self, state_of(b)) as int);
                }
                break;
            }
            let ghost fr0 = frontier@;
            let i = cheapest(&frontier);
            proof {
                lemma_frontier_remove(full, base, frontier@, i as int);
            }
            let mut b = frontier.remove(i);
            let ghost f_rest = frontier_weight(full, base, frontier@);
            let ghost w0 = branch_weight(full, base, b.pending@);
            proof {
                lemma_pow_positive(base as int, w0);
                assert(fr0[i as int] == b);
                lemma_sum_map_remove(fr0, i as int, |b: Branch| solutions_of(*self, state_of(b)) as int);
                lemma_branch_state_ok(*self, target, b);
                assert forall|j: int| 0 <= j < frontier@.len() implies branch_ok(*self, target, #[trigger] frontier@[j]) by {
                    if j < i {
                        assert(frontier@[j] == fr0[j]);
                    } else {
                        assert(frontier@[j] == fr0[j + 1]);
                    }
                }
            }
            let ghost sn = b.graph.nodes();
            let ghost se = b.graph.edges();
            let ghost o = b.origin@;
            let ghost sol_rest = sum_map(frontier@, |b: Branch| solutions_of(*self, state_of(b)) as int);
            let ghost s_full = state_of(b);
            if b.pending.len() == 0 {
                complete.push(b.graph);
                proof {
                    assert forall|j: int| 0 <= j < sn.len() implies #[trigger] expanded(*self, sn, se, o, j) by {
                        if pending_at(b.pending@, j) {
                            let q = choose|q: int| 0 <= q < b.pending@.len() && #[trigger] b.pending@[q].sidx == j;
                        }
                    }
                    assert(tree_copy(*self, target, sn, se, o));
                    assert(is_solution(*self, target, complete@[complete@.len() - 1]));
                    assert(pend_view(b.pending@).len() == 0);
                    assert(solutions_of(*self, s_full) == 1);
                }
                continue;
            }
            proof {
                lemma_branch_pop(full, base, b.pending@);
                lemma_weight_view(full, base, b.pending@);
                lemma_successors(*self, s_full);
                lemma_sum_stable(*self, successors(*self, s_full), (w0 - 1) as nat);
                assert(solutions_of(*self, s_full) == sum_map(successors(*self, s_full), |c: State| solutions_of(*self, c) as int));
            }
            let ghost pend0 = b.pending@;
            let p = match b.pending.pop() {
                Some(p) => p,
                None => Pending { gidx: 0, sidx: 0, on_path: Vec::new() },
            };
            proof {
                assert(pend0.last() == p);
                assert(b.pending@ =~= pend0.drop_last());
                assert(entry_ok(*self, sn, se, o, pend0[pend0.len() - 1]));
                lemma_count_true_bound(p.on_path@);
                // every node but the one taken is still covered
                assert forall|j: int| 0 <= j < sn.len() && j != p.sidx implies pending_at(b.pending@, j) || #[trigger] expanded(*self, sn, se, o, j) by {
                    if pending_at(pend0, j) {
                        let q = choose|q: int| 0 <= q < pend0.len() && #[trigger] pend0[q].sidx == j;
                        if q == pend0.len() - 1 {
                            assert(false);
                        }
                        assert(b.pending@[q] == pend0[q]);
                    }
                }
                assert forall|q: int| 0 <= q < b.pending@.len() implies (#[trigger] b.pending@[q]).sidx != p.sidx by {
                    assert(b.pending@[q] == pend0[q]);
                    assert(pend0[q].sidx != pend0[pend0.len() - 1].sidx);
                }
            }
            let ghost ep = exponent(full, p);
            let ghost w_rest = branch_weight(full, base, b.pending@);
            let ghost rest_state = state_of(b);
            let ghost pv = entry_view(p);
            proof {
                assert(pend_view(b.pending@) =~= s_full.3.drop_last());
                assert(rest_state == (s_full.0, s_full.1, s_full.2, s_full.3.drop_last()));
                assert(pv == s_full.3.last());
            }
            match graph_node(&self.data, p.gidx) {
                Node::Item(item, _) => {
                    if self.is_natural_item(item) {
                        proof {
                            lemma_pow_positive(base as int, ep);
                            lemma_pow_strictly_increases(base, w_rest, w0);
                            lemma_frontier_push(full, base, frontier@, b);
                            assert(expanded(*self, sn, se, o, p.sidx as int));
                            assert forall|q: int| 0 <= q < b.pending@.len() implies entry_ok(*self, sn, se, o, #[trigger] b.pending@[q]) by {
                                assert(b.pending@[q] == pend0[q]);
                            }
                            assert forall|j: int| 0 <= j < sn.len() implies pending_at(b.pending@, j) || #[trigger] expanded(*self, sn, se, o, j) by {
                            }
                            assert(successors(*self, s_full) =~= seq![rest_state]);
                            lemma_sum_map_push(Seq::<State>::empty(), rest_state, |c: State| solutions_of(*self, c) as int);
                            assert(seq![rest_state] =~= Seq::<State>::empty().push(rest_state));
                            lemma_sum_map_push(frontier@, b, |b: Branch| solutions_of(*self, state_of(b)) as int);
                        }
                        frontier.push(b);
                        continue;
                    }
                    let cands = self.edges_by_tier(p.gidx, true);
                    proof {
                        if self.producers_present() {
                            assert(self.nodes()[p.gidx as int] == sn[p.sidx as int]);
                            let e = choose|e: int| 0 <= e < self.edges().len() && #[trigger] self.edges()[e].1 == p.gidx as int;
                            crate::queries::lemma_edges_at_nonempty(self.edges(), p.gidx, ne as int, e);
                        }
                        self.lemma_sorted_pairs(p.gidx, true, cands@);
                        crate::queries::lemma_edges_at(self.edges(), p.gidx, true, ne as int);
                        lemma_count_true_set(p.on_path@, p.gidx as int);
                        lemma_count_true_bound(p.on_path@.update(p.gidx as int, true));
                        lemma_steps_below(base, ep, 1);
                        lemma_steps_below(base, w0, cands@.len());
                        lemma_pow_positive(base as int, ep);
                    }
                    let mut on_path = copy_flags(&p.on_path);
                    on_path.set(p.gidx, true);
                    let ghost child_w = (w_rest + pow(base as int, (ep - 1) as nat)) as nat;
                    let mut k: usize = 0;
                    while k < cands.len()
                        invariant
                            self.wf(),
                            n == self.nodes().len(),
                            ne == self.edges().len(),
                            full == self.nodes(),
                            base == ne + 2,
                            complete@.len() <= max_number_of_solutions,
                            forall|j: int| 0 <= j < frontier@.len() ==> branch_ok(*self, target, #[trigger] frontier@[j]),
                            k <= cands@.len(),
                            cands@.len() <= ne,
                            frontier@.len() >= k,
                            self.producers_present() ==> cands@.len() >= 1,
                            forall|q: int| 0 <= q < cands@.len() ==> (#[trigger] cands@[q]).1 < ne && self.edges()[cands@[q].1 as int].1 == p.gidx,
                            b.graph.natural_items@ == self.natural_items@,
                            sn == b.graph.nodes(),
                            se == b.graph.edges(),
                            o == b.origin@,
                            tree_copy(*self, target, sn, se, o),
                            entry_ok(*self, sn, se, o, p),
                            forall|q: int| 0 <= q < b.pending@.len() ==> entry_ok(*self, sn, se, o, #[trigger] b.pending@[q]),
                            forall|q1: int, q2: int|
                                0 <= q1 < b.pending@.len() && 0 <= q2 < b.pending@.len() && q1 != q2 ==> (#[trigger] b.pending@[q1]).sidx
                                    != (#[trigger] b.pending@[q2]).sidx,
                            forall|q: int| 0 <= q < b.pending@.len() ==> (#[trigger] b.pending@[q]).sidx != p.sidx,
                            forall|j: int| 0 <= j < sn.len() && j != p.sidx ==> pending_at(b.pending@, j) || #[trigger] expanded(*self, sn, se, o, j),
                            self.nodes()[p.gidx as int].is_item(),
                            !self.natural_items@.contains(sn[p.sidx as int].entity()),
                            on_path@ == p.on_path@.update(p.gidx as int, true),
                            count_true(on_path@) == count_true(p.on_path@) + 1,
                            count_true(on_path@) <= n,
                            ep == exponent(full, p),
                            ep >= 1,
                            w_rest == branch_weight(full, base, b.pending@),
                            child_w == w_rest + pow(base as int, (ep - 1) as nat),
                            child_w < w0,
                            frontier_weight(full, base, frontier@) <= f_rest + k * pow(base as int, (w0 - 1) as nat),
                            rest_state == state_of(b),
                            pv == entry_view(p),
                            sum_map(frontier@, |b: Branch| solutions_of(*self, state_of(b)) as int) == sol_rest + sum_map(cands@.take(k as int), |x: (usize, usize)| solutions_of(*self, item_child(*self, rest_state, pv, x.1)) as int),
                        decreases cands@.len() - k,
                    {
                        let e = cands[k].1;
                        let (src, dst, w) = graph_edge(&self.data, e);
                        let rnode = graph_node(&self.data, src);
                        let mut g2 = CraftingGraph {
                            data: graph_clone(&b.graph.data),
                            natural_items: copy_naturals(&b.graph.natural_items),
                        };
                        let s = graph_add_node(&mut g2.data, rnode);
                        graph_add_edge(&mut g2.data, s, p.sidx, w);
                        let mut pend2 = copy_pendings(&b.pending);
                        let child = Pending { gidx: src, sidx: s, on_path: copy_flags(&on_path) };
                        pend2.push(child);
                        let score = add_capped(b.score, rnode.get_tier());
                        let ghost o2 = o.push(src);
                        let nb = Branch { graph: g2, pending: pend2, score, origin: Ghost(o2) };
                        proof {
                            let sn2 = nb.graph.nodes();
                            let se2 = nb.graph.edges();
                            assert(sn2 == sn.push(rnode));
                            assert(se2 == se.push((sn.len() as usize, p.sidx, w)));
                            assert(self.edges()[e as int] == (src, dst, w));
                            assert(has_edge(self.edges(), src, o[p.sidx as int], w));
                            lemma_tree_extend(*self, target, sn, se, o, src, p.sidx, w);
                            assert(!self.nodes()[src as int].is_item());
                            assert(!repeats_above(se, o, p.sidx as int)) by {
                                if repeats_above(se, o, p.sidx as int) {
                                    let a = choose|a: int| #[trigger] is_ancestor(se, a, p.sidx as int) && o[a] == o[p.sidx as int];
                                    lemma_ancestor_bound(se, a, p.sidx as int);
                                    assert(sn[a] == self.nodes()[p.gidx as int]);
                                }
                            }
                            lemma_repeats_prefix(se, o, (sn.len() as usize, p.sidx, w), src, p.sidx as int);
                            assert(exponent(full, child) == ep - 1);
                            lemma_branch_same(full, base, nb.pending@.drop_last(), b.pending@);
                            assert(nb.pending@.drop_last() =~= pend2@.drop_last());
                            lemma_branch_push(full, base, nb.pending@.drop_last(), child);
                            assert(nb.pending@.drop_last().push(child) =~= nb.pending@);
                            assert(branch_weight(full, base, nb.pending@) == child_w);
                            vstd::arithmetic::power::lemma_pow_increases(base, child_w, (w0 - 1) as nat);
                            lemma_frontier_push(full, base, frontier@, nb);
                            // the entries
                            assert forall|q: int| 0 <= q < nb.pending@.len() implies entry_ok(*self, sn2, se2, o2, #[trigger] nb.pending@[q]) by {
                                if q < b.pending@.len() {
                                    assert(same_pending(nb.pending@[q], b.pending@[q]));
                                    lemma_entry_extend(*self, sn, se, o, b.pending@[q], rnode, src, p.sidx, w);
                                } else {
                                    assert(nb.pending@[q] == child);
                                    lemma_entry_child(*self, sn, se, o, p, child, rnode, w, true);
                                }
                            }
                            assert forall|q1: int, q2: int|
                                0 <= q1 < nb.pending@.len() && 0 <= q2 < nb.pending@.len() && q1 != q2 implies (#[trigger] nb.pending@[q1]).sidx
                                    != (#[trigger] nb.pending@[q2]).sidx by {
                                if q1 < b.pending@.len() {
                                    assert(same_pending(nb.pending@[q1], b.pending@[q1]));
                                    assert(entry_ok(*self, sn, se, o, b.pending@[q1]));
                                }
                                if q2 < b.pending@.len() {
                                    assert(same_pending(nb.pending@[q2], b.pending@[q2]));
                                    assert(entry_ok(*self, sn, se, o, b.pending@[q2]));
                                }
                            }
                            // the nodes
                            assert(parent_is(se2, s as int, p.sidx as int));
                            assert forall|j2: int| #[trigger] parent_is(se2, j2, p.sidx as int) implies j2 == s as int by {
                                if j2 - 1 < se.len() {
                                    assert(se2[j2 - 1] == se[j2 - 1]);
                                }
                            }
                            assert(sn2[p.sidx as int] == sn[p.sidx as int]);
                            assert(expanded(*self, sn2, se2, o2, p.sidx as int));
                            assert forall|j: int| 0 <= j < sn2.len() implies pending_at(nb.pending@, j) || #[trigger] expanded(*self, sn2, se2, o2, j) by {
                                if j == s {
                                    assert(nb.pending@[nb.pending@.len() - 1].sidx == j);
                                } else if j != p.sidx {
                                    if pending_at(b.pending@, j) {
                                        let q = choose|q: int| 0 <= q < b.pending@.len() && #[trigger] b.pending@[q].sidx == j;
                                        assert(same_pending(nb.pending@[q], b.pending@[q]));
                                        assert(nb.pending@[q].sidx == j);
                                    } else {
                                        lemma_expanded_frame(*self, sn, se, o, rnode, src, p.sidx, w, j);
                                    }
                                }
                            }
                            assert(branch_ok(*self, target, nb));
                            assert(pend_view(nb.pending@) =~= rest_state.3.push((src, s, on_path@)));
                            assert(state_of(nb) == item_child(*self, rest_state, pv, e));
                            lemma_sum_map_push(frontier@, nb, |b: Branch| solutions_of(*self, state_of(b)) as int);
                            assert(cands@.take(k + 1) =~= cands@.take(k as int).push(cands@[k as int]));
                            lemma_sum_map_push(cands@.take(k as int), cands@[k as int], |x: (usize, usize)| solutions_of(*self, item_child(*self, rest_state, pv, x.1)) as int);
                        }
                        frontier.push(nb);
                        proof {
                            assert(frontier_weight(full, base, frontier@) <= f_rest + (k + 1) * pow(base as int, (w0 - 1) as nat)) by (nonlinear_arith)
                                requires frontier_weight(full, base, frontier@) <= f_rest + k * pow(base as int, (w0 - 1) as nat) + pow(base as int, (w0 - 1) as nat);
                        }
                        k = k + 1;
                    }
                    proof {
                        let ins = edges_at(self.edges(), p.gidx, true, ne as int);
                        let hpair = |e: usize| (self.nodes()[self.far_end(e, true) as int].tier_of(), e);
                        let mk = |e: usize| item_child(*self, rest_state, pv, e);
                        assert(cands@.take(cands@.len() as int) =~= cands@);
                        lemma_sum_map_perm(cands@, self.tier_pairs(p.gidx, true), |x: (usize, usize)| solutions_of(*self, item_child(*self, rest_state, pv, x.1)) as int);
                        assert(self.tier_pairs(p.gidx, true) =~= ins.map_values(hpair));
                        lemma_sum_map_map(ins, hpair, |x: (usize, usize)| solutions_of(*self, item_child(*self, rest_state, pv, x.1)) as int, |e: usize| solutions_of(*self, item_child(*self, rest_state, pv, e)) as int);
                        assert(successors(*self, s_full) =~= ins.map_values(mk));
                        lemma_sum_map_map(ins, mk, |c: State| solutions_of(*self, c) as int, |e: usize| solutions_of(*self, item_child(*self, rest_state, pv, e)) as int);
                    }
                },
                Node::Recipe(_, _) => {
                    let size = graph_node_count(&b.graph.data);
                    proof {
                        lemma_steps_below(base, ep, ne as nat);
                        lemma_pow_positive(base as int, ep);
                        assert forall|k: int| 0 <= k < se.len() && (#[trigger] se[k]).1 == p.sidx implies size <= k + 1 by {
                        }
                    }
                    let mut e: usize = 0;
                    while e < ne
                        invariant
                            self.wf(),
                            n == self.nodes().len(),
                            ne == self.edges().len(),
                            full == self.nodes(),
                            base == ne + 2,
                            e <= ne,
                            b.graph.natural_items@ == self.natural_items@,
                            tree_copy(*self, target, b.graph.nodes(), b.graph.edges(), b.origin@),
                            p.sidx < size,
                            p.gidx < n,
                            b.origin@[p.sidx as int] == p.gidx,
                            p.on_path@.len() == n,
                            marks_ok(b.graph.edges(), b.origin@, p),
                            marks_all(b.graph.nodes(), b.graph.edges(), b.origin@, p),
                            forall|q: int| 0 <= q < b.pending@.len() ==> entry_ok(*self, b.graph.nodes(), b.graph.edges(), b.origin@, #[trigger] b.pending@[q]),
                            forall|q1: int, q2: int|
                                0 <= q1 < b.pending@.len() && 0 <= q2 < b.pending@.len() && q1 != q2 ==> (#[trigger] b.pending@[q1]).sidx
                                    != (#[trigger] b.pending@[q2]).sidx,
                            forall|q: int| 0 <= q < b.pending@.len() ==> (#[trigger] b.pending@[q]).sidx != p.sidx,
                            forall|j: int| 0 <= j < b.graph.nodes().len() && j != p.sidx ==> pending_at(b.pending@, j) || #[trigger] expanded(
                                *self, b.graph.nodes(), b.graph.edges(), b.origin@, j),
                            b.graph.nodes().len() == size + edges_at(self.edges(), p.gidx, true, e as int).len(),
                            edges_at(self.edges(), p.gidx, true, e as int).len() <= e,
                            b.graph.nodes()[p.sidx as int] == self.nodes()[p.gidx as int],
                            !self.nodes()[p.gidx as int].is_item(),
                            attached_so_far(*self, b.graph.edges(), b.origin@, p.sidx, edges_at(self.edges(), p.gidx, true, e as int), size as int),
                            state_of(b) == recipe_fold(*self, rest_state, pv, e as int),
                            pv == entry_view(p),
                            sum_map(frontier@, |b: Branch| solutions_of(*self, state_of(b)) as int) == sol_rest,
                            forall|k: int| 0 <= k < b.graph.edges().len() && (#[trigger] b.graph.edges()[k]).1 == p.sidx ==> size <= k + 1,
                            count_true(p.on_path@) <= n,
                            ep == exponent(full, p),
                            ep >= 1,
                            pow(base as int, (ep - 1) as nat) >= 1,
                            branch_weight(full, base, b.pending@) <= w_rest + e * pow(base as int, (ep - 1) as nat),
                        decreases ne - e,
                    {
                        let (src, dst, w) = graph_edge(&self.data, e);
                        let ghost ins0 = edges_at(self.edges(), p.gidx, true, e as int);
                        proof {
                            crate::queries::lemma_edges_at(self.edges(), p.gidx, true, e as int);
                        }
                        if dst == p.gidx {
                            let inode = graph_node(&self.data, src);
                            let ghost b0 = b;
                            let ghost sn0 = b.graph.nodes();
                            let ghost se0 = b.graph.edges();
                            let ghost o0 = b.origin@;
                            let s = graph_add_node(&mut b.graph.data, inode);
                            graph_add_edge(&mut b.graph.data, s, p.sidx, w);
                            b.score = add_capped(b.score, inode.get_tier());
                            let ghost o2 = b.origin@.push(src);
                            b.origin = Ghost(o2);
                            let ghost pend_before = b.pending@;
                            let ghost sn2 = b.graph.nodes();
                            let ghost se2 = b.graph.edges();
                            proof {
                                assert(sn2 == sn0.push(inode));
                                assert(se2 == se0.push((sn0.len() as usize, p.sidx, w)));
                                assert(self.edges()[e as int] == (src, dst, w));
                                assert(has_edge(self.edges(), src, o0[p.sidx as int], w));
                                lemma_tree_extend(*self, target, sn0, se0, o0, src, p.sidx, w);
                                assert(self.nodes()[src as int].is_item());
                                assert(edges_at(self.edges(), p.gidx, true, e + 1) == ins0.push(e));
                                assert forall|q: int| 0 <= q < b.pending@.len() implies entry_ok(*self, sn2, se2, o2, #[trigger] b.pending@[q]) by {
                                    assert(entry_ok(*self, sn0, se0, o0, b0.pending@[q]));
                                    lemma_entry_extend(*self, sn0, se0, o0, b.pending@[q], inode, src, p.sidx, w);
                                }
                                assert(se2[s - 1] == (s, p.sidx, w));
                                lemma_marks_extend(sn0, se0, o0, p, inode, src, p.sidx, w);
                                assert forall|j: int| 0 <= j < sn2.len() && j != p.sidx && j != s implies pending_at(b.pending@, j) || #[trigger] expanded(
                                    *self, sn2, se2, o2, j) by {
                                    if !pending_at(b.pending@, j) {
                                        lemma_expanded_frame(*self, sn0, se0, o0, inode, src, p.sidx, w, j);
                                    }
                                }
                                let ins1 = edges_at(self.edges(), p.gidx, true, e + 1);
                                assert forall|k: int| 0 <= k < ins1.len() implies #[trigger] se2[size + k - 1] == ((size + k) as usize, p.sidx, self.edges()[ins1[k] as int].2)
                                    && o2[size + k] == self.edges()[ins1[k] as int].0 by {
                                    if k < ins0.len() {
                                        assert(se0[size + k - 1] == ((size + k) as usize, p.sidx, self.edges()[ins0[k] as int].2));
                                        assert(se2[size + k - 1] == se0[size + k - 1]);
                                        assert(o2[size + k] == o0[size + k]);
                                    }
                                }
                                assert(attached_so_far(*self, se2, o2, p.sidx, ins1, size as int));
                                assert forall|k: int| 0 <= k < se2.len() && (#[trigger] se2[k]).1 == p.sidx implies size <= k + 1 by {
                                    if k < se0.len() {
                                        assert(se2[k] == se0[k]);
                                    }
                                }
                            }
                            if !p.on_path[src] {
                                let child = Pending { gidx: src, sidx: s, on_path: copy_flags(&p.on_path) };
                                let ghost pend1 = b.pending@;
                                b.pending.push(child);
                                proof {
                                    assert(pend_view(b.pending@) =~= pend_view(pend1).push((src, s, p.on_path@)));
                                    assert(exponent(full, child) == ep - 1);
                                    lemma_branch_push(full, base, pend1, child);
                                    assert forall|j: int| 0 <= j < se0.len() implies (#[trigger] se0[j]).1 <= j by {
                                    }
                                    lemma_entry_child(*self, sn0, se0, o0, p, child, inode, w, false);
                                    assert forall|q: int| 0 <= q < b.pending@.len() implies entry_ok(*self, sn2, se2, o2, #[trigger] b.pending@[q]) by {
                                        if q < pend1.len() {
                                            assert(b.pending@[q] == pend1[q]);
                                        }
                                    }
                                    assert forall|q1: int, q2: int|
                                        0 <= q1 < b.pending@.len() && 0 <= q2 < b.pending@.len() && q1 != q2 implies (#[trigger] b.pending@[q1]).sidx
                                            != (#[trigger] b.pending@[q2]).sidx by {
                                        if q1 < pend1.len() {
                                            assert(b.pending@[q1] == pend1[q1]);
                                        }
                                        if q2 < pend1.len() {
                                            assert(b.pending@[q2] == pend1[q2]);
                                        }
                                    }
                                    assert(b.pending@[b.pending@.len() - 1].sidx == s);
                                    assert forall|j: int| 0 <= j < sn2.len() && j != p.sidx implies pending_at(b.pending@, j) || #[trigger] expanded(
                                        *self, sn2, se2, o2, j) by {
                                        if pending_at(pend1, j) {
                                            let q = choose|q: int| 0 <= q < pend1.len() && #[trigger] pend1[q].sidx == j;
                                            assert(b.pending@[q] == pend1[q]);
                                        }
                                    }
                                }
                            } else {
                                proof {
                                    // an ingredient repeating an item above: a leaf that cuts the cycle
                                    let a = choose|a: int| #[trigger] is_ancestor(se2, a, p.sidx as int) && o2[a] == src as int;
                                    lemma_ancestor_bound(se2, a, p.sidx as int);
                                    lemma_ancestor_via_parent(se2, a, p.sidx as int, s as int);
                                    assert(sn2[a] == self.nodes()[src as int]);
                                    assert(sn2[s as int] == inode);
                                    assert forall|k: int| 0 <= k < se2.len() implies (#[trigger] se2[k]).1 != s by {
                                    }
                                    assert(expanded(*self, sn2, se2, o2, s as int));
                                }
                            }
                            proof {
                                let pw = pow(base as int, (ep - 1) as nat);
                                assert(e * pw + pw == (e + 1) * pw) by (nonlinear_arith);
                                assert(e * pw <= (e + 1) * pw) by (nonlinear_arith)
                                    requires pw >= 1;
                                let prev = recipe_fold(*self, rest_state, pv, e as int);
                                assert(prev == state_of(b0));
                                assert(prev.0.len() == s);
                                if p.on_path@[src as int] {
                                    assert(b.pending@ == pend_before);
                                    assert(pend_view(b.pending@) == pend_view(b0.pending@));
                                }
                                assert(state_of(b) == recipe_fold(*self, rest_state, pv, e + 1));
                            }
                        } else {
                            proof {
                                assert(edges_at(self.edges(), p.gidx, true, e + 1) == ins0);
                                let se1 = b.graph.edges();
                                let o1 = b.origin@;
                                assert(attached_so_far(*self, se1, o1, p.sidx, edges_at(self.edges(), p.gidx, true, e + 1), size as int));
                                let pw = pow(base as int, (ep - 1) as nat);
                                assert(e * pw <= (e + 1) * pw) by (nonlinear_arith)
                                    requires pw >= 1;
                            }
                        }
                        e = e + 1;
                    }
                    proof {
                        assert(successors(*self, s_full) =~= seq![recipe_fold(*self, rest_state, pv, ne as int)]);
                        lemma_sum_map_push(Seq::<State>::empty(), state_of(b), |c: State| solutions_of(*self, c) as int);
                        assert(seq![state_of(b)] =~= Seq::<State>::empty().push(state_of(b)));
                        lemma_sum_map_push(frontier@, b, |b: Branch| solutions_of(*self, state_of(b)) as int);
                        let bw = branch_weight(full, base, b.pending@);
                        assert(bw < w0);
                        lemma_pow_strictly_increases(base, bw, w0);
                        lemma_frontier_push(full, base, frontier@, b);
                        let sn3 = b.graph.nodes();
                        let se3 = b.graph.edges();
                        let o3 = b.origin@;
                        let ins = edges_at(self.edges(), p.gidx, true, ne as int);
                        assert(o3[p.sidx as int] == p.gidx);
                        assert(attached_so_far(*self, se3, o3, p.sidx, ins, size as int));
                        assert forall|k: int| 0 <= k < ins.len() implies #[trigger] se3[size + k - 1] == ((size + k) as usize, p.sidx, self.edges()[ins[k] as int].2)
                            && o3[size + k] == self.edges()[ins[k] as int].0 by {
                        }
                        assert(size - 1 + ins.len() <= se3.len());
                        assert(ingredients_attached(*self, se3, o3, p.sidx as int, size as int));
                        assert(expanded(*self, sn3, se3, o3, p.sidx as int));
                        assert(branch_ok(*self, target, b));
                    }
                    frontier.push(b);
                },
            }
        }
        proof {
            assert forall|k: int| 0 <= k < complete@.len() implies (#[trigger] complete@[k]).wf() by {
                crate::laws::lemma_solution_bipartite(*self, target, complete@[k]);
            }
        }
        Some(complete)
    }
}

} // verus!
