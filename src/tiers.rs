//! Tier assignment: the chain depth of every node of a crafting graph.
//!
//! Natural items have tier 0. A recipe's tier is one more than the sum of
//! its ingredients' tiers; a derived item's tier is one more than the least
//! tier of the recipes producing it. `UNKNOWN_TIER` stands for "no finite
//! derivation" (a node that only cycles lead to) and absorbs every sum it
//! enters; tiers that would not fit below it are `UNKNOWN_TIER` as well. The
//! tiers assigned are the greatest solution of these equations, which is
//! unique, so assigning tiers twice changes nothing.
use crate::crafting::{CraftingGraph, Tier};
use crate::entities::ItemAmount;
use crate::graph::{graph_edge, graph_edge_count, graph_node, graph_node_count, graph_set_node, Node};
use vstd::prelude::*;

verus! {

/// The tier of a node that has no finite derivation.
pub const UNKNOWN_TIER: Tier = usize::MAX;

/// `x`, capped at `UNKNOWN_TIER`.
pub open spec fn capped(x: int) -> Tier {
    if x >= UNKNOWN_TIER {
        UNKNOWN_TIER
    } else {
        x as Tier
    }
}

/// The tiers of the nodes, by node index.
pub open spec fn tiers_of(nodes: Seq<Node>) -> Seq<Tier> {
    Seq::new(nodes.len(), |v: int| nodes[v].tier_of())
}

/// The nodes with their tiers cleared: what the tier rules read of them.
pub open spec fn shape(nodes: Seq<Node>) -> Seq<Node> {
    Seq::new(nodes.len(), |v: int| nodes[v].with_tier(0))
}

/// Changing a tier changes nothing else about a node.
pub proof fn lemma_with_tier(n: Node, t: Tier)
    ensures
        n.with_tier(t).with_tier(0) == n.with_tier(0),
        n.with_tier(t).tier_of() == t,
        n.with_tier(0).is_item() == n.is_item(),
        n.with_tier(0).entity() == n.entity(),
{
    match n {
        Node::Item(_, _) => {},
        Node::Recipe(_, _) => {},
    }
}

/// Nodes of the same shape join the same edges in the same way.
pub proof fn lemma_shape_bipartite(a: Seq<Node>, b: Seq<Node>, edges: Seq<(usize, usize, ItemAmount)>)
    requires
        shape(a) == shape(b),
        crate::crafting::bipartite(b, edges),
    ensures
        crate::crafting::bipartite(a, edges),
{
    assert(a.len() == shape(a).len());
    assert(b.len() == shape(b).len());
    assert forall|e: int| 0 <= e < edges.len() implies {
        &&& (#[trigger] edges[e]).0 < a.len()
        &&& edges[e].1 < a.len()
        &&& a[edges[e].0 as int].is_item() != a[edges[e].1 as int].is_item()
    } by {
        let x = edges[e].0 as int;
        let y = edges[e].1 as int;
        assert(x < b.len() && y < b.len());
        assert(b[x].is_item() != b[y].is_item());
        lemma_with_tier(a[x], 0);
        lemma_with_tier(b[x], 0);
        lemma_with_tier(a[y], 0);
        lemma_with_tier(b[y], 0);
        assert(shape(a)[x] == shape(b)[x]);
        assert(shape(a)[y] == shape(b)[y]);
        assert(shape(a)[x] == a[x].with_tier(0));
        assert(shape(b)[x] == b[x].with_tier(0));
        assert(shape(a)[y] == a[y].with_tier(0));
        assert(shape(b)[y] == b[y].with_tier(0));
    }
}

/// Sum of `t` over the sources of the first `len` edges that end at `v`.
pub open spec fn in_sum(edges: Seq<(usize, usize, ItemAmount)>, t: Seq<Tier>, v: usize, len: int) -> int
    decreases len,
{
    if len <= 0 {
        0
    } else {
        in_sum(edges, t, v, len - 1) + if edges[len - 1].1 == v {
            t[edges[len - 1].0 as int] as int
        } else {
            0
        }
    }
}

/// Least value of `t` over the sources of the first `len` edges that end at
/// `v`; `UNKNOWN_TIER` when there is none.
pub open spec fn in_min(edges: Seq<(usize, usize, ItemAmount)>, t: Seq<Tier>, v: usize, len: int) -> int
    decreases len,
{
    if len <= 0 {
        UNKNOWN_TIER as int
    } else {
        let m = in_min(edges, t, v, len - 1);
        if edges[len - 1].1 == v && (t[edges[len - 1].0 as int] as int) < m {
            t[edges[len - 1].0 as int] as int
        } else {
            m
        }
    }
}

/// The tier that node `v` must have, given tiers `t` for all nodes.
pub open spec fn tier_rule(
    nodes: Seq<Node>,
    naturals: Seq<usize>,
    edges: Seq<(usize, usize, ItemAmount)>,
    t: Seq<Tier>,
    v: int,
) -> Tier {
    if nodes[v].is_item() {
        if naturals.contains(nodes[v].entity()) {
            0
        } else {
            capped(in_min(edges, t, v as usize, edges.len() as int) + 1)
        }
    } else {
        capped(in_sum(edges, t, v as usize, edges.len() as int) + 1)
    }
}

/// `t` gives every node the tier its rule asks for.
pub open spec fn is_fixpoint(
    nodes: Seq<Node>,
    naturals: Seq<usize>,
    edges: Seq<(usize, usize, ItemAmount)>,
    t: Seq<Tier>,
) -> bool {
    &&& t.len() == nodes.len()
    &&& forall|v: int| 0 <= v < nodes.len() ==> #[trigger] t[v] == tier_rule(nodes, naturals, edges, t, v)
}

/// `a` is at most `b` at every node.
pub open spec fn tiers_le(a: Seq<Tier>, b: Seq<Tier>) -> bool {
    a.len() == b.len() && forall|v: int| 0 <= v < a.len() ==> #[trigger] a[v] <= b[v]
}

/// Every edge starts at a node.
pub open spec fn sources_ok(edges: Seq<(usize, usize, ItemAmount)>, n: nat) -> bool {
    forall|e: int| 0 <= e < edges.len() ==> (#[trigger] edges[e]).0 < n
}

/// Sum of all tiers.
pub open spec fn tier_total(t: Seq<Tier>) -> int
    decreases t.len(),
{
    if t.len() == 0 {
        0
    } else {
        tier_total(t.drop_last()) + t.last() as int
    }
}

impl CraftingGraph {
    /// The tiers are the greatest solution of the tier rules.
    pub open spec fn tiers_assigned(&self) -> bool {
        let t = tiers_of(self.nodes());
        let s = shape(self.nodes());
        &&& is_fixpoint(s, self.natural_items@, self.edges(), t)
        &&& forall|x: Seq<Tier>| #[trigger] is_fixpoint(s, self.natural_items@, self.edges(), x) ==> tiers_le(x, t)
    }

    /// Same nodes up to their tiers, same edges, same natural items.
    pub open spec fn same_structure(&self, other: &CraftingGraph) -> bool {
        &&& shape(self.nodes()) == shape(other.nodes())
        &&& self.edges() == other.edges()
        &&& self.natural_items@ == other.natural_items@
    }
}

proof fn lemma_in_sum_mono(edges: Seq<(usize, usize, ItemAmount)>, a: Seq<Tier>, b: Seq<Tier>, v: usize, len: int)
    requires
        tiers_le(a, b),
        sources_ok(edges, a.len()),
        len <= edges.len(),
    ensures
        0 <= in_sum(edges, a, v, len) <= in_sum(edges, b, v, len),
    decreases len,
{
    if len > 0 {
        lemma_in_sum_mono(edges, a, b, v, len - 1);
        let s = edges[len - 1].0 as int;
        assert(a[s] <= b[s]);
    }
}

proof fn lemma_in_min_mono(edges: Seq<(usize, usize, ItemAmount)>, a: Seq<Tier>, b: Seq<Tier>, v: usize, len: int)
    requires
        tiers_le(a, b),
        sources_ok(edges, a.len()),
        len <= edges.len(),
    ensures
        0 <= in_min(edges, a, v, len) <= in_min(edges, b, v, len),
        in_min(edges, b, v, len) <= UNKNOWN_TIER,
    decreases len,
{
    if len > 0 {
        lemma_in_min_mono(edges, a, b, v, len - 1);
        let s = edges[len - 1].0 as int;
        assert(a[s] <= b[s]);
    }
}

proof fn lemma_rule_mono(
    nodes: Seq<Node>,
    naturals: Seq<usize>,
    edges: Seq<(usize, usize, ItemAmount)>,
    a: Seq<Tier>,
    b: Seq<Tier>,
)
    requires
        tiers_le(a, b),
        a.len() == nodes.len(),
        nodes.len() <= UNKNOWN_TIER,
        sources_ok(edges, a.len()),
    ensures
        forall|v: int| 0 <= v < nodes.len() ==> #[trigger] tier_rule(nodes, naturals, edges, a, v) <= tier_rule(nodes, naturals, edges, b, v),
{
    assert forall|v: int| 0 <= v < nodes.len() implies #[trigger] tier_rule(nodes, naturals, edges, a, v) <= tier_rule(nodes, naturals, edges, b, v) by {
        lemma_in_sum_mono(edges, a, b, v as usize, edges.len() as int);
        lemma_in_min_mono(edges, a, b, v as usize, edges.len() as int);
    }
}

proof fn lemma_total_decreases(a: Seq<Tier>, b: Seq<Tier>)
    requires
        tiers_le(a, b),
    ensures
        tier_total(a) <= tier_total(b),
        a != b ==> tier_total(a) < tier_total(b),
    decreases a.len(),
{
    if a.len() > 0 {
        let a0 = a.drop_last();
        let b0 = b.drop_last();
        assert(tiers_le(a0, b0)) by {
            assert forall|v: int| 0 <= v < a0.len() implies #[trigger] a0[v] <= b0[v] by {
                assert(a[v] <= b[v]);
            }
        }
        lemma_total_decreases(a0, b0);
        assert(a.last() <= b.last()) by {
            assert(a[a.len() - 1] <= b[a.len() - 1]);
        }
        if a != b && a0 == b0 {
            assert(a.last() != b.last()) by {
                if a.last() == b.last() {
                    assert forall|v: int| 0 <= v < a.len() implies a[v] == b[v] by {
                        if v < a.len() - 1 {
                            assert(a0[v] == b0[v]);
                        }
                    }
                    assert(a =~= b);
                }
            }
        }
    } else {
        assert(a =~= b);
    }
}

proof fn lemma_total_nonneg(a: Seq<Tier>)
    ensures
        tier_total(a) >= 0,
    decreases a.len(),
{
    if a.len() > 0 {
        lemma_total_nonneg(a.drop_last());
    }
}

/// On every node whose tier is known, the tier rules hold exactly: a
/// natural item has tier 0, a recipe one more than the sum of its
/// ingredients' tiers, a derived item one more than the least tier of the
/// recipes producing it.
pub proof fn lemma_settled_tiers(g: &CraftingGraph, v: int)
    requires
        g.wf(),
        g.tiers_assigned(),
        0 <= v < g.nodes().len(),
        g.nodes()[v].tier_of() != UNKNOWN_TIER,
    ensures
        ({
            let t = tiers_of(g.nodes());
            let node = g.nodes()[v];
            let e = g.edges();
            &&& node.is_item() && g.natural_items@.contains(node.entity()) ==> node.tier_of() == 0
            &&& node.is_item() && !g.natural_items@.contains(node.entity()) ==> node.tier_of() == in_min(e, t, v as usize, e.len() as int) + 1
            &&& !node.is_item() ==> node.tier_of() == in_sum(e, t, v as usize, e.len() as int) + 1
        }),
{
    let t = tiers_of(g.nodes());
    let e = g.edges();
    assert(sources_ok(e, t.len()));
    lemma_in_sum_mono(e, t, t, v as usize, e.len() as int);
    lemma_in_min_mono(e, t, t, v as usize, e.len() as int);
    assert(t[v] == g.nodes()[v].tier_of());
    lemma_with_tier(g.nodes()[v], 0);
    assert(shape(g.nodes())[v] == g.nodes()[v].with_tier(0));
    assert(t[v] == tier_rule(shape(g.nodes()), g.natural_items@, g.edges(), t, v));
}

/// Assigned tiers depend on the structure alone: two graphs of the same
/// structure whose tiers are both assigned have the same nodes, tiers
/// included. So assigning tiers to a graph whose tiers are assigned changes
/// no tier.
pub proof fn lemma_tiers_unique(a: &CraftingGraph, b: &CraftingGraph)
    requires
        a.same_structure(b),
        a.tiers_assigned(),
        b.tiers_assigned(),
    ensures
        a.nodes() == b.nodes(),
{
    let ta = tiers_of(a.nodes());
    let tb = tiers_of(b.nodes());
    let s = shape(a.nodes());
    assert(is_fixpoint(s, b.natural_items@, b.edges(), tb));
    assert(tiers_le(tb, ta));
    assert(tiers_le(ta, tb));
    assert forall|v: int| 0 <= v < a.nodes().len() implies a.nodes()[v] == b.nodes()[v] by {
        assert(ta[v] == tb[v]);
        assert(shape(a.nodes())[v] == shape(b.nodes())[v]);
        match a.nodes()[v] {
            Node::Item(_, _) => {
                match b.nodes()[v] {
                    Node::Item(_, _) => {},
                    Node::Recipe(_, _) => {},
                }
            },
            Node::Recipe(_, _) => {
                match b.nodes()[v] {
                    Node::Item(_, _) => {},
                    Node::Recipe(_, _) => {},
                }
            },
        }
    }
    assert(a.nodes() =~= b.nodes());
}

impl CraftingGraph {
    /// Whether item `i` is one of the graph's natural items.
    pub fn is_natural_item(&self, i: usize) -> (r: bool)
        ensures
            r == self.natural_items@.contains(i),
    {
        let mut k: usize = 0;
        while k < self.natural_items.len()
            invariant
                k <= self.natural_items@.len(),
                forall|j: int| 0 <= j < k ==> self.natural_items@[j] != i,
            decreases self.natural_items@.len() - k,
        {
            if self.natural_items[k] == i {
                return true;
            }
            k = k + 1;
        }
        false
    }

    /// The sum of the tiers of all nodes, capped at the largest `u128`;
    /// cheaper crafting trees have smaller sums.
    pub fn tier_sum(&self) -> (r: u128)
        ensures
            r == if tier_total(tiers_of(self.nodes())) > u128::MAX { u128::MAX as int } else { tier_total(tiers_of(self.nodes())) },
    {
        let t = self.current_tiers();
        let mut acc: u128 = 0;
        let mut v: usize = 0;
        while v < t.len()
            invariant
                v <= t@.len(),
                acc == if tier_total(t@.take(v as int)) > u128::MAX { u128::MAX as int } else { tier_total(t@.take(v as int)) },
            decreases t@.len() - v,
        {
            proof {
                assert(t@.take(v + 1).drop_last() =~= t@.take(v as int));
                lemma_total_nonneg(t@.take(v as int));
            }
            if acc > u128::MAX - (t[v] as u128) {
                acc = u128::MAX;
            } else {
                acc = acc + t[v] as u128;
            }
            v = v + 1;
        }
        assert(t@.take(t@.len() as int) =~= t@);
        acc
    }

    /// The tiers of all nodes, by node index.
    fn current_tiers(&self) -> (t: Vec<Tier>)
        ensures
            t@ == tiers_of(self.nodes()),
    {
        let n = graph_node_count(&self.data);
        let mut t: Vec<Tier> = Vec::new();
        let mut v: usize = 0;
        while v < n
            invariant
                n == self.nodes().len(),
                v <= n,
                t@ =~= tiers_of(self.nodes()).take(v as int),
            decreases n - v,
        {
            let node = graph_node(&self.data, v);
            t.push(node.get_tier());
            v = v + 1;
        }
        assert(tiers_of(self.nodes()).take(n as int) =~= tiers_of(self.nodes()));
        t
    }

    /// The tier that node `v`'s rule asks for, given tiers `t`.
    fn rule_value(&self, t: &Vec<Tier>, v: usize) -> (r: Tier)
        requires
            self.wf(),
            t@.len() == self.nodes().len(),
            v < self.nodes().len(),
        ensures
            r == tier_rule(shape(self.nodes()), self.natural_items@, self.edges(), t@, v as int),
    {
        let node = graph_node(&self.data, v);
        proof {
            lemma_with_tier(node, 0);
            assert(shape(self.nodes())[v as int] == node.with_tier(0));
        }
        let ne = graph_edge_count(&self.data);
        let ghost edges = self.edges();
        match node {
            Node::Item(i, _) => {
                if self.is_natural_item(i) {
                    return 0;
                }
                let mut m: Tier = UNKNOWN_TIER;
                let mut e: usize = 0;
                while e < ne
                    invariant
                        self.wf(),
                        ne == edges.len(),
                        edges == self.edges(),
                        t@.len() == self.nodes().len(),
                        e <= ne,
                        m as int == in_min(edges, t@, v, e as int),
                    decreases ne - e,
                {
                    let (a, b, _) = graph_edge(&self.data, e);
                    if b == v && t[a] < m {
                        m = t[a];
                    }
                    e = e + 1;
                }
                if m == UNKNOWN_TIER {
                    UNKNOWN_TIER
                } else {
                    m + 1
                }
            },
            Node::Recipe(_, _) => {
                let mut acc: Tier = 0;
                let mut e: usize = 0;
                while e < ne
                    invariant
                        self.wf(),
                        ne == edges.len(),
                        edges == self.edges(),
                        t@.len() == self.nodes().len(),
                        e <= ne,
                        acc == capped(in_sum(edges, t@, v, e as int)),
                        in_sum(edges, t@, v, e as int) >= 0,
                    decreases ne - e,
                {
                    let (a, b, _) = graph_edge(&self.data, e);
                    if b == v {
                        if t[a] >= UNKNOWN_TIER - acc {
                            acc = UNKNOWN_TIER;
                        } else {
                            acc = acc + t[a];
                        }
                    }
                    e = e + 1;
                }
                if acc == UNKNOWN_TIER {
                    UNKNOWN_TIER
                } else {
                    acc + 1
                }
            },
        }
    }

    /// Assigns every node its tier: the greatest solution of the tier rules,
    /// found by lowering all tiers from `UNKNOWN_TIER` until no rule asks for
    /// a change. Nothing but the tiers changes.
    pub fn adjust_tiers(&mut self)
        requires
            old(self).wf(),
        ensures
            final(self).same_structure(&*old(self)),
            final(self).wf(),
            final(self).tiers_assigned(),
            old(self).tiers_assigned() ==> final(self).nodes() == old(self).nodes(),
    {
        let ghost shape0 = shape(self.nodes());
        let n = graph_node_count(&self.data);
        let mut v: usize = 0;
        while v < n
            invariant
                n == self.nodes().len(),
                v <= n,
                self.same_structure(&*old(self)),
                shape0 == shape(old(self).nodes()),
                forall|u: int| 0 <= u < v ==> #[trigger] self.nodes()[u].tier_of() == UNKNOWN_TIER,
            decreases n - v,
        {
            let mut node = graph_node(&self.data, v);
            node.set_tier(UNKNOWN_TIER);
            let ghost before = self.nodes();
            graph_set_node(&mut self.data, v, node);
            proof {
                lemma_with_tier(before[v as int], UNKNOWN_TIER);
                assert(shape(self.nodes()) =~= shape(before));
            }
            v = v + 1;
        }
        proof {
            let t = tiers_of(self.nodes());
            assert forall|x: Seq<Tier>| #[trigger] is_fixpoint(shape0, self.natural_items@, self.edges(), x) implies tiers_le(x, t) by {
                assert forall|u: int| 0 <= u < x.len() implies #[trigger] x[u] <= t[u] by {
                    assert(t[u] == UNKNOWN_TIER);
                }
            }
        }
        let mut done = false;
        while !done
            invariant
                n == self.nodes().len(),
                self.same_structure(&*old(self)),
                shape0 == shape(self.nodes()),
                old(self).wf(),
                forall|u: int| 0 <= u < n ==> #[trigger] tier_rule(shape0, self.natural_items@, self.edges(), tiers_of(self.nodes()), u)
                    <= tiers_of(self.nodes())[u],
                forall|x: Seq<Tier>| #[trigger] is_fixpoint(shape0, self.natural_items@, self.edges(), x)
                    ==> tiers_le(x, tiers_of(self.nodes())),
                done ==> is_fixpoint(shape0, self.natural_items@, self.edges(), tiers_of(self.nodes())),
            decreases tier_total(tiers_of(self.nodes())) + if done { 0int } else { 1int },
        {
            proof {
                lemma_shape_bipartite(self.nodes(), old(self).nodes(), self.edges());
            }
            let t = self.current_tiers();
            let mut next: Vec<Tier> = Vec::new();
            let mut same = true;
            let mut u: usize = 0;
            while u < n
                invariant
                    n == self.nodes().len(),
                    self.wf(),
                    shape0 == shape(self.nodes()),
                    t@ == tiers_of(self.nodes()),
                    u <= n,
                    next@.len() == u,
                    forall|w: int| 0 <= w < u ==> #[trigger] next@[w] == tier_rule(shape0, self.natural_items@, self.edges(), t@, w),
                    same <==> forall|w: int| 0 <= w < u ==> #[trigger] next@[w] == t@[w],
                decreases n - u,
            {
                let r = self.rule_value(&t, u);
                if r != t[u] {
                    same = false;
                }
                next.push(r);
                proof {
                    assert(next@[u as int] == r);
                    if !same {
                        if r == t@[u as int] {
                            let q = choose|q: int| 0 <= q < u && next@[q] != t@[q];
                            assert(next@[q] != t@[q]);
                        }
                    }
                }
                u = u + 1;
            }
            proof {
                lemma_total_nonneg(t@);
            }
            if same {
                done = true;
                proof {
                    assert(next@ =~= t@);
                }
            } else {
                let ghost before = self.nodes();
                let mut w: usize = 0;
                while w < n
                    invariant
                        n == self.nodes().len(),
                        w <= n,
                        next@.len() == n,
                        self.same_structure(&*old(self)),
                        shape0 == shape(self.nodes()),
                        forall|q: int| 0 <= q < w ==> #[trigger] self.nodes()[q].tier_of() == next@[q],
                        forall|q: int| w <= q < n ==> #[trigger] self.nodes()[q] == before[q],
                    decreases n - w,
                {
                    let mut node = graph_node(&self.data, w);
                    node.set_tier(next[w]);
                    let ghost nodes1 = self.nodes();
                    graph_set_node(&mut self.data, w, node);
                    proof {
                        lemma_with_tier(nodes1[w as int], next@[w as int]);
                        assert(shape(self.nodes()) =~= shape(nodes1));
                    }
                    w = w + 1;
                }
                proof {
                    let nodes = self.nodes();
                    let edges = self.edges();
                    let nat_items = self.natural_items@;
                    assert(tiers_of(nodes) =~= next@);
                    assert(tiers_le(next@, t@));
                    assert(sources_ok(edges, t@.len()));
                    lemma_rule_mono(shape0, nat_items, edges, next@, t@);
                    lemma_total_decreases(next@, t@);
                    lemma_total_nonneg(next@);
                    assert(next@ != t@) by {
                        let q = choose|q: int| 0 <= q < n && next@[q] != t@[q];
                    }
                    assert forall|x: Seq<Tier>| #[trigger] is_fixpoint(shape0, nat_items, edges, x) implies tiers_le(x, next@) by {
                        assert(tiers_le(x, t@));
                        lemma_rule_mono(shape0, nat_items, edges, x, t@);
                        assert forall|q: int| 0 <= q < x.len() implies #[trigger] x[q] <= next@[q] by {
                            assert(x[q] == tier_rule(shape0, nat_items, edges, x, q));
                        }
                    }
                }
            }
        }
        proof {
            lemma_shape_bipartite(self.nodes(), old(self).nodes(), self.edges());
            if old(self).tiers_assigned() {
                lemma_tiers_unique(&*self, &*old(self));
            }
        }
    }
}

} // verus!
