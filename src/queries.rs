//! Lookups on a crafting graph: nodes by value or name, and the neighbours of
//! a node ordered by tier.
use crate::crafting::CraftingGraph;
use crate::data::DataSet;
use crate::entities::ItemAmount;
use crate::graph::{graph_edge, graph_edge_count, graph_node, graph_node_count, Node};
use itertools::Itertools;
use vstd::prelude::*;

verus! {

/// Relies on itertools' Itertools::sorted_by_key (a stable sort): the same
/// pairs, in non-decreasing order of their first field.
#[verifier::external_body]
pub(crate) fn sorted_by_first(v: Vec<(usize, usize)>) -> (r: Vec<(usize, usize)>)
    ensures
        r@.to_multiset() == v@.to_multiset(),
        forall|i: int, j: int| 0 <= i <= j < r@.len() ==> r@[i].0 <= r@[j].0,
{
    v.into_iter().sorted_by_key(|p| p.0).collect()
}

/// Indices, in increasing order, of the first `len` edges that end at `v`
/// (when `into`) or start at `v` (otherwise).
pub open spec fn edges_at(edges: Seq<(usize, usize, ItemAmount)>, v: usize, into: bool, len: int) -> Seq<usize>
    decreases len,
{
    if len <= 0 {
        Seq::empty()
    } else {
        let rest = edges_at(edges, v, into, len - 1);
        let e = edges[len - 1];
        if (into && e.1 == v) || (!into && e.0 == v) {
            rest.push((len - 1) as usize)
        } else {
            rest
        }
    }
}

/// The node at the other end of each edge of `ids`, seen from `v`'s side.
pub open spec fn far_ends(edges: Seq<(usize, usize, ItemAmount)>, ids: Seq<usize>, into: bool) -> Seq<usize> {
    Seq::new(ids.len(), |k: int| if into { edges[ids[k] as int].0 } else { edges[ids[k] as int].1 })
}

/// The edges listed end (or start) at `v` and come from the first `len`.
pub proof fn lemma_edges_at(edges: Seq<(usize, usize, ItemAmount)>, v: usize, into: bool, len: int)
    requires
        0 <= len <= edges.len(),
        edges.len() <= usize::MAX,
    ensures
        edges_at(edges, v, into, len).len() <= len,
        forall|k: int| 0 <= k < edges_at(edges, v, into, len).len() ==> {
            let e = #[trigger] edges_at(edges, v, into, len)[k];
            &&& e < len
            &&& if into { edges[e as int].1 == v } else { edges[e as int].0 == v }
        },
    decreases len,
{
    if len > 0 {
        lemma_edges_at(edges, v, into, len - 1);
        let rest = edges_at(edges, v, into, len - 1);
        let all = edges_at(edges, v, into, len);
        assert forall|k: int| 0 <= k < all.len() implies {
            let e = #[trigger] all[k];
            &&& e < len
            &&& if into { edges[e as int].1 == v } else { edges[e as int].0 == v }
        } by {
            if k < rest.len() {
                assert(all[k] == rest[k]);
            }
        }
    }
}

/// An edge into `v` among the first `len` is listed.
pub proof fn lemma_edges_at_nonempty(edges: Seq<(usize, usize, ItemAmount)>, v: usize, len: int, e: int)
    requires
        0 <= e < len <= edges.len(),
        edges[e].1 == v,
    ensures
        edges_at(edges, v, true, len).len() > 0,
    decreases len,
{
    if e < len - 1 {
        lemma_edges_at_nonempty(edges, v, len - 1, e);
    }
}

impl CraftingGraph {
    /// The nodes, by index.
    pub fn iter_nodes(&self) -> (r: Vec<Node>)
        ensures
            r@ == self.nodes(),
    {
        let n = graph_node_count(&self.data);
        let mut r: Vec<Node> = Vec::new();
        let mut v: usize = 0;
        while v < n
            invariant
                n == self.nodes().len(),
                v <= n,
                r@ =~= self.nodes().take(v as int),
            decreases n - v,
        {
            r.push(graph_node(&self.data, v));
            v = v + 1;
        }
        assert(self.nodes().take(n as int) =~= self.nodes());
        r
    }

    /// The nodes at the given indices.
    pub fn indices_to_nodes(&self, indices: &Vec<usize>) -> (r: Vec<Node>)
        requires
            forall|k: int| 0 <= k < indices@.len() ==> indices@[k] < self.nodes().len(),
        ensures
            r@.len() == indices@.len(),
            forall|k: int| 0 <= k < indices@.len() ==> r@[k] == self.nodes()[#[trigger] indices@[k] as int],
    {
        let mut r: Vec<Node> = Vec::new();
        let mut k: usize = 0;
        while k < indices.len()
            invariant
                k <= indices@.len(),
                forall|j: int| 0 <= j < indices@.len() ==> indices@[j] < self.nodes().len(),
                r@.len() == k,
                forall|j: int| 0 <= j < k ==> r@[j] == self.nodes()[#[trigger] indices@[j] as int],
            decreases indices@.len() - k,
        {
            r.push(graph_node(&self.data, indices[k]));
            k = k + 1;
        }
        r
    }

    /// Index of the first node equal to `target`.
    pub fn get_node_idx(&self, target: Node) -> (r: Option<usize>)
        ensures
            match r {
                Some(i) => i < self.nodes().len() && self.nodes()[i as int] == target && forall|j: int|
                    0 <= j < i ==> self.nodes()[j] != target,
                None => !self.nodes().contains(target),
            },
    {
        let n = graph_node_count(&self.data);
        let mut v: usize = 0;
        while v < n
            invariant
                n == self.nodes().len(),
                v <= n,
                forall|j: int| 0 <= j < v ==> self.nodes()[j] != target,
            decreases n - v,
        {
            if graph_node(&self.data, v) == target {
                return Some(v);
            }
            v = v + 1;
        }
        None
    }

    /// Every node names an entity of `data`.
    pub open spec fn entities_within(&self, data: &DataSet) -> bool {
        forall|v: int|
            0 <= v < self.nodes().len() ==> if (#[trigger] self.nodes()[v]).is_item() {
                self.nodes()[v].entity() < data.items@.len()
            } else {
                self.nodes()[v].entity() < data.recipes@.len()
            }
    }

    /// Index of the first item node whose item is named `item_name`.
    pub fn get_item_idx_from_name(&self, data: &DataSet, item_name: &String) -> (r: Option<usize>)
        requires
            self.entities_within(data),
        ensures
            match r {
                Some(i) => i < self.nodes().len() && self.nodes()[i as int].is_item()
                    && data.items@[self.nodes()[i as int].entity() as int].name@ == item_name@
                    && forall|j: int| 0 <= j < i ==> !self.names_item(data, j, item_name@),
                None => forall|j: int| 0 <= j < self.nodes().len() ==> !self.names_item(data, j, item_name@),
            },
    {
        let n = graph_node_count(&self.data);
        let mut v: usize = 0;
        while v < n
            invariant
                n == self.nodes().len(),
                v <= n,
                self.entities_within(data),
                forall|j: int| 0 <= j < v ==> !self.names_item(data, j, item_name@),
            decreases n - v,
        {
            match graph_node(&self.data, v) {
                Node::Item(i, _) => {
                    if data.items[i].name == *item_name {
                        return Some(v);
                    }
                },
                Node::Recipe(_, _) => {},
            }
            v = v + 1;
        }
        None
    }

    /// Index of the first recipe node whose recipe is named `recipe_name`.
    pub fn get_recipe_idx_from_name(&self, data: &DataSet, recipe_name: &String) -> (r: Option<usize>)
        requires
            self.entities_within(data),
        ensures
            match r {
                Some(i) => i < self.nodes().len() && !self.nodes()[i as int].is_item()
                    && data.recipes@[self.nodes()[i as int].entity() as int].name@ == recipe_name@
                    && forall|j: int| 0 <= j < i ==> !self.names_recipe(data, j, recipe_name@),
                None => forall|j: int| 0 <= j < self.nodes().len() ==> !self.names_recipe(data, j, recipe_name@),
            },
    {
        let n = graph_node_count(&self.data);
        let mut v: usize = 0;
        while v < n
            invariant
                n == self.nodes().len(),
                v <= n,
                self.entities_within(data),
                forall|j: int| 0 <= j < v ==> !self.names_recipe(data, j, recipe_name@),
            decreases n - v,
        {
            match graph_node(&self.data, v) {
                Node::Recipe(r, _) => {
                    if data.recipes[r].name == *recipe_name {
                        return Some(v);
                    }
                },
                Node::Item(_, _) => {},
            }
            v = v + 1;
        }
        None
    }

    /// Node `j` is an item node for an item named `name`.
    pub open spec fn names_item(&self, data: &DataSet, j: int, name: Seq<char>) -> bool {
        self.nodes()[j].is_item() && data.items@[self.nodes()[j].entity() as int].name@ == name
    }

    /// Node `j` is a recipe node for a recipe named `name`.
    pub open spec fn names_recipe(&self, data: &DataSet, j: int, name: Seq<char>) -> bool {
        !self.nodes()[j].is_item() && data.recipes@[self.nodes()[j].entity() as int].name@ == name
    }

    /// The item node for the item named `item_name`, which must be present.
    pub fn get_item_node(&self, data: &DataSet, item_name: &String) -> (r: Node)
        requires
            self.entities_within(data),
            exists|j: int| 0 <= j < self.nodes().len() && self.names_item(data, j, item_name@),
        ensures
            exists|j: int| 0 <= j < self.nodes().len() && self.names_item(data, j, item_name@) && self.nodes()[j] == r,
    {
        match self.get_item_idx_from_name(data, item_name) {
            Some(i) => graph_node(&self.data, i),
            None => Node::Item(0, 0),
        }
    }

    /// The recipe node for the recipe named `recipe_name`, which must be
    /// present.
    pub fn get_recipe_node(&self, data: &DataSet, recipe_name: &String) -> (r: Node)
        requires
            self.entities_within(data),
            exists|j: int| 0 <= j < self.nodes().len() && self.names_recipe(data, j, recipe_name@),
        ensures
            exists|j: int| 0 <= j < self.nodes().len() && self.names_recipe(data, j, recipe_name@) && self.nodes()[j] == r,
    {
        match self.get_recipe_idx_from_name(data, recipe_name) {
            Some(i) => graph_node(&self.data, i),
            None => Node::Recipe(0, 0),
        }
    }

    /// Each edge into (`into`) or out of node `v`, paired with the tier of
    /// the node at its other end, and sorted by that tier.
    pub(crate) fn edges_by_tier(&self, v: usize, into: bool) -> (r: Vec<(usize, usize)>)
        requires
            self.wf(),
        ensures
            r@.to_multiset() == self.tier_pairs(v, into).to_multiset(),
            forall|i: int, j: int| 0 <= i <= j < r@.len() ==> r@[i].0 <= r@[j].0,
    {
        let ne = graph_edge_count(&self.data);
        let ghost edges = self.edges();
        let mut pairs: Vec<(usize, usize)> = Vec::new();
        let mut e: usize = 0;
        while e < ne
            invariant
                self.wf(),
                ne == edges.len(),
                edges == self.edges(),
                e <= ne,
                pairs@ =~= self.pairs_for(edges_at(edges, v, into, e as int), into),
            decreases ne - e,
        {
            let (a, b, _) = graph_edge(&self.data, e);
            if (into && b == v) || (!into && a == v) {
                let other = if into { a } else { b };
                let t = graph_node(&self.data, other).get_tier();
                pairs.push((t, e));
            }
            e = e + 1;
        }
        sorted_by_first(pairs)
    }

    /// The edges of `ids`, each paired with the tier at its far end.
    pub open spec fn pairs_for(&self, ids: Seq<usize>, into: bool) -> Seq<(usize, usize)> {
        Seq::new(ids.len(), |k: int| (self.nodes()[self.far_end(ids[k], into) as int].tier_of(), ids[k]))
    }

    /// The edges into (`into`) or out of `v`, each paired with the tier at
    /// its far end.
    pub open spec fn tier_pairs(&self, v: usize, into: bool) -> Seq<(usize, usize)> {
        self.pairs_for(edges_at(self.edges(), v, into, self.edges().len() as int), into)
    }

    /// The nodes at the far ends of the edges of `pairs`.
    pub open spec fn far_nodes(&self, pairs: Seq<(usize, usize)>, into: bool) -> Seq<usize> {
        Seq::new(pairs.len(), |k: int| self.far_end(pairs[k].1, into))
    }

    /// The neighbours of node `v` (its ingredients or results when `into`
    /// or not, for a recipe; its producers or consumers, for an item),
    /// one per edge, ordered by tier.
    fn neighbors_by_tier(&self, v: usize, into: bool) -> (r: Vec<usize>)
        requires
            self.wf(),
        ensures
            exists|s: Seq<(usize, usize)>|
                s.to_multiset() == self.tier_pairs(v, into).to_multiset() && (forall|i: int, j: int|
                    0 <= i <= j < s.len() ==> s[i].0 <= s[j].0) && r@ == #[trigger] self.far_nodes(s, into),
    {
        let sorted = self.edges_by_tier(v, into);
        let ne = graph_edge_count(&self.data);
        proof {
            assert(ne == self.edges().len());
            self.lemma_sorted_pairs(v, into, sorted@);
        }
        let mut r: Vec<usize> = Vec::new();
        let mut k: usize = 0;
        while k < sorted.len()
            invariant
                self.wf(),
                k <= sorted@.len(),
                forall|q: int| 0 <= q < sorted@.len() ==> (#[trigger] sorted@[q]).1 < self.edges().len(),
                r@ =~= self.far_nodes(sorted@, into).take(k as int),
            decreases sorted@.len() - k,
        {
            let (a, b, _) = graph_edge(&self.data, sorted[k].1);
            r.push(if into { a } else { b });
            k = k + 1;
        }
        assert(self.far_nodes(sorted@, into).take(sorted@.len() as int) =~= self.far_nodes(sorted@, into));
        r
    }

    /// What a sorting of the tier pairs of `v` holds: edges at `v`, as many
    /// as there are.
    pub proof fn lemma_sorted_pairs(&self, v: usize, into: bool, s: Seq<(usize, usize)>)
        requires
            s.to_multiset() == self.tier_pairs(v, into).to_multiset(),
            self.edges().len() <= usize::MAX,
        ensures
            s.len() == edges_at(self.edges(), v, into, self.edges().len() as int).len(),
            forall|q: int| 0 <= q < s.len() ==> {
                let e = (#[trigger] s[q]).1;
                &&& e < self.edges().len()
                &&& if into { self.edges()[e as int].1 == v } else { self.edges()[e as int].0 == v }
            },
    {
        broadcast use vstd::seq_lib::to_multiset_contains, vstd::seq_lib::to_multiset_len;

        let ids = edges_at(self.edges(), v, into, self.edges().len() as int);
        lemma_edges_at(self.edges(), v, into, self.edges().len() as int);
        let tp = self.tier_pairs(v, into);
        assert(s.len() == s.to_multiset().len());
        assert(tp.len() == tp.to_multiset().len());
        assert forall|q: int| 0 <= q < s.len() implies {
            let e = (#[trigger] s[q]).1;
            &&& e < self.edges().len()
            &&& if into { self.edges()[e as int].1 == v } else { self.edges()[e as int].0 == v }
        } by {
            assert(s.contains(s[q]));
            assert(s.to_multiset().count(s[q]) > 0);
            assert(tp.to_multiset().count(s[q]) > 0);
            assert(tp.contains(s[q]));
            let k = choose|k: int| 0 <= k < tp.len() && tp[k] == s[q];
            assert(tp[k].1 == ids[k]);
        }
    }

    /// Indices of the ingredients of a recipe node (`Some` only for a recipe
    /// node of the graph), one per edge, ordered by tier.
    pub fn get_ingredients_for_recipe_idx(&self, node: Node) -> (r: Option<Vec<usize>>)
        requires
            self.wf(),
        ensures
            r is Some <==> !node.is_item() && self.nodes().contains(node),
            r is Some ==> self.neighbors_of(node, true, r->0@),
    {
        match node {
            Node::Recipe(_, _) => {
                let v = self.get_node_idx(node)?;
                Some(self.neighbors_by_tier(v, true))
            },
            Node::Item(_, _) => None,
        }
    }

    /// Indices of the results of a recipe node (`Some` only for a recipe node
    /// of the graph), one per edge, ordered by tier.
    pub fn get_results_for_recipe_idxs(&self, node: Node) -> (r: Option<Vec<usize>>)
        requires
            self.wf(),
        ensures
            r is Some <==> !node.is_item() && self.nodes().contains(node),
            r is Some ==> self.neighbors_of(node, false, r->0@),
    {
        match node {
            Node::Recipe(_, _) => {
                let v = self.get_node_idx(node)?;
                Some(self.neighbors_by_tier(v, false))
            },
            Node::Item(_, _) => None,
        }
    }

    /// Indices of the recipes consuming an item node (`Some` only for an item
    /// node of the graph), one per edge, ordered by tier.
    pub fn get_items_as_ingredients_in_recipes_idxs(&self, node: Node) -> (r: Option<Vec<usize>>)
        requires
            self.wf(),
        ensures
            r is Some <==> node.is_item() && self.nodes().contains(node),
            r is Some ==> self.neighbors_of(node, false, r->0@),
    {
        match node {
            Node::Item(_, _) => {
                let v = self.get_node_idx(node)?;
                Some(self.neighbors_by_tier(v, false))
            },
            Node::Recipe(_, _) => None,
        }
    }

    /// Indices of the recipes producing an item node (`Some` only for an item
    /// node of the graph), one per edge, ordered by tier.
    pub fn get_recipes_with_item_in_outputs(&self, node: Node) -> (r: Option<Vec<usize>>)
        requires
            self.wf(),
        ensures
            r is Some <==> node.is_item() && self.nodes().contains(node),
            r is Some ==> self.neighbors_of(node, true, r->0@),
    {
        match node {
            Node::Item(_, _) => {
                let v = self.get_node_idx(node)?;
                Some(self.neighbors_by_tier(v, true))
            },
            Node::Recipe(_, _) => None,
        }
    }

    /// `r` lists the far ends of the edges into (`into`) or out of the first
    /// node equal to `node`, one per edge, in non-decreasing tier.
    pub open spec fn neighbors_of(&self, node: Node, into: bool, r: Seq<usize>) -> bool {
        exists|v: int, s: Seq<(usize, usize)>|
            #![trigger self.nodes()[v], self.far_nodes(s, into)]
            0 <= v < self.nodes().len() && self.nodes()[v] == node && (forall|j: int| 0 <= j < v ==> self.nodes()[j] != node)
                && s.to_multiset() == self.tier_pairs(v as usize, into).to_multiset() && (forall|i: int, j: int|
                0 <= i <= j < s.len() ==> s[i].0 <= s[j].0) && r == self.far_nodes(s, into)
    }

    /// The node at the far end of edge `e`, seen from its end `into` says.
    pub open spec fn far_end(&self, e: usize, into: bool) -> usize {
        if into {
            self.edges()[e as int].0
        } else {
            self.edges()[e as int].1
        }
    }
}

} // verus!
