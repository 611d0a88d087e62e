//! The index-based graph the layered layout kernel works on.

use std::collections::{BTreeSet, HashMap, HashSet};

use vstd::prelude::*;

use super::trace::DummyType;

verus! {

/// Identifier of a layout node.
#[derive(Debug, Clone, PartialEq, Eq, Hash)]
pub struct NodeId(pub String);

/// How the acyclic phase chooses the edges it reverses.
#[derive(Debug, Clone, Copy, PartialEq, Eq, Structural)]
pub enum AcyclicPolicy {
    /// Only DFS back-edges.
    DfsOnly,
    /// DFS back-edges plus one feedback edge per compound-level cycle.
    SemanticCompoundFeedback,
}

impl AcyclicPolicy {
    /// The policy the layered pipeline uses unless told otherwise.
    pub fn default_policy() -> (r: Self)
        ensures
            r == AcyclicPolicy::SemanticCompoundFeedback,
    {
        AcyclicPolicy::SemanticCompoundFeedback
    }
}

/// A chain of dummy nodes standing in for one long edge.
#[derive(Debug, Clone)]
pub struct DummyChain {
    /// The edge the chain replaces.
    pub edge_index: usize,
    /// Ids of the chain's dummy nodes, from the edge's source end.
    pub dummy_ids: Vec<NodeId>,
    /// Position in the chain of the dummy that carries the edge label, if any.
    pub label_dummy_index: Option<usize>,
}

/// The index-based graph of the layered kernel.
///
/// Nodes are `0..node_ids.len()`; every per-node vector has that length.
/// Edges are `0..edges.len()`; `edges[e] = (from, to, original_index)` and
/// `edge_weights[e]`, `edge_minlens[e]` belong to the same edge. Edge weights
/// are whole numbers here (the kernel only ever assigns whole weights).
/// Dummy nodes are recorded by node index, with the kind of thing they
/// stand for.
#[derive(Debug)]
pub struct LayoutGraph {
    pub node_ids: Vec<NodeId>,
    pub edges: Vec<(usize, usize, usize)>,
    pub edge_weights: Vec<u64>,
    pub edge_minlens: Vec<i32>,
    pub parents: Vec<Option<usize>>,
    pub ranks: Vec<i32>,
    /// Position of each node within its rank.
    pub order: Vec<usize>,
    pub compound_semantic_order: Vec<Option<usize>>,
    pub model_order: Vec<Option<usize>>,
    /// Compound node indices, strictly increasing.
    pub compound_nodes: Vec<usize>,
    /// Compounds that carry a title, strictly increasing.
    pub compound_titles: Vec<usize>,
    pub reversed_edges: BTreeSet<usize>,
    pub nesting_edges: HashSet<usize>,
    pub excluded_edges: HashSet<usize>,
    pub position_excluded_nodes: HashSet<usize>,
    pub border_top: HashMap<usize, usize>,
    pub border_bottom: HashMap<usize, usize>,
    pub border_title: HashMap<usize, usize>,
    pub nesting_root: Option<usize>,
    pub node_rank_factor: Option<i32>,
    pub min_rank: HashMap<usize, i32>,
    pub max_rank: HashMap<usize, i32>,
    pub dummy_chains: Vec<DummyChain>,
    pub dummy_nodes: HashMap<usize, DummyType>,
}

/// `s` is strictly increasing.
pub open spec fn strictly_increasing(s: Seq<usize>) -> bool {
    forall|i: int, j: int| 0 <= i < j < s.len() ==> s[i] < s[j]
}

/// Depth of `node` in the parent hierarchy (top level = 1), following at most
/// `fuel` parent links; `None` when no root is reached within the fuel.
pub open spec fn depth_within(parents: Seq<Option<usize>>, node: int, fuel: nat) -> Option<nat>
    decreases fuel,
{
    if fuel == 0 || node < 0 || node >= parents.len() {
        None
    } else {
        match parents[node] {
            None => Some(1),
            Some(p) => match depth_within(parents, p as int, (fuel - 1) as nat) {
                Some(d) => Some(d + 1),
                None => None,
            },
        }
    }
}

/// The parent links form a forest: every node reaches a root.
pub open spec fn parents_form_forest(parents: Seq<Option<usize>>) -> bool {
    forall|i: int| 0 <= i < parents.len() ==> #[trigger] depth_within(parents, i, parents.len() as nat) is Some
}

/// Depth of `node` in a forest of parent links.
pub open spec fn node_depth(parents: Seq<Option<usize>>, node: int) -> nat {
    depth_within(parents, node, parents.len() as nat)->Some_0
}

/// The first position in `ids` that holds `id`.
pub open spec fn first_index_of(ids: Seq<NodeId>, id: Seq<char>) -> Option<usize>
    decreases ids.len(),
{
    if ids.len() == 0 {
        None
    } else {
        match first_index_of(ids.drop_last(), id) {
            Some(i) => Some(i),
            None => if ids.last().0@ == id {
                Some((ids.len() - 1) as usize)
            } else {
                None
            },
        }
    }
}

/// `first_index_of` finds the least position holding `id`, or reports that
/// none does.
pub proof fn lemma_first_index_of(ids: Seq<NodeId>, id: Seq<char>)
    requires
        ids.len() <= usize::MAX,
    ensures
        match first_index_of(ids, id) {
            Some(i) => i < ids.len() && ids[i as int].0@ == id && forall|j: int| 0 <= j < i ==> ids[j].0@ != id,
            None => forall|j: int| 0 <= j < ids.len() ==> ids[j].0@ != id,
        },
    decreases ids.len(),
{
    if ids.len() > 0 {
        lemma_first_index_of(ids.drop_last(), id);
        assert forall|j: int| 0 <= j < ids.len() - 1 implies ids.drop_last()[j] == ids[j] by {}
    }
}

impl LayoutGraph {
    /// The structural invariant of a layout graph.
    pub open spec fn wf(&self) -> bool {
        let n = self.node_ids.len();
        let m = self.edges.len();
        &&& self.parents.len() == n
        &&& self.ranks.len() == n
        &&& self.order.len() == n
        &&& self.compound_semantic_order.len() == n
        &&& self.model_order.len() == n
        &&& self.edge_weights.len() == m
        &&& self.edge_minlens.len() == m
        &&& forall|e: int| 0 <= e < m ==> (#[trigger] self.edges@[e]).0 < n && self.edges@[e].1 < n
        &&& forall|i: int| 0 <= i < n ==> (#[trigger] self.parents@[i] matches Some(p) ==> p < n)
        &&& strictly_increasing(self.compound_nodes@)
        &&& forall|k: int| 0 <= k < self.compound_nodes.len() ==> #[trigger] self.compound_nodes@[k] < n
        &&& strictly_increasing(self.compound_titles@)
        &&& forall|k: int| 0 <= k < self.compound_titles.len() ==> #[trigger] self.compound_titles@[k] < n
        &&& forall|e: usize| #[trigger] self.nesting_edges@.contains(e) ==> e < m
        &&& self.nesting_root matches Some(r) ==> r < n
        &&& forall|c: usize| #[trigger] self.border_top@.contains_key(c) ==> self.border_top@[c] < n
        &&& forall|c: usize| #[trigger] self.border_bottom@.contains_key(c) ==> self.border_bottom@[c] < n
        &&& forall|c: usize| #[trigger] self.border_title@.contains_key(c) ==> self.border_title@[c] < n
    }

    /// Number of nodes.
    pub fn node_count(&self) -> (r: usize)
        ensures
            r == self.node_ids.len(),
    {
        self.node_ids.len()
    }

    /// Index of the node whose id is `id`, if any.
    pub fn index_of(&self, id: &String) -> (r: Option<usize>)
        ensures
            r == first_index_of(self.node_ids@, id@),
            match r {
                Some(i) => i < self.node_ids.len() && self.node_ids@[i as int].0@ == id@ && forall|
                    j: int,
                | 0 <= j < i ==> self.node_ids@[j].0@ != id@,
                None => forall|j: int| 0 <= j < self.node_ids.len() ==> self.node_ids@[j].0@ != id@,
            },
    {
        let mut i: usize = 0;
        while i < self.node_ids.len()
            invariant
                i <= self.node_ids.len(),
                forall|j: int| 0 <= j < i ==> self.node_ids@[j].0@ != id@,
            decreases self.node_ids.len() - i,
        {
            if self.node_ids[i].0 == *id {
                proof {
                    lemma_first_index_of(self.node_ids@, id@);
                }
                return Some(i);
            }
            i = i + 1;
        }
        proof {
            lemma_first_index_of(self.node_ids@, id@);
        }
        None
    }

    /// Whether node `idx` is a dummy node.
    pub fn is_dummy_index(&self, idx: usize) -> (r: bool)
        ensures
            r == self.dummy_nodes@.contains_key(idx),
    {
        broadcast use vstd::std_specs::hash::group_hash_axioms;

        self.dummy_nodes.contains_key(&idx)
    }

    /// Append a kernel-generated node (no parent, rank 0) and return its index.
    pub fn add_nesting_node(&mut self, id: NodeId) -> (r: usize)
        requires
            old(self).wf(),
            old(self).node_ids.len() < usize::MAX,
        ensures
            final(self).wf(),
            r == old(self).node_ids.len(),
            final(self).node_ids@ == old(self).node_ids@.push(id),
            final(self).parents@ == old(self).parents@.push(None),
            final(self).ranks@ == old(self).ranks@.push(0),
            final(self).order@ == old(self).order@.push(0),
            final(self).compound_semantic_order@ == old(self).compound_semantic_order@.push(None),
            final(self).model_order@ == old(self).model_order@.push(None),
            final(self).edges == old(self).edges,
            final(self).edge_weights == old(self).edge_weights,
            final(self).edge_minlens == old(self).edge_minlens,
            final(self).compound_nodes == old(self).compound_nodes,
            final(self).compound_titles == old(self).compound_titles,
            final(self).reversed_edges == old(self).reversed_edges,
            final(self).nesting_edges == old(self).nesting_edges,
            final(self).excluded_edges == old(self).excluded_edges,
            final(self).position_excluded_nodes == old(self).position_excluded_nodes,
            final(self).border_top == old(self).border_top,
            final(self).border_bottom == old(self).border_bottom,
            final(self).border_title == old(self).border_title,
            final(self).nesting_root == old(self).nesting_root,
            final(self).node_rank_factor == old(self).node_rank_factor,
            final(self).min_rank == old(self).min_rank,
            final(self).max_rank == old(self).max_rank,
            final(self).dummy_chains == old(self).dummy_chains,
            final(self).dummy_nodes == old(self).dummy_nodes,
    {
        let idx = self.node_ids.len();
        self.node_ids.push(id);
        self.parents.push(None);
        self.ranks.push(0);
        self.order.push(0);
        self.compound_semantic_order.push(None);
        self.model_order.push(None);
        idx
    }

    /// Append an edge with the given weight and minimum length; return its index.
    pub fn add_nesting_edge_with_minlen(&mut self, from: usize, to: usize, weight: u64, minlen: i32) -> (r:
        usize)
        requires
            old(self).wf(),
            from < old(self).node_ids.len(),
            to < old(self).node_ids.len(),
        ensures
            final(self).wf(),
            r == old(self).edges.len(),
            final(self).edges@ == old(self).edges@.push((from, to, r)),
            final(self).edge_weights@ == old(self).edge_weights@.push(weight),
            final(self).edge_minlens@ == old(self).edge_minlens@.push(minlen),
            final(self).node_ids == old(self).node_ids,
            final(self).parents == old(self).parents,
            final(self).ranks == old(self).ranks,
            final(self).order == old(self).order,
            final(self).compound_semantic_order == old(self).compound_semantic_order,
            final(self).model_order == old(self).model_order,
            final(self).compound_nodes == old(self).compound_nodes,
            final(self).compound_titles == old(self).compound_titles,
            final(self).reversed_edges == old(self).reversed_edges,
            final(self).nesting_edges == old(self).nesting_edges,
            final(self).excluded_edges == old(self).excluded_edges,
            final(self).position_excluded_nodes == old(self).position_excluded_nodes,
            final(self).border_top == old(self).border_top,
            final(self).border_bottom == old(self).border_bottom,
            final(self).border_title == old(self).border_title,
            final(self).nesting_root == old(self).nesting_root,
            final(self).node_rank_factor == old(self).node_rank_factor,
            final(self).min_rank == old(self).min_rank,
            final(self).max_rank == old(self).max_rank,
            final(self).dummy_chains == old(self).dummy_chains,
            final(self).dummy_nodes == old(self).dummy_nodes,
    {
        let idx = self.edges.len();
        self.edges.push((from, to, idx));
        self.edge_weights.push(weight);
        self.edge_minlens.push(minlen);
        idx
    }

    /// Append an edge with minimum length 1.
    pub fn add_nesting_edge(&mut self, from: usize, to: usize, weight: u64) -> (r: usize)
        requires
            old(self).wf(),
            from < old(self).node_ids.len(),
            to < old(self).node_ids.len(),
        ensures
            final(self).wf(),
            r == old(self).edges.len(),
            final(self).edges@ == old(self).edges@.push((from, to, r)),
            final(self).edge_weights@ == old(self).edge_weights@.push(weight),
            final(self).edge_minlens@ == old(self).edge_minlens@.push(1),
            final(self).node_ids == old(self).node_ids,
            final(self).parents == old(self).parents,
            final(self).ranks == old(self).ranks,
            final(self).order == old(self).order,
            final(self).compound_semantic_order == old(self).compound_semantic_order,
            final(self).model_order == old(self).model_order,
            final(self).compound_nodes == old(self).compound_nodes,
            final(self).compound_titles == old(self).compound_titles,
            final(self).reversed_edges == old(self).reversed_edges,
            final(self).nesting_edges == old(self).nesting_edges,
            final(self).excluded_edges == old(self).excluded_edges,
            final(self).position_excluded_nodes == old(self).position_excluded_nodes,
            final(self).border_top == old(self).border_top,
            final(self).border_bottom == old(self).border_bottom,
            final(self).border_title == old(self).border_title,
            final(self).nesting_root == old(self).nesting_root,
            final(self).node_rank_factor == old(self).node_rank_factor,
            final(self).min_rank == old(self).min_rank,
            final(self).max_rank == old(self).max_rank,
            final(self).dummy_chains == old(self).dummy_chains,
            final(self).dummy_nodes == old(self).dummy_nodes,
    {
        self.add_nesting_edge_with_minlen(from, to, weight, 1)
    }
}

} // verus!
