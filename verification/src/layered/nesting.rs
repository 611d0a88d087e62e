//! Nesting graph setup and cleanup for compound graph layout.
//!
//! Creates border top/bottom nodes and weighted nesting edges that constrain
//! compound node children to be ranked between the border nodes. After ranking,
//! cleanup removes the nesting edges and root node.

use std::collections::HashMap;

use vstd::prelude::*;

use super::graph::{node_depth, parents_form_forest, AcyclicPolicy, LayoutGraph, NodeId};
use super::nesting_lemmas::{
    lemma_border_map, lemma_border_parents_push, lemma_children_upto, lemma_compound_pos,
    lemma_compound_pos_at, lemma_edges_with_push, lemma_increasing_len, lemma_forest_extend, lemma_max_depth,
};
use super::nesting_spec::{
    border_map, border_parents, bottoms_after, child_edges, child_pair, children_upto,
    compound_edges, compound_pos, edges_with, exit_edge, exit_edges, forward_edge, forward_path,
    forward_step, index_range, max_depth_upto, minlens_of, nesting_height, nesting_new_edges, nesting_node_sep,
    nesting_root_index, parents_after_borders, reaches_into, root_compound_edges, root_leaf_edges,
    scaled_minlens, tops_after, weights_of, NewEdge,
};
use super::reach::{build_forward_adjacency, can_reach_compound, is_forward_adjacency, is_reversed};
use super::hierarchy::{
    ancestor, in_subtree, is_descendant_of, lemma_ancestor_bound, lemma_ancestor_none_after,
    lemma_has_root, lemma_parent_depth, lemma_subtree_child, lemma_subtree_split,
    parents_in_range,
};

verus! {

/// Largest node count the kernel's `i32` rank arithmetic is sized for.
pub const MAX_KERNEL_NODES: usize = 0x3fff_ffff;

/// A graph whose parent links form a forest, small enough for `i32` depths.
pub open spec fn hierarchy_ok(lg: &LayoutGraph) -> bool {
    &&& lg.wf()
    &&& parents_form_forest(lg.parents@)
    &&& lg.node_ids.len() <= MAX_KERNEL_NODES
}

/// Depth of every node of the subtree rooted at `root`.
pub open spec fn subtree_has_depths(parents: Seq<Option<usize>>, m: Map<usize, i32>, root: usize) -> bool {
    forall|x: usize|
        x < parents.len() && #[trigger] in_subtree(parents, x as int, root) ==> m.contains_key(x)
            && m[x] == node_depth(parents, x as int) as i32
}

/// Entries of `before` outside the subtree of `root` are still in `after`, unchanged.
pub open spec fn kept_outside_subtree(
    parents: Seq<Option<usize>>,
    before: Map<usize, i32>,
    after: Map<usize, i32>,
    root: usize,
) -> bool {
    forall|x: usize|
        #![trigger after.contains_key(x)]
        #![trigger after[x]]
        before.contains_key(x) && !(x < parents.len() && in_subtree(parents, x as int, root))
            ==> after.contains_key(x) && after[x] == before[x]
}

/// Check if `node` is a descendant of `ancestor` in the parent hierarchy.
pub(crate) fn is_descendant(lg: &LayoutGraph, node: usize, anc: usize) -> (r: bool)
    requires
        hierarchy_ok(lg),
        node < lg.parents.len(),
    ensures
        r == is_descendant_of(lg.parents@, node as int, anc),
{
    let ghost p = lg.parents@;
    let mut current = lg.parents[node];
    let ghost mut k: nat = 1;
    proof {
        lemma_parent_depth(p, node as int);
        assert(ancestor(p, node as int, 0) == Some(node));
        assert(ancestor(p, node as int, 1) == p[node as int]);
    }
    loop
        invariant
            hierarchy_ok(lg),
            p == lg.parents@,
            node < p.len(),
            k >= 1,
            current == ancestor(p, node as int, k),
            forall|j: nat| 1 <= j < k ==> #[trigger] ancestor(p, node as int, j) != Some(anc),
        decreases p.len() - k,
    {
        match current {
            Some(q) => {
                proof {
                    lemma_ancestor_bound(p, node as int, k);
                }
                if q == anc {
                    return true;
                }
                current = lg.parents[q];
                proof {
                    k = k + 1;
                }
            },
            None => {
                proof {
                    assert forall|j: nat| j >= 1 implies #[trigger] ancestor(p, node as int, j) != Some(
                        anc,
                    ) by {
                        if j >= k {
                            lemma_ancestor_none_after(p, node as int, k, j);
                        }
                    }
                }
                return false;
            },
        }
    }
}

/// Record the depth of `node` and of everything below it.
fn compute_depth(lg: &LayoutGraph, node: usize, depth: i32, depths: &mut HashMap<usize, i32>)
    requires
        hierarchy_ok(lg),
        node < lg.parents.len(),
        depth == node_depth(lg.parents@, node as int) as i32,
    ensures
        subtree_has_depths(lg.parents@, final(depths)@, node),
        forall|x: usize|
            #[trigger] final(depths)@.contains_key(x) ==> old(depths)@.contains_key(x) || (x
                < lg.parents.len() && in_subtree(lg.parents@, x as int, node)),
        kept_outside_subtree(lg.parents@, old(depths)@, final(depths)@, node),
    decreases lg.parents.len() - node_depth(lg.parents@, node as int),
{
    let ghost p = lg.parents@;
    let ghost orig = old(depths)@;
    proof {
        lemma_parent_depth(p, node as int);
        assert(ancestor(p, node as int, 0) == Some(node));
    }
    depths.insert(node, depth);
    let ghost start = *depths;
    let mut i: usize = 0;
    while i < lg.parents.len()
        invariant
            hierarchy_ok(lg),
            p == lg.parents@,
            node < p.len(),
            depth == node_depth(p, node as int) as i32,
            i <= p.len(),
            depths@.contains_key(node) && depths@[node] == depth,
            in_subtree(p, node as int, node),
            forall|c: usize|
                c < i && p[c as int] == Some(node) ==> #[trigger] subtree_has_depths(p, depths@, c),
            forall|x: usize|
                #[trigger] depths@.contains_key(x) ==> orig.contains_key(x) || (x < p.len()
                    && in_subtree(p, x as int, node)),
            kept_outside_subtree(p, orig, depths@, node),
        decreases p.len() - i,
    {
        if lg.parents[i] == Some(node) {
            proof {
                lemma_parent_depth(p, i as int);
            }
            let ghost before = depths@;
            compute_depth(lg, i, depth + 1, depths);
            proof {
                assert forall|x: usize| #[trigger] depths@.contains_key(x) implies orig.contains_key(x) || (x < p.len() && in_subtree(p, x as int, node)) by {
                    if !before.contains_key(x) {
                        lemma_subtree_child(p, x as int, i, node);
                    }
                }
                assert forall|c: usize|
                    c < i + 1 && p[c as int] == Some(node) implies #[trigger] subtree_has_depths(
                    p,
                    depths@,
                    c,
                ) by {
                    if c < i {
                        assert forall|x: usize|
                            x < p.len() && #[trigger] in_subtree(
                                p,
                                x as int,
                                c,
                            ) implies depths@.contains_key(x) && depths@[x] == node_depth(
                            p,
                            x as int,
                        ) as i32 by {
                            assert(subtree_has_depths(p, before, c));
                            assert(before.contains_key(x));
                            if in_subtree(p, x as int, i) {
                                lemma_parent_depth(p, c as int);
                                lemma_parent_depth(p, i as int);
                                lemma_same_depth_disjoint(lg, x, c, i);
                            }
                            assert(!in_subtree(p, x as int, i));
                            assert(depths@.contains_key(x));
                            assert(depths@[x] == before[x]);
                        }
                    }
                }
                assert(kept_outside_subtree(p, orig, before, node));
                assert(kept_outside_subtree(p, before, depths@, i));
                assert forall|x: usize|
                    orig.contains_key(x) && !(x < p.len() && in_subtree(
                        p,
                        x as int,
                        node,
                    )) implies depths@.contains_key(x) && depths@[x] == orig[x] by {
                    if x < p.len() && in_subtree(p, x as int, i) {
                        lemma_subtree_child(p, x as int, i, node);
                    } else {
                        assert(before.contains_key(x));
                        assert(before[x] == orig[x]);
                        assert(depths@.contains_key(x));
                        assert(depths@[x] == before[x]);
                    }
                }
                assert(kept_outside_subtree(p, orig, depths@, node));
                assert(ancestor(p, node as int, 0) == Some(node));
                assert(in_subtree(p, node as int, node));
                if in_subtree(p, node as int, i) {
                    lemma_subtree_child(p, node as int, i, node);
                    lemma_descendant_of_self_impossible(lg, node);
                }
                assert(!in_subtree(p, node as int, i));
                assert(before.contains_key(node));
                assert(depths@.contains_key(node));
            }
            assert(forall|x: usize|
                #[trigger] depths@.contains_key(x) ==> orig.contains_key(x) || (x < p.len()
                    && in_subtree(p, x as int, node)));
            assert(forall|c: usize|
                c < i + 1 && p[c as int] == Some(node) ==> #[trigger] subtree_has_depths(p, depths@, c));
            assert(depths@.contains_key(node) && depths@[node] == depth);
        }
        i = i + 1;
    }
    proof {
        assert forall|x: usize|
            x < p.len() && #[trigger] in_subtree(p, x as int, node) implies depths@.contains_key(x)
                && depths@[x] == node_depth(p, x as int) as i32 by {
            if x != node {
                lemma_subtree_split(p, x as int, node);
                let c = choose|c: usize|
                    c < p.len() && p[c as int] == Some(node) && #[trigger] in_subtree(p, x as int, c);
                assert(subtree_has_depths(p, depths@, c));
            }
        }
    }
}

/// A node never lies strictly below itself in a forest.
proof fn lemma_descendant_of_self_impossible(lg: &LayoutGraph, node: usize)
    requires
        hierarchy_ok(lg),
        node < lg.parents.len(),
    ensures
        !is_descendant_of(lg.parents@, node as int, node),
{
    if is_descendant_of(lg.parents@, node as int, node) {
        let k = choose|k: nat| k >= 1 && #[trigger] ancestor(lg.parents@, node as int, k) == Some(node);
        super::hierarchy::lemma_ancestor_depth(lg.parents@, node as int, k);
    }
}

/// Compute the depth of each node in the compound parent hierarchy.
/// Top-level nodes get depth 1, each nesting level adds 1.
pub fn tree_depths(lg: &LayoutGraph) -> (r: HashMap<usize, i32>)
    requires
        hierarchy_ok(lg),
    ensures
        forall|x: usize| #[trigger] r@.contains_key(x) <==> x < lg.node_ids.len(),
        forall|x: usize| x < lg.node_ids.len() ==> #[trigger] r@[x] == node_depth(lg.parents@, x as int) as i32,
{
    let ghost p = lg.parents@;
    let mut depths: HashMap<usize, i32> = HashMap::new();
    let n = lg.node_ids.len();
    let mut i: usize = 0;
    while i < n
        invariant
            hierarchy_ok(lg),
            p == lg.parents@,
            n == p.len(),
            i <= n,
            forall|r: usize| r < i && p[r as int] is None ==> #[trigger] subtree_has_depths(p, depths@, r),
            forall|x: usize| #[trigger] depths@.contains_key(x) ==> x < n,
        decreases n - i,
    {
        if lg.parents[i].is_none() {
            proof {
                lemma_parent_depth(p, i as int);
            }
            let ghost before = depths@;
            compute_depth(lg, i, 1, &mut depths);
            proof {
                assert forall|r: usize|
                    r < i + 1 && p[r as int] is None implies #[trigger] subtree_has_depths(
                    p,
                    depths@,
                    r,
                ) by {
                    if r < i {
                        assert forall|x: usize|
                            x < p.len() && #[trigger] in_subtree(
                                p,
                                x as int,
                                r,
                            ) implies depths@.contains_key(x) && depths@[x] == node_depth(
                            p,
                            x as int,
                        ) as i32 by {
                            assert(subtree_has_depths(p, before, r));
                            if in_subtree(p, x as int, i) {
                                lemma_parent_depth(p, r as int);
                                lemma_same_depth_disjoint(lg, x, r, i);
                            }
                        }
                    }
                }
            }
        }
        i = i + 1;
    }
    proof {
        assert forall|x: usize| x < n implies depths@.contains_key(x) && #[trigger] depths@[x]
            == node_depth(p, x as int) as i32 by {
            lemma_has_root(p, x as int);
            let r = choose|r: usize|
                r < p.len() && p[r as int] is None && #[trigger] in_subtree(p, x as int, r);
            assert(subtree_has_depths(p, depths@, r));
        }
        assert forall|x: usize| x < n implies #[trigger] depths@.contains_key(x) by {
            assert(depths@[x] == node_depth(p, x as int) as i32);
        }
    }
    depths
}

/// Two subtrees whose roots sit at the same depth share a node only when the roots coincide.
proof fn lemma_same_depth_disjoint(lg: &LayoutGraph, x: usize, a: usize, b: usize)
    requires
        hierarchy_ok(lg),
        x < lg.parents.len(),
        a < lg.parents.len(),
        b < lg.parents.len(),
        node_depth(lg.parents@, a as int) == node_depth(lg.parents@, b as int),
        in_subtree(lg.parents@, x as int, a),
        in_subtree(lg.parents@, x as int, b),
    ensures
        a == b,
{
    let p = lg.parents@;
    let k1 = choose|k: nat| #[trigger] ancestor(p, x as int, k) == Some(a);
    let k2 = choose|k: nat| #[trigger] ancestor(p, x as int, k) == Some(b);
    super::hierarchy::lemma_ancestor_depth(p, x as int, k1);
    super::hierarchy::lemma_ancestor_depth(p, x as int, k2);
}

// ---------------------------------------------------------------------------
// The nesting phase
// ---------------------------------------------------------------------------

/// What the nesting phase needs: a forest hierarchy small enough for `i32`
/// rank arithmetic, and original minimum lengths that stay in `i32` range once
/// scaled by the node separation.
pub open spec fn nesting_ready(g: &LayoutGraph) -> bool {
    &&& hierarchy_ok(g)
    &&& 3 * g.node_ids.len() + 1 <= MAX_KERNEL_NODES
    &&& forall|e: int|
        0 <= e < g.edge_minlens.len() ==> i32::MIN <= #[trigger] g.edge_minlens@[e] * nesting_node_sep(
            g,
        ) <= i32::MAX
}

/// Node-side state once the border nodes of every compound exist.
pub open spec fn border_nodes_added(g0: &LayoutGraph, lg: &LayoutGraph) -> bool {
    let n = g0.node_ids.len() as int;
    let cs = g0.compound_nodes@;
    let nc = cs.len() as int;
    &&& lg.node_ids.len() == n + 2 * nc
    &&& forall|i: int| 0 <= i < n ==> #[trigger] lg.node_ids@[i] == g0.node_ids@[i]
    &&& forall|k: int|
        0 <= k < nc ==> (#[trigger] lg.node_ids@[n + 2 * k]).0@ == "_bt_"@ + g0.node_ids@[cs[k] as int].0@
    &&& forall|k: int|
        0 <= k < nc ==> (#[trigger] lg.node_ids@[n + 2 * k + 1]).0@ == "_bb_"@ + g0.node_ids@[cs[k] as int].0@
    &&& lg.parents@ == parents_after_borders(g0)
    &&& lg.ranks@ == g0.ranks@ + Seq::new((2 * nc) as nat, |i: int| 0i32)
    &&& lg.compound_semantic_order@ == g0.compound_semantic_order@ + Seq::new(
        (2 * nc) as nat,
        |i: int| None::<usize>,
    )
    &&& lg.model_order@ == g0.model_order@ + Seq::new((2 * nc) as nat, |i: int| None::<usize>)
    &&& lg.order@ == g0.order@ + Seq::new((2 * nc) as nat, |i: int| 0usize)
    &&& lg.border_top@ == tops_after(g0)
    &&& lg.border_bottom@ == bottoms_after(g0)
}

/// Fields the nesting phase never touches.
pub open spec fn untouched_marks(g0: &LayoutGraph, lg: &LayoutGraph) -> bool {
    &&& lg.compound_nodes == g0.compound_nodes
    &&& lg.compound_titles == g0.compound_titles
    &&& lg.reversed_edges == g0.reversed_edges
    &&& lg.excluded_edges == g0.excluded_edges
    &&& lg.position_excluded_nodes == g0.position_excluded_nodes
    &&& lg.border_title == g0.border_title
    &&& lg.min_rank == g0.min_rank
    &&& lg.max_rank == g0.max_rank
    &&& lg.dummy_chains == g0.dummy_chains
    &&& lg.dummy_nodes == g0.dummy_nodes
}

/// The edges appended after the original ones are exactly `new`, all marked as nesting edges.
pub open spec fn edges_appended(g0: &LayoutGraph, lg: &LayoutGraph, new: Seq<NewEdge>) -> bool {
    &&& lg.edges@ == edges_with(g0.edges@, new)
    &&& lg.edge_weights@ == g0.edge_weights@ + weights_of(new)
    &&& lg.edge_minlens@ == scaled_minlens(g0) + minlens_of(new)
    &&& lg.nesting_edges@ == g0.nesting_edges@.union(
        index_range(g0.edges.len() as nat, (g0.edges.len() + new.len()) as nat),
    )
}

/// `a` and `b` agree on everything but the edge-side fields.
pub open spec fn same_but_edges(a: &LayoutGraph, b: &LayoutGraph) -> bool {
    &&& a.node_ids == b.node_ids
    &&& a.parents == b.parents
    &&& a.ranks == b.ranks
    &&& a.compound_semantic_order == b.compound_semantic_order
    &&& a.model_order == b.model_order
    &&& a.order == b.order
    &&& a.compound_nodes == b.compound_nodes
    &&& a.compound_titles == b.compound_titles
    &&& a.reversed_edges == b.reversed_edges
    &&& a.excluded_edges == b.excluded_edges
    &&& a.position_excluded_nodes == b.position_excluded_nodes
    &&& a.border_top == b.border_top
    &&& a.border_bottom == b.border_bottom
    &&& a.border_title == b.border_title
    &&& a.nesting_root == b.nesting_root
    &&& a.node_rank_factor == b.node_rank_factor
    &&& a.min_rank == b.min_rank
    &&& a.max_rank == b.max_rank
    &&& a.dummy_chains == b.dummy_chains
    &&& a.dummy_nodes == b.dummy_nodes
}

/// The whole effect of the nesting phase on a graph with compounds.
pub open spec fn nesting_result(g0: &LayoutGraph, lg: &LayoutGraph, policy: AcyclicPolicy) -> bool {
    let n = g0.node_ids.len() as int;
    let root = nesting_root_index(g0) as int;
    let new = nesting_new_edges(g0, policy);
    &&& lg.wf()
    &&& lg.node_ids.len() == root + 1
    &&& forall|i: int| 0 <= i < n ==> #[trigger] lg.node_ids@[i] == g0.node_ids@[i]
    &&& forall|k: int|
        0 <= k < g0.compound_nodes.len() ==> (#[trigger] lg.node_ids@[n + 2 * k]).0@ == "_bt_"@
            + g0.node_ids@[g0.compound_nodes@[k] as int].0@
    &&& forall|k: int|
        0 <= k < g0.compound_nodes.len() ==> (#[trigger] lg.node_ids@[n + 2 * k + 1]).0@ == "_bb_"@
            + g0.node_ids@[g0.compound_nodes@[k] as int].0@
    &&& lg.node_ids@[root].0@ == "_nesting_root"@
    &&& lg.parents@ == parents_after_borders(g0).push(None)
    &&& lg.ranks@ == g0.ranks@ + Seq::new((root + 1 - n) as nat, |i: int| 0i32)
    &&& lg.compound_semantic_order@ == g0.compound_semantic_order@ + Seq::new(
        (root + 1 - n) as nat,
        |i: int| None::<usize>,
    )
    &&& lg.model_order@ == g0.model_order@ + Seq::new((root + 1 - n) as nat, |i: int| None::<usize>)
    &&& lg.order@ == g0.order@ + Seq::new((root + 1 - n) as nat, |i: int| 0usize)
    &&& lg.border_top@ == tops_after(g0)
    &&& lg.border_bottom@ == bottoms_after(g0)
    &&& lg.nesting_root == Some(root as usize)
    &&& lg.node_rank_factor == Some(nesting_node_sep(g0) as i32)
    &&& edges_appended(g0, lg, new)
    &&& untouched_marks(g0, lg)
}

/// Depth recorded for `i`.
fn depth_at(depths: &HashMap<usize, i32>, i: usize) -> (r: i32)
    requires
        depths@.contains_key(i),
    ensures
        r == depths@[i],
{
    *depths.get(&i).unwrap()
}

/// Position of `c` in the compound list, if it is a compound.
pub(crate) fn compound_position(cs: &Vec<usize>, c: usize) -> (r: Option<usize>)
    ensures
        match r {
            Some(k) => compound_pos(cs@, c) == Some(k as nat),
            None => compound_pos(cs@, c) is None,
        },
{
    let mut k: usize = 0;
    while k < cs.len()
        invariant
            k <= cs.len(),
            forall|j: int| 0 <= j < k ==> cs@[j] != c,
        decreases cs.len() - k,
    {
        if cs[k] == c {
            proof {
                lemma_compound_pos_first(cs@, k as int);
            }
            return Some(k);
        }
        k = k + 1;
    }
    proof {
        lemma_compound_pos(cs@, c);
        if compound_pos(cs@, c) is Some {
            let j = compound_pos(cs@, c)->Some_0;
            assert(cs@[j as int] == c);
        }
    }
    None
}

/// The first occurrence is the position.
proof fn lemma_compound_pos_first(cs: Seq<usize>, k: int)
    requires
        0 <= k < cs.len(),
        forall|j: int| 0 <= j < k ==> cs[j] != cs[k],
    ensures
        compound_pos(cs, cs[k]) == Some(k as nat),
    decreases cs.len(),
{
    if k < cs.len() - 1 {
        let d = cs.drop_last();
        assert(d[k] == cs[k]);
        assert(forall|j: int| 0 <= j < k ==> d[j] == cs[j]);
        lemma_compound_pos_first(d, k);
    } else {
        let d = cs.drop_last();
        lemma_compound_pos(d, cs[k]);
        assert(forall|j: int| 0 <= j < d.len() ==> d[j] == cs[j]);
    }
}

/// Append one nesting edge and mark it as such.
fn push_nesting_edge(
    lg: &mut LayoutGraph,
    from: usize,
    to: usize,
    weight: u64,
    minlen: i32,
    Ghost(g0): Ghost<LayoutGraph>,
    Ghost(new): Ghost<Seq<NewEdge>>,
)
    requires
        old(lg).wf(),
        from < old(lg).node_ids.len(),
        to < old(lg).node_ids.len(),
        edges_appended(&g0, old(lg), new),
    ensures
        final(lg).wf(),
        edges_appended(&g0, final(lg), new.push((from, to, weight, minlen))),
        same_but_edges(old(lg), final(lg)),
{
    let ghost base = g0.edges@;
    let e = lg.add_nesting_edge_with_minlen(from, to, weight, minlen);
    lg.nesting_edges.insert(e);
    proof {
        lemma_edges_with_push(base, new, (from, to, weight, minlen));
        assert(g0.edge_weights@ + weights_of(new.push((from, to, weight, minlen))) =~= (
        g0.edge_weights@ + weights_of(new)).push(weight));
        assert(scaled_minlens(&g0) + minlens_of(new.push((from, to, weight, minlen))) =~= (
        scaled_minlens(&g0) + minlens_of(new)).push(minlen));
        assert(lg.nesting_edges@ =~= g0.nesting_edges@.union(
            index_range(g0.edges.len() as nat, (g0.edges.len() + new.len() + 1) as nat),
        ));
    }
}

/// Create the top and bottom border nodes of every compound.
fn add_border_nodes(lg: &mut LayoutGraph, Ghost(g0): Ghost<LayoutGraph>)
    requires
        nesting_ready(&g0),
        old(lg).wf(),
        old(lg).node_ids == g0.node_ids,
        old(lg).parents == g0.parents,
        old(lg).ranks == g0.ranks,
        old(lg).compound_semantic_order == g0.compound_semantic_order,
        old(lg).model_order == g0.model_order,
        old(lg).order == g0.order,
        old(lg).border_top == g0.border_top,
        old(lg).border_bottom == g0.border_bottom,
        edges_appended(&g0, old(lg), Seq::empty()),
        untouched_marks(&g0, old(lg)),
    ensures
        final(lg).wf(),
        border_nodes_added(&g0, final(lg)),
        edges_appended(&g0, final(lg), Seq::empty()),
        untouched_marks(&g0, final(lg)),
        final(lg).nesting_root == old(lg).nesting_root,
        final(lg).node_rank_factor == old(lg).node_rank_factor,
{
    let ghost cs = g0.compound_nodes@;
    let ghost nn = g0.node_ids.len() as int;
    let count = lg.compound_nodes.len();
    proof {
        lemma_increasing_len(cs, nn as nat);
    }
    let mut k: usize = 0;
    while k < count
        invariant
            nesting_ready(&g0),
            count <= nn,
            cs == g0.compound_nodes@,
            nn == g0.node_ids.len(),
            count == cs.len(),
            k <= count,
            lg.wf(),
            lg.node_ids.len() == nn + 2 * k,
            forall|i: int| 0 <= i < nn ==> #[trigger] lg.node_ids@[i] == g0.node_ids@[i],
            forall|j: int|
                0 <= j < k ==> (#[trigger] lg.node_ids@[nn + 2 * j]).0@ == "_bt_"@ + g0.node_ids@[cs[j] as int].0@,
            forall|j: int|
                0 <= j < k ==> (#[trigger] lg.node_ids@[nn + 2 * j + 1]).0@ == "_bb_"@
                    + g0.node_ids@[cs[j] as int].0@,
            lg.parents@ == g0.parents@ + border_parents(cs, k as nat),
            lg.ranks@ == g0.ranks@ + Seq::new((2 * k) as nat, |i: int| 0i32),
            lg.compound_semantic_order@ == g0.compound_semantic_order@ + Seq::new(
                (2 * k) as nat,
                |i: int| None::<usize>,
            ),
            lg.model_order@ == g0.model_order@ + Seq::new((2 * k) as nat, |i: int| None::<usize>),
            lg.order@ == g0.order@ + Seq::new((2 * k) as nat, |i: int| 0usize),
            lg.border_top@ == border_map(g0.border_top@, cs, nn as nat, k as nat, 0),
            lg.border_bottom@ == border_map(g0.border_bottom@, cs, nn as nat, k as nat, 1),
            edges_appended(&g0, lg, Seq::empty()),
            untouched_marks(&g0, lg),
            lg.nesting_root == old(lg).nesting_root,
            lg.node_rank_factor == old(lg).node_rank_factor,
        decreases count - k,
    {
        let compound_idx = lg.compound_nodes[k];
        let compound_id = lg.node_ids[compound_idx].0.clone();
        let ghost before = *lg;

        let top_id = NodeId(String::from_str("_bt_").concat(compound_id.as_str()));
        let top_idx = lg.add_nesting_node(top_id);
        lg.border_top.insert(compound_idx, top_idx);
        lg.parents.set(top_idx, Some(compound_idx));

        let bot_id = NodeId(String::from_str("_bb_").concat(compound_id.as_str()));
        let bot_idx = lg.add_nesting_node(bot_id);
        lg.border_bottom.insert(compound_idx, bot_idx);
        lg.parents.set(bot_idx, Some(compound_idx));

        proof {
            lemma_border_parents_push(cs, k as nat);
            assert(lg.parents@ =~= g0.parents@ + border_parents(cs, k as nat + 1));
            assert(lg.ranks@ =~= g0.ranks@ + Seq::new((2 * (k + 1)) as nat, |i: int| 0i32));
            assert(lg.compound_semantic_order@ =~= g0.compound_semantic_order@ + Seq::new(
                (2 * (k + 1)) as nat,
                |i: int| None::<usize>,
            ));
            assert(lg.model_order@ =~= g0.model_order@ + Seq::new(
                (2 * (k + 1)) as nat,
                |i: int| None::<usize>,
            ));
            assert(lg.order@ =~= g0.order@ + Seq::new(
                (2 * (k + 1)) as nat,
                |i: int| 0usize,
            ));
            assert(lg.node_ids@[nn + 2 * k] == lg.node_ids@[top_idx as int]);
            assert forall|j: int|
                0 <= j < k + 1 implies (#[trigger] lg.node_ids@[nn + 2 * j]).0@ == "_bt_"@
                + g0.node_ids@[cs[j] as int].0@ by {
                if j < k {
                    assert(lg.node_ids@[nn + 2 * j] == before.node_ids@[nn + 2 * j]);
                }
            }
            assert forall|j: int|
                0 <= j < k + 1 implies (#[trigger] lg.node_ids@[nn + 2 * j + 1]).0@ == "_bb_"@
                + g0.node_ids@[cs[j] as int].0@ by {
                if j < k {
                    assert(lg.node_ids@[nn + 2 * j + 1] == before.node_ids@[nn + 2 * j + 1]);
                }
            }
        }
        k = k + 1;
    }
    proof {
        assert(lg.ranks@ =~= g0.ranks@ + Seq::new((2 * cs.len()) as nat, |i: int| 0i32));
    }
}

/// The border map entry of compound `cs[k]` is its border node.
proof fn lemma_border_entry(g0: &LayoutGraph, k: int)
    requires
        g0.wf(),
        0 <= k < g0.compound_nodes.len(),
    ensures
        tops_after(g0).contains_key(g0.compound_nodes@[k]),
        tops_after(g0)[g0.compound_nodes@[k]] == (g0.node_ids.len() + 2 * k) as usize,
        bottoms_after(g0).contains_key(g0.compound_nodes@[k]),
        bottoms_after(g0)[g0.compound_nodes@[k]] == (g0.node_ids.len() + 2 * k + 1) as usize,
{
    let cs = g0.compound_nodes@;
    let n = g0.node_ids.len() as nat;
    lemma_border_map(g0.border_top@, cs, n, cs.len() as nat, 0, cs[k]);
    lemma_border_map(g0.border_bottom@, cs, n, cs.len() as nat, 1, cs[k]);
}

/// Add the nesting edges that hold every child between its compound's borders.
fn add_child_nesting_edges(
    lg: &mut LayoutGraph,
    depths: &HashMap<usize, i32>,
    n: usize,
    height: i32,
    Ghost(g0): Ghost<LayoutGraph>,
)
    requires
        nesting_ready(&g0),
        n == g0.node_ids.len(),
        height == nesting_height(&g0),
        0 <= nesting_height(&g0) < g0.node_ids.len(),
        old(lg).wf(),
        border_nodes_added(&g0, old(lg)),
        edges_appended(&g0, old(lg), Seq::empty()),
        untouched_marks(&g0, old(lg)),
        forall|x: usize|
            x < n ==> #[trigger] depths@.contains_key(x) && depths@[x] == node_depth(
                g0.parents@,
                x as int,
            ) as i32,
    ensures
        final(lg).wf(),
        same_but_edges(old(lg), final(lg)),
        edges_appended(&g0, final(lg), compound_edges(&g0, g0.compound_nodes.len() as nat)),
{
    let ghost cs = g0.compound_nodes@;
    let ghost start = *lg;
    let nesting_weight: u64 = (n as u64) * 2;
    let count = lg.compound_nodes.len();
    proof {
        lemma_increasing_len(cs, n as nat);
    }
    let mut k: usize = 0;
    while k < count
        invariant
            nesting_ready(&g0),
            n == g0.node_ids.len(),
            height == nesting_height(&g0),
            0 <= nesting_height(&g0) < n,
            nesting_weight == 2 * n,
            cs == g0.compound_nodes@,
            count == cs.len(),
            count <= n,
            k <= count,
            lg.wf(),
            border_nodes_added(&g0, lg),
            same_but_edges(&start, lg),
            untouched_marks(&g0, lg),
            edges_appended(&g0, lg, compound_edges(&g0, k as nat)),
            forall|x: usize|
                x < n ==> #[trigger] depths@.contains_key(x) && depths@[x] == node_depth(
                    g0.parents@,
                    x as int,
                ) as i32,
        decreases count - k,
    {
        let compound_idx = lg.compound_nodes[k];
        proof {
            lemma_border_entry(&g0, k as int);
        }
        let top_idx = *lg.border_top.get(&compound_idx).unwrap();
        let bot_idx = *lg.border_bottom.get(&compound_idx).unwrap();

        // Capture current children excluding the border top/bottom nodes.
        let mut children: Vec<usize> = Vec::new();
        let total = lg.parents.len();
        let mut i: usize = 0;
        while i < total
            invariant
                total == lg.parents.len(),
                total == n + 2 * count,
                lg.parents@ == parents_after_borders(&g0),
                cs == g0.compound_nodes@,
                g0.wf(),
                k < count,
                count == cs.len(),
                compound_idx == cs[k as int],
                top_idx == n + 2 * k,
                bot_idx == n + 2 * k + 1,
                n == g0.node_ids.len(),
                i <= total,
                children@ == children_upto(g0.parents@, compound_idx, if i < n {
                    i as nat
                } else {
                    n as nat
                }),
            decreases total - i,
        {
            proof {
                if i >= n {
                    let q = (i - n) / 2;
                    assert(lg.parents@[i as int] == Some(cs[q as int]));
                    if cs[q as int] == compound_idx && q != k {
                        assert(cs[q as int] != cs[k as int]) by {
                            if q < k {
                            } else {
                            }
                        }
                    }
                } else {
                    assert(lg.parents@[i as int] == g0.parents@[i as int]);
                }
            }
            if lg.parents[i] == Some(compound_idx) && i != top_idx && i != bot_idx {
                children.push(i);
            }
            i = i + 1;
        }
        proof {
            assert(g0.compound_nodes@[k as int] < n);
            assert(depths@.contains_key(compound_idx));
        }
        let depth_c = depth_at(depths, compound_idx);
        proof {
            lemma_parent_depth(g0.parents@, compound_idx as int);
            lemma_children_upto(g0.parents@, compound_idx, n as nat);
        }
        let ghost base = compound_edges(&g0, k as nat);
        let mut j: usize = 0;
        while j < children.len()
            invariant
                nesting_ready(&g0),
                n == g0.node_ids.len(),
                height == nesting_height(&g0),
                0 <= nesting_height(&g0) < n,
                nesting_weight == 2 * n,
                cs == g0.compound_nodes@,
                k < count,
                count == cs.len(),
                compound_idx == cs[k as int],
                top_idx == n + 2 * k,
                bot_idx == n + 2 * k + 1,
                depth_c == node_depth(g0.parents@, compound_idx as int) as i32,
                1 <= node_depth(g0.parents@, compound_idx as int) <= n,
                children@ == children_upto(g0.parents@, compound_idx, n as nat),
                forall|t: int| 0 <= t < children.len() ==> #[trigger] children@[t] < n,
                j <= children.len(),
                lg.wf(),
                border_nodes_added(&g0, lg),
                same_but_edges(&start, lg),
                untouched_marks(&g0, lg),
                base == compound_edges(&g0, k as nat),
                edges_appended(&g0, lg, base + child_edges(&g0, k as int, children@.take(j as int))),
            decreases children.len() - j,
        {
            let child = children[j];
            let ghost cur = base + child_edges(&g0, k as int, children@.take(j as int));
            let (child_top, child_bottom, weight) = match (
                lg.border_top.get(&child),
                lg.border_bottom.get(&child),
            ) {
                (Some(ct), Some(cb)) => (*ct, *cb, nesting_weight),
                _ => (child, child, nesting_weight * 2),
            };
            let minlen = if child_top != child_bottom {
                1
            } else {
                height - depth_c + 1
            };
            proof {
                assert(child_pair(&g0, k as int, child) == seq![
                    (top_idx, child_top, weight, minlen),
                    (child_bottom, bot_idx, weight, minlen),
                ]);
            }
            push_nesting_edge(lg, top_idx, child_top, weight, minlen, Ghost(g0), Ghost(cur));
            push_nesting_edge(
                lg,
                child_bottom,
                bot_idx,
                weight,
                minlen,
                Ghost(g0),
                Ghost(cur.push((top_idx, child_top, weight, minlen))),
            );
            proof {
                let t = children@.take(j as int + 1);
                assert(t.drop_last() =~= children@.take(j as int));
                assert(t.last() == child);
                assert(base + child_edges(&g0, k as int, t) =~= cur.push(
                    (top_idx, child_top, weight, minlen),
                ).push((child_bottom, bot_idx, weight, minlen)));
            }
            j = j + 1;
        }
        proof {
            assert(children@.take(children.len() as int) =~= children@);
            assert(compound_edges(&g0, k as nat + 1) == base + child_edges(
                &g0,
                k as int,
                children@,
            ));
        }
        k = k + 1;
    }
}


/// The node-side facts the exit and root phases rely on, once the borders exist.
proof fn lemma_hierarchy_after_borders(g0: &LayoutGraph, lg: &LayoutGraph)
    requires
        nesting_ready(g0),
        lg.wf(),
        border_nodes_added(g0, lg),
    ensures
        hierarchy_ok(lg),
        forall|i: int| 0 <= i < g0.node_ids.len() ==> #[trigger] lg.parents@[i] == g0.parents@[i],
{
    let cs = g0.compound_nodes@;
    let n = g0.node_ids.len();
    lemma_increasing_len(cs, n as nat);
    let extra = border_parents(cs, cs.len() as nat);
    assert forall|j: int| 0 <= j < extra.len() implies (#[trigger] extra[j] matches Some(q) ==> q
        < g0.parents@.len()) by {
        assert(cs[j / 2] < n);
    }
    lemma_forest_extend(g0.parents@, extra);
}

/// Constrain the targets of edges that leave a compound to rank below its bottom border.
fn add_exit_constraints(lg: &mut LayoutGraph, m: usize, Ghost(g0): Ghost<LayoutGraph>, Ghost(base): Ghost<Seq<NewEdge>>)
    requires
        nesting_ready(&g0),
        m == g0.edges.len(),
        old(lg).wf(),
        border_nodes_added(&g0, old(lg)),
        untouched_marks(&g0, old(lg)),
        edges_appended(&g0, old(lg), base),
    ensures
        final(lg).wf(),
        same_but_edges(old(lg), final(lg)),
        edges_appended(&g0, final(lg), base + exit_edges(&g0, m as nat)),
{
    let ghost start = *lg;
    let ghost n = g0.node_ids.len();
    let ghost cs = g0.compound_nodes@;
    proof {
        lemma_hierarchy_after_borders(&g0, lg);
        assert forall|e: int| 0 <= e < m implies (#[trigger] lg.edges@[e]).0 < lg.node_ids.len()
            && lg.edges@[e].1 < lg.node_ids.len() by {
            assert(lg.edges@[e] == g0.edges@[e]);
        }
    }
    let total = lg.node_ids.len();
    let fwd_adj = build_forward_adjacency(lg, m, total);
    proof {
        assert(lg.edges@.take(m as int) =~= g0.edges@);
    }
    let mut ei: usize = 0;
    while ei < m
        invariant
            nesting_ready(&g0),
            m == g0.edges.len(),
            n == g0.node_ids.len(),
            cs == g0.compound_nodes@,
            total == lg.node_ids.len(),
            lg.wf(),
            hierarchy_ok(lg),
            border_nodes_added(&g0, lg),
            untouched_marks(&g0, lg),
            same_but_edges(&start, lg),
            forall|i: int| 0 <= i < n ==> #[trigger] lg.parents@[i] == g0.parents@[i],
            fwd_adj.len() == total,
            is_forward_adjacency(fwd_adj@, g0.edges@, lg.reversed_edges@),
            ei <= m,
            edges_appended(&g0, lg, base + exit_edges(&g0, ei as nat)),
        decreases m - ei,
    {
        let ghost cur = base + exit_edges(&g0, ei as nat);
        proof {
            assert(lg.edges@[ei as int] == g0.edges@[ei as int]);
            assert(exit_edges(&g0, ei as nat + 1) == exit_edges(&g0, ei as nat) + exit_edge(&g0, ei as int));
        }
        if !is_reversed(lg, ei) {
            let (from, to, _) = lg.edges[ei];
            proof {
                assert(from < n && to < n);
            }
            match lg.parents[from] {
                Some(c) => {
                    match compound_position(&lg.compound_nodes, c) {
                        Some(k) => {
                            proof {
                                lemma_compound_pos(cs, c);
                                lemma_border_entry(&g0, k as int);
                            }
                            if !is_descendant(lg, to, c) && to != c {
                                match lg.border_bottom.get(&c) {
                                    Some(b) => {
                                        let bot = *b;
                                        if !can_reach_compound(to, c, lg, &fwd_adj, Ghost(g0.edges@)) {
                                            proof {
                                                assert(exit_edge(&g0, ei as int) == seq![(bot, to, 0u64, 1i32)]);
                                            }
                                            push_nesting_edge(lg, bot, to, 0, 1, Ghost(g0), Ghost(cur));
                                            proof {
                                                assert(cur + exit_edge(&g0, ei as int) =~= cur.push((bot, to, 0u64, 1i32)));
                                                assert(base + exit_edges(&g0, ei as nat + 1) =~= cur + exit_edge(&g0, ei as int));
                                            }
                                        } else {
                                            proof {
                                                assert(exit_edge(&g0, ei as int) =~= Seq::empty());
                                                assert(base + exit_edges(&g0, ei as nat + 1) =~= cur);
                                            }
                                        }
                                    },
                                    None => {},
                                }
                            } else {
                                proof {
                                    assert(exit_edge(&g0, ei as int) =~= Seq::empty());
                                    assert(base + exit_edges(&g0, ei as nat + 1) =~= cur);
                                }
                            }
                        },
                        None => {
                            proof {
                                assert(exit_edge(&g0, ei as int) =~= Seq::empty());
                                assert(base + exit_edges(&g0, ei as nat + 1) =~= cur);
                            }
                        },
                    }
                },
                None => {
                    proof {
                        assert(exit_edge(&g0, ei as int) =~= Seq::empty());
                        assert(base + exit_edges(&g0, ei as nat + 1) =~= cur);
                    }
                },
            }
        } else {
            proof {
                assert(exit_edge(&g0, ei as int) =~= Seq::empty());
                assert(base + exit_edges(&g0, ei as nat + 1) =~= cur);
            }
        }
        ei = ei + 1;
    }
}

/// Node-side state once the nesting root exists as well.
pub open spec fn root_added(g0: &LayoutGraph, lg: &LayoutGraph) -> bool {
    let n = g0.node_ids.len() as int;
    let root = nesting_root_index(g0) as int;
    &&& lg.node_ids.len() == root + 1
    &&& forall|i: int| 0 <= i < n ==> #[trigger] lg.node_ids@[i] == g0.node_ids@[i]
    &&& forall|k: int|
        0 <= k < g0.compound_nodes.len() ==> (#[trigger] lg.node_ids@[n + 2 * k]).0@ == "_bt_"@
            + g0.node_ids@[g0.compound_nodes@[k] as int].0@
    &&& forall|k: int|
        0 <= k < g0.compound_nodes.len() ==> (#[trigger] lg.node_ids@[n + 2 * k + 1]).0@ == "_bb_"@
            + g0.node_ids@[g0.compound_nodes@[k] as int].0@
    &&& lg.node_ids@[root].0@ == "_nesting_root"@
    &&& lg.parents@ == parents_after_borders(g0).push(None)
    &&& lg.ranks@ == g0.ranks@ + Seq::new((root + 1 - n) as nat, |i: int| 0i32)
    &&& lg.compound_semantic_order@ == g0.compound_semantic_order@ + Seq::new(
        (root + 1 - n) as nat,
        |i: int| None::<usize>,
    )
    &&& lg.model_order@ == g0.model_order@ + Seq::new((root + 1 - n) as nat, |i: int| None::<usize>)
    &&& lg.order@ == g0.order@ + Seq::new((root + 1 - n) as nat, |i: int| 0usize)
    &&& lg.border_top@ == tops_after(g0)
    &&& lg.border_bottom@ == bottoms_after(g0)
    &&& lg.nesting_root == Some(root as usize)
}

/// Connect the nesting root to every top-level leaf and to the top border of
/// every top-level compound.
fn add_root_edges(
    lg: &mut LayoutGraph,
    root_idx: usize,
    n: usize,
    node_sep: i32,
    height: i32,
    depths: &HashMap<usize, i32>,
    Ghost(g0): Ghost<LayoutGraph>,
    Ghost(base): Ghost<Seq<NewEdge>>,
)
    requires
        nesting_ready(&g0),
        n == g0.node_ids.len(),
        root_idx == nesting_root_index(&g0),
        node_sep == nesting_node_sep(&g0),
        height == nesting_height(&g0),
        0 <= nesting_height(&g0) < n,
        old(lg).wf(),
        root_added(&g0, old(lg)),
        untouched_marks(&g0, old(lg)),
        edges_appended(&g0, old(lg), base),
        forall|x: usize|
            x < n ==> #[trigger] depths@.contains_key(x) && depths@[x] == node_depth(
                g0.parents@,
                x as int,
            ) as i32,
    ensures
        final(lg).wf(),
        same_but_edges(old(lg), final(lg)),
        edges_appended(
            &g0,
            final(lg),
            base + root_leaf_edges(&g0, n as nat) + root_compound_edges(&g0, g0.compound_nodes.len() as nat),
        ),
{
    let ghost start = *lg;
    let ghost cs = g0.compound_nodes@;
    proof {
        lemma_increasing_len(cs, n as nat);
    }
    let mut i: usize = 0;
    while i < n
        invariant
            nesting_ready(&g0),
            n == g0.node_ids.len(),
            root_idx == nesting_root_index(&g0),
            node_sep == nesting_node_sep(&g0),
            cs == g0.compound_nodes@,
            lg.wf(),
            root_added(&g0, lg),
            untouched_marks(&g0, lg),
            same_but_edges(&start, lg),
            i <= n,
            edges_appended(&g0, lg, base + root_leaf_edges(&g0, i as nat)),
        decreases n - i,
    {
        let ghost cur = base + root_leaf_edges(&g0, i as nat);
        proof {
            assert(lg.parents@[i as int] == g0.parents@[i as int]);
        }
        if lg.parents[i].is_none() && compound_position(&lg.compound_nodes, i).is_none() {
            push_nesting_edge(lg, root_idx, i, 0, node_sep, Ghost(g0), Ghost(cur));
            proof {
                assert(base + root_leaf_edges(&g0, i as nat + 1) =~= cur.push((root_idx, i, 0u64, node_sep)));
            }
        }
        i = i + 1;
    }
    let ghost mid = base + root_leaf_edges(&g0, n as nat);
    let count = lg.compound_nodes.len();
    let mut k: usize = 0;
    while k < count
        invariant
            nesting_ready(&g0),
            n == g0.node_ids.len(),
            root_idx == nesting_root_index(&g0),
            height == nesting_height(&g0),
            0 <= nesting_height(&g0) < n,
            cs == g0.compound_nodes@,
            count == cs.len(),
            count <= n,
            lg.wf(),
            root_added(&g0, lg),
            untouched_marks(&g0, lg),
            same_but_edges(&start, lg),
            k <= count,
            mid == base + root_leaf_edges(&g0, n as nat),
            edges_appended(&g0, lg, mid + root_compound_edges(&g0, k as nat)),
            forall|x: usize|
                x < n ==> #[trigger] depths@.contains_key(x) && depths@[x] == node_depth(
                    g0.parents@,
                    x as int,
                ) as i32,
        decreases count - k,
    {
        let ghost cur = mid + root_compound_edges(&g0, k as nat);
        let compound_idx = lg.compound_nodes[k];
        proof {
            assert(compound_idx < n);
            assert(lg.parents@[compound_idx as int] == g0.parents@[compound_idx as int]);
        }
        if lg.parents[compound_idx].is_none() {
            proof {
                lemma_border_entry(&g0, k as int);
                assert(depths@.contains_key(compound_idx));
                lemma_parent_depth(g0.parents@, compound_idx as int);
            }
            let top_idx = *lg.border_top.get(&compound_idx).unwrap();
            let minlen = height + depth_at(depths, compound_idx);
            push_nesting_edge(lg, root_idx, top_idx, 0, minlen, Ghost(g0), Ghost(cur));
            proof {
                assert(mid + root_compound_edges(&g0, k as nat + 1) =~= cur.push((root_idx, top_idx, 0u64, minlen)));
            }
        } else {
            proof {
                assert(mid + root_compound_edges(&g0, k as nat + 1) =~= cur);
            }
        }
        k = k + 1;
    }
    proof {
        assert(base + root_leaf_edges(&g0, n as nat) + root_compound_edges(&g0, count as nat) =~= mid
            + root_compound_edges(&g0, count as nat));
    }
}

/// Add nesting structure to the layout graph for compound nodes, with the
/// pipeline's default acyclic policy.
pub fn run(lg: &mut LayoutGraph)
    requires
        old(lg).compound_nodes.len() > 0 ==> nesting_ready(old(lg)),
    ensures
        old(lg).compound_nodes.len() == 0 ==> *final(lg) == *old(lg),
        old(lg).compound_nodes.len() > 0 ==> nesting_result(
            old(lg),
            final(lg),
            AcyclicPolicy::SemanticCompoundFeedback,
        ),
{
    run_with_policy(lg, AcyclicPolicy::default_policy());
}

/// Add nesting structure to the layout graph for compound nodes.
///
/// For each compound node it creates a top and a bottom border node and holds
/// every child between them with weighted nesting edges; under the semantic
/// compound-feedback policy it also constrains the targets of edges that leave
/// a compound to rank below its bottom border (unless they lead back into it).
/// Finally a nesting root is connected to every top-level node. All existing
/// minimum lengths are scaled by the node separation `2 * height + 1`.
/// A graph without compounds is left unchanged.
pub fn run_with_policy(lg: &mut LayoutGraph, acyclic_policy: AcyclicPolicy)
    requires
        old(lg).compound_nodes.len() > 0 ==> nesting_ready(old(lg)),
    ensures
        old(lg).compound_nodes.len() == 0 ==> *final(lg) == *old(lg),
        old(lg).compound_nodes.len() > 0 ==> nesting_result(old(lg), final(lg), acyclic_policy),
{
    if lg.compound_nodes.len() == 0 {
        return;
    }
    let ghost g0 = *lg;
    let ghost cs = g0.compound_nodes@;
    let depths = tree_depths(lg);
    let n = lg.node_count();

    // Deepest level of the hierarchy (1 for a flat graph).
    let mut max_depth: i32 = 1;
    let mut i: usize = 0;
    while i < n
        invariant
            hierarchy_ok(&g0),
            n == g0.node_ids.len(),
            i <= n,
            max_depth == max_depth_upto(g0.parents@, i as nat),
            forall|x: usize| #[trigger] depths@.contains_key(x) <==> x < n,
            forall|x: usize| x < n ==> #[trigger] depths@[x] == node_depth(g0.parents@, x as int) as i32,
        decreases n - i,
    {
        proof {
            lemma_parent_depth(g0.parents@, i as int);
            lemma_max_depth(g0.parents@, i as nat);
            assert(depths@.contains_key(i));
        }
        let d = depth_at(&depths, i);
        if d > max_depth {
            max_depth = d;
        }
        i = i + 1;
    }
    proof {
        lemma_max_depth(g0.parents@, n as nat);
    }
    let height = max_depth - 1;
    let node_sep = if height > 0 {
        2 * height + 1
    } else {
        1
    };
    lg.node_rank_factor = Some(node_sep);

    // Multiply all existing minimum lengths by the node separation.
    let orig_edge_count = lg.edges.len();
    let mut scaled: Vec<i32> = Vec::new();
    let mut e: usize = 0;
    while e < orig_edge_count
        invariant
            nesting_ready(&g0),
            orig_edge_count == g0.edge_minlens.len(),
            lg.edge_minlens == g0.edge_minlens,
            node_sep == nesting_node_sep(&g0),
            e <= orig_edge_count,
            scaled@ == scaled_minlens(&g0).take(e as int),
        decreases orig_edge_count - e,
    {
        proof {
            assert(i32::MIN <= g0.edge_minlens@[e as int] * nesting_node_sep(&g0) <= i32::MAX);
        }
        scaled.push(lg.edge_minlens[e] * node_sep);
        proof {
            assert(scaled@ =~= scaled_minlens(&g0).take(e as int + 1));
        }
        e = e + 1;
    }
    proof {
        assert(scaled@ =~= scaled_minlens(&g0));
    }
    lg.edge_minlens = scaled;
    proof {
        assert(edges_with(g0.edges@, Seq::empty()) =~= g0.edges@);
        assert(g0.edge_weights@ + weights_of(Seq::empty()) =~= g0.edge_weights@);
        assert(scaled_minlens(&g0) + minlens_of(Seq::empty()) =~= scaled_minlens(&g0));
        assert(g0.nesting_edges@.union(index_range(g0.edges.len() as nat, g0.edges.len() as nat))
            =~= g0.nesting_edges@);
    }

    // Border top/bottom nodes, then the edges that hold children between them.
    add_border_nodes(lg, Ghost(g0));
    add_child_nesting_edges(lg, &depths, n, height, Ghost(g0));
    let ghost after_children = compound_edges(&g0, cs.len() as nat);

    // Exit constraints for forward edges that leave a compound.
    if matches!(acyclic_policy, AcyclicPolicy::SemanticCompoundFeedback) {
        add_exit_constraints(lg, orig_edge_count, Ghost(g0), Ghost(after_children));
    } else {
        proof {
            assert(after_children + Seq::empty() =~= after_children);
        }
    }
    let ghost base = after_children + (if acyclic_policy == AcyclicPolicy::SemanticCompoundFeedback {
        exit_edges(&g0, g0.edges.len() as nat)
    } else {
        Seq::empty()
    });

    // The nesting root, connected to every top-level node.
    proof {
        lemma_increasing_len(cs, n as nat);
    }
    let root_idx = lg.add_nesting_node(NodeId(String::from_str("_nesting_root")));
    lg.nesting_root = Some(root_idx);
    proof {
        let nc = cs.len() as int;
        assert(lg.ranks@ =~= g0.ranks@ + Seq::new((2 * nc + 1) as nat, |i: int| 0i32));
        assert(lg.compound_semantic_order@ =~= g0.compound_semantic_order@ + Seq::new(
            (2 * nc + 1) as nat,
            |i: int| None::<usize>,
        ));
        assert(lg.model_order@ =~= g0.model_order@ + Seq::new((2 * nc + 1) as nat, |i: int| None::<usize>));
        assert(lg.order@ =~= g0.order@ + Seq::new((2 * nc + 1) as nat, |i: int| 0usize));
        assert forall|k: int| 0 <= k < nc implies (#[trigger] lg.node_ids@[n + 2 * k]).0@ == "_bt_"@
            + g0.node_ids@[cs[k] as int].0@ by {
            assert(lg.node_ids@[n + 2 * k] == lg.node_ids@.drop_last()[n + 2 * k]);
        }
        assert forall|k: int| 0 <= k < nc implies (#[trigger] lg.node_ids@[n + 2 * k + 1]).0@ == "_bb_"@
            + g0.node_ids@[cs[k] as int].0@ by {
            assert(lg.node_ids@[n + 2 * k + 1] == lg.node_ids@.drop_last()[n + 2 * k + 1]);
        }
        assert(root_added(&g0, lg));
    }
    add_root_edges(lg, root_idx, n, node_sep, height, &depths, Ghost(g0), Ghost(base));
}

/// Edge weights once every nesting edge is zeroed.
pub open spec fn weights_without_nesting(g: &LayoutGraph) -> Seq<u64> {
    Seq::new(
        g.edge_weights.len() as nat,
        |e: int|
            if g.nesting_edges@.contains(e as usize) {
                0u64
            } else {
                g.edge_weights@[e]
            },
    )
}

/// `b` is `a` after cleanup: nesting edges zeroed and excluded, the set of
/// nesting edges emptied, the nesting root excluded from positioning and
/// forgotten; everything else unchanged.
pub open spec fn cleanup_result(a: &LayoutGraph, b: &LayoutGraph) -> bool {
    &&& b.edge_weights@ == weights_without_nesting(a)
    &&& b.excluded_edges@ == a.excluded_edges@.union(a.nesting_edges@)
    &&& b.nesting_edges@ == Set::<usize>::empty()
    &&& b.position_excluded_nodes@ == (match a.nesting_root {
        Some(r) => a.position_excluded_nodes@.insert(r),
        None => a.position_excluded_nodes@,
    })
    &&& b.nesting_root is None
    &&& b.node_ids == a.node_ids
    &&& b.edges == a.edges
    &&& b.edge_minlens == a.edge_minlens
    &&& b.parents == a.parents
    &&& b.ranks == a.ranks
    &&& b.compound_semantic_order == a.compound_semantic_order
    &&& b.model_order == a.model_order
    &&& b.order == a.order
    &&& b.compound_nodes == a.compound_nodes
    &&& b.compound_titles == a.compound_titles
    &&& b.reversed_edges == a.reversed_edges
    &&& b.border_top == a.border_top
    &&& b.border_bottom == a.border_bottom
    &&& b.border_title == a.border_title
    &&& b.node_rank_factor == a.node_rank_factor
    &&& b.min_rank == a.min_rank
    &&& b.max_rank == a.max_rank
    &&& b.dummy_chains == a.dummy_chains
    &&& b.dummy_nodes == a.dummy_nodes
}

/// Remove nesting edges and root node after ranking.
///
/// Nesting edges stay in the edge list (indices are stable) but get weight 0
/// and are marked excluded, the set of nesting edges is emptied, and the
/// nesting root, if any, is excluded from positioning and forgotten. Border
/// top/bottom nodes remain for `assign_rank_minmax`.
pub fn cleanup(lg: &mut LayoutGraph)
    requires
        old(lg).wf(),
    ensures
        final(lg).wf(),
        cleanup_result(old(lg), final(lg)),
{
    broadcast use vstd::std_specs::hash::group_hash_axioms;

    let ghost g0 = *lg;
    let m = lg.edges.len();
    let mut e: usize = 0;
    while e < m
        invariant
            g0.wf(),
            m == g0.edges.len(),
            e <= m,
            lg.node_ids == g0.node_ids,
            lg.edges == g0.edges,
            lg.edge_minlens == g0.edge_minlens,
            lg.parents == g0.parents,
            lg.ranks == g0.ranks,
            lg.compound_semantic_order == g0.compound_semantic_order,
            lg.model_order == g0.model_order,
            lg.order == g0.order,
            lg.compound_nodes == g0.compound_nodes,
            lg.compound_titles == g0.compound_titles,
            lg.reversed_edges == g0.reversed_edges,
            lg.nesting_edges == g0.nesting_edges,
            lg.position_excluded_nodes == g0.position_excluded_nodes,
            lg.border_top == g0.border_top,
            lg.border_bottom == g0.border_bottom,
            lg.border_title == g0.border_title,
            lg.nesting_root == g0.nesting_root,
            lg.node_rank_factor == g0.node_rank_factor,
            lg.min_rank == g0.min_rank,
            lg.max_rank == g0.max_rank,
            lg.dummy_chains == g0.dummy_chains,
            lg.dummy_nodes == g0.dummy_nodes,
            lg.edge_weights.len() == m,
            forall|j: int| 0 <= j < e ==> #[trigger] lg.edge_weights@[j] == weights_without_nesting(&g0)[j],
            forall|j: int| e <= j < m ==> #[trigger] lg.edge_weights@[j] == g0.edge_weights@[j],
            lg.excluded_edges@ == g0.excluded_edges@.union(
                g0.nesting_edges@.intersect(Set::new(|x: usize| x < e)),
            ),
        decreases m - e,
    {
        if lg.nesting_edges.contains(&e) {
            lg.edge_weights.set(e, 0);
            lg.excluded_edges.insert(e);
        }
        proof {
            assert(lg.excluded_edges@ =~= g0.excluded_edges@.union(
                g0.nesting_edges@.intersect(Set::new(|x: usize| x < e + 1)),
            ));
        }
        e = e + 1;
    }
    proof {
        assert(g0.nesting_edges@.intersect(Set::new(|x: usize| x < m)) =~= g0.nesting_edges@);
        assert(lg.edge_weights@ =~= weights_without_nesting(&g0));
    }
    lg.nesting_edges.clear();
    if let Some(root_idx) = lg.nesting_root {
        lg.position_excluded_nodes.insert(root_idx);
    }
    lg.nesting_root = None;
}

/// The rank a compound's span starts at: its top border, else its title.
pub open spec fn min_rank_entry(g: &LayoutGraph, c: usize) -> Option<i32> {
    if g.border_top@.contains_key(c) {
        Some(g.ranks@[g.border_top@[c] as int])
    } else if g.border_title@.contains_key(c) {
        Some(g.ranks@[g.border_title@[c] as int])
    } else {
        None
    }
}

/// The rank a compound's span ends at: its bottom border.
pub open spec fn max_rank_entry(g: &LayoutGraph, c: usize) -> Option<i32> {
    if g.border_bottom@.contains_key(c) {
        Some(g.ranks@[g.border_bottom@[c] as int])
    } else {
        None
    }
}

/// `base` overwritten, for every compound in `cs` with an entry, by that entry.
pub open spec fn span_map(
    base: Map<usize, i32>,
    cs: Seq<usize>,
    entry: spec_fn(usize) -> Option<i32>,
) -> Map<usize, i32> {
    Map::new(
        |c: usize| base.contains_key(c) || (cs.contains(c) && entry(c) is Some),
        |c: usize|
            if cs.contains(c) && entry(c) is Some {
                entry(c)->Some_0
            } else {
                base[c]
            },
    )
}

/// Compute min_rank and max_rank for each compound node from border node ranks.
///
/// A compound's minimum rank is the rank of its top border (or, without one,
/// of its title node); its maximum rank is the rank of its bottom border.
/// Compounds without such nodes keep their previous entries.
pub fn assign_rank_minmax(lg: &mut LayoutGraph)
    requires
        old(lg).wf(),
    ensures
        final(lg).wf(),
        final(lg).min_rank@ == span_map(
            old(lg).min_rank@,
            old(lg).compound_nodes@,
            |c: usize| min_rank_entry(old(lg), c),
        ),
        final(lg).max_rank@ == span_map(
            old(lg).max_rank@,
            old(lg).compound_nodes@,
            |c: usize| max_rank_entry(old(lg), c),
        ),
        final(lg).node_ids == old(lg).node_ids,
        final(lg).edges == old(lg).edges,
        final(lg).edge_weights == old(lg).edge_weights,
        final(lg).edge_minlens == old(lg).edge_minlens,
        final(lg).parents == old(lg).parents,
        final(lg).ranks == old(lg).ranks,
        final(lg).compound_semantic_order == old(lg).compound_semantic_order,
        final(lg).model_order == old(lg).model_order,
        final(lg).order == old(lg).order,
        final(lg).compound_nodes == old(lg).compound_nodes,
        final(lg).compound_titles == old(lg).compound_titles,
        final(lg).reversed_edges == old(lg).reversed_edges,
        final(lg).nesting_edges == old(lg).nesting_edges,
        final(lg).excluded_edges == old(lg).excluded_edges,
        final(lg).position_excluded_nodes == old(lg).position_excluded_nodes,
        final(lg).border_top == old(lg).border_top,
        final(lg).border_bottom == old(lg).border_bottom,
        final(lg).border_title == old(lg).border_title,
        final(lg).nesting_root == old(lg).nesting_root,
        final(lg).node_rank_factor == old(lg).node_rank_factor,
        final(lg).dummy_chains == old(lg).dummy_chains,
        final(lg).dummy_nodes == old(lg).dummy_nodes,
{
    broadcast use vstd::std_specs::hash::group_hash_axioms;

    let ghost g0 = *lg;
    let count = lg.compound_nodes.len();
    let mut k: usize = 0;
    while k < count
        invariant
            g0.wf(),
            count == g0.compound_nodes.len(),
            k <= count,
            lg.node_ids == g0.node_ids,
            lg.edges == g0.edges,
            lg.edge_weights == g0.edge_weights,
            lg.edge_minlens == g0.edge_minlens,
            lg.parents == g0.parents,
            lg.ranks == g0.ranks,
            lg.compound_semantic_order == g0.compound_semantic_order,
            lg.model_order == g0.model_order,
            lg.order == g0.order,
            lg.compound_nodes == g0.compound_nodes,
            lg.compound_titles == g0.compound_titles,
            lg.reversed_edges == g0.reversed_edges,
            lg.nesting_edges == g0.nesting_edges,
            lg.excluded_edges == g0.excluded_edges,
            lg.position_excluded_nodes == g0.position_excluded_nodes,
            lg.nesting_root == g0.nesting_root,
            lg.node_rank_factor == g0.node_rank_factor,
            lg.border_top == g0.border_top,
            lg.border_bottom == g0.border_bottom,
            lg.border_title == g0.border_title,
            lg.dummy_chains == g0.dummy_chains,
            lg.dummy_nodes == g0.dummy_nodes,
            lg.min_rank@ == span_map(g0.min_rank@, g0.compound_nodes@.take(k as int), |c: usize| min_rank_entry(&g0, c)),
            lg.max_rank@ == span_map(g0.max_rank@, g0.compound_nodes@.take(k as int), |c: usize| max_rank_entry(&g0, c)),
        decreases count - k,
    {
        let compound_idx = lg.compound_nodes[k];
        let ghost prev = g0.compound_nodes@.take(k as int);
        let ghost next = g0.compound_nodes@.take(k as int + 1);
        proof {
            assert(next =~= prev.push(compound_idx));
            assert forall|c: usize| #[trigger] next.contains(c) <==> prev.contains(c) || c == compound_idx by {
                if next.contains(c) && c != compound_idx {
                    let j = choose|j: int| 0 <= j < next.len() && next[j] == c;
                    assert(prev[j] == c);
                }
                if prev.contains(c) {
                    let j = choose|j: int| 0 <= j < prev.len() && prev[j] == c;
                    assert(next[j] == c);
                }
                if c == compound_idx {
                    assert(next[k as int] == c);
                }
            }
        }
        match lg.border_top.get(&compound_idx) {
            Some(top) => {
                let r = lg.ranks[*top];
                lg.min_rank.insert(compound_idx, r);
            },
            None => {
                match lg.border_title.get(&compound_idx) {
                    Some(title) => {
                        let r = lg.ranks[*title];
                        lg.min_rank.insert(compound_idx, r);
                    },
                    None => {},
                }
            },
        }
        match lg.border_bottom.get(&compound_idx) {
            Some(bot) => {
                let r = lg.ranks[*bot];
                lg.max_rank.insert(compound_idx, r);
            },
            None => {},
        }
        proof {
            assert(lg.min_rank@ =~= span_map(g0.min_rank@, next, |c: usize| min_rank_entry(&g0, c)));
            assert(lg.max_rank@ =~= span_map(g0.max_rank@, next, |c: usize| max_rank_entry(&g0, c)));
        }
        k = k + 1;
    }
    proof {
        assert(g0.compound_nodes@.take(count as int) =~= g0.compound_nodes@);
    }
}

/// `base` with the first `k` titled compounds mapped to the title nodes `n + j`.
pub open spec fn title_map(base: Map<usize, usize>, titles: Seq<usize>, n: nat, k: nat) -> Map<
    usize,
    usize,
>
    decreases k,
{
    if k == 0 || k > titles.len() {
        base
    } else {
        title_map(base, titles, n, (k - 1) as nat).insert(titles[k - 1], (n + k - 1) as usize)
    }
}

/// What `insert_title_nodes` needs: every titled compound has a top border
/// whose rank can be decremented, and there is room for the new nodes.
pub open spec fn titles_ready(g: &LayoutGraph) -> bool {
    &&& g.wf()
    &&& g.node_ids.len() + g.compound_titles.len() < usize::MAX
    &&& forall|t: int|
        0 <= t < g.compound_titles.len() ==> #[trigger] g.border_top@.contains_key(g.compound_titles@[t])
            && g.ranks@[g.border_top@[g.compound_titles@[t]] as int] > i32::MIN
}

/// Insert title dummy nodes at correct ranks after ranking is complete.
///
/// For each titled compound (in order) a node `_tt_<id>` is appended at one rank
/// above the compound's top border, as a child of the compound, excluded from
/// positioning, and linked to the top border by a weight-0 edge of minimum
/// length 1 that is not a nesting edge (it survives cleanup).
pub fn insert_title_nodes(lg: &mut LayoutGraph)
    requires
        titles_ready(old(lg)),
    ensures
        final(lg).wf(),
        ({
            let g = old(lg);
            let n = g.node_ids.len() as int;
            let m = g.edges.len() as int;
            let ts = g.compound_titles@;
            let t = ts.len() as int;
            &&& final(lg).node_ids.len() == n + t
            &&& forall|i: int| 0 <= i < n ==> #[trigger] final(lg).node_ids@[i] == g.node_ids@[i]
            &&& forall|j: int|
                0 <= j < t ==> (#[trigger] final(lg).node_ids@[n + j]).0@ == "_tt_"@ + g.node_ids@[ts[j] as int].0@
            &&& final(lg).parents@ == g.parents@ + Seq::new(t as nat, |j: int| Some(ts[j]))
            &&& final(lg).ranks@ == g.ranks@ + Seq::new(
                t as nat,
                |j: int| (g.ranks@[g.border_top@[ts[j]] as int] - 1) as i32,
            )
            &&& final(lg).compound_semantic_order@ == g.compound_semantic_order@ + Seq::new(
                t as nat,
                |j: int| None::<usize>,
            )
            &&& final(lg).model_order@ == g.model_order@ + Seq::new(t as nat, |j: int| None::<usize>)
            &&& final(lg).order@ == g.order@ + Seq::new(t as nat, |j: int| 0usize)
            &&& final(lg).border_title@ == title_map(g.border_title@, ts, n as nat, t as nat)
            &&& final(lg).position_excluded_nodes@ == g.position_excluded_nodes@.union(
                index_range(n as nat, (n + t) as nat),
            )
            &&& final(lg).edges@ == g.edges@ + Seq::new(
                t as nat,
                |j: int| ((n + j) as usize, g.border_top@[ts[j]], (m + j) as usize),
            )
            &&& final(lg).edge_weights@ == g.edge_weights@ + Seq::new(t as nat, |j: int| 0u64)
            &&& final(lg).edge_minlens@ == g.edge_minlens@ + Seq::new(t as nat, |j: int| 1i32)
        }),
        final(lg).compound_nodes == old(lg).compound_nodes,
        final(lg).compound_titles == old(lg).compound_titles,
        final(lg).reversed_edges == old(lg).reversed_edges,
        final(lg).nesting_edges == old(lg).nesting_edges,
        final(lg).excluded_edges == old(lg).excluded_edges,
        final(lg).border_top == old(lg).border_top,
        final(lg).border_bottom == old(lg).border_bottom,
        final(lg).nesting_root == old(lg).nesting_root,
        final(lg).node_rank_factor == old(lg).node_rank_factor,
        final(lg).min_rank == old(lg).min_rank,
        final(lg).max_rank == old(lg).max_rank,
        final(lg).dummy_chains == old(lg).dummy_chains,
        final(lg).dummy_nodes == old(lg).dummy_nodes,
{
    broadcast use vstd::std_specs::hash::group_hash_axioms;

    let ghost g = *lg;
    let ghost n = g.node_ids.len() as int;
    let ghost m = g.edges.len() as int;
    let ghost ts = g.compound_titles@;
    let count = lg.compound_titles.len();
    let mut k: usize = 0;
    while k < count
        invariant
            titles_ready(&g),
            n == g.node_ids.len(),
            m == g.edges.len(),
            ts == g.compound_titles@,
            count == ts.len(),
            k <= count,
            lg.wf(),
            lg.node_ids.len() == n + k,
            forall|i: int| 0 <= i < n ==> #[trigger] lg.node_ids@[i] == g.node_ids@[i],
            forall|j: int|
                0 <= j < k ==> (#[trigger] lg.node_ids@[n + j]).0@ == "_tt_"@ + g.node_ids@[ts[j] as int].0@,
            lg.parents@ == g.parents@ + Seq::new(k as nat, |j: int| Some(ts[j])),
            lg.ranks@ == g.ranks@ + Seq::new(
                k as nat,
                |j: int| (g.ranks@[g.border_top@[ts[j]] as int] - 1) as i32,
            ),
            lg.compound_semantic_order@ == g.compound_semantic_order@ + Seq::new(
                k as nat,
                |j: int| None::<usize>,
            ),
            lg.model_order@ == g.model_order@ + Seq::new(k as nat, |j: int| None::<usize>),
            lg.order@ == g.order@ + Seq::new(k as nat, |j: int| 0usize),
            lg.border_title@ == title_map(g.border_title@, ts, n as nat, k as nat),
            lg.position_excluded_nodes@ == g.position_excluded_nodes@.union(
                index_range(n as nat, (n + k) as nat),
            ),
            lg.edges@ == g.edges@ + Seq::new(
                k as nat,
                |j: int| ((n + j) as usize, g.border_top@[ts[j]], (m + j) as usize),
            ),
            lg.edge_weights@ == g.edge_weights@ + Seq::new(k as nat, |j: int| 0u64),
            lg.edge_minlens@ == g.edge_minlens@ + Seq::new(k as nat, |j: int| 1i32),
            lg.compound_nodes == g.compound_nodes,
            lg.compound_titles == g.compound_titles,
            lg.reversed_edges == g.reversed_edges,
            lg.nesting_edges == g.nesting_edges,
            lg.excluded_edges == g.excluded_edges,
            lg.border_top == g.border_top,
            lg.border_bottom == g.border_bottom,
            lg.nesting_root == g.nesting_root,
            lg.node_rank_factor == g.node_rank_factor,
            lg.min_rank == g.min_rank,
            lg.max_rank == g.max_rank,
            lg.dummy_chains == g.dummy_chains,
            lg.dummy_nodes == g.dummy_nodes,
        decreases count - k,
    {
        let compound_idx = lg.compound_titles[k];
        proof {
            assert(g.border_top@.contains_key(ts[k as int]));
            assert(compound_idx < n);
        }
        let compound_id = lg.node_ids[compound_idx].0.clone();
        let bt_idx = *lg.border_top.get(&compound_idx).unwrap();
        proof {
            assert(bt_idx < n);
            assert(lg.ranks@[bt_idx as int] == g.ranks@[bt_idx as int]);
        }
        let title_rank = lg.ranks[bt_idx] - 1;
        let ghost before = *lg;

        let title_id = NodeId(String::from_str("_tt_").concat(compound_id.as_str()));
        let title_idx = lg.add_nesting_node(title_id);
        lg.ranks.set(title_idx, title_rank);
        lg.parents.set(title_idx, Some(compound_idx));
        lg.border_title.insert(compound_idx, title_idx);
        lg.position_excluded_nodes.insert(title_idx);
        lg.add_nesting_edge(title_idx, bt_idx, 0);

        proof {
            let k1 = (k + 1) as nat;
            assert(lg.parents@ =~= g.parents@ + Seq::new(k1, |j: int| Some(ts[j])));
            assert(lg.ranks@ =~= g.ranks@ + Seq::new(
                k1,
                |j: int| (g.ranks@[g.border_top@[ts[j]] as int] - 1) as i32,
            ));
            assert(lg.compound_semantic_order@ =~= g.compound_semantic_order@ + Seq::new(
                k1,
                |j: int| None::<usize>,
            ));
            assert(lg.model_order@ =~= g.model_order@ + Seq::new(k1, |j: int| None::<usize>));
            assert(lg.order@ =~= g.order@ + Seq::new(k1, |j: int| 0usize));
            assert(lg.position_excluded_nodes@ =~= g.position_excluded_nodes@.union(
                index_range(n as nat, (n + k1) as nat),
            ));
            assert(lg.edges@ =~= g.edges@ + Seq::new(
                k1,
                |j: int| ((n + j) as usize, g.border_top@[ts[j]], (m + j) as usize),
            ));
            assert(lg.edge_weights@ =~= g.edge_weights@ + Seq::new(k1, |j: int| 0u64));
            assert(lg.edge_minlens@ =~= g.edge_minlens@ + Seq::new(k1, |j: int| 1i32));
            assert forall|j: int|
                0 <= j < k1 implies (#[trigger] lg.node_ids@[n + j]).0@ == "_tt_"@ + g.node_ids@[ts[j] as int].0@ by {
                if j < k {
                    assert(lg.node_ids@[n + j] == before.node_ids@[n + j]);
                }
            }
        }
        k = k + 1;
    }
}

proof fn lemma_child_edges_at(g: &LayoutGraph, k: int, xs: Seq<usize>, t: int)
    requires
        0 <= t < xs.len(),
    ensures
        child_edges(g, k, xs).len() == 2 * xs.len(),
        child_edges(g, k, xs)[2 * t] == child_pair(g, k, xs[t])[0],
        child_edges(g, k, xs)[2 * t + 1] == child_pair(g, k, xs[t])[1],
    decreases xs.len(),
{
    lemma_child_edges_len(g, k, xs.drop_last());
    if t < xs.len() - 1 {
        lemma_child_edges_at(g, k, xs.drop_last(), t);
        assert(xs.drop_last()[t] == xs[t]);
    }
}

proof fn lemma_child_edges_len(g: &LayoutGraph, k: int, xs: Seq<usize>)
    ensures
        child_edges(g, k, xs).len() == 2 * xs.len(),
    decreases xs.len(),
{
    if xs.len() > 0 {
        lemma_child_edges_len(g, k, xs.drop_last());
    }
}

/// Longer prefixes of the compound edge list extend shorter ones.
proof fn lemma_compound_edges_prefix(g: &LayoutGraph, a: nat, b: nat, j: int)
    requires
        a <= b <= g.compound_nodes.len(),
        0 <= j < compound_edges(g, a).len(),
    ensures
        j < compound_edges(g, b).len(),
        compound_edges(g, b)[j] == compound_edges(g, a)[j],
    decreases b,
{
    if b > a {
        lemma_compound_edges_prefix(g, a, (b - 1) as nat, j);
    }
}

/// A node whose parent is `c` is listed among the children of `c`.
proof fn lemma_child_listed(parents: Seq<Option<usize>>, c: usize, k: nat, x: usize)
    requires
        x < k <= parents.len(),
        parents[x as int] == Some(c),
    ensures
        children_upto(parents, c, k).contains(x),
    decreases k,
{
    if x < k - 1 {
        lemma_child_listed(parents, c, (k - 1) as nat, x);
        let prev = children_upto(parents, c, (k - 1) as nat);
        let t = choose|t: int| 0 <= t < prev.len() && #[trigger] prev[t] == x;
        assert(children_upto(parents, c, k)[t] == x);
    } else {
        let prev = children_upto(parents, c, (k - 1) as nat);
        assert(children_upto(parents, c, k)[prev.len() as int] == x);
    }
}

/// The nesting phase holds every child of a compound between the compound's
/// border nodes: it appends, as nesting edges, an edge from the compound's top
/// border to the child (or to the child's own top border when the child is a
/// compound) and an edge from the child (or its bottom border) to the
/// compound's bottom border, with the weights and minimum lengths of
/// `child_pair`.
pub proof fn law_children_between_borders(
    g0: &LayoutGraph,
    lg: &LayoutGraph,
    policy: AcyclicPolicy,
    k: int,
    x: usize,
)
    requires
        g0.wf(),
        nesting_result(g0, lg, policy),
        0 <= k < g0.compound_nodes.len(),
        x < g0.node_ids.len(),
        g0.parents@[x as int] == Some(g0.compound_nodes@[k]),
    ensures
        exists|e: int|
            #![trigger lg.edges@[e]]
            g0.edges.len() <= e && e + 1 < lg.edges.len() && lg.nesting_edges@.contains(e as usize)
                && lg.nesting_edges@.contains((e + 1) as usize) && lg.edges@[e].0 == child_pair(g0, k, x)[0].0
                && lg.edges@[e].1 == child_pair(g0, k, x)[0].1 && lg.edge_weights@[e] == child_pair(g0, k, x)[0].2
                && lg.edge_minlens@[e] == child_pair(g0, k, x)[0].3 && lg.edges@[e + 1].0 == child_pair(g0, k, x)[1].0
                && lg.edges@[e + 1].1 == child_pair(g0, k, x)[1].1 && lg.edge_weights@[e + 1] == child_pair(g0, k, x)[1].2
                && lg.edge_minlens@[e + 1] == child_pair(g0, k, x)[1].3,
{
    let n = g0.node_ids.len() as nat;
    let m = g0.edges.len() as int;
    let c = g0.compound_nodes@[k];
    let nc = g0.compound_nodes.len() as nat;
    let xs = children_upto(g0.parents@, c, n);
    lemma_child_listed(g0.parents@, c, n, x);
    let t = choose|t: int| 0 <= t < xs.len() && xs[t] == x;
    lemma_child_edges_at(g0, k, xs, t);
    let before = compound_edges(g0, k as nat);
    let upto = compound_edges(g0, (k + 1) as nat);
    assert(upto == before + child_edges(g0, k, xs));
    let j = before.len() + 2 * t;
    assert(upto[j] == child_pair(g0, k, x)[0]);
    assert(upto[j + 1] == child_pair(g0, k, x)[1]);
    lemma_compound_edges_prefix(g0, (k + 1) as nat, nc, j);
    lemma_compound_edges_prefix(g0, (k + 1) as nat, nc, j + 1);
    let new = nesting_new_edges(g0, policy);
    let all = compound_edges(g0, nc);
    assert(new[j] == all[j]);
    assert(new[j + 1] == all[j + 1]);
    let e = m + j;
    assert(lg.edges@[e] == edges_with(g0.edges@, new)[e]);
    assert(lg.edges@[e + 1] == edges_with(g0.edges@, new)[e + 1]);
    assert(lg.edge_weights@[e] == (g0.edge_weights@ + weights_of(new))[e]);
    assert(lg.edge_weights@[e + 1] == (g0.edge_weights@ + weights_of(new))[e + 1]);
    assert(lg.edge_minlens@[e] == (scaled_minlens(g0) + minlens_of(new))[e]);
    assert(lg.edge_minlens@[e + 1] == (scaled_minlens(g0) + minlens_of(new))[e + 1]);
    assert(index_range(m as nat, (m + new.len()) as nat).contains(e as usize));
    assert(index_range(m as nat, (m + new.len()) as nat).contains((e + 1) as usize));
    assert(lg.edges@[e].0 == child_pair(g0, k, x)[0].0);
}

/// Cleanup undoes the ranking role of everything the nesting phase added:
/// after `run_with_policy` and then `cleanup`, every appended edge is excluded
/// and has weight 0, the original edges keep their weights unless they were
/// already nesting edges, the nesting root is excluded from positioning, and
/// the border nodes stay.
pub proof fn law_cleanup_undoes_nesting(g0: &LayoutGraph, g1: &LayoutGraph, g2: &LayoutGraph, policy: AcyclicPolicy)
    requires
        g0.wf(),
        nesting_result(g0, g1, policy),
        cleanup_result(g1, g2),
    ensures
        forall|e: int|
            g0.edges.len() <= e < g2.edges.len() ==> g2.excluded_edges@.contains(e as usize)
                && #[trigger] g2.edge_weights@[e] == 0,
        forall|e: int|
            0 <= e < g0.edges.len() && !g0.nesting_edges@.contains(e as usize) ==> #[trigger] g2.edge_weights@[e]
                == g0.edge_weights@[e],
        g2.position_excluded_nodes@.contains(nesting_root_index(g0) as usize),
        g2.nesting_root is None,
        g2.node_ids == g1.node_ids,
        g2.border_top == g1.border_top,
        g2.border_bottom == g1.border_bottom,
{
    let m = g0.edges.len() as int;
    let new = nesting_new_edges(g0, policy);
    assert forall|e: int| m <= e < g2.edges.len() implies g2.excluded_edges@.contains(e as usize)
        && #[trigger] g2.edge_weights@[e] == 0 by {
        assert(index_range(m as nat, (m + new.len()) as nat).contains(e as usize));
        assert(g1.nesting_edges@.contains(e as usize));
    }
    assert forall|e: int| 0 <= e < m && !g0.nesting_edges@.contains(e as usize) implies #[trigger] g2.edge_weights@[e]
        == g0.edge_weights@[e] by {
        assert(!index_range(m as nat, (m + new.len()) as nat).contains(e as usize));
        assert(!g1.nesting_edges@.contains(e as usize));
        assert(g1.edge_weights@[e] == (g0.edge_weights@ + weights_of(new))[e]);
    }
}

} // verus!
