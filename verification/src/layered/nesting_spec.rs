//! What the nesting phase builds, stated over the graph it starts from.
//!
//! For a graph `g` with `n` nodes, `m` edges and compounds `cs` (increasing),
//! the phase appends border nodes `n + 2k` (top) and `n + 2k + 1` (bottom) for
//! compound `cs[k]`, then the nesting root `n + 2 * cs.len()`, and appends the
//! edges `nesting_new_edges(g, policy)`.

use vstd::prelude::*;

use super::graph::{node_depth, LayoutGraph, AcyclicPolicy};
use super::hierarchy::is_descendant_of;

verus! {

/// An appended edge: from, to, weight, minimum length.
pub type NewEdge = (usize, usize, u64, i32);

/// Position of `c` in `cs`, if present.
pub open spec fn compound_pos(cs: Seq<usize>, c: usize) -> Option<nat>
    decreases cs.len(),
{
    if cs.len() == 0 {
        None
    } else {
        match compound_pos(cs.drop_last(), c) {
            Some(k) => Some(k),
            None => if cs.last() == c {
                Some((cs.len() - 1) as nat)
            } else {
                None
            },
        }
    }
}

/// Largest depth among the first `k` nodes (at least 1).
pub open spec fn max_depth_upto(parents: Seq<Option<usize>>, k: nat) -> nat
    decreases k,
{
    if k == 0 {
        1
    } else {
        let prev = max_depth_upto(parents, (k - 1) as nat);
        let d = node_depth(parents, k - 1);
        if d > prev {
            d
        } else {
            prev
        }
    }
}

/// Height of the compound hierarchy: deepest level minus one.
pub open spec fn nesting_height(g: &LayoutGraph) -> int {
    max_depth_upto(g.parents@, g.node_ids.len() as nat) - 1
}

/// Rank separation factor: `2 * height + 1`, or 1 for a flat hierarchy.
pub open spec fn nesting_node_sep(g: &LayoutGraph) -> int {
    let h = nesting_height(g);
    if h > 0 {
        2 * h + 1
    } else {
        1
    }
}

/// `base` with the first `k` compounds mapped to `n + 2j + offset`.
pub open spec fn border_map(
    base: Map<usize, usize>,
    cs: Seq<usize>,
    n: nat,
    k: nat,
    offset: nat,
) -> Map<usize, usize>
    decreases k,
{
    if k == 0 || k > cs.len() {
        base
    } else {
        border_map(base, cs, n, (k - 1) as nat, offset).insert(
            cs[k - 1],
            (n + 2 * (k - 1) + offset) as usize,
        )
    }
}

/// Border-top map after the border nodes exist.
pub open spec fn tops_after(g: &LayoutGraph) -> Map<usize, usize> {
    border_map(g.border_top@, g.compound_nodes@, g.node_ids.len() as nat, g.compound_nodes.len() as nat, 0)
}

/// Border-bottom map after the border nodes exist.
pub open spec fn bottoms_after(g: &LayoutGraph) -> Map<usize, usize> {
    border_map(
        g.border_bottom@,
        g.compound_nodes@,
        g.node_ids.len() as nat,
        g.compound_nodes.len() as nat,
        1,
    )
}

/// Parent links of the `2k` border nodes of the first `k` compounds.
pub open spec fn border_parents(cs: Seq<usize>, k: nat) -> Seq<Option<usize>> {
    Seq::new(2 * k, |i: int| Some(cs[i / 2]))
}

/// Parent links once the border nodes exist.
pub open spec fn parents_after_borders(g: &LayoutGraph) -> Seq<Option<usize>> {
    g.parents@ + border_parents(g.compound_nodes@, g.compound_nodes.len() as nat)
}

/// Original nodes `< k` whose parent is `c`, in increasing order.
pub open spec fn children_upto(parents: Seq<Option<usize>>, c: usize, k: nat) -> Seq<usize>
    decreases k,
{
    if k == 0 {
        Seq::empty()
    } else {
        let prev = children_upto(parents, c, (k - 1) as nat);
        if parents[k - 1] == Some(c) {
            prev.push((k - 1) as usize)
        } else {
            prev
        }
    }
}

/// The two nesting edges that hold child `x` between the borders of compound `cs[k]`.
pub open spec fn child_pair(g: &LayoutGraph, k: int, x: usize) -> Seq<NewEdge> {
    let n = g.node_ids.len() as int;
    let c = g.compound_nodes@[k];
    let top = (n + 2 * k) as usize;
    let bot = (n + 2 * k + 1) as usize;
    let bt = tops_after(g);
    let bb = bottoms_after(g);
    let nested = bt.contains_key(x) && bb.contains_key(x);
    let ct = if nested {
        bt[x]
    } else {
        x
    };
    let cb = if nested {
        bb[x]
    } else {
        x
    };
    let w = if nested {
        (2 * n) as u64
    } else {
        (4 * n) as u64
    };
    let ml = if ct != cb {
        1i32
    } else {
        (nesting_height(g) - node_depth(g.parents@, c as int) + 1) as i32
    };
    seq![(top, ct, w, ml), (cb, bot, w, ml)]
}

/// Nesting edges for the children `xs` of compound `cs[k]`.
pub open spec fn child_edges(g: &LayoutGraph, k: int, xs: Seq<usize>) -> Seq<NewEdge>
    decreases xs.len(),
{
    if xs.len() == 0 {
        Seq::empty()
    } else {
        child_edges(g, k, xs.drop_last()) + child_pair(g, k, xs.last())
    }
}

/// Nesting edges of the first `k` compounds.
pub open spec fn compound_edges(g: &LayoutGraph, k: nat) -> Seq<NewEdge>
    decreases k,
{
    if k == 0 || k > g.compound_nodes.len() {
        Seq::empty()
    } else {
        let c = g.compound_nodes@[k - 1];
        compound_edges(g, (k - 1) as nat) + child_edges(
            g,
            k - 1,
            children_upto(g.parents@, c, g.node_ids.len() as nat),
        )
    }
}

/// Edge `e` of `edges` runs forward (it is not reversed) from `u` to `v`.
pub open spec fn forward_edge(
    edges: Seq<(usize, usize, usize)>,
    reversed: Set<usize>,
    e: int,
    u: usize,
    v: usize,
) -> bool {
    &&& 0 <= e < edges.len()
    &&& !reversed.contains(e as usize)
    &&& edges[e].0 == u
    &&& edges[e].1 == v
}

/// Some forward edge runs from `u` to `v`.
pub open spec fn forward_step(
    edges: Seq<(usize, usize, usize)>,
    reversed: Set<usize>,
    u: usize,
    v: usize,
) -> bool {
    exists|e: int| #[trigger] forward_edge(edges, reversed, e, u, v)
}

/// `path` follows forward edges.
pub open spec fn forward_path(
    edges: Seq<(usize, usize, usize)>,
    reversed: Set<usize>,
    path: Seq<usize>,
) -> bool {
    forall|j: int|
        0 <= j < path.len() - 1 ==> #[trigger] forward_step(edges, reversed, path[j], path[j + 1])
}

/// Some node below compound `c` is reachable from `start` by one or more forward edges.
pub open spec fn reaches_into(
    edges: Seq<(usize, usize, usize)>,
    reversed: Set<usize>,
    parents: Seq<Option<usize>>,
    start: usize,
    c: usize,
) -> bool {
    exists|path: Seq<usize>|
        path.len() >= 2 && path[0] == start && forward_path(edges, reversed, path)
            && #[trigger] is_descendant_of(parents, path.last() as int, c)
}

/// The exit constraint contributed by original edge `e`, if any.
pub open spec fn exit_edge(g: &LayoutGraph, e: int) -> Seq<NewEdge> {
    let from = g.edges@[e].0;
    let to = g.edges@[e].1;
    let p = parents_after_borders(g);
    if !g.reversed_edges@.contains(e as usize) && g.parents@[from as int] is Some {
        let c = g.parents@[from as int]->Some_0;
        match compound_pos(g.compound_nodes@, c) {
            Some(k) => if !is_descendant_of(p, to as int, c) && to != c && !reaches_into(
                g.edges@,
                g.reversed_edges@,
                p,
                to,
                c,
            ) {
                seq![((g.node_ids.len() + 2 * k + 1) as usize, to, 0u64, 1i32)]
            } else {
                Seq::empty()
            },
            None => Seq::empty(),
        }
    } else {
        Seq::empty()
    }
}

/// Exit constraints of the first `e` original edges.
pub open spec fn exit_edges(g: &LayoutGraph, e: nat) -> Seq<NewEdge>
    decreases e,
{
    if e == 0 || e > g.edges.len() {
        Seq::empty()
    } else {
        exit_edges(g, (e - 1) as nat) + exit_edge(g, e - 1)
    }
}

/// Index of the nesting root.
pub open spec fn nesting_root_index(g: &LayoutGraph) -> nat {
    (g.node_ids.len() + 2 * g.compound_nodes.len()) as nat
}

/// Root edges to the top-level leaves among the first `i` nodes.
pub open spec fn root_leaf_edges(g: &LayoutGraph, i: nat) -> Seq<NewEdge>
    decreases i,
{
    if i == 0 || i > g.node_ids.len() {
        Seq::empty()
    } else {
        let prev = root_leaf_edges(g, (i - 1) as nat);
        if g.parents@[i - 1] is None && compound_pos(g.compound_nodes@, (i - 1) as usize) is None {
            prev.push(
                (nesting_root_index(g) as usize, (i - 1) as usize, 0u64, nesting_node_sep(g) as i32),
            )
        } else {
            prev
        }
    }
}

/// Root edges to the top borders of the top-level compounds among the first `k`.
pub open spec fn root_compound_edges(g: &LayoutGraph, k: nat) -> Seq<NewEdge>
    decreases k,
{
    if k == 0 || k > g.compound_nodes.len() {
        Seq::empty()
    } else {
        let prev = root_compound_edges(g, (k - 1) as nat);
        let c = g.compound_nodes@[k - 1];
        if g.parents@[c as int] is None {
            prev.push(
                (
                    nesting_root_index(g) as usize,
                    (g.node_ids.len() + 2 * (k - 1)) as usize,
                    0u64,
                    (nesting_height(g) + node_depth(g.parents@, c as int)) as i32,
                ),
            )
        } else {
            prev
        }
    }
}

/// Every edge the nesting phase appends, in order.
pub open spec fn nesting_new_edges(g: &LayoutGraph, policy: AcyclicPolicy) -> Seq<NewEdge> {
    compound_edges(g, g.compound_nodes.len() as nat) + (if policy
        == AcyclicPolicy::SemanticCompoundFeedback {
        exit_edges(g, g.edges.len() as nat)
    } else {
        Seq::empty()
    }) + root_leaf_edges(g, g.node_ids.len() as nat) + root_compound_edges(
        g,
        g.compound_nodes.len() as nat,
    )
}

/// `base` followed by the endpoints of `new`, each tagged with its own index.
pub open spec fn edges_with(base: Seq<(usize, usize, usize)>, new: Seq<NewEdge>) -> Seq<
    (usize, usize, usize),
> {
    base + Seq::new(new.len(), |j: int| (new[j].0, new[j].1, (base.len() + j) as usize))
}

/// Minimum lengths of the original edges after scaling by the node separation.
pub open spec fn scaled_minlens(g: &LayoutGraph) -> Seq<i32> {
    g.edge_minlens@.map_values(|x: i32| (x * nesting_node_sep(g)) as i32)
}

pub open spec fn weights_of(new: Seq<NewEdge>) -> Seq<u64> {
    new.map_values(|e: NewEdge| e.2)
}

pub open spec fn minlens_of(new: Seq<NewEdge>) -> Seq<i32> {
    new.map_values(|e: NewEdge| e.3)
}

/// Indices `lo..hi` as a set.
pub open spec fn index_range(lo: nat, hi: nat) -> Set<usize> {
    Set::new(|e: usize| lo <= e < hi)
}

} // verus!
