//! The compound parent hierarchy: depths, ancestors and subtrees.

use vstd::prelude::*;

use super::graph::{depth_within, node_depth, parents_form_forest};

verus! {

/// Every parent link points at an existing node.
pub open spec fn parents_in_range(parents: Seq<Option<usize>>) -> bool {
    &&& parents.len() <= usize::MAX
    &&& forall|i: int| 0 <= i < parents.len() ==> (#[trigger] parents[i] matches Some(p) ==> p < parents.len())
}

/// The `k`-th ancestor of `node` (`k = 0` is the node itself).
pub open spec fn ancestor(parents: Seq<Option<usize>>, node: int, k: nat) -> Option<usize>
    decreases k,
{
    if k == 0 {
        if 0 <= node < parents.len() && node <= usize::MAX {
            Some(node as usize)
        } else {
            None
        }
    } else {
        match ancestor(parents, node, (k - 1) as nat) {
            Some(a) => if a < parents.len() {
                parents[a as int]
            } else {
                None
            },
            None => None,
        }
    }
}

/// `node` lies strictly below `anc` in the hierarchy.
pub open spec fn is_descendant_of(parents: Seq<Option<usize>>, node: int, anc: usize) -> bool {
    exists|k: nat| k >= 1 && #[trigger] ancestor(parents, node, k) == Some(anc)
}

/// `x` is `root` or lies below it.
pub open spec fn in_subtree(parents: Seq<Option<usize>>, x: int, root: usize) -> bool {
    exists|k: nat| #[trigger] ancestor(parents, x, k) == Some(root)
}

pub proof fn lemma_depth_bounds(parents: Seq<Option<usize>>, i: int, f: nat)
    ensures
        depth_within(parents, i, f) matches Some(d) ==> 1 <= d <= f,
    decreases f,
{
    if f > 0 && 0 <= i < parents.len() {
        match parents[i] {
            Some(p) => lemma_depth_bounds(parents, p as int, (f - 1) as nat),
            None => {},
        }
    }
}

pub proof fn lemma_depth_fuel_mono(parents: Seq<Option<usize>>, i: int, f1: nat, f2: nat)
    requires
        f1 <= f2,
        depth_within(parents, i, f1) is Some,
    ensures
        depth_within(parents, i, f2) == depth_within(parents, i, f1),
    decreases f1,
{
    match parents[i] {
        Some(p) => lemma_depth_fuel_mono(parents, p as int, (f1 - 1) as nat, (f2 - 1) as nat),
        None => {},
    }
}

/// In a forest, a node is one level deeper than its parent.
pub proof fn lemma_parent_depth(parents: Seq<Option<usize>>, i: int)
    requires
        parents_form_forest(parents),
        0 <= i < parents.len(),
    ensures
        1 <= node_depth(parents, i) <= parents.len(),
        parents[i] matches Some(q) ==> node_depth(parents, q as int) + 1 == node_depth(parents, i),
        parents[i] is None ==> node_depth(parents, i) == 1,
{
    let n = parents.len() as nat;
    assert(depth_within(parents, i, n) is Some);
    lemma_depth_bounds(parents, i, n);
    match parents[i] {
        Some(q) => {
            lemma_depth_fuel_mono(parents, q as int, (n - 1) as nat, n);
        },
        None => {},
    }
}

pub proof fn lemma_ancestor_none_after(parents: Seq<Option<usize>>, x: int, k: nat, j: nat)
    requires
        k <= j,
        ancestor(parents, x, k) is None,
    ensures
        ancestor(parents, x, j) is None,
    decreases j - k,
{
    if k < j {
        lemma_ancestor_none_after(parents, x, k, (j - 1) as nat);
    }
}

/// The `k`-th ancestor sits `k` levels above.
pub proof fn lemma_ancestor_depth(parents: Seq<Option<usize>>, x: int, k: nat)
    requires
        parents_form_forest(parents),
        parents_in_range(parents),
        ancestor(parents, x, k) is Some,
    ensures
        ancestor(parents, x, k)->Some_0 < parents.len(),
        node_depth(parents, ancestor(parents, x, k)->Some_0 as int) + k == node_depth(parents, x),
    decreases k,
{
    if k > 0 {
        lemma_ancestor_depth(parents, x, (k - 1) as nat);
        let a = ancestor(parents, x, (k - 1) as nat)->Some_0;
        lemma_parent_depth(parents, a as int);
    }
}

/// Walking up stops within the depth of the node.
pub proof fn lemma_ancestor_bound(parents: Seq<Option<usize>>, x: int, k: nat)
    requires
        parents_form_forest(parents),
        parents_in_range(parents),
        0 <= x < parents.len(),
        ancestor(parents, x, k) is Some,
    ensures
        k < node_depth(parents, x) <= parents.len(),
{
    lemma_ancestor_depth(parents, x, k);
    lemma_parent_depth(parents, ancestor(parents, x, k)->Some_0 as int);
    lemma_parent_depth(parents, x);
}

/// One step up from a subtree member.
pub proof fn lemma_subtree_child(parents: Seq<Option<usize>>, x: int, c: usize, node: usize)
    requires
        in_subtree(parents, x, c),
        c < parents.len(),
        parents[c as int] == Some(node),
    ensures
        in_subtree(parents, x, node),
        is_descendant_of(parents, x, node),
{
    let k = choose|k: nat| #[trigger] ancestor(parents, x, k) == Some(c);
    assert(ancestor(parents, x, k + 1) == Some(node));
}

/// A subtree member other than the root lies in the subtree of one of the root's children.
pub proof fn lemma_subtree_split(parents: Seq<Option<usize>>, x: int, node: usize)
    requires
        in_subtree(parents, x, node),
        x != node,
    ensures
        exists|c: usize|
            c < parents.len() && parents[c as int] == Some(node) && #[trigger] in_subtree(
                parents,
                x,
                c,
            ),
{
    let k = choose|k: nat| #[trigger] ancestor(parents, x, k) == Some(node);
    assert(k != 0);
    let c = ancestor(parents, x, (k - 1) as nat)->Some_0;
    assert(ancestor(parents, x, (k - 1) as nat) == Some(c));
    assert(in_subtree(parents, x, c));
}

/// Every node lies in the subtree of some root.
pub proof fn lemma_has_root(parents: Seq<Option<usize>>, x: int)
    requires
        parents_form_forest(parents),
        parents_in_range(parents),
        0 <= x < parents.len(),
    ensures
        exists|r: usize|
            r < parents.len() && parents[r as int] is None && #[trigger] in_subtree(parents, x, r),
{
    lemma_parent_depth(parents, x);
    let d = node_depth(parents, x);
    let top = (d - 1) as nat;
    lemma_ancestor_some_below_depth(parents, x, top);
    let r = ancestor(parents, x, top)->Some_0;
    lemma_ancestor_depth(parents, x, top);
    lemma_parent_depth(parents, r as int);
    assert(in_subtree(parents, x, r));
}

/// Below its depth, a node's ancestors exist.
pub proof fn lemma_ancestor_some_below_depth(parents: Seq<Option<usize>>, x: int, k: nat)
    requires
        parents_form_forest(parents),
        parents_in_range(parents),
        0 <= x < parents.len(),
        k < node_depth(parents, x),
    ensures
        ancestor(parents, x, k) is Some,
    decreases k,
{
    if k > 0 {
        lemma_ancestor_some_below_depth(parents, x, (k - 1) as nat);
        let a = ancestor(parents, x, (k - 1) as nat)->Some_0;
        lemma_ancestor_depth(parents, x, (k - 1) as nat);
        lemma_parent_depth(parents, a as int);
        assert(node_depth(parents, a as int) > 1);
        assert(parents[a as int] is Some);
        assert(ancestor(parents, x, k) == parents[a as int]);
    }
}

} // verus!
