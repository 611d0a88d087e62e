//! Facts about the nesting specification used by the nesting phase's proofs.

use vstd::prelude::*;

use super::graph::{depth_within, node_depth, parents_form_forest, strictly_increasing};
use super::hierarchy::{lemma_depth_bounds, lemma_depth_fuel_mono, lemma_parent_depth};
use super::nesting_spec::{
    border_map, border_parents, children_upto, compound_pos, max_depth_upto, NewEdge,
    edges_with, index_range, minlens_of, weights_of,
};

verus! {

pub proof fn lemma_compound_pos(cs: Seq<usize>, c: usize)
    ensures
        match compound_pos(cs, c) {
            Some(k) => k < cs.len() && cs[k as int] == c,
            None => forall|j: int| 0 <= j < cs.len() ==> cs[j] != c,
        },
    decreases cs.len(),
{
    if cs.len() > 0 {
        let d = cs.drop_last();
        lemma_compound_pos(d, c);
        assert(forall|j: int| 0 <= j < d.len() ==> d[j] == cs[j]);
    }
}

/// In an increasing sequence, the position of `cs[k]` is `k`.
pub proof fn lemma_compound_pos_at(cs: Seq<usize>, k: int)
    requires
        strictly_increasing(cs),
        0 <= k < cs.len(),
    ensures
        compound_pos(cs, cs[k]) == Some(k as nat),
{
    lemma_compound_pos(cs, cs[k]);
}

/// Entries of a border map.
pub proof fn lemma_border_map(
    base: Map<usize, usize>,
    cs: Seq<usize>,
    n: nat,
    k: nat,
    offset: nat,
    c: usize,
)
    requires
        strictly_increasing(cs),
        k <= cs.len(),
    ensures
        forall|j: int|
            0 <= j < k && cs[j] == c ==> border_map(base, cs, n, k, offset).contains_key(c) && border_map(
                base,
                cs,
                n,
                k,
                offset,
            )[c] == (n + 2 * j + offset) as usize,
        (forall|j: int| 0 <= j < k ==> cs[j] != c) ==> border_map(base, cs, n, k, offset).contains_key(
            c,
        ) == base.contains_key(c) && (base.contains_key(c) ==> border_map(base, cs, n, k, offset)[c]
            == base[c]),
    decreases k,
{
    if k > 0 {
        lemma_border_map(base, cs, n, (k - 1) as nat, offset, c);
    }
}

/// Appending nodes whose parents are existing nodes keeps a forest and the old depths.
pub proof fn lemma_forest_extend(p: Seq<Option<usize>>, extra: Seq<Option<usize>>)
    requires
        parents_form_forest(p),
        forall|i: int| 0 <= i < p.len() ==> (#[trigger] p[i] matches Some(q) ==> q < p.len()),
        forall|j: int| 0 <= j < extra.len() ==> (#[trigger] extra[j] matches Some(q) ==> q < p.len()),
    ensures
        parents_form_forest(p + extra),
        forall|i: int| 0 <= i < p.len() ==> #[trigger] node_depth(p + extra, i) == node_depth(p, i),
        forall|j: int|
            0 <= j < extra.len() ==> (#[trigger] extra[j] matches Some(q) ==> node_depth(
                p + extra,
                p.len() + j,
            ) == node_depth(p, q as int) + 1),
        forall|j: int| 0 <= j < extra.len() && #[trigger] extra[j] is None ==> node_depth(
            p + extra,
            p.len() + j,
        ) == 1,
{
    let q = p + extra;
    let n = p.len() as nat;
    let nq = q.len() as nat;
    assert forall|i: int| 0 <= i < p.len() implies #[trigger] depth_within(q, i, nq) == depth_within(
        p,
        i,
        n,
    ) && depth_within(q, i, nq) is Some by {
        assert(depth_within(p, i, n) is Some);
        lemma_depth_within_prefix(p, extra, i, n);
        lemma_depth_fuel_mono(q, i, n, nq);
    }
    assert forall|j: int| 0 <= j < extra.len() implies #[trigger] depth_within(
        q,
        p.len() + j,
        nq,
    ) is Some && (extra[j] matches Some(r) ==> depth_within(q, p.len() + j, nq)->Some_0
        == node_depth(p, r as int) + 1) && (extra[j] is None ==> depth_within(
        q,
        p.len() + j,
        nq,
    ) == Some(1nat)) by {
        assert(q[p.len() + j] == extra[j]);
        match extra[j] {
            Some(r) => {
                assert(depth_within(p, r as int, n) is Some);
                lemma_depth_within_prefix(p, extra, r as int, n);
                lemma_depth_fuel_mono(q, r as int, n, (nq - 1) as nat);
            },
            None => {},
        }
    }
    assert forall|i: int| 0 <= i < q.len() implies #[trigger] depth_within(q, i, q.len() as nat)
        is Some by {
        if i < p.len() {
        } else {
            assert(depth_within(q, p.len() + (i - p.len()), nq) is Some);
        }
    }
}

/// Depths of old nodes do not see appended nodes.
pub proof fn lemma_depth_within_prefix(p: Seq<Option<usize>>, extra: Seq<Option<usize>>, i: int, f: nat)
    requires
        0 <= i < p.len(),
        forall|k: int| 0 <= k < p.len() ==> (#[trigger] p[k] matches Some(q) ==> q < p.len()),
    ensures
        depth_within(p + extra, i, f) == depth_within(p, i, f),
    decreases f,
{
    let q = p + extra;
    assert(q[i] == p[i]);
    if f > 0 {
        match p[i] {
            Some(r) => lemma_depth_within_prefix(p, extra, r as int, (f - 1) as nat),
            None => {},
        }
    }
}

/// The maximum depth bounds every depth and is at least 1.
pub proof fn lemma_max_depth(parents: Seq<Option<usize>>, k: nat)
    requires
        parents_form_forest(parents),
        k <= parents.len(),
    ensures
        1 <= max_depth_upto(parents, k) <= (if parents.len() > 0 {
            parents.len() as nat
        } else {
            1
        }),
        forall|i: int| 0 <= i < k ==> #[trigger] node_depth(parents, i) <= max_depth_upto(parents, k),
    decreases k,
{
    if k > 0 {
        lemma_max_depth(parents, (k - 1) as nat);
        lemma_parent_depth(parents, k - 1);
    }
}

/// Children among the first `k` nodes are below `k` and have parent `c`.
pub proof fn lemma_children_upto(parents: Seq<Option<usize>>, c: usize, k: nat)
    requires
        k <= parents.len(),
        k <= usize::MAX + 1,
    ensures
        forall|j: int|
            0 <= j < children_upto(parents, c, k).len() ==> #[trigger] children_upto(
                parents,
                c,
                k,
            )[j] < k && parents[children_upto(parents, c, k)[j] as int] == Some(c),
    decreases k,
{
    if k > 0 {
        lemma_children_upto(parents, c, (k - 1) as nat);
    }
}

/// Recording one more appended edge.
pub proof fn lemma_edges_with_push(base: Seq<(usize, usize, usize)>, new: Seq<NewEdge>, e: NewEdge)
    requires
        base.len() + new.len() <= usize::MAX,
    ensures
        edges_with(base, new.push(e)) == edges_with(base, new).push(
            (e.0, e.1, (base.len() + new.len()) as usize),
        ),
        weights_of(new.push(e)) == weights_of(new).push(e.2),
        minlens_of(new.push(e)) == minlens_of(new).push(e.3),
        index_range(base.len(), base.len() + new.len() + 1) == index_range(
            base.len(),
            base.len() + new.len(),
        ).insert((base.len() + new.len()) as usize),
{
    assert(edges_with(base, new.push(e)) =~= edges_with(base, new).push(
        (e.0, e.1, (base.len() + new.len()) as usize),
    ));
    assert(weights_of(new.push(e)) =~= weights_of(new).push(e.2));
    assert(minlens_of(new.push(e)) =~= minlens_of(new).push(e.3));
    assert(index_range(base.len(), base.len() + new.len() + 1) =~= index_range(
        base.len(),
        base.len() + new.len(),
    ).insert((base.len() + new.len()) as usize));
}

pub proof fn lemma_border_parents_push(cs: Seq<usize>, k: nat)
    requires
        k < cs.len(),
    ensures
        border_parents(cs, k + 1) == border_parents(cs, k).push(Some(cs[k as int])).push(
            Some(cs[k as int]),
        ),
{
    assert(border_parents(cs, k + 1) =~= border_parents(cs, k).push(Some(cs[k as int])).push(
        Some(cs[k as int]),
    ));
}

/// An increasing list of indices below `n` has at most `n` entries.
pub proof fn lemma_increasing_len(cs: Seq<usize>, n: nat)
    requires
        strictly_increasing(cs),
        forall|k: int| 0 <= k < cs.len() ==> #[trigger] cs[k] < n,
    ensures
        cs.len() <= n,
{
    if cs.len() > 0 {
        lemma_increasing_at_least_index(cs, cs.len() - 1);
    }
}

proof fn lemma_increasing_at_least_index(cs: Seq<usize>, j: int)
    requires
        strictly_increasing(cs),
        0 <= j < cs.len(),
    ensures
        cs[j] >= j,
    decreases j,
{
    if j > 0 {
        lemma_increasing_at_least_index(cs, j - 1);
    }
}

} // verus!
