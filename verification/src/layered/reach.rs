//! Forward reachability over the non-reversed edges of a layout graph.

use vstd::prelude::*;

use super::edge_set::edge_set_contains;
use super::graph::LayoutGraph;
use super::hierarchy::is_descendant_of;
use super::nesting::{hierarchy_ok, is_descendant};
use super::nesting_spec::{forward_edge, forward_path, forward_step, reaches_into};

verus! {

/// Number of `true` entries of `s`.
pub open spec fn count_true(s: Seq<bool>) -> nat
    decreases s.len(),
{
    if s.len() == 0 {
        0
    } else {
        count_true(s.drop_last()) + if s.last() {
            1nat
        } else {
            0nat
        }
    }
}

pub proof fn lemma_count_true_bound(s: Seq<bool>)
    ensures
        count_true(s) <= s.len(),
    decreases s.len(),
{
    if s.len() > 0 {
        lemma_count_true_bound(s.drop_last());
    }
}

pub proof fn lemma_count_true_set(s: Seq<bool>, i: int)
    requires
        0 <= i < s.len(),
        !s[i],
    ensures
        count_true(s.update(i, true)) == count_true(s) + 1,
    decreases s.len(),
{
    let t = s.update(i, true);
    if i == s.len() - 1 {
        assert(t.drop_last() =~= s.drop_last());
    } else {
        assert(t.drop_last() =~= s.drop_last().update(i, true));
        lemma_count_true_set(s.drop_last(), i);
    }
}

pub proof fn lemma_count_true_all_false(n: nat)
    ensures
        count_true(Seq::new(n, |i: int| false)) == 0,
    decreases n,
{
    if n > 0 {
        assert(Seq::new(n, |i: int| false).drop_last() =~= Seq::new((n - 1) as nat, |i: int| false));
        lemma_count_true_all_false((n - 1) as nat);
    }
}

/// Turning entries on never lowers the count.
pub proof fn lemma_count_true_mono(a: Seq<bool>, b: Seq<bool>)
    requires
        a.len() == b.len(),
        forall|i: int| 0 <= i < a.len() && #[trigger] a[i] ==> b[i],
    ensures
        count_true(a) <= count_true(b),
    decreases a.len(),
{
    if a.len() > 0 {
        lemma_count_true_mono(a.drop_last(), b.drop_last());
    }
}

/// `adj[u]` holds exactly the targets of the forward edges leaving `u`.
pub open spec fn is_forward_adjacency(
    adj: Seq<Vec<usize>>,
    edges: Seq<(usize, usize, usize)>,
    rev: Set<usize>,
) -> bool {
    &&& forall|e: int| 0 <= e < edges.len() ==> (#[trigger] edges[e]).0 < adj.len() && edges[e].1 < adj.len()
    &&& forall|u: usize, v: usize|
        #![trigger adj[u as int]@.contains(v)]
        #![trigger forward_step(edges, rev, u, v)]
        u < adj.len() ==> (adj[u as int]@.contains(v) <==> forward_step(edges, rev, u, v))
}

/// Whether edge `e` was reversed by the acyclic phase.
pub(crate) fn is_reversed(lg: &LayoutGraph, e: usize) -> (r: bool)
    ensures
        r == lg.reversed_edges@.contains(e),
{
    edge_set_contains(&lg.reversed_edges, e)
}

/// Forward adjacency lists of the first `m` edges, over `total` nodes.
pub(crate) fn build_forward_adjacency(lg: &LayoutGraph, m: usize, total: usize) -> (adj: Vec<Vec<usize>>)
    requires
        m <= lg.edges.len(),
        forall|e: int| 0 <= e < m ==> (#[trigger] lg.edges@[e]).0 < total && lg.edges@[e].1 < total,
    ensures
        adj.len() == total,
        is_forward_adjacency(adj@, lg.edges@.take(m as int), lg.reversed_edges@),
{
    let ghost edges = lg.edges@.take(m as int);
    let ghost rev = lg.reversed_edges@;
    let mut adj: Vec<Vec<usize>> = Vec::new();
    let mut i: usize = 0;
    while i < total
        invariant
            i <= total,
            adj.len() == i,
            forall|j: int| 0 <= j < i ==> (#[trigger] adj@[j])@.len() == 0,
        decreases total - i,
    {
        adj.push(Vec::new());
        i = i + 1;
    }
    let mut ei: usize = 0;
    while ei < m
        invariant
            m <= lg.edges.len(),
            edges == lg.edges@.take(m as int),
            rev == lg.reversed_edges@,
            forall|e: int| 0 <= e < m ==> (#[trigger] lg.edges@[e]).0 < total && lg.edges@[e].1 < total,
            adj.len() == total,
            ei <= m,
            forall|u: usize, v: usize|
                #![trigger adj@[u as int]@.contains(v)]
                u < total ==> (adj@[u as int]@.contains(v) <==> exists|e: int|
                    0 <= e < ei && #[trigger] forward_edge(edges, rev, e, u, v)),
        decreases m - ei,
    {
        if !is_reversed(lg, ei) {
            let (from, to, _) = lg.edges[ei];
            let ghost before = adj@;
            adj[from].push(to);
            proof {
                assert(edges[ei as int] == lg.edges@[ei as int]);
                assert(forward_edge(edges, rev, ei as int, from, to));
                assert forall|u: usize, v: usize| u < total implies (adj@[u as int]@.contains(v) <==> exists|
                    e: int,
                | 0 <= e < ei + 1 && #[trigger] forward_edge(edges, rev, e, u, v)) by {
                    if u == from {
                        assert(adj@[u as int]@ == before[u as int]@.push(to));
                        if adj@[u as int]@.contains(v) && v != to {
                            assert(before[u as int]@.contains(v));
                        }
                        if exists|e: int| 0 <= e < ei + 1 && #[trigger] forward_edge(edges, rev, e, u, v) {
                            let e = choose|e: int| 0 <= e < ei + 1 && #[trigger] forward_edge(edges, rev, e, u, v);
                            if e < ei {
                                assert(before[u as int]@.contains(v));
                                let k = choose|k: int| 0 <= k < before[u as int]@.len() && before[u as int]@[k] == v;
                                assert(adj@[u as int]@[k] == v);
                            } else {
                                assert(adj@[u as int]@[before[u as int]@.len() as int] == to);
                            }
                        }
                    } else {
                        assert(adj@[u as int] == before[u as int]);
                        if exists|e: int| 0 <= e < ei + 1 && #[trigger] forward_edge(edges, rev, e, u, v) {
                            let e = choose|e: int| 0 <= e < ei + 1 && #[trigger] forward_edge(edges, rev, e, u, v);
                            assert(e != ei);
                        }
                    }
                }
            }
        } else {
            proof {
                assert forall|u: usize, v: usize| u < total implies (adj@[u as int]@.contains(v) <==> exists|
                    e: int,
                | 0 <= e < ei + 1 && #[trigger] forward_edge(edges, rev, e, u, v)) by {
                    if exists|e: int| 0 <= e < ei + 1 && #[trigger] forward_edge(edges, rev, e, u, v) {
                        let e = choose|e: int| 0 <= e < ei + 1 && #[trigger] forward_edge(edges, rev, e, u, v);
                        assert(e != ei);
                    }
                }
            }
        }
        ei = ei + 1;
    }
    proof {
        assert forall|e: int| 0 <= e < edges.len() implies (#[trigger] edges[e]).0 < adj.len() && edges[e].1
            < adj.len() by {
            assert(edges[e] == lg.edges@[e]);
        }
        assert forall|u: usize, v: usize| u < adj.len() implies (adj@[u as int]@.contains(v)
            <==> #[trigger] forward_step(edges, rev, u, v)) by {
            if forward_step(edges, rev, u, v) {
                let e = choose|e: int| #[trigger] forward_edge(edges, rev, e, u, v);
                assert(0 <= e < m);
            }
        }
    }
    adj
}

/// `path` runs from `start` to `x` along forward edges.
pub open spec fn path_to(
    edges: Seq<(usize, usize, usize)>,
    rev: Set<usize>,
    path: Seq<usize>,
    start: usize,
    x: usize,
) -> bool {
    &&& path.len() >= 1
    &&& path[0] == start
    &&& path.last() == x
    &&& forward_path(edges, rev, path)
}

/// Every successor of a visited node is visited and lies outside compound `c`.
pub open spec fn closed_outside(
    adj: Seq<Vec<usize>>,
    visited: Seq<bool>,
    parents: Seq<Option<usize>>,
    c: usize,
) -> bool {
    forall|u: int, v: usize|
        0 <= u < adj.len() && visited[u] && #[trigger] adj[u]@.contains(v) ==> v < visited.len()
            && visited[v as int] && !is_descendant_of(parents, v as int, c)
}

/// A path from a visited node in a closed visited set never enters `c` after its first node.
proof fn lemma_closed_path(
    adj: Seq<Vec<usize>>,
    visited: Seq<bool>,
    parents: Seq<Option<usize>>,
    c: usize,
    edges: Seq<(usize, usize, usize)>,
    rev: Set<usize>,
    path: Seq<usize>,
)
    requires
        is_forward_adjacency(adj, edges, rev),
        visited.len() == adj.len(),
        closed_outside(adj, visited, parents, c),
        path.len() >= 1,
        path[0] < visited.len(),
        visited[path[0] as int],
        forward_path(edges, rev, path),
    ensures
        path.last() < visited.len(),
        visited[path.last() as int],
        path.len() >= 2 ==> !is_descendant_of(parents, path.last() as int, c),
    decreases path.len(),
{
    if path.len() >= 2 {
        let q = path.drop_last();
        assert forall|j: int| 0 <= j < q.len() - 1 implies #[trigger] forward_step(edges, rev, q[j], q[j + 1]) by {
            assert(forward_step(edges, rev, path[j], path[j + 1]));
        }
        lemma_closed_path(adj, visited, parents, c, edges, rev, q);
        let u = q.last();
        let v = path.last();
        let j = path.len() - 2;
        assert(forward_step(edges, rev, path[j], path[j + 1]));
        assert(u == path[j]);
        assert(adj[u as int]@.contains(v));
    }
}

/// Check if `start` can reach any node inside `compound_idx` via forward edges.
pub(crate) fn can_reach_compound(
    start: usize,
    compound_idx: usize,
    lg: &LayoutGraph,
    fwd_adj: &Vec<Vec<usize>>,
    Ghost(edges): Ghost<Seq<(usize, usize, usize)>>,
) -> (r: bool)
    requires
        hierarchy_ok(lg),
        fwd_adj.len() == lg.parents.len(),
        start < fwd_adj.len(),
        is_forward_adjacency(fwd_adj@, edges, lg.reversed_edges@),
    ensures
        r == reaches_into(edges, lg.reversed_edges@, lg.parents@, start, compound_idx),
{
    let ghost rev = lg.reversed_edges@;
    let ghost p = lg.parents@;
    let total = fwd_adj.len();
    let mut visited: Vec<bool> = Vec::new();
    let mut i: usize = 0;
    while i < total
        invariant
            i <= total,
            visited@ == Seq::new(i as nat, |j: int| false),
        decreases total - i,
    {
        visited.push(false);
        i = i + 1;
    }
    proof {
        lemma_count_true_all_false(total as nat);
        lemma_count_true_set(visited@, start as int);
    }
    visited.set(start, true);
    let mut queue: Vec<usize> = Vec::new();
    queue.push(start);
    let ghost mut paths: Seq<Seq<usize>> = seq![seq![start]];
    let mut head: usize = 0;
    proof {
        assert forall|x: int| 0 <= x < total implies (#[trigger] visited@[x] <==> queue@.contains(
            x as usize,
        )) by {
            assert(queue@[0] == start);
        }
        assert(path_to(edges, rev, paths[0], start, queue@[0]));
    }
    while head < queue.len()
        invariant
            hierarchy_ok(lg),
            p == lg.parents@,
            rev == lg.reversed_edges@,
            total == fwd_adj.len(),
            total == p.len(),
            start < total,
            is_forward_adjacency(fwd_adj@, edges, rev),
            visited.len() == total,
            visited@[start as int],
            queue.len() == count_true(visited@),
            queue.len() <= total,
            head <= queue.len(),
            paths.len() == queue.len(),
            forall|t: int| 0 <= t < queue.len() ==> #[trigger] queue@[t] < total,
            forall|x: int| 0 <= x < total ==> (#[trigger] visited@[x] <==> queue@.contains(x as usize)),
            forall|t: int|
                0 <= t < queue.len() ==> #[trigger] path_to(edges, rev, paths[t], start, queue@[t]),
            forall|t: int, v: usize|
                0 <= t < head && #[trigger] fwd_adj@[queue@[t] as int]@.contains(v) ==> v < total
                    && visited@[v as int] && !is_descendant_of(p, v as int, compound_idx),
        decreases total - head,
    {
        let node = queue[head];
        let ghost node_path = paths[head as int];
        let row = &fwd_adj[node];
        let mut j: usize = 0;
        while j < row.len()
            invariant
                hierarchy_ok(lg),
                p == lg.parents@,
                rev == lg.reversed_edges@,
                total == fwd_adj.len(),
                total == p.len(),
                start < total,
                is_forward_adjacency(fwd_adj@, edges, rev),
                node < total,
                row@ == fwd_adj@[node as int]@,
                path_to(edges, rev, node_path, start, node),
                head < queue.len(),
                queue@[head as int] == node,
                visited.len() == total,
                visited@[start as int],
                queue.len() == count_true(visited@),
                queue.len() <= total,
                paths.len() == queue.len(),
                j <= row.len(),
                forall|t: int| 0 <= t < queue.len() ==> #[trigger] queue@[t] < total,
                forall|x: int| 0 <= x < total ==> (#[trigger] visited@[x] <==> queue@.contains(x as usize)),
                forall|t: int|
                    0 <= t < queue.len() ==> #[trigger] path_to(edges, rev, paths[t], start, queue@[t]),
                forall|t: int, v: usize|
                    0 <= t < head && #[trigger] fwd_adj@[queue@[t] as int]@.contains(v) ==> v < total
                        && visited@[v as int] && !is_descendant_of(p, v as int, compound_idx),
                forall|jj: int|
                    0 <= jj < j ==> #[trigger] row@[jj] < total && visited@[row@[jj] as int]
                        && !is_descendant_of(p, row@[jj] as int, compound_idx),
            decreases row.len() - j,
        {
            let next = row[j];
            proof {
                assert(row@.contains(next));
                assert(forward_step(edges, rev, node, next));
                let e = choose|e: int| #[trigger] forward_edge(edges, rev, e, node, next);
                assert(next < total);
            }
            let ghost next_path = node_path.push(next);
            proof {
                assert forall|k: int| 0 <= k < next_path.len() - 1 implies #[trigger] forward_step(
                    edges,
                    rev,
                    next_path[k],
                    next_path[k + 1],
                ) by {
                    if k < node_path.len() - 1 {
                        assert(forward_step(edges, rev, node_path[k], node_path[k + 1]));
                    } else {
                        assert(next_path[k] == node);
                    }
                }
                assert(path_to(edges, rev, next_path, start, next));
            }
            if is_descendant(lg, next, compound_idx) {
                proof {
                    assert(next_path.len() >= 2);
                    assert(is_descendant_of(p, next_path.last() as int, compound_idx));
                }
                return true;
            }
            if !visited[next] {
                proof {
                    lemma_count_true_set(visited@, next as int);
                    if queue@.contains(next) {
                        let t = choose|t: int| 0 <= t < queue.len() && queue@[t] == next;
                        assert(visited@[queue@[t] as int]);
                    }
                }
                let ghost old_queue = queue@;
                visited.set(next, true);
                queue.push(next);
                proof {
                    paths = paths.push(next_path);
                    lemma_count_true_bound(visited@);
                    assert forall|x: int| 0 <= x < total implies (#[trigger] visited@[x] <==> queue@.contains(
                        x as usize,
                    )) by {
                        if x == next {
                            assert(queue@[queue.len() - 1] == next);
                        } else {
                            if queue@.contains(x as usize) {
                                let t = choose|t: int| 0 <= t < queue.len() && queue@[t] == x as usize;
                                assert(t < old_queue.len());
                                assert(old_queue.contains(x as usize));
                            }
                            if old_queue.contains(x as usize) {
                                let t = choose|t: int| 0 <= t < old_queue.len() && old_queue[t] == x as usize;
                                assert(queue@[t] == x as usize);
                            }
                        }
                    }
                    assert forall|t: int|
                        0 <= t < queue.len() implies #[trigger] path_to(edges, rev, paths[t], start, queue@[t]) by {
                        if t < old_queue.len() {
                            assert(queue@[t] == old_queue[t]);
                        }
                    }
                    assert forall|t: int, v: usize|
                        0 <= t < head && #[trigger] fwd_adj@[queue@[t] as int]@.contains(v) implies v < total
                            && visited@[v as int] && !is_descendant_of(p, v as int, compound_idx) by {
                        assert(queue@[t] == old_queue[t]);
                    }
                }
            }
            j = j + 1;
        }
        proof {
            assert forall|t: int, v: usize|
                0 <= t < head + 1 && #[trigger] fwd_adj@[queue@[t] as int]@.contains(v) implies v < total
                    && visited@[v as int] && !is_descendant_of(p, v as int, compound_idx) by {
                if t == head {
                    let jj = choose|jj: int| 0 <= jj < row@.len() && row@[jj] == v;
                    assert(row@[jj] < total);
                }
            }
        }
        head = head + 1;
    }
    proof {
        assert(closed_outside(fwd_adj@, visited@, p, compound_idx)) by {
            assert forall|u: int, v: usize|
                0 <= u < fwd_adj@.len() && visited@[u] && #[trigger] fwd_adj@[u]@.contains(v) implies v
                < visited.len() && visited@[v as int] && !is_descendant_of(p, v as int, compound_idx) by {
                assert(queue@.contains(u as usize));
                let t = choose|t: int| 0 <= t < queue.len() && queue@[t] == u as usize;
                assert(fwd_adj@[queue@[t] as int]@.contains(v));
            }
        }
        if reaches_into(edges, rev, p, start, compound_idx) {
            let path = choose|path: Seq<usize>|
                path.len() >= 2 && path[0] == start && forward_path(edges, rev, path)
                    && #[trigger] is_descendant_of(p, path.last() as int, compound_idx);
            lemma_closed_path(fwd_adj@, visited@, p, compound_idx, edges, rev, path);
        }
    }
    false
}

} // verus!
