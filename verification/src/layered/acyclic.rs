//! Phase 1: Make the graph acyclic by identifying back-edges.
//!
//! Uses a DFS-based approach to identify back-edges - edges that point
//! to ancestors in the DFS tree. This preserves the natural forward flow
//! of the graph better than minimum feedback arc set algorithms.
//!
//! The DFS is described by its finishing order `f`: an edge is a back-edge
//! exactly when its target finishes no earlier than its source.

use std::collections::BTreeSet;

use vstd::prelude::*;

use super::edge_set::{edge_set_contains, edge_set_insert};
use super::graph::{AcyclicPolicy, LayoutGraph};
use super::nesting::compound_position;
use super::nesting_spec::{compound_pos, forward_edge, forward_path, forward_step};
use super::reach::{count_true, lemma_count_true_all_false, lemma_count_true_bound, lemma_count_true_mono, lemma_count_true_set};

verus! {

/// `adj[u]` lists `(edge, target)` for edges leaving `u`, and every edge is listed.
pub open spec fn is_out_adjacency(adj: Seq<Vec<(usize, usize)>>, edges: Seq<(usize, usize, usize)>) -> bool {
    &&& forall|u: int, k: int|
        0 <= u < adj.len() && 0 <= k < adj[u]@.len() ==> (#[trigger] adj[u]@[k]).0 < edges.len()
            && edges[adj[u]@[k].0 as int].0 == u && adj[u]@[k].1 == edges[adj[u]@[k].0 as int].1
    &&& forall|e: int|
        0 <= e < edges.len() ==> (#[trigger] edges[e]).0 < adj.len() && edges[e].1 < adj.len() && exists|
            k: int,
        | 0 <= k < adj[edges[e].0 as int]@.len() && #[trigger] adj[edges[e].0 as int]@[k].0 == e
}

/// Edge `e` leaves a finished node and is classified consistently with the
/// finishing order: forward edges reach a node that finished earlier; a
/// back-edge reaches a node still on the DFS stack or one that finished later.
pub open spec fn edge_classified(
    edges: Seq<(usize, usize, usize)>,
    back: Set<usize>,
    in_stack: Seq<bool>,
    f: Seq<int>,
    e: int,
) -> bool {
    let x = edges[e].0 as int;
    let y = edges[e].1 as int;
    &&& !back.contains(e as usize) ==> f[y] >= 0 && f[y] < f[x]
    &&& back.contains(e as usize) ==> (f[y] < 0 && in_stack[y]) || (f[y] >= 0 && f[y] >= f[x])
}

/// The state of the DFS between steps. `f[x]` is the finishing time of `x`,
/// or `-1` while `x` is unfinished; `time` is the next finishing time.
pub open spec fn dfs_inv(
    n: nat,
    edges: Seq<(usize, usize, usize)>,
    visited: Seq<bool>,
    in_stack: Seq<bool>,
    back: Set<usize>,
    f: Seq<int>,
    time: int,
) -> bool {
    &&& visited.len() == n
    &&& in_stack.len() == n
    &&& f.len() == n
    &&& forall|x: int| 0 <= x < n ==> #[trigger] in_stack[x] ==> visited[x]
    &&& forall|x: int| 0 <= x < n ==> ((visited[x] && !in_stack[x]) <==> #[trigger] f[x] >= 0)
    &&& forall|x: int| 0 <= x < n ==> -1 <= #[trigger] f[x] < time
    &&& forall|x: int, y: int| 0 <= x < n && 0 <= y < n && #[trigger] f[x] >= 0 && f[x] == #[trigger] f[y] ==> x == y
    &&& forall|e: usize|
        #[trigger] back.contains(e) ==> e < edges.len() && visited[edges[e as int].0 as int]
            && visited[edges[e as int].1 as int]
    &&& forall|e: int|
        0 <= e < edges.len() && f[(#[trigger] edges[e]).0 as int] >= 0 ==> edge_classified(edges, back, in_stack, f, e)
}

/// The search state: visited nodes, nodes on the current path, back-edges found.
pub struct DfsState {
    pub visited: Seq<bool>,
    pub in_stack: Seq<bool>,
    pub back: Set<usize>,
}

/// Edges leaving `u` among the first `k`, as `(edge, target)`, in index order.
pub open spec fn out_edges(edges: Seq<(usize, usize, usize)>, u: usize, k: nat) -> Seq<(usize, usize)>
    decreases k,
{
    if k == 0 || k > edges.len() {
        Seq::empty()
    } else {
        let prev = out_edges(edges, u, (k - 1) as nat);
        if edges[k - 1].0 == u {
            prev.push(((k - 1) as usize, edges[k - 1].1))
        } else {
            prev
        }
    }
}

/// Out-adjacency lists of the `n` nodes.
pub open spec fn adjacency(edges: Seq<(usize, usize, usize)>, n: nat) -> Seq<Seq<(usize, usize)>> {
    Seq::new(n, |u: int| out_edges(edges, u as usize, edges.len() as nat))
}

/// Visit `node`: mark it, scan its edges in order, then take it off the path.
/// `fuel` bounds the depth of the search.
pub open spec fn dfs_visit(adj: Seq<Seq<(usize, usize)>>, node: int, s: DfsState, fuel: nat) -> DfsState
    decreases fuel, 0int, 0int,
{
    if fuel == 0 {
        s
    } else {
        let s1 = DfsState {
            visited: s.visited.update(node, true),
            in_stack: s.in_stack.update(node, true),
            back: s.back,
        };
        let s2 = dfs_scan(adj, node, 0, s1, (fuel - 1) as nat);
        DfsState { visited: s2.visited, in_stack: s2.in_stack.update(node, false), back: s2.back }
    }
}

/// Scan the edges of `node` from position `j`: descend into unvisited
/// targets, record an edge to a node on the path as a back-edge.
pub open spec fn dfs_scan(adj: Seq<Seq<(usize, usize)>>, node: int, j: int, s: DfsState, fuel: nat) -> DfsState
    decreases fuel, 1int, adj[node].len() - j,
{
    if j < 0 || j >= adj[node].len() {
        s
    } else {
        let e = adj[node][j].0;
        let t = adj[node][j].1 as int;
        let s1 = if !s.visited[t] {
            dfs_visit(adj, t, s, fuel)
        } else if s.in_stack[t] {
            DfsState { visited: s.visited, in_stack: s.in_stack, back: s.back.insert(e) }
        } else {
            s
        };
        dfs_scan(adj, node, j + 1, s1, fuel)
    }
}

/// The search started from every still-unvisited node among the first `k`, in order.
pub open spec fn dfs_starts(adj: Seq<Seq<(usize, usize)>>, k: nat, s: DfsState) -> DfsState
    decreases k,
{
    if k == 0 {
        s
    } else {
        let s1 = dfs_starts(adj, (k - 1) as nat, s);
        if !s1.visited[k - 1] {
            dfs_visit(adj, k - 1, s1, adj.len() as nat)
        } else {
            s1
        }
    }
}

/// The back-edges of the depth-first search of `g`: nodes are started in
/// index order and each node's edges are followed in index order.
pub open spec fn dfs_back_edge_set(g: &LayoutGraph) -> Set<usize> {
    let n = g.node_ids.len() as nat;
    dfs_starts(
        adjacency(g.edges@, n),
        n,
        DfsState {
            visited: Seq::new(n, |i: int| false),
            in_stack: Seq::new(n, |i: int| false),
            back: Set::empty(),
        },
    ).back
}

/// The rows of `adj`, as sequences.
pub open spec fn rows(adj: Seq<Vec<(usize, usize)>>) -> Seq<Seq<(usize, usize)>> {
    adj.map_values(|r: Vec<(usize, usize)>| r@)
}

/// Depth-first search from `node`, recording back-edges.
fn dfs_find_back_edges(
    node: usize,
    adj: &Vec<Vec<(usize, usize)>>,
    visited: &mut Vec<bool>,
    in_stack: &mut Vec<bool>,
    back_edges: &mut BTreeSet<usize>,
    Ghost(edges): Ghost<Seq<(usize, usize, usize)>>,
    Ghost(f0): Ghost<Seq<int>>,
    Ghost(t0): Ghost<int>,
    Ghost(fuel): Ghost<nat>,
) -> (res: Ghost<(Seq<int>, int)>)
    requires
        node < adj.len(),
        is_out_adjacency(adj@, edges),
        !old(visited)@[node as int],
        fuel + count_true(old(visited)@) >= adj.len(),
        dfs_inv(adj.len() as nat, edges, old(visited)@, old(in_stack)@, old(back_edges)@, f0, t0),
    ensures
        dfs_inv(adj.len() as nat, edges, final(visited)@, final(in_stack)@, final(back_edges)@, res@.0, res@.1),
        final(in_stack)@ == old(in_stack)@,
        final(visited)@[node as int],
        forall|x: int| 0 <= x < adj.len() && #[trigger] old(visited)@[x] ==> final(visited)@[x],
        forall|x: int| 0 <= x < adj.len() && f0[x] >= 0 ==> #[trigger] res@.0[x] == f0[x],
        forall|x: int| 0 <= x < adj.len() && #[trigger] res@.0[x] >= 0 ==> f0[x] >= 0 || !old(visited)@[x],
        forall|e: usize| #[trigger] final(back_edges)@.contains(e) ==> old(back_edges)@.contains(e) || !old(visited)@[edges[e as int].0 as int],
        forall|e: usize| #[trigger] old(back_edges)@.contains(e) ==> final(back_edges)@.contains(e),
        t0 <= res@.1,
        (DfsState { visited: final(visited)@, in_stack: final(in_stack)@, back: final(back_edges)@ }) == dfs_visit(
            rows(adj@),
            node as int,
            DfsState { visited: old(visited)@, in_stack: old(in_stack)@, back: old(back_edges)@ },
            fuel,
        ),
    decreases adj.len() - count_true(old(visited)@),
{
    let ghost n = adj.len() as nat;
    let ghost vis0 = visited@;
    let ghost stk0 = in_stack@;
    let ghost back0 = back_edges@;
    proof {
        lemma_count_true_set(visited@, node as int);
        lemma_count_true_bound(visited@.update(node as int, true));
    }
    visited.set(node, true);
    in_stack.set(node, true);
    let ghost mut f = f0;
    let ghost mut time = t0;
    let ghost adjr = rows(adj@);
    let ghost s1 = DfsState { visited: vis0.update(node as int, true), in_stack: stk0.update(node as int, true), back: back0 };
    let row = &adj[node];
    let mut j: usize = 0;
    while j < row.len()
        invariant
            node < n,
            n == adj.len(),
            is_out_adjacency(adj@, edges),
            row@ == adj@[node as int]@,
            j <= row.len(),
            visited.len() == n,
            in_stack@ == stk0.update(node as int, true),
            visited@[node as int],
            f[node as int] == -1,
            !vis0[node as int],
            vis0 == old(visited)@,
            count_true(visited@) >= count_true(vis0) + 1,
            fuel + count_true(vis0) >= n,
            fuel >= 1,
            adjr == rows(adj@),
            s1 == (DfsState { visited: vis0.update(node as int, true), in_stack: stk0.update(node as int, true), back: back0 }),
            dfs_scan(adjr, node as int, 0, s1, (fuel - 1) as nat) == dfs_scan(
                adjr,
                node as int,
                j as int,
                DfsState { visited: visited@, in_stack: in_stack@, back: back_edges@ },
                (fuel - 1) as nat,
            ),
            dfs_inv(n, edges, visited@, in_stack@, back_edges@, f, time),
            forall|x: int| 0 <= x < n && #[trigger] vis0[x] ==> visited@[x],
            forall|x: int| 0 <= x < n && f0[x] >= 0 ==> #[trigger] f[x] == f0[x],
            forall|x: int| 0 <= x < n && #[trigger] f[x] >= 0 ==> f0[x] >= 0 || !vis0[x],
            forall|e: usize| #[trigger] back_edges@.contains(e) ==> back0.contains(e) || !vis0[edges[e as int].0 as int],
            forall|e: usize| #[trigger] back0.contains(e) ==> back_edges@.contains(e),
            t0 <= time,
            forall|e: usize|
                #[trigger] back_edges@.contains(e) && edges[e as int].0 == node ==> in_stack@[edges[e as int].1 as int]
                    && f[edges[e as int].1 as int] < 0,
            forall|k: int|
                0 <= k < j ==> {
                    let e = (#[trigger] row@[k]).0;
                    let y = row@[k].1 as int;
                    &&& back_edges@.contains(e) ==> in_stack@[y] && f[y] < 0
                    &&& !back_edges@.contains(e) ==> f[y] >= 0
                },
        decreases row.len() - j,
    {
        let (edge_idx, target) = row[j];
        let ghost cur = DfsState { visited: visited@, in_stack: in_stack@, back: back_edges@ };
        proof {
            assert(edges[edge_idx as int].0 == node);
            assert(target < n);
            assert(adjr[node as int] == row@);
        }
        if !visited[target] {
            proof {
                assert(!back_edges@.contains(edge_idx));
            }
            let ghost vis_before = visited@;
            let ghost f_before = f;
            let ghost back_before = back_edges@;
            proof {
                lemma_count_true_bound(visited@);
                assert(adj.len() - count_true(visited@) < adj.len() - count_true(vis0));
            }
            let res = dfs_find_back_edges(
                target,
                adj,
                visited,
                in_stack,
                back_edges,
                Ghost(edges),
                Ghost(f),
                Ghost(time),
                Ghost((fuel - 1) as nat),
            );
            proof {
                f = res@.0;
                time = res@.1;
                lemma_count_true_mono(vis_before, visited@);
                assert(!back_edges@.contains(edge_idx));
                assert forall|e: usize| #[trigger] back_edges@.contains(e) implies back0.contains(e) || !vis0[edges[e as int].0 as int] by {
                    if !back_before.contains(e) {
                        let x = edges[e as int].0 as int;
                        if vis0[x] {
                            assert(vis_before[x]);
                        }
                    }
                }
                assert forall|k: int| 0 <= k < j + 1 implies {
                    let e = (#[trigger] row@[k]).0;
                    let y = row@[k].1 as int;
                    &&& back_edges@.contains(e) ==> in_stack@[y] && f[y] < 0
                    &&& !back_edges@.contains(e) ==> f[y] >= 0
                } by {
                    let e = row@[k].0;
                    let y = row@[k].1 as int;
                    if k < j {
                        if back_edges@.contains(e) {
                            if !back_before.contains(e) {
                                assert(edges[e as int].0 == node);
                            }
                            assert(vis_before[y]);
                        } else {
                            assert(!back_before.contains(e));
                        }
                    }
                }
            }
        } else if in_stack[target] {
            edge_set_insert(back_edges, edge_idx);
            proof {
                assert forall|k: int| 0 <= k < j + 1 implies {
                    let e = (#[trigger] row@[k]).0;
                    let y = row@[k].1 as int;
                    &&& back_edges@.contains(e) ==> in_stack@[y] && f[y] < 0
                    &&& !back_edges@.contains(e) ==> f[y] >= 0
                } by {
                    let e = row@[k].0;
                    if e == edge_idx {
                        assert(row@[k].1 == edges[e as int].1);
                    }
                }
                assert forall|e: int|
                    0 <= e < edges.len() && f[(#[trigger] edges[e]).0 as int] >= 0 implies edge_classified(
                    edges,
                    back_edges@,
                    in_stack@,
                    f,
                    e,
                ) by {
                    if e as usize == edge_idx {
                        assert(edges[e].0 == node);
                    }
                }
            }
        } else {
            proof {
                assert forall|k: int| 0 <= k < j + 1 implies {
                    let e = (#[trigger] row@[k]).0;
                    let y = row@[k].1 as int;
                    &&& back_edges@.contains(e) ==> in_stack@[y] && f[y] < 0
                    &&& !back_edges@.contains(e) ==> f[y] >= 0
                } by {
                    let e = row@[k].0;
                    assert(edges[e as int].0 == node);
                }
            }
        }
        j = j + 1;
    }
    proof {
        assert(dfs_scan(adjr, node as int, j as int, DfsState { visited: visited@, in_stack: in_stack@, back: back_edges@ }, (fuel - 1) as nat)
            == (DfsState { visited: visited@, in_stack: in_stack@, back: back_edges@ }));
    }
    in_stack.set(node, false);
    proof {
        let old_f = f;
        f = f.update(node as int, time);
        assert forall|e: int|
            0 <= e < edges.len() && f[(#[trigger] edges[e]).0 as int] >= 0 implies edge_classified(
            edges,
            back_edges@,
            in_stack@,
            f,
            e,
        ) by {
            let x = edges[e].0 as int;
            let y = edges[e].1 as int;
            if x == node {
                let k = choose|k: int| 0 <= k < adj@[node as int]@.len() && #[trigger] adj@[node as int]@[k].0 == e;
                assert(row@[k].0 == e);
                assert(row@[k].1 == y);
            } else {
                assert(old_f[x] >= 0);
                assert(edge_classified(edges, back_edges@, stk0.update(node as int, true), old_f, e));
            }
        }
        time = time + 1;
        assert(in_stack@ =~= stk0);
    }
    Ghost((f, time))
}

/// Edge `x` appears in the adjacency list of its source.
pub open spec fn edge_listed(adj: Seq<Vec<(usize, usize)>>, edges: Seq<(usize, usize, usize)>, x: int) -> bool {
    exists|k: int| 0 <= k < adj[edges[x].0 as int]@.len() && #[trigger] adj[edges[x].0 as int]@[k].0 == x
}

/// Out-adjacency lists `(edge, target)` of every node, edges in index order.
fn build_out_adjacency(graph: &LayoutGraph) -> (adj: Vec<Vec<(usize, usize)>>)
    requires
        graph.wf(),
    ensures
        adj.len() == graph.node_ids.len(),
        is_out_adjacency(adj@, graph.edges@),
        rows(adj@) == adjacency(graph.edges@, graph.node_ids.len() as nat),
{
    let n = graph.node_ids.len();
    let m = graph.edges.len();
    let ghost edges = graph.edges@;
    let mut adj: Vec<Vec<(usize, usize)>> = Vec::new();
    let mut i: usize = 0;
    while i < n
        invariant
            i <= n,
            adj.len() == i,
            forall|j: int| 0 <= j < i ==> (#[trigger] adj@[j])@.len() == 0,
        decreases n - i,
    {
        adj.push(Vec::new());
        i = i + 1;
    }
    let mut e: usize = 0;
    while e < m
        invariant
            graph.wf(),
            n == graph.node_ids.len(),
            m == graph.edges.len(),
            edges == graph.edges@,
            adj.len() == n,
            e <= m,
            forall|u: int, k: int|
                0 <= u < adj.len() && 0 <= k < adj@[u]@.len() ==> (#[trigger] adj@[u]@[k]).0 < e
                    && edges[adj@[u]@[k].0 as int].0 == u && adj@[u]@[k].1 == edges[adj@[u]@[k].0 as int].1,
            forall|x: int| 0 <= x < e ==> #[trigger] edge_listed(adj@, edges, x),
            forall|u: int| 0 <= u < n ==> (#[trigger] adj@[u])@ == out_edges(edges, u as usize, e as nat),
        decreases m - e,
    {
        let (from, to, _) = graph.edges[e];
        let ghost before = adj@;
        adj[from].push((e, to));
        proof {
            assert forall|u: int| 0 <= u < n implies (#[trigger] adj@[u])@ == out_edges(edges, u as usize, (e + 1) as nat) by {
                assert(edges[e as int] == graph.edges@[e as int]);
                if u != from {
                    assert(adj@[u] == before[u]);
                }
            }
            assert forall|x: int| 0 <= x < e + 1 implies #[trigger] edge_listed(adj@, edges, x) by {
                if x < e {
                    assert(edge_listed(before, edges, x));
                    let u = edges[x].0 as int;
                    let k = choose|k: int| 0 <= k < before[u]@.len() && #[trigger] before[u]@[k].0 == x;
                    assert(adj@[u]@[k] == before[u]@[k]);
                } else {
                    assert(adj@[from as int]@[before[from as int]@.len() as int].0 == x);
                }
            }
            assert forall|u: int, k: int|
                0 <= u < adj.len() && 0 <= k < adj@[u]@.len() implies (#[trigger] adj@[u]@[k]).0 < e + 1
                    && edges[adj@[u]@[k].0 as int].0 == u && adj@[u]@[k].1 == edges[adj@[u]@[k].0 as int].1 by {
                if u != from || k < before[u]@.len() {
                    assert(adj@[u]@[k] == before[u]@[k]);
                }
            }
        }
        e = e + 1;
    }
    proof {
        assert forall|x: int| 0 <= x < edges.len() implies (#[trigger] edges[x]).0 < adj.len() && edges[x].1
            < adj.len() && exists|k: int|
            0 <= k < adj@[edges[x].0 as int]@.len() && #[trigger] adj@[edges[x].0 as int]@[k].0 == x by {
            assert(edge_listed(adj@, edges, x));
        }
        assert(rows(adj@) =~= adjacency(graph.edges@, n as nat));
    }
    adj
}

/// `f` orders the nodes (distinct non-negative finishing times) and `back` is
/// exactly the set of edges whose target finishes no earlier than their source.
pub open spec fn finish_order_splits(edges: Seq<(usize, usize, usize)>, back: Set<usize>, f: Seq<int>) -> bool {
    &&& forall|x: int| 0 <= x < f.len() ==> #[trigger] f[x] >= 0
    &&& forall|x: int, y: int| 0 <= x < f.len() && 0 <= y < f.len() && #[trigger] f[x] == #[trigger] f[y] ==> x == y
    &&& forall|e: usize| #[trigger] back.contains(e) ==> e < edges.len()
    &&& forall|e: int|
        0 <= e < edges.len() ==> (back.contains(e as usize) <==> f[(#[trigger] edges[e]).0 as int] <= f[edges[e].1 as int])
}

/// `back` is the back-edge set of a depth-first search of the `n` nodes.
pub open spec fn is_dfs_back_edge_set(edges: Seq<(usize, usize, usize)>, n: nat, back: Set<usize>) -> bool {
    exists|f: Seq<int>| f.len() == n && #[trigger] finish_order_splits(edges, back, f)
}

/// Back-edges of a depth-first search started from every unvisited node in index order.
fn dfs_back_edges(graph: &LayoutGraph) -> (back: BTreeSet<usize>)
    requires
        graph.wf(),
    ensures
        back@ == dfs_back_edge_set(graph),
        is_dfs_back_edge_set(graph.edges@, graph.node_ids.len() as nat, back@),
{
    let n = graph.node_ids.len();
    let ghost edges = graph.edges@;
    let adj = build_out_adjacency(graph);
    let mut visited: Vec<bool> = Vec::new();
    let mut in_stack: Vec<bool> = Vec::new();
    let ghost mut f: Seq<int> = Seq::empty();
    let mut i: usize = 0;
    while i < n
        invariant
            i <= n,
            visited@ == Seq::new(i as nat, |j: int| false),
            in_stack@ == Seq::new(i as nat, |j: int| false),
            f =~= Seq::new(i as nat, |j: int| -1int),
        decreases n - i,
    {
        visited.push(false);
        in_stack.push(false);
        proof {
            f = f.push(-1);
        }
        i = i + 1;
    }
    let mut back_edges: BTreeSet<usize> = BTreeSet::new();
    let ghost mut time: int = 0;
    let ghost init = DfsState { visited: visited@, in_stack: in_stack@, back: back_edges@ };
    let ghost adjr = rows(adj@);
    proof {
        assert(init == (DfsState {
            visited: Seq::new(n as nat, |i: int| false),
            in_stack: Seq::new(n as nat, |i: int| false),
            back: Set::empty(),
        }));
    }
    let mut start: usize = 0;
    while start < n
        invariant
            n == adj.len(),
            adjr == rows(adj@),
            adjr == adjacency(edges, n as nat),
            init == (DfsState {
                visited: Seq::new(n as nat, |i: int| false),
                in_stack: Seq::new(n as nat, |i: int| false),
                back: Set::empty(),
            }),
            (DfsState { visited: visited@, in_stack: in_stack@, back: back_edges@ }) == dfs_starts(adjr, start as nat, init),
            is_out_adjacency(adj@, edges),
            start <= n,
            dfs_inv(n as nat, edges, visited@, in_stack@, back_edges@, f, time),
            forall|x: int| 0 <= x < n ==> !(#[trigger] in_stack@[x]),
            forall|x: int| 0 <= x < start ==> #[trigger] visited@[x],
        decreases n - start,
    {
        let ghost vis_before = visited@;
        if !visited[start] {
            proof {
                lemma_count_true_bound(visited@);
            }
            let res = dfs_find_back_edges(
                start,
                &adj,
                &mut visited,
                &mut in_stack,
                &mut back_edges,
                Ghost(edges),
                Ghost(f),
                Ghost(time),
                Ghost(n as nat),
            );
            proof {
                f = res@.0;
                time = res@.1;
                assert forall|x: int| 0 <= x < start + 1 implies #[trigger] visited@[x] by {
                    if x < start {
                        assert(vis_before[x]);
                    }
                }
            }
        }
        start = start + 1;
    }
    proof {
        assert(finish_order_splits(edges, back_edges@, f)) by {
            assert forall|x: int| 0 <= x < f.len() implies #[trigger] f[x] >= 0 by {
                assert(visited@[x] && !in_stack@[x]);
            }
            assert forall|e: int| 0 <= e < edges.len() implies (back_edges@.contains(e as usize) <==> f[(
            #[trigger] edges[e]).0 as int] <= f[edges[e].1 as int]) by {
                let x = edges[e].0 as int;
                assert(visited@[x] && !in_stack@[x]);
                assert(edge_classified(edges, back_edges@, in_stack@, f, e));
            }
        }
    }
    back_edges
}

// ---------------------------------------------------------------------------
// Compound-level feedback edges
// ---------------------------------------------------------------------------

/// A cross-compound edge; `from` and `to` are positions in the compound list.
#[derive(Clone, Copy)]
pub struct CompoundEdge {
    pub edge_idx: usize,
    pub from: usize,
    pub to: usize,
    pub from_rank: usize,
    pub to_rank: usize,
}

/// A compound-level edge that closes a compound-level cycle.
#[derive(Clone, Copy)]
pub struct CompoundFeedbackCandidate {
    pub edge_idx: usize,
    pub from_rank: usize,
    pub to_rank: usize,
}

/// Semantic rank of compound `c`: its semantic order, else its model order,
/// else its node index.
pub open spec fn compound_rank(g: &LayoutGraph, c: usize) -> usize {
    match g.compound_semantic_order@[c as int] {
        Some(r) => r,
        None => match g.model_order@[c as int] {
            Some(r) => r,
            None => c,
        },
    }
}

/// Compound-level edges of the first `k` edges that are not in `back` and join
/// two different compounds.
pub open spec fn cross_edges_upto(g: &LayoutGraph, back: Set<usize>, k: nat) -> Seq<CompoundEdge>
    decreases k,
{
    if k == 0 || k > g.edges.len() {
        Seq::empty()
    } else {
        let prev = cross_edges_upto(g, back, (k - 1) as nat);
        let e = k - 1;
        let from = g.edges@[e].0;
        let to = g.edges@[e].1;
        let cs = g.compound_nodes@;
        if back.contains(e as usize) {
            prev
        } else {
            match (g.parents@[from as int], g.parents@[to as int]) {
                (Some(fc), Some(tc)) => if fc != tc {
                    match (compound_pos(cs, fc), compound_pos(cs, tc)) {
                        (Some(lf), Some(lt)) => prev.push(
                            CompoundEdge {
                                edge_idx: e as usize,
                                from: lf as usize,
                                to: lt as usize,
                                from_rank: compound_rank(g, fc),
                                to_rank: compound_rank(g, tc),
                            },
                        ),
                        _ => prev,
                    }
                } else {
                    prev
                },
                _ => prev,
            }
        }
    }
}

/// Compound-level edges of all edges not in `back`.
pub open spec fn cross_edges(g: &LayoutGraph, back: Set<usize>) -> Seq<CompoundEdge> {
    cross_edges_upto(g, back, g.edges.len() as nat)
}

/// Some compound edge other than `skip` runs from `u` to `v`.
pub open spec fn compound_step(cedges: Seq<CompoundEdge>, skip: usize, u: usize, v: usize) -> bool {
    exists|i: int|
        0 <= i < cedges.len() && (#[trigger] cedges[i]).edge_idx != skip && cedges[i].from == u && cedges[i].to == v
}

/// `path` follows compound edges other than `skip`.
pub open spec fn compound_walk(cedges: Seq<CompoundEdge>, skip: usize, path: Seq<usize>) -> bool {
    forall|j: int| 0 <= j < path.len() - 1 ==> #[trigger] compound_step(cedges, skip, path[j], path[j + 1])
}

/// `to` is reachable from `from` (possibly in zero steps) without edge `skip`.
pub open spec fn compound_reaches(cedges: Seq<CompoundEdge>, skip: usize, from: usize, to: usize) -> bool {
    exists|path: Seq<usize>|
        path.len() >= 1 && path[0] == from && path.last() == to && #[trigger] compound_walk(cedges, skip, path)
}

/// Every compound edge joins compounds below `nc`.
pub open spec fn compound_edges_in_range(cedges: Seq<CompoundEdge>, nc: nat) -> bool {
    forall|i: int| 0 <= i < cedges.len() ==> (#[trigger] cedges[i]).from < nc && cedges[i].to < nc
}

/// Every visited node's successors (avoiding `skip`) are visited.
pub open spec fn walk_closed(cedges: Seq<CompoundEdge>, skip: usize, visited: Seq<bool>) -> bool {
    forall|i: int|
        0 <= i < cedges.len() && (#[trigger] cedges[i]).edge_idx != skip && visited[cedges[i].from as int]
            ==> visited[cedges[i].to as int]
}

proof fn lemma_walk_closed(cedges: Seq<CompoundEdge>, skip: usize, visited: Seq<bool>, path: Seq<usize>)
    requires
        walk_closed(cedges, skip, visited),
        path.len() >= 1,
        visited[path[0] as int],
        compound_walk(cedges, skip, path),
    ensures
        visited[path.last() as int],
    decreases path.len(),
{
    if path.len() >= 2 {
        let q = path.drop_last();
        assert forall|j: int| 0 <= j < q.len() - 1 implies #[trigger] compound_step(cedges, skip, q[j], q[j + 1]) by {
            assert(compound_step(cedges, skip, path[j], path[j + 1]));
        }
        lemma_walk_closed(cedges, skip, visited, q);
        let j = path.len() - 2;
        assert(compound_step(cedges, skip, path[j], path[j + 1]));
        let i = choose|i: int|
            0 <= i < cedges.len() && (#[trigger] cedges[i]).edge_idx != skip && cedges[i].from == path[j]
                && cedges[i].to == path[j + 1];
    }
}

/// Whether compound `to` is reachable from `from` without using edge `skip_edge_idx`.
fn compound_path_exists(
    compound_count: usize,
    compound_edges: &Vec<CompoundEdge>,
    skip_edge_idx: usize,
    from: usize,
    to: usize,
) -> (r: bool)
    requires
        from < compound_count,
        to < compound_count,
        compound_edges_in_range(compound_edges@, compound_count as nat),
    ensures
        r == compound_reaches(compound_edges@, skip_edge_idx, from, to),
{
    let ghost ce = compound_edges@;
    let ghost skip = skip_edge_idx;
    if from == to {
        proof {
            let path = seq![from];
            assert(compound_walk(ce, skip, path));
        }
        return true;
    }
    let mut visited: Vec<bool> = Vec::new();
    let mut i: usize = 0;
    while i < compound_count
        invariant
            i <= compound_count,
            visited@ == Seq::new(i as nat, |j: int| false),
        decreases compound_count - i,
    {
        visited.push(false);
        i = i + 1;
    }
    proof {
        lemma_count_true_all_false(compound_count as nat);
    }
    let mut stack: Vec<usize> = Vec::new();
    stack.push(from);
    let ghost mut paths: Seq<Seq<usize>> = seq![seq![from]];
    proof {
        assert(compound_walk(ce, skip, paths[0]));
        assert(stack@[0] == from);
        assert(stack@.contains(from));
    }
    while stack.len() > 0
        invariant
            from < compound_count,
            to < compound_count,
            from != to,
            ce == compound_edges@,
            skip == skip_edge_idx,
            compound_edges_in_range(ce, compound_count as nat),
            visited.len() == compound_count,
            paths.len() == stack.len(),
            forall|t: int| 0 <= t < stack.len() ==> #[trigger] stack@[t] < compound_count,
            forall|t: int|
                0 <= t < stack.len() ==> #[trigger] paths[t].len() >= 1 && paths[t][0] == from
                    && paths[t].last() == stack@[t] && compound_walk(ce, skip, paths[t]),
            !visited@[to as int],
            visited@[from as int] || stack@.contains(from),
            forall|i: int|
                0 <= i < ce.len() && (#[trigger] ce[i]).edge_idx != skip && visited@[ce[i].from as int]
                    ==> visited@[ce[i].to as int] || stack@.contains(ce[i].to),
        decreases compound_count - count_true(visited@), stack.len(),
    {
        let ghost popped_from = stack@;
        let node = stack.pop().unwrap();
        let ghost path = paths.last();
        proof {
            paths = paths.drop_last();
            lemma_count_true_bound(visited@);
            assert(stack@ =~= popped_from.drop_last());
            assert(node == popped_from.last());
            assert forall|x: usize| popped_from.contains(x) && x != node implies stack@.contains(x) by {
                let t = choose|t: int| 0 <= t < popped_from.len() && popped_from[t] == x;
                assert(stack@[t] == x);
            }
        }
        if node == to {
            proof {
                assert(compound_walk(ce, skip, path));
            }
            return true;
        }
        if visited[node] {
            proof {
                assert forall|i: int|
                    0 <= i < ce.len() && (#[trigger] ce[i]).edge_idx != skip && visited@[ce[i].from as int] implies visited@[ce[i].to
                        as int] || stack@.contains(ce[i].to) by {
                    assert(popped_from.contains(ce[i].to) ==> ce[i].to == node || stack@.contains(ce[i].to));
                }
            }
            continue;
        }
        proof {
            lemma_count_true_set(visited@, node as int);
        }
        visited.set(node, true);
        proof {
            lemma_count_true_bound(visited@);
            assert forall|i: int|
                0 <= i < ce.len() && (#[trigger] ce[i]).edge_idx != skip && visited@[ce[i].from as int]
                    && (ce[i].from != node || i < 0) implies visited@[ce[i].to as int] || stack@.contains(ce[i].to) by {
                assert(popped_from.contains(ce[i].to) ==> ce[i].to == node || stack@.contains(ce[i].to));
            }
        }
        let mut k: usize = 0;
        while k < compound_edges.len()
            invariant
                from < compound_count,
                to < compound_count,
                from != to,
                ce == compound_edges@,
                skip == skip_edge_idx,
                compound_edges_in_range(ce, compound_count as nat),
                node < compound_count,
                node != to,
                visited@[node as int],
                visited.len() == compound_count,
                paths.len() == stack.len(),
                path.len() >= 1 && path[0] == from && path.last() == node && compound_walk(ce, skip, path),
                forall|t: int| 0 <= t < stack.len() ==> #[trigger] stack@[t] < compound_count,
                forall|t: int|
                    0 <= t < stack.len() ==> #[trigger] paths[t].len() >= 1 && paths[t][0] == from
                        && paths[t].last() == stack@[t] && compound_walk(ce, skip, paths[t]),
                !visited@[to as int],
                visited@[from as int] || stack@.contains(from),
                k <= ce.len(),
                forall|i: int|
                    0 <= i < ce.len() && (#[trigger] ce[i]).edge_idx != skip && visited@[ce[i].from as int]
                        && (ce[i].from != node || i < k) ==> visited@[ce[i].to as int] || stack@.contains(ce[i].to),
            decreases ce.len() - k,
        {
            let edge = compound_edges[k];
            if edge.edge_idx != skip_edge_idx && edge.from == node {
                if !visited[edge.to] {
                    let ghost old_stack = stack@;
                    stack.push(edge.to);
                    proof {
                        let np = path.push(edge.to);
                        assert forall|j: int| 0 <= j < np.len() - 1 implies #[trigger] compound_step(
                            ce,
                            skip,
                            np[j],
                            np[j + 1],
                        ) by {
                            if j < path.len() - 1 {
                                assert(compound_step(ce, skip, path[j], path[j + 1]));
                            } else {
                                assert(ce[k as int] == edge);
                            }
                        }
                        paths = paths.push(np);
                        assert forall|t: int| 0 <= t < old_stack.len() implies stack@[t] == old_stack[t] by {}
                        assert(stack@[old_stack.len() as int] == edge.to);
                        assert forall|x: usize| old_stack.contains(x) implies stack@.contains(x) by {
                            let t = choose|t: int| 0 <= t < old_stack.len() && old_stack[t] == x;
                            assert(stack@[t] == x);
                        }
                    }
                }
            }
            k = k + 1;
        }
    }
    proof {
        assert(walk_closed(ce, skip, visited@));
        if compound_reaches(ce, skip, from, to) {
            let p = choose|p: Seq<usize>|
                p.len() >= 1 && p[0] == from && p.last() == to && #[trigger] compound_walk(ce, skip, p);
            lemma_walk_closed(ce, skip, visited@, p);
        }
    }
    false
}

/// Compound edge `c` closes a compound-level cycle: its target reaches its
/// source through the other compound edges.
pub open spec fn is_candidate(cedges: Seq<CompoundEdge>, c: CompoundEdge) -> bool {
    compound_reaches(cedges, c.edge_idx, c.to, c.from)
}

/// The edge runs against the semantic order of the compounds.
pub open spec fn semantic_backward(c: CompoundEdge) -> bool {
    c.from_rank > c.to_rank
}

/// `a` is at least as good a feedback edge as `b`: backward edges first, the
/// widest backward span first; otherwise the smallest forward gap; ties go to
/// the lower edge index.
pub open spec fn preferred(a: CompoundEdge, b: CompoundEdge) -> bool {
    if semantic_backward(a) && semantic_backward(b) {
        a.from_rank - a.to_rank > b.from_rank - b.to_rank || (a.from_rank - a.to_rank == b.from_rank
            - b.to_rank && a.edge_idx <= b.edge_idx)
    } else if semantic_backward(a) {
        true
    } else if semantic_backward(b) {
        false
    } else {
        a.to_rank - a.from_rank < b.to_rank - b.from_rank || (a.to_rank - a.from_rank == b.to_rank
            - b.from_rank && a.edge_idx <= b.edge_idx)
    }
}

/// `cedges[i]` is a candidate preferred to every other candidate.
pub open spec fn best_candidate(cedges: Seq<CompoundEdge>, i: int) -> bool {
    &&& 0 <= i < cedges.len()
    &&& is_candidate(cedges, cedges[i])
    &&& forall|j: int| 0 <= j < cedges.len() && is_candidate(cedges, #[trigger] cedges[j]) ==> preferred(cedges[i], cedges[j])
}

/// The feedback edge the selection picks, if any compound-level cycle remains.
pub open spec fn select_spec(cedges: Seq<CompoundEdge>) -> Option<usize> {
    if exists|i: int| best_candidate(cedges, i) {
        Some(cedges[choose|i: int| best_candidate(cedges, i)].edge_idx)
    } else {
        None
    }
}

proof fn lemma_best_unique(cedges: Seq<CompoundEdge>, i: int, j: int)
    requires
        best_candidate(cedges, i),
        best_candidate(cedges, j),
    ensures
        cedges[i].edge_idx == cedges[j].edge_idx,
{
    assert(preferred(cedges[i], cedges[j]));
    assert(preferred(cedges[j], cedges[i]));
}

/// The compound edge a candidate came from, compared on the fields the choice uses.
pub open spec fn same_choice(k: CompoundFeedbackCandidate, c: CompoundEdge) -> bool {
    k.edge_idx == c.edge_idx && k.from_rank == c.from_rank && k.to_rank == c.to_rank
}

/// Pick the compound-level feedback edge to reverse next, if any cycle remains.
fn select_compound_feedback_edge(compound_count: usize, compound_edges: &Vec<CompoundEdge>) -> (r: Option<
    usize,
>)
    requires
        compound_edges_in_range(compound_edges@, compound_count as nat),
    ensures
        r == select_spec(compound_edges@),
{
    let ghost ce = compound_edges@;
    let mut candidates: Vec<CompoundFeedbackCandidate> = Vec::new();
    let ghost mut origin: Seq<int> = Seq::empty();
    let mut i: usize = 0;
    while i < compound_edges.len()
        invariant
            ce == compound_edges@,
            compound_edges_in_range(ce, compound_count as nat),
            i <= ce.len(),
            origin.len() == candidates.len(),
            forall|t: int|
                0 <= t < candidates.len() ==> 0 <= #[trigger] origin[t] < ce.len() && is_candidate(ce, ce[origin[t]])
                    && same_choice(candidates@[t], ce[origin[t]]),
            forall|j: int|
                0 <= j < i && is_candidate(ce, #[trigger] ce[j]) ==> exists|t: int|
                    0 <= t < candidates.len() && #[trigger] origin[t] == j,
        decreases ce.len() - i,
    {
        let edge = compound_edges[i];
        let ghost origin_before = origin;
        let found = compound_path_exists(compound_count, compound_edges, edge.edge_idx, edge.to, edge.from);
        if found {
            candidates.push(
                CompoundFeedbackCandidate {
                    edge_idx: edge.edge_idx,
                    from_rank: edge.from_rank,
                    to_rank: edge.to_rank,
                },
            );
            proof {
                origin = origin.push(i as int);
                assert(origin[origin.len() - 1] == i);
            }
        }
        proof {
            assert forall|j: int|
                0 <= j < i + 1 && is_candidate(ce, #[trigger] ce[j]) implies exists|t: int|
                    0 <= t < candidates.len() && #[trigger] origin[t] == j by {
                if j < i {
                    let t = choose|t: int| 0 <= t < origin_before.len() && #[trigger] origin_before[t] == j;
                    assert(origin[t] == j);
                } else {
                    assert(ce[j] == edge);
                    assert(origin[origin.len() - 1] == j);
                }
            }
        }
        i = i + 1;
    }
    // The widest semantic-backward candidate, lowest edge index on ties.
    let mut best: Option<usize> = None;
    let mut t: usize = 0;
    while t < candidates.len()
        invariant
            t <= candidates.len(),
            origin.len() == candidates.len(),
            forall|u: int|
                0 <= u < candidates.len() ==> 0 <= #[trigger] origin[u] < ce.len() && is_candidate(ce, ce[origin[u]])
                    && same_choice(candidates@[u], ce[origin[u]]),
            match best {
                Some(b) => b < t && semantic_backward(ce[origin[b as int]]) && forall|u: int|
                    0 <= u < t && semantic_backward(#[trigger] ce[origin[u]]) ==> preferred(
                        ce[origin[b as int]],
                        ce[origin[u]],
                    ),
                None => forall|u: int| 0 <= u < t ==> !semantic_backward(#[trigger] ce[origin[u]]),
            },
        decreases candidates.len() - t,
    {
        let c = candidates[t];
        if c.from_rank > c.to_rank {
            match best {
                None => {
                    best = Some(t);
                },
                Some(b) => {
                    let cur = candidates[b];
                    let c_span = c.from_rank - c.to_rank;
                    let b_span = cur.from_rank - cur.to_rank;
                    if c_span > b_span || (c_span == b_span && c.edge_idx < cur.edge_idx) {
                        best = Some(t);
                    }
                },
            }
        }
        t = t + 1;
    }
    if best.is_none() {
        // No semantic-backward candidate: the one that least violates the order.
        let mut u: usize = 0;
        while u < candidates.len()
            invariant
                u <= candidates.len(),
                origin.len() == candidates.len(),
                forall|w: int|
                    0 <= w < candidates.len() ==> 0 <= #[trigger] origin[w] < ce.len() && is_candidate(ce, ce[origin[w]])
                        && same_choice(candidates@[w], ce[origin[w]]),
                forall|w: int| 0 <= w < candidates.len() ==> !semantic_backward(#[trigger] ce[origin[w]]),
                match best {
                    Some(b) => b < u && forall|w: int|
                        0 <= w < u ==> preferred(ce[origin[b as int]], #[trigger] ce[origin[w]]),
                    None => u == 0,
                },
            decreases candidates.len() - u,
        {
            let c = candidates[u];
            match best {
                None => {
                    best = Some(u);
                },
                Some(b) => {
                    let cur = candidates[b];
                    let c_gap = if c.to_rank > c.from_rank {
                        c.to_rank - c.from_rank
                    } else {
                        0
                    };
                    let b_gap = if cur.to_rank > cur.from_rank {
                        cur.to_rank - cur.from_rank
                    } else {
                        0
                    };
                    if c_gap < b_gap || (c_gap == b_gap && c.edge_idx < cur.edge_idx) {
                        best = Some(u);
                    }
                },
            }
            u = u + 1;
        }
    }
    match best {
        Some(b) => {
            proof {
                let i0 = origin[b as int];
                assert forall|j: int| 0 <= j < ce.len() && is_candidate(ce, #[trigger] ce[j]) implies preferred(
                    ce[i0],
                    ce[j],
                ) by {
                    let w = choose|w: int| 0 <= w < candidates.len() && #[trigger] origin[w] == j;
                    assert(preferred(ce[i0], ce[origin[w]]));
                }
                assert(best_candidate(ce, i0));
                let ic = choose|i: int| best_candidate(ce, i);
                lemma_best_unique(ce, i0, ic);
            }
            Some(candidates[b].edge_idx)
        },
        None => {
            proof {
                if exists|i: int| best_candidate(ce, i) {
                    let i0 = choose|i: int| best_candidate(ce, i);
                    let w = choose|w: int| 0 <= w < candidates.len() && #[trigger] origin[w] == i0;
                }
            }
            None
        },
    }
}

/// `cs` without the compound edges of original edge `e`.
pub open spec fn without_edge(cs: Seq<CompoundEdge>, e: usize) -> Seq<CompoundEdge>
    decreases cs.len(),
{
    if cs.len() == 0 {
        Seq::empty()
    } else {
        let rest = without_edge(cs.drop_last(), e);
        if cs.last().edge_idx == e {
            rest
        } else {
            rest.push(cs.last())
        }
    }
}

pub proof fn lemma_without_edge(cs: Seq<CompoundEdge>, e: usize, nc: nat)
    ensures
        without_edge(cs, e).len() <= cs.len(),
        (exists|i: int| 0 <= i < cs.len() && (#[trigger] cs[i]).edge_idx == e) ==> without_edge(cs, e).len()
            < cs.len(),
        compound_edges_in_range(cs, nc) ==> compound_edges_in_range(without_edge(cs, e), nc),
    decreases cs.len(),
{
    if cs.len() > 0 {
        let d = cs.drop_last();
        lemma_without_edge(d, e, nc);
        if exists|i: int| 0 <= i < cs.len() && (#[trigger] cs[i]).edge_idx == e {
            let i = choose|i: int| 0 <= i < cs.len() && (#[trigger] cs[i]).edge_idx == e;
            if i < cs.len() - 1 {
                assert(d[i] == cs[i]);
            }
        }
        if compound_edges_in_range(cs, nc) {
            assert(compound_edges_in_range(d, nc)) by {
                assert forall|i: int| 0 <= i < d.len() implies (#[trigger] d[i]).from < nc && d[i].to < nc by {
                    assert(d[i] == cs[i]);
                }
            }
            let w = without_edge(cs, e);
            let wd = without_edge(d, e);
            assert forall|i: int| 0 <= i < w.len() implies (#[trigger] w[i]).from < nc && w[i].to < nc by {
                if i < wd.len() {
                    assert(w[i] == wd[i]);
                } else {
                    assert(w[i] == cs.last());
                }
            }
        }
    }
}

/// The feedback edges chosen, one at a time, until no compound-level cycle remains.
pub open spec fn feedback_edges(cedges: Seq<CompoundEdge>) -> Set<usize>
    decreases cedges.len(),
{
    if exists|i: int| best_candidate(cedges, i) {
        let i = choose|i: int| best_candidate(cedges, i);
        let e = cedges[i].edge_idx;
        proof {
            lemma_without_edge(cedges, e, 0);
        }
        feedback_edges(without_edge(cedges, e)).insert(e)
    } else {
        Set::empty()
    }
}

/// The compound edges with edge `e` removed, in order.
fn remove_compound_edge(cedges: &Vec<CompoundEdge>, e: usize) -> (r: Vec<CompoundEdge>)
    ensures
        r@ == without_edge(cedges@, e),
{
    let mut r: Vec<CompoundEdge> = Vec::new();
    let mut i: usize = 0;
    while i < cedges.len()
        invariant
            i <= cedges.len(),
            r@ == without_edge(cedges@.take(i as int), e),
        decreases cedges.len() - i,
    {
        proof {
            assert(cedges@.take(i as int + 1).drop_last() =~= cedges@.take(i as int));
        }
        let c = cedges[i];
        if c.edge_idx != e {
            r.push(c);
        }
        i = i + 1;
    }
    proof {
        assert(cedges@.take(cedges.len() as int) =~= cedges@);
    }
    r
}

/// Semantic rank of the compound at node index `c`.
fn compound_rank_of(graph: &LayoutGraph, c: usize) -> (r: usize)
    requires
        graph.wf(),
        c < graph.node_ids.len(),
    ensures
        r == compound_rank(graph, c),
{
    match graph.compound_semantic_order[c] {
        Some(r) => r,
        None => match graph.model_order[c] {
            Some(r) => r,
            None => c,
        },
    }
}

/// Compound-level edges of the edges not in `back`.
fn collect_cross_edges(graph: &LayoutGraph, back_edges: &BTreeSet<usize>) -> (r: Vec<CompoundEdge>)
    requires
        graph.wf(),
    ensures
        r@ == cross_edges(graph, back_edges@),
        compound_edges_in_range(r@, graph.compound_nodes.len() as nat),
{
    let ghost cs = graph.compound_nodes@;
    let m = graph.edges.len();
    let mut out: Vec<CompoundEdge> = Vec::new();
    let mut e: usize = 0;
    while e < m
        invariant
            graph.wf(),
            cs == graph.compound_nodes@,
            m == graph.edges.len(),
            e <= m,
            out@ == cross_edges_upto(graph, back_edges@, e as nat),
            compound_edges_in_range(out@, cs.len() as nat),
        decreases m - e,
    {
        if !edge_set_contains(back_edges, e) {
            let (from, to, _) = graph.edges[e];
            match (graph.parents[from], graph.parents[to]) {
                (Some(fc), Some(tc)) => {
                    if fc != tc {
                        match (compound_position(&graph.compound_nodes, fc), compound_position(&graph.compound_nodes, tc)) {
                            (Some(lf), Some(lt)) => {
                                proof {
                                    super::nesting_lemmas::lemma_compound_pos(cs, fc);
                                    super::nesting_lemmas::lemma_compound_pos(cs, tc);
                                }
                                let from_rank = compound_rank_of(graph, fc);
                                let to_rank = compound_rank_of(graph, tc);
                                out.push(CompoundEdge { edge_idx: e, from: lf, to: lt, from_rank, to_rank });
                            },
                            _ => {},
                        }
                    }
                },
                _ => {},
            }
        }
        e = e + 1;
    }
    out
}

/// Detect cross-compound edges that participate in compound-level cycles.
///
/// Builds a compound-level graph from un-reversed cross-compound edges, then
/// repeatedly adds one deterministic feedback edge per remaining cycle.
fn detect_compound_back_edges(graph: &LayoutGraph, back_edges: &mut BTreeSet<usize>)
    requires
        graph.wf(),
    ensures
        graph.compound_nodes.len() < 2 ==> final(back_edges)@ == old(back_edges)@,
        graph.compound_nodes.len() >= 2 ==> final(back_edges)@ == old(back_edges)@.union(
            feedback_edges(cross_edges(graph, old(back_edges)@)),
        ),
{
    let nc = graph.compound_nodes.len();
    if nc < 2 {
        return;
    }
    let mut compound_edges = collect_cross_edges(graph, back_edges);
    let ghost target = back_edges@.union(feedback_edges(compound_edges@));
    loop
        invariant
            nc == graph.compound_nodes.len(),
            nc >= 2,
            target == old(back_edges)@.union(feedback_edges(cross_edges(graph, old(back_edges)@))),
            compound_edges_in_range(compound_edges@, nc as nat),
            back_edges@.union(feedback_edges(compound_edges@)) == target,
        decreases compound_edges@.len(),
    {
        match select_compound_feedback_edge(nc, &compound_edges) {
            Some(edge_idx) => {
                let ghost before = compound_edges@;
                proof {
                    let i = choose|i: int| best_candidate(before, i);
                    lemma_without_edge(before, edge_idx, nc as nat);
                    assert(before[i].edge_idx == edge_idx);
                    assert(feedback_edges(before) == feedback_edges(without_edge(before, edge_idx)).insert(edge_idx));
                }
                edge_set_insert(back_edges, edge_idx);
                compound_edges = remove_compound_edge(&compound_edges, edge_idx);
                proof {
                    assert(back_edges@.union(feedback_edges(compound_edges@)) =~= target);
                }
            },
            None => {
                proof {
                    assert(feedback_edges(compound_edges@) =~= Set::empty());
                    assert(back_edges@ =~= target);
                }
                return;
            },
        }
    }
}

/// What the acyclic phase reverses: the DFS back-edges `b`, plus, under the
/// semantic compound-feedback policy and with at least two compounds, the
/// compound-level feedback edges of the remaining edges.
pub open spec fn reversed_for_policy(g: &LayoutGraph, policy: AcyclicPolicy, b: Set<usize>) -> Set<usize> {
    if policy == AcyclicPolicy::SemanticCompoundFeedback && g.compound_nodes.len() >= 2 {
        b.union(feedback_edges(cross_edges(g, b)))
    } else {
        b
    }
}

/// Identify the edges to reverse for acyclicity and store them in
/// `reversed_edges`; every other field is left as it is.
pub fn run_with_policy(graph: &mut LayoutGraph, policy: AcyclicPolicy)
    requires
        old(graph).wf(),
    ensures
        final(graph).wf(),
        old(graph).node_ids.len() == 0 ==> *final(graph) == *old(graph),
        old(graph).node_ids.len() > 0 ==> final(graph).reversed_edges@ == reversed_for_policy(
            old(graph),
            policy,
            dfs_back_edge_set(old(graph)),
        ),
        old(graph).node_ids.len() > 0 ==> is_dfs_back_edge_set(
            old(graph).edges@,
            old(graph).node_ids.len() as nat,
            dfs_back_edge_set(old(graph)),
        ),
        final(graph).node_ids == old(graph).node_ids,
        final(graph).edges == old(graph).edges,
        final(graph).edge_weights == old(graph).edge_weights,
        final(graph).edge_minlens == old(graph).edge_minlens,
        final(graph).parents == old(graph).parents,
        final(graph).ranks == old(graph).ranks,
        final(graph).order == old(graph).order,
        final(graph).compound_semantic_order == old(graph).compound_semantic_order,
        final(graph).model_order == old(graph).model_order,
        final(graph).compound_nodes == old(graph).compound_nodes,
        final(graph).compound_titles == old(graph).compound_titles,
        final(graph).nesting_edges == old(graph).nesting_edges,
        final(graph).excluded_edges == old(graph).excluded_edges,
        final(graph).position_excluded_nodes == old(graph).position_excluded_nodes,
        final(graph).border_top == old(graph).border_top,
        final(graph).border_bottom == old(graph).border_bottom,
        final(graph).border_title == old(graph).border_title,
        final(graph).nesting_root == old(graph).nesting_root,
        final(graph).node_rank_factor == old(graph).node_rank_factor,
        final(graph).min_rank == old(graph).min_rank,
        final(graph).max_rank == old(graph).max_rank,
        final(graph).dummy_chains == old(graph).dummy_chains,
        final(graph).dummy_nodes == old(graph).dummy_nodes,
{
    let n = graph.node_ids.len();
    if n == 0 {
        return;
    }
    let mut back_edges = dfs_back_edges(graph);
    if matches!(policy, AcyclicPolicy::SemanticCompoundFeedback) && graph.compound_nodes.len() > 0 {
        detect_compound_back_edges(graph, &mut back_edges);
    }
    graph.reversed_edges = back_edges;
}

/// Identify back-edges with the pipeline's default policy.
pub fn run(graph: &mut LayoutGraph)
    requires
        old(graph).wf(),
    ensures
        final(graph).wf(),
        old(graph).node_ids.len() == 0 ==> *final(graph) == *old(graph),
        old(graph).node_ids.len() > 0 ==> final(graph).reversed_edges@ == reversed_for_policy(
            old(graph),
            AcyclicPolicy::SemanticCompoundFeedback,
            dfs_back_edge_set(old(graph)),
        ),
        old(graph).node_ids.len() > 0 ==> is_dfs_back_edge_set(
            old(graph).edges@,
            old(graph).node_ids.len() as nat,
            dfs_back_edge_set(old(graph)),
        ),
        final(graph).node_ids == old(graph).node_ids,
        final(graph).edges == old(graph).edges,
        final(graph).edge_weights == old(graph).edge_weights,
        final(graph).edge_minlens == old(graph).edge_minlens,
        final(graph).parents == old(graph).parents,
        final(graph).ranks == old(graph).ranks,
        final(graph).order == old(graph).order,
        final(graph).compound_semantic_order == old(graph).compound_semantic_order,
        final(graph).model_order == old(graph).model_order,
        final(graph).compound_nodes == old(graph).compound_nodes,
        final(graph).compound_titles == old(graph).compound_titles,
        final(graph).nesting_edges == old(graph).nesting_edges,
        final(graph).excluded_edges == old(graph).excluded_edges,
        final(graph).position_excluded_nodes == old(graph).position_excluded_nodes,
        final(graph).border_top == old(graph).border_top,
        final(graph).border_bottom == old(graph).border_bottom,
        final(graph).border_title == old(graph).border_title,
        final(graph).nesting_root == old(graph).nesting_root,
        final(graph).node_rank_factor == old(graph).node_rank_factor,
        final(graph).min_rank == old(graph).min_rank,
        final(graph).max_rank == old(graph).max_rank,
        final(graph).dummy_chains == old(graph).dummy_chains,
        final(graph).dummy_nodes == old(graph).dummy_nodes,
{
    run_with_policy(graph, AcyclicPolicy::default_policy());
}

/// Along a path of unreversed edges the finishing time strictly falls.
proof fn lemma_unreversed_path_descends(
    edges: Seq<(usize, usize, usize)>,
    n: nat,
    b: Set<usize>,
    rev: Set<usize>,
    f: Seq<int>,
    path: Seq<usize>,
)
    requires
        f.len() == n,
        finish_order_splits(edges, b, f),
        forall|e: usize| #[trigger] b.contains(e) ==> rev.contains(e),
        forall|e: int| 0 <= e < edges.len() ==> (#[trigger] edges[e]).0 < n && edges[e].1 < n,
        path.len() >= 2,
        forward_path(edges, rev, path),
    ensures
        path[0] < n,
        path.last() < n,
        f[path.last() as int] < f[path[0] as int],
    decreases path.len(),
{
    let j = path.len() - 2;
    assert(forward_step(edges, rev, path[j], path[j + 1]));
    let e = choose|e: int| #[trigger] forward_edge(edges, rev, e, path[j], path[j + 1]);
    assert(!b.contains(e as usize));
    assert(edges[e].0 == path[j]);
    if path.len() > 2 {
        let q = path.drop_last();
        assert forall|k: int| 0 <= k < q.len() - 1 implies #[trigger] forward_step(edges, rev, q[k], q[k + 1]) by {
            assert(forward_step(edges, rev, path[k], path[k + 1]));
        }
        lemma_unreversed_path_descends(edges, n, b, rev, f, q);
    } else {
        assert(path[0] == path[j]);
    }
}

/// The acyclic phase leaves no cycle among the edges it does not reverse:
/// whatever the policy, a path of two or more nodes that follows only
/// unreversed edges never ends where it started.
pub proof fn law_unreversed_edges_acyclic(g0: &LayoutGraph, g: &LayoutGraph, policy: AcyclicPolicy, path: Seq<usize>)
    requires
        g0.wf(),
        g0.node_ids.len() > 0,
        is_dfs_back_edge_set(g0.edges@, g0.node_ids.len() as nat, dfs_back_edge_set(g0)),
        g.reversed_edges@ == reversed_for_policy(g0, policy, dfs_back_edge_set(g0)),
        g.edges == g0.edges,
        path.len() >= 2,
        forward_path(g.edges@, g.reversed_edges@, path),
    ensures
        path[0] != path.last(),
{
    let n = g0.node_ids.len() as nat;
    let b = dfs_back_edge_set(g0);
    let f = choose|f: Seq<int>| f.len() == n && #[trigger] finish_order_splits(g0.edges@, b, f);
    lemma_unreversed_path_descends(g0.edges@, n, b, g.reversed_edges@, f, path);
}

/// One step of the graph as oriented after reversal: an unreversed edge
/// `u -> v`, or a reversed edge `v -> u`, between two different nodes.
pub open spec fn oriented_step(edges: Seq<(usize, usize, usize)>, rev: Set<usize>, u: usize, v: usize) -> bool {
    &&& u != v
    &&& exists|e: int|
        0 <= e < edges.len() && ((!rev.contains(e as usize) && (#[trigger] edges[e]).0 == u && edges[e].1 == v) || (
        rev.contains(e as usize) && edges[e].0 == v && edges[e].1 == u))
}

/// `path` follows the graph as oriented after reversal.
pub open spec fn oriented_path(edges: Seq<(usize, usize, usize)>, rev: Set<usize>, path: Seq<usize>) -> bool {
    forall|j: int| 0 <= j < path.len() - 1 ==> #[trigger] oriented_step(edges, rev, path[j], path[j + 1])
}

proof fn lemma_oriented_path_descends(
    edges: Seq<(usize, usize, usize)>,
    n: nat,
    b: Set<usize>,
    f: Seq<int>,
    path: Seq<usize>,
)
    requires
        f.len() == n,
        finish_order_splits(edges, b, f),
        forall|e: int| 0 <= e < edges.len() ==> (#[trigger] edges[e]).0 < n && edges[e].1 < n,
        path.len() >= 2,
        oriented_path(edges, b, path),
    ensures
        path[0] < n,
        path.last() < n,
        f[path.last() as int] < f[path[0] as int],
    decreases path.len(),
{
    let j = path.len() - 2;
    assert(oriented_step(edges, b, path[j], path[j + 1]));
    let e = choose|e: int|
        0 <= e < edges.len() && ((!b.contains(e as usize) && (#[trigger] edges[e]).0 == path[j] && edges[e].1
            == path[j + 1]) || (b.contains(e as usize) && edges[e].0 == path[j + 1] && edges[e].1 == path[j]));
    if b.contains(e as usize) {
        assert(f[edges[e].0 as int] <= f[edges[e].1 as int]);
        assert(f[path[j + 1] as int] != f[path[j] as int]);
    }
    if path.len() > 2 {
        let q = path.drop_last();
        assert forall|k: int| 0 <= k < q.len() - 1 implies #[trigger] oriented_step(edges, b, q[k], q[k + 1]) by {
            assert(oriented_step(edges, b, path[k], path[k + 1]));
        }
        lemma_oriented_path_descends(edges, n, b, f, q);
    } else {
        assert(path[0] == path[j]);
    }
}

/// Under the DFS-only policy, reversing the chosen edges makes the graph
/// acyclic apart from self-loops: a path of two or more nodes in the
/// re-oriented graph that takes no self-loop never ends where it started.
pub proof fn law_dfs_reversal_acyclic(g0: &LayoutGraph, g: &LayoutGraph, path: Seq<usize>)
    requires
        g0.wf(),
        g0.node_ids.len() > 0,
        is_dfs_back_edge_set(g0.edges@, g0.node_ids.len() as nat, dfs_back_edge_set(g0)),
        g.reversed_edges@ == reversed_for_policy(g0, AcyclicPolicy::DfsOnly, dfs_back_edge_set(g0)),
        g.edges == g0.edges,
        path.len() >= 2,
        oriented_path(g.edges@, g.reversed_edges@, path),
    ensures
        path[0] != path.last(),
{
    let n = g0.node_ids.len() as nat;
    let b = dfs_back_edge_set(g0);
    let f = choose|f: Seq<int>| f.len() == n && #[trigger] finish_order_splits(g0.edges@, b, f);
    lemma_oriented_path_descends(g0.edges@, n, b, f, path);
}

/// The compound edges left once every feedback edge has been removed.
pub open spec fn compound_residual(cedges: Seq<CompoundEdge>) -> Seq<CompoundEdge>
    decreases cedges.len(),
{
    if exists|i: int| best_candidate(cedges, i) {
        let i = choose|i: int| best_candidate(cedges, i);
        let e = cedges[i].edge_idx;
        proof {
            lemma_without_edge(cedges, e, 0);
        }
        compound_residual(without_edge(cedges, e))
    } else {
        cedges
    }
}

/// Among the candidates at indices below `k`, one is preferred to all of them.
proof fn lemma_best_below(cs: Seq<CompoundEdge>, k: int)
    requires
        0 <= k <= cs.len(),
        exists|j: int| 0 <= j < k && is_candidate(cs, #[trigger] cs[j]),
    ensures
        exists|i: int|
            0 <= i < k && is_candidate(cs, #[trigger] cs[i]) && forall|j: int|
                0 <= j < k && is_candidate(cs, #[trigger] cs[j]) ==> preferred(cs[i], cs[j]),
    decreases k,
{
    let last = k - 1;
    if exists|j: int| 0 <= j < last && is_candidate(cs, #[trigger] cs[j]) {
        lemma_best_below(cs, last);
        let i = choose|i: int|
            0 <= i < last && is_candidate(cs, #[trigger] cs[i]) && forall|j: int|
                0 <= j < last && is_candidate(cs, #[trigger] cs[j]) ==> preferred(cs[i], cs[j]);
        if is_candidate(cs, cs[last]) && !preferred(cs[i], cs[last]) {
            assert forall|j: int| 0 <= j < k && is_candidate(cs, #[trigger] cs[j]) implies preferred(cs[last], cs[j]) by {
                if j < last {
                    assert(preferred(cs[i], cs[j]));
                }
            }
        } else {
            assert forall|j: int| 0 <= j < k && is_candidate(cs, #[trigger] cs[j]) implies preferred(cs[i], cs[j]) by {
                if j < last {
                    assert(preferred(cs[i], cs[j]));
                }
            }
        }
    } else {
        assert(is_candidate(cs, cs[last]));
        assert forall|j: int| 0 <= j < k && is_candidate(cs, #[trigger] cs[j]) implies preferred(cs[last], cs[j]) by {
            assert(j == last);
        }
    }
}

/// Edges of `without_edge(cs, e)` are edges of `cs` other than `e`.
proof fn lemma_without_edge_member(cs: Seq<CompoundEdge>, e: usize, i: int)
    requires
        0 <= i < without_edge(cs, e).len(),
    ensures
        without_edge(cs, e)[i].edge_idx != e,
        exists|j: int| 0 <= j < cs.len() && #[trigger] cs[j] == without_edge(cs, e)[i],
    decreases cs.len(),
{
    let d = cs.drop_last();
    let wd = without_edge(d, e);
    if i < wd.len() {
        lemma_without_edge_member(d, e, i);
        let j = choose|j: int| 0 <= j < d.len() && #[trigger] d[j] == wd[i];
        assert(cs[j] == d[j]);
    } else {
        assert(cs[cs.len() - 1] == without_edge(cs, e)[i]);
    }
}

/// Reversing the compound feedback edges breaks every compound-level cycle:
/// no compound edge that is left closes a cycle through the others, and none
/// of the edges left is a chosen feedback edge.
pub proof fn law_feedback_breaks_compound_cycles(cedges: Seq<CompoundEdge>)
    ensures
        forall|i: int|
            0 <= i < compound_residual(cedges).len() ==> !is_candidate(
                compound_residual(cedges),
                #[trigger] compound_residual(cedges)[i],
            ) && !feedback_edges(cedges).contains(compound_residual(cedges)[i].edge_idx),
    decreases cedges.len(),
{
    if exists|i: int| best_candidate(cedges, i) {
        let i = choose|i: int| best_candidate(cedges, i);
        let e = cedges[i].edge_idx;
        let w = without_edge(cedges, e);
        lemma_without_edge(cedges, e, 0);
        law_feedback_breaks_compound_cycles(w);
        assert(compound_residual(cedges) == compound_residual(w));
        assert(feedback_edges(cedges) == feedback_edges(w).insert(e));
        assert forall|j: int| 0 <= j < w.len() implies (#[trigger] w[j]).edge_idx != e by {
            lemma_without_edge_member(cedges, e, j);
        }
        assert forall|k: int| 0 <= k < compound_residual(w).len() implies compound_residual(w)[k].edge_idx != e by {
            lemma_residual_avoids(w, e, k);
        }
    } else {
        assert forall|k: int| 0 <= k < cedges.len() implies !is_candidate(cedges, #[trigger] cedges[k]) by {
            if is_candidate(cedges, cedges[k]) {
                lemma_best_below(cedges, cedges.len() as int);
                let b = choose|b: int|
                    0 <= b < cedges.len() && is_candidate(cedges, #[trigger] cedges[b]) && forall|j: int|
                        0 <= j < cedges.len() && is_candidate(cedges, #[trigger] cedges[j]) ==> preferred(
                            cedges[b],
                            cedges[j],
                        );
                assert(best_candidate(cedges, b));
            }
        }
    }
}

/// The residual of a list without edge `e` holds no edge `e`.
proof fn lemma_residual_avoids(cs: Seq<CompoundEdge>, e: usize, k: int)
    requires
        forall|j: int| 0 <= j < cs.len() ==> (#[trigger] cs[j]).edge_idx != e,
        0 <= k < compound_residual(cs).len(),
    ensures
        compound_residual(cs)[k].edge_idx != e,
    decreases cs.len(),
{
    if exists|i: int| best_candidate(cs, i) {
        let i = choose|i: int| best_candidate(cs, i);
        let x = cs[i].edge_idx;
        let w = without_edge(cs, x);
        lemma_without_edge(cs, x, 0);
        assert forall|j: int| 0 <= j < w.len() implies (#[trigger] w[j]).edge_idx != e by {
            lemma_without_edge_member(cs, x, j);
        }
        lemma_residual_avoids(w, e, k);
    }
}

/// The compound feedback edge chosen is a compound-cycle candidate, and among
/// all candidates: if any runs against the semantic order, the chosen one
/// does, with a backward span `from_rank - to_rank` at least that of every
/// backward candidate (the lowest edge index among equally wide ones);
/// otherwise it has the smallest forward gap `to_rank - from_rank` (again the
/// lowest edge index among equals). Nothing is chosen exactly when no
/// compound edge closes a cycle.
pub proof fn law_feedback_choice_prefers_widest_backward_span(cedges: Seq<CompoundEdge>)
    ensures
        select_spec(cedges) is None <==> forall|j: int| 0 <= j < cedges.len() ==> !is_candidate(cedges, #[trigger] cedges[j]),
        select_spec(cedges) matches Some(e) ==> exists|i: int|
            #![trigger cedges[i]]
            0 <= i < cedges.len() && cedges[i].edge_idx == e && is_candidate(cedges, cedges[i]) && forall|j: int|
                0 <= j < cedges.len() && is_candidate(cedges, #[trigger] cedges[j]) ==> {
                    &&& cedges[j].from_rank > cedges[j].to_rank ==> cedges[i].from_rank > cedges[i].to_rank
                        && cedges[i].from_rank - cedges[i].to_rank >= cedges[j].from_rank - cedges[j].to_rank
                    &&& cedges[j].from_rank > cedges[j].to_rank && cedges[i].from_rank - cedges[i].to_rank
                        == cedges[j].from_rank - cedges[j].to_rank ==> cedges[i].edge_idx <= cedges[j].edge_idx
                    &&& cedges[i].from_rank <= cedges[i].to_rank ==> cedges[j].from_rank <= cedges[j].to_rank
                        && cedges[i].to_rank - cedges[i].from_rank <= cedges[j].to_rank - cedges[j].from_rank
                    &&& cedges[i].from_rank <= cedges[i].to_rank && cedges[i].to_rank - cedges[i].from_rank
                        == cedges[j].to_rank - cedges[j].from_rank ==> cedges[i].edge_idx <= cedges[j].edge_idx
                },
{
    if exists|i: int| best_candidate(cedges, i) {
        let i = choose|i: int| best_candidate(cedges, i);
        assert forall|j: int| 0 <= j < cedges.len() && is_candidate(cedges, #[trigger] cedges[j]) implies {
            &&& cedges[j].from_rank > cedges[j].to_rank ==> cedges[i].from_rank > cedges[i].to_rank
                && cedges[i].from_rank - cedges[i].to_rank >= cedges[j].from_rank - cedges[j].to_rank
            &&& cedges[j].from_rank > cedges[j].to_rank && cedges[i].from_rank - cedges[i].to_rank
                == cedges[j].from_rank - cedges[j].to_rank ==> cedges[i].edge_idx <= cedges[j].edge_idx
            &&& cedges[i].from_rank <= cedges[i].to_rank ==> cedges[j].from_rank <= cedges[j].to_rank
                && cedges[i].to_rank - cedges[i].from_rank <= cedges[j].to_rank - cedges[j].from_rank
            &&& cedges[i].from_rank <= cedges[i].to_rank && cedges[i].to_rank - cedges[i].from_rank
                == cedges[j].to_rank - cedges[j].from_rank ==> cedges[i].edge_idx <= cedges[j].edge_idx
        } by {
            assert(preferred(cedges[i], cedges[j]));
        }
    } else {
        assert forall|k: int| 0 <= k < cedges.len() implies !is_candidate(cedges, #[trigger] cedges[k]) by {
            if is_candidate(cedges, cedges[k]) {
                lemma_best_below(cedges, cedges.len() as int);
                let b = choose|b: int|
                    0 <= b < cedges.len() && is_candidate(cedges, #[trigger] cedges[b]) && forall|j: int|
                        0 <= j < cedges.len() && is_candidate(cedges, #[trigger] cedges[j]) ==> preferred(
                            cedges[b],
                            cedges[j],
                        );
                assert(best_candidate(cedges, b));
            }
        }
    }
}

} // verus!
