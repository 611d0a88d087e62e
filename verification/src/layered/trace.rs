//! Snapshots of the layered pipeline, stage by stage, for diffing runs.

use vstd::prelude::*;

use super::edge_set::edge_set_to_vec;
use super::graph::{first_index_of, lemma_first_index_of, LayoutGraph};

verus! {

/// A pipeline stage that can be captured.
#[derive(Debug, Clone, Copy, PartialEq, Eq, Structural, PartialOrd, Ord)]
pub enum TraceStage {
    Acyclic,
    Rank,
    Normalize,
    Order,
    Position,
    Route,
}

/// What a dummy node stands for.
#[derive(Debug, Clone, Copy, PartialEq, Eq, Structural)]
pub enum DummyType {
    Edge,
    EdgeLabel,
}

/// The role of a dummy node in a trace.
#[derive(Debug, Clone, Copy, PartialEq, Eq, Structural, PartialOrd, Ord)]
pub enum DummyTraceRole {
    Edge,
    EdgeLabel,
}

impl From<DummyType> for DummyTraceRole {
    fn from(value: DummyType) -> (r: Self) {
        match value {
            DummyType::Edge => DummyTraceRole::Edge,
            DummyType::EdgeLabel => DummyTraceRole::EdgeLabel,
        }
    }
}

impl vstd::std_specs::convert::FromSpecImpl<DummyType> for DummyTraceRole {
    open spec fn obeys_from_spec() -> bool {
        true
    }

    open spec fn from_spec(v: DummyType) -> DummyTraceRole {
        match v {
            DummyType::Edge => DummyTraceRole::Edge,
            DummyType::EdgeLabel => DummyTraceRole::EdgeLabel,
        }
    }
}

/// Identity of a dummy node that does not depend on its generated id: the
/// edge it belongs to, its role, and its position along the chain.
#[derive(Debug, Clone, Copy, PartialEq, Eq, Structural, PartialOrd, Ord)]
pub struct DummyTraceKey {
    pub edge_index: usize,
    pub role: DummyTraceRole,
    pub chain_position: usize,
    pub is_label_dummy: bool,
}

/// A dummy node as captured at one stage.
#[derive(Debug, Clone, PartialEq, Eq)]
pub struct TraceDummySnapshot {
    pub generated_id: String,
    pub key: DummyTraceKey,
    pub rank: i32,
    pub order: usize,
}

/// A real node as captured at one stage.
#[derive(Debug, Clone, PartialEq, Eq)]
pub struct TraceNodeSnapshot {
    pub id: String,
    pub rank: i32,
    pub order: usize,
}

/// Everything captured at one stage.
#[derive(Debug, Clone)]
pub struct TraceStageSnapshot {
    pub stage: TraceStage,
    pub nodes: Vec<TraceNodeSnapshot>,
    pub dummies: Vec<TraceDummySnapshot>,
    pub reversed_edges: Vec<usize>,
}

/// The role a dummy of kind `t` plays in a trace.
pub open spec fn role_of(t: DummyType) -> DummyTraceRole {
    match t {
        DummyType::Edge => DummyTraceRole::Edge,
        DummyType::EdgeLabel => DummyTraceRole::EdgeLabel,
    }
}

/// Indices of the real (non-dummy) nodes among the first `k`, increasing.
pub open spec fn real_nodes_upto(g: &LayoutGraph, k: nat) -> Seq<usize>
    decreases k,
{
    if k == 0 {
        Seq::empty()
    } else {
        let prev = real_nodes_upto(g, (k - 1) as nat);
        if g.dummy_nodes@.contains_key((k - 1) as usize) {
            prev
        } else {
            prev.push((k - 1) as usize)
        }
    }
}

/// `s` records node `i` of `g`.
pub open spec fn records_node(s: TraceNodeSnapshot, g: &LayoutGraph, i: usize) -> bool {
    &&& s.id@ == g.node_ids@[i as int].0@
    &&& s.rank == g.ranks@[i as int]
    &&& s.order == g.order@[i as int]
}

/// The dummies of chain `c` found among its first `p` ids, as (position in
/// the chain, node index): an id counts when it names a node that is a dummy.
pub open spec fn chain_dummies_upto(g: &LayoutGraph, c: int, p: nat) -> Seq<(usize, usize)>
    decreases p,
{
    if p == 0 {
        Seq::empty()
    } else {
        let prev = chain_dummies_upto(g, c, (p - 1) as nat);
        match first_index_of(g.node_ids@, g.dummy_chains@[c].dummy_ids@[p - 1].0@) {
            Some(idx) => if g.dummy_nodes@.contains_key(idx) {
                prev.push(((p - 1) as usize, idx))
            } else {
                prev
            },
            None => prev,
        }
    }
}

/// Tag each (position, node) pair with chain `c`.
pub open spec fn in_chain(s: Seq<(usize, usize)>, c: usize) -> Seq<(usize, usize, usize)> {
    s.map_values(|e: (usize, usize)| (c, e.0, e.1))
}

/// The dummies of the first `k` chains, chain by chain, as (chain, position,
/// node index).
pub open spec fn dummies_upto(g: &LayoutGraph, k: nat) -> Seq<(usize, usize, usize)>
    decreases k,
{
    if k == 0 {
        Seq::empty()
    } else {
        let c = (k - 1) as int;
        dummies_upto(g, (k - 1) as nat) + in_chain(
            chain_dummies_upto(g, c, g.dummy_chains@[c].dummy_ids@.len()),
            c as usize,
        )
    }
}

/// `s` records the dummy at position `pos` of chain `c`, which is node `idx`.
pub open spec fn records_dummy(s: TraceDummySnapshot, g: &LayoutGraph, c: usize, pos: usize, idx: usize) -> bool {
    let chain = g.dummy_chains@[c as int];
    &&& s.generated_id@ == chain.dummy_ids@[pos as int].0@
    &&& s.key.edge_index == chain.edge_index
    &&& s.key.role == role_of(g.dummy_nodes@[idx])
    &&& s.key.chain_position == pos
    &&& s.key.is_label_dummy == (chain.label_dummy_index == Some(pos))
    &&& s.rank == g.ranks@[idx as int]
    &&& s.order == g.order@[idx as int]
}

/// `r` records, in order, the dummies listed in `entries`.
pub open spec fn records_dummies(r: Seq<TraceDummySnapshot>, g: &LayoutGraph, entries: Seq<(usize, usize, usize)>) -> bool {
    &&& r.len() == entries.len()
    &&& forall|k: int|
        0 <= k < r.len() ==> records_dummy(#[trigger] r[k], g, entries[k].0, entries[k].1, entries[k].2)
}

impl TraceStageSnapshot {
    /// A snapshot of `stage` with nothing recorded.
    pub fn empty(stage: TraceStage) -> (r: Self)
        ensures
            r.stage == stage,
            r.nodes@.len() == 0,
            r.dummies@.len() == 0,
            r.reversed_edges@.len() == 0,
    {
        TraceStageSnapshot { stage, nodes: Vec::new(), dummies: Vec::new(), reversed_edges: Vec::new() }
    }

    /// Capture `graph` at `stage`: its real nodes in index order, the dummies
    /// of its chains chain by chain (keyed by edge, role and chain position
    /// rather than by generated id), and its reversed edges in increasing
    /// order.
    pub fn from_layout_graph(stage: TraceStage, graph: &LayoutGraph) -> (r: Self)
        requires
            graph.wf(),
        ensures
            r.stage == stage,
            r.nodes@.len() == real_nodes_upto(graph, graph.node_ids.len() as nat).len(),
            forall|k: int|
                0 <= k < r.nodes@.len() ==> records_node(
                    #[trigger] r.nodes@[k],
                    graph,
                    real_nodes_upto(graph, graph.node_ids.len() as nat)[k],
                ),
            records_dummies(r.dummies@, graph, dummies_upto(graph, graph.dummy_chains.len() as nat)),
            r.reversed_edges@.to_set() == graph.reversed_edges@,
            forall|i: int, j: int|
                0 <= i < j < r.reversed_edges@.len() ==> r.reversed_edges@[i] < r.reversed_edges@[j],
    {
        let n = graph.node_ids.len();
        let mut nodes: Vec<TraceNodeSnapshot> = Vec::new();
        let mut idx: usize = 0;
        while idx < n
            invariant
                graph.wf(),
                n == graph.node_ids.len(),
                idx <= n,
                nodes@.len() == real_nodes_upto(graph, idx as nat).len(),
                forall|k: int|
                    0 <= k < nodes@.len() ==> records_node(
                        #[trigger] nodes@[k],
                        graph,
                        real_nodes_upto(graph, idx as nat)[k],
                    ),
            decreases n - idx,
        {
            if !graph.is_dummy_index(idx) {
                let snapshot = TraceNodeSnapshot {
                    id: graph.node_ids[idx].0.clone(),
                    rank: graph.ranks[idx],
                    order: graph.order[idx],
                };
                nodes.push(snapshot);
            }
            idx = idx + 1;
        }

        let mut dummies: Vec<TraceDummySnapshot> = Vec::new();
        let chain_count = graph.dummy_chains.len();
        let mut c: usize = 0;
        while c < chain_count
            invariant
                graph.wf(),
                n == graph.node_ids.len(),
                chain_count == graph.dummy_chains.len(),
                c <= chain_count,
                records_dummies(dummies@, graph, dummies_upto(graph, c as nat)),
            decreases chain_count - c,
        {
            let chain = &graph.dummy_chains[c];
            let ghost base = dummies_upto(graph, c as nat);
            let mut p: usize = 0;
            while p < chain.dummy_ids.len()
                invariant
                    graph.wf(),
                    n == graph.node_ids.len(),
                    c < graph.dummy_chains.len(),
                    *chain == graph.dummy_chains@[c as int],
                    p <= chain.dummy_ids.len(),
                    base == dummies_upto(graph, c as nat),
                    records_dummies(dummies@, graph, base + in_chain(chain_dummies_upto(graph, c as int, p as nat), c)),
                decreases chain.dummy_ids.len() - p,
            {
                let dummy_id = &chain.dummy_ids[p];
                let ghost before = dummies@;
                let ghost prev = chain_dummies_upto(graph, c as int, p as nat);
                proof {
                    lemma_first_index_of(graph.node_ids@, dummy_id.0@);
                }
                match graph.index_of(&dummy_id.0) {
                    Some(node_idx) => {
                        match graph.dummy_nodes.get(&node_idx) {
                            Some(dummy_type) => {
                                let is_label_dummy = match chain.label_dummy_index {
                                    Some(l) => l == p,
                                    None => false,
                                };
                                let snapshot = TraceDummySnapshot {
                                    generated_id: dummy_id.0.clone(),
                                    key: DummyTraceKey {
                                        edge_index: chain.edge_index,
                                        role: DummyTraceRole::from(*dummy_type),
                                        chain_position: p,
                                        is_label_dummy,
                                    },
                                    rank: graph.ranks[node_idx],
                                    order: graph.order[node_idx],
                                };
                                dummies.push(snapshot);
                                proof {
                                    let next = prev.push((p, node_idx));
                                    assert(chain_dummies_upto(graph, c as int, (p + 1) as nat) == next);
                                    assert(base + in_chain(next, c) =~= (base + in_chain(prev, c)).push(
                                        (c, p, node_idx),
                                    ));
                                }
                            },
                            None => {
                                proof {
                                    assert(chain_dummies_upto(graph, c as int, (p + 1) as nat) == prev);
                                }
                            },
                        }
                    },
                    None => {
                        proof {
                            assert(chain_dummies_upto(graph, c as int, (p + 1) as nat) == prev);
                        }
                    },
                }
                p = p + 1;
            }
            proof {
                assert(dummies_upto(graph, (c + 1) as nat) == base + in_chain(
                    chain_dummies_upto(graph, c as int, chain.dummy_ids@.len()),
                    c,
                ));
            }
            c = c + 1;
        }

        let reversed_edges = edge_set_to_vec(&graph.reversed_edges);
        TraceStageSnapshot { stage, nodes, dummies, reversed_edges }
    }
}

/// The stages captured during one layout run, in capture order.
#[derive(Debug, Clone)]
pub struct LayeredPhaseTrace {
    pub stages: Vec<TraceStageSnapshot>,
}

impl Default for LayeredPhaseTrace {
    fn default() -> (r: Self)
        ensures
            r.stages@.len() == 0,
    {
        LayeredPhaseTrace { stages: Vec::new() }
    }
}

/// Generated ids of the dummies of the first `k` stages, stage by stage.
pub open spec fn dummy_ids_upto(stages: Seq<TraceStageSnapshot>, k: nat) -> Seq<Seq<char>>
    decreases k,
{
    if k == 0 || k > stages.len() {
        Seq::empty()
    } else {
        dummy_ids_upto(stages, (k - 1) as nat) + stages[k - 1].dummies@.map_values(
            |d: TraceDummySnapshot| d.generated_id@,
        )
    }
}

impl LayeredPhaseTrace {
    /// Record one more stage.
    pub fn push_stage(&mut self, stage: TraceStageSnapshot)
        ensures
            final(self).stages@ == old(self).stages@.push(stage),
    {
        self.stages.push(stage);
    }

    /// Whether `stage` was captured.
    pub fn has_stage(&self, stage: TraceStage) -> (r: bool)
        ensures
            r == exists|i: int| 0 <= i < self.stages@.len() && (#[trigger] self.stages@[i]).stage == stage,
    {
        let mut i: usize = 0;
        while i < self.stages.len()
            invariant
                i <= self.stages@.len(),
                forall|j: int| 0 <= j < i ==> (#[trigger] self.stages@[j]).stage != stage,
            decreases self.stages@.len() - i,
        {
            if self.stages[i].stage == stage {
                return true;
            }
            i = i + 1;
        }
        false
    }

    /// The captured stages, in order.
    pub fn stage_names(&self) -> (r: Vec<TraceStage>)
        ensures
            r@ == self.stages@.map_values(|s: TraceStageSnapshot| s.stage),
    {
        let mut names: Vec<TraceStage> = Vec::new();
        let mut i: usize = 0;
        while i < self.stages.len()
            invariant
                i <= self.stages@.len(),
                names@ == self.stages@.take(i as int).map_values(|s: TraceStageSnapshot| s.stage),
            decreases self.stages@.len() - i,
        {
            names.push(self.stages[i].stage);
            i = i + 1;
            proof {
                assert(names@ =~= self.stages@.take(i as int).map_values(|s: TraceStageSnapshot| s.stage));
            }
        }
        proof {
            assert(self.stages@.take(self.stages@.len() as int) =~= self.stages@);
        }
        names
    }

    /// Generated ids of every captured dummy, stage by stage.
    pub fn generated_dummy_ids(&self) -> (r: Vec<String>)
        ensures
            r@.map_values(|s: String| s@) == dummy_ids_upto(self.stages@, self.stages@.len()),
    {
        let mut ids: Vec<String> = Vec::new();
        let mut i: usize = 0;
        while i < self.stages.len()
            invariant
                i <= self.stages@.len(),
                ids@.map_values(|s: String| s@) == dummy_ids_upto(self.stages@, i as nat),
            decreases self.stages@.len() - i,
        {
            let dummies = &self.stages[i].dummies;
            let ghost base = ids@.map_values(|s: String| s@);
            let mut j: usize = 0;
            while j < dummies.len()
                invariant
                    i < self.stages@.len(),
                    dummies@ == self.stages@[i as int].dummies@,
                    j <= dummies@.len(),
                    base == dummy_ids_upto(self.stages@, i as nat),
                    ids@.map_values(|s: String| s@) == base + dummies@.take(j as int).map_values(
                        |d: TraceDummySnapshot| d.generated_id@,
                    ),
                decreases dummies@.len() - j,
            {
                let ghost before = ids@;
                ids.push(dummies[j].generated_id.clone());
                proof {
                    assert(dummies@.take(j as int + 1) =~= dummies@.take(j as int).push(dummies@[j as int]));
                    assert(ids@.map_values(|s: String| s@) =~= before.map_values(|s: String| s@).push(
                        dummies@[j as int].generated_id@,
                    ));
                }
                j = j + 1;
                proof {
                    assert(ids@.map_values(|s: String| s@) =~= base + dummies@.take(j as int).map_values(
                        |d: TraceDummySnapshot| d.generated_id@,
                    ));
                }
            }
            proof {
                assert(dummies@.take(dummies@.len() as int) =~= dummies@);
            }
            i = i + 1;
        }
        ids
    }
}

/// The real nodes of a snapshot: every node below `k` that is not a dummy,
/// each once, in increasing index order, and no dummy.
pub proof fn law_snapshot_nodes_are_the_real_nodes_in_order(g: &LayoutGraph, k: nat)
    requires
        k <= usize::MAX,
    ensures
        forall|a: int|
            0 <= a < real_nodes_upto(g, k).len() ==> #[trigger] real_nodes_upto(g, k)[a] < k
                && !g.dummy_nodes@.contains_key(real_nodes_upto(g, k)[a]),
        forall|a: int, b: int|
            0 <= a < b < real_nodes_upto(g, k).len() ==> #[trigger] real_nodes_upto(g, k)[a]
                < #[trigger] real_nodes_upto(g, k)[b],
        forall|i: usize| i < k && !g.dummy_nodes@.contains_key(i) ==> #[trigger] real_nodes_upto(g, k).contains(i),
    decreases k,
{
    if k > 0 {
        law_snapshot_nodes_are_the_real_nodes_in_order(g, (k - 1) as nat);
        let prev = real_nodes_upto(g, (k - 1) as nat);
        let last = (k - 1) as usize;
        let cur = real_nodes_upto(g, k);
        if !g.dummy_nodes@.contains_key(last) {
            assert(cur == prev.push(last));
            assert forall|a: int, b: int| 0 <= a < b < cur.len() implies #[trigger] cur[a] < #[trigger] cur[b] by {
                if b < prev.len() {
                    assert(cur[a] == prev[a] && cur[b] == prev[b]);
                } else {
                    assert(cur[a] == prev[a]);
                }
            }
            assert forall|a: int| 0 <= a < cur.len() implies #[trigger] cur[a] < k && !g.dummy_nodes@.contains_key(cur[a]) by {
                if a < prev.len() {
                    assert(cur[a] == prev[a]);
                }
            }
            assert forall|i: usize| i < k && !g.dummy_nodes@.contains_key(i) implies #[trigger] cur.contains(i) by {
                if i < last {
                    assert(prev.contains(i));
                    let a = choose|a: int| 0 <= a < prev.len() && prev[a] == i;
                    assert(cur[a] == i);
                } else {
                    assert(cur[prev.len() as int] == i);
                }
            }
        } else {
            assert(cur == prev);
            assert forall|i: usize| i < k && !g.dummy_nodes@.contains_key(i) implies #[trigger] cur.contains(i) by {
                assert(i != last);
                assert(prev.contains(i));
            }
        }
    }
}

/// Every dummy a snapshot records for a chain is a dummy node whose id is
/// the chain's id at that position, listed in chain order.
pub proof fn law_snapshot_dummies_are_chain_dummies(g: &LayoutGraph, c: int, p: nat)
    requires
        0 <= c < g.dummy_chains@.len(),
        p <= g.dummy_chains@[c].dummy_ids@.len(),
        p <= usize::MAX,
        g.node_ids@.len() <= usize::MAX,
    ensures
        forall|a: int|
            #![trigger chain_dummies_upto(g, c, p)[a]]
            0 <= a < chain_dummies_upto(g, c, p).len() ==> chain_dummies_upto(g, c, p)[a].0 < p
                && chain_dummies_upto(g, c, p)[a].1 < g.node_ids@.len() && g.dummy_nodes@.contains_key(
                chain_dummies_upto(g, c, p)[a].1,
            ) && g.node_ids@[chain_dummies_upto(g, c, p)[a].1 as int].0@
                == g.dummy_chains@[c].dummy_ids@[chain_dummies_upto(g, c, p)[a].0 as int].0@,
        forall|a: int, b: int|
            0 <= a < b < chain_dummies_upto(g, c, p).len() ==> (#[trigger] chain_dummies_upto(g, c, p)[a]).0
                < (#[trigger] chain_dummies_upto(g, c, p)[b]).0,
    decreases p,
{
    if p > 0 {
        law_snapshot_dummies_are_chain_dummies(g, c, (p - 1) as nat);
        let id = g.dummy_chains@[c].dummy_ids@[p - 1].0@;
        lemma_first_index_of(g.node_ids@, id);
        let prev = chain_dummies_upto(g, c, (p - 1) as nat);
        let cur = chain_dummies_upto(g, c, p);
        match first_index_of(g.node_ids@, id) {
            Some(idx) => {
                if g.dummy_nodes@.contains_key(idx) {
                    assert(cur == prev.push(((p - 1) as usize, idx)));
                    assert forall|a: int| #![trigger cur[a]] 0 <= a < cur.len() implies cur[a].0 < p && cur[a].1
                        < g.node_ids@.len() && g.dummy_nodes@.contains_key(cur[a].1) && g.node_ids@[cur[a].1 as int].0@
                        == g.dummy_chains@[c].dummy_ids@[cur[a].0 as int].0@ by {
                        if a < prev.len() {
                            assert(cur[a] == prev[a]);
                        }
                    }
                    assert forall|a: int, b: int| 0 <= a < b < cur.len() implies (#[trigger] cur[a]).0 < (
                    #[trigger] cur[b]).0 by {
                        if b < prev.len() {
                            assert(cur[a] == prev[a] && cur[b] == prev[b]);
                        } else {
                            assert(cur[a] == prev[a]);
                        }
                    }
                } else {
                    assert(cur == prev);
                }
            },
            None => {
                assert(cur == prev);
            },
        }
    }
}

} // verus!
