use std::collections::{BTreeSet, HashMap, HashSet};

use mmdflux::layered::graph::{DummyChain, LayoutGraph, NodeId};
use mmdflux::layered::trace::{
    DummyTraceKey, DummyTraceRole, DummyType, LayeredPhaseTrace, TraceDummySnapshot, TraceNodeSnapshot, TraceStage,
    TraceStageSnapshot,
};

#[test]
fn dummy_chain_key_ignores_generated_dummy_node_id() {
    let before = TraceDummySnapshot {
        generated_id: "_d4".to_string(),
        key: DummyTraceKey { edge_index: 7, role: DummyTraceRole::Edge, chain_position: 2, is_label_dummy: false },
        rank: 3,
        order: 1,
    };
    let after = TraceDummySnapshot { generated_id: "_d9".to_string(), key: before.key.clone(), rank: 3, order: 1 };
    assert_eq!(before.key, after.key);
    assert_ne!(before.generated_id, after.generated_id);
}

#[test]
fn phase_trace_records_named_stages_in_order() {
    let mut trace = LayeredPhaseTrace::default();
    trace.push_stage(TraceStageSnapshot::empty(TraceStage::Acyclic));
    trace.push_stage(TraceStageSnapshot::empty(TraceStage::Rank));
    trace.push_stage(TraceStageSnapshot::empty(TraceStage::Normalize));
    assert_eq!(trace.stage_names(), vec![TraceStage::Acyclic, TraceStage::Rank, TraceStage::Normalize]);
}

#[test]
fn stage_snapshot_carries_future_diff_payloads() {
    let snapshot = TraceStageSnapshot {
        stage: TraceStage::Order,
        nodes: vec![TraceNodeSnapshot { id: "A".to_string(), rank: 1, order: 0 }],
        dummies: vec![TraceDummySnapshot {
            generated_id: "_ld2".to_string(),
            key: DummyTraceKey {
                edge_index: 4,
                role: DummyTraceRole::EdgeLabel,
                chain_position: 1,
                is_label_dummy: true,
            },
            rank: 2,
            order: 3,
        }],
        reversed_edges: vec![4],
    };
    assert_eq!(snapshot.stage, TraceStage::Order);
    assert_eq!(snapshot.nodes.len(), 1);
    assert_eq!(snapshot.dummies.len(), 1);
    assert_eq!(snapshot.reversed_edges, vec![4]);
    assert_eq!([TraceStage::Position, TraceStage::Route].len(), 2);
}

#[test]
fn has_stage_reports_only_captured_stages() {
    let mut trace = LayeredPhaseTrace::default();
    trace.push_stage(TraceStageSnapshot::empty(TraceStage::Acyclic));
    trace.push_stage(TraceStageSnapshot::empty(TraceStage::Route));
    assert!(trace.has_stage(TraceStage::Acyclic));
    assert!(trace.has_stage(TraceStage::Route));
    assert!(!trace.has_stage(TraceStage::Rank));
}

#[test]
fn generated_dummy_ids_follow_stage_then_chain_order() {
    let dummy = |id: &str, edge_index: usize| TraceDummySnapshot {
        generated_id: id.to_string(),
        key: DummyTraceKey { edge_index, role: DummyTraceRole::Edge, chain_position: 0, is_label_dummy: false },
        rank: 0,
        order: 0,
    };
    let mut first = TraceStageSnapshot::empty(TraceStage::Normalize);
    first.dummies = vec![dummy("_d0", 0), dummy("_d1", 1)];
    let mut second = TraceStageSnapshot::empty(TraceStage::Order);
    second.dummies = vec![dummy("_d2", 2)];
    let mut trace = LayeredPhaseTrace::default();
    trace.push_stage(first);
    trace.push_stage(second);
    assert_eq!(trace.generated_dummy_ids(), vec!["_d0".to_string(), "_d1".to_string(), "_d2".to_string()]);
}

#[test]
fn dummy_type_maps_to_trace_role() {
    assert_eq!(DummyTraceRole::from(DummyType::Edge), DummyTraceRole::Edge);
    assert_eq!(DummyTraceRole::from(DummyType::EdgeLabel), DummyTraceRole::EdgeLabel);
}

/// Three real nodes, two dummies and a chain naming one id that is not a node.
fn graph_with_dummies() -> LayoutGraph {
    let names = ["A", "_d1", "B", "_d2"];
    let n = names.len();
    let mut dummy_nodes = HashMap::new();
    dummy_nodes.insert(1, DummyType::EdgeLabel);
    dummy_nodes.insert(3, DummyType::Edge);
    LayoutGraph {
        node_ids: names.iter().map(|id| NodeId(id.to_string())).collect(),
        edges: vec![(0, 2, 0), (2, 0, 1)],
        edge_weights: vec![1, 1],
        edge_minlens: vec![1, 1],
        parents: vec![None; n],
        ranks: vec![0, 1, 2, 3],
        order: vec![0, 1, 0, 2],
        compound_semantic_order: vec![None; n],
        model_order: vec![None; n],
        compound_nodes: Vec::new(),
        compound_titles: Vec::new(),
        reversed_edges: [3usize, 1].into_iter().collect::<BTreeSet<usize>>(),
        nesting_edges: HashSet::new(),
        excluded_edges: HashSet::new(),
        position_excluded_nodes: HashSet::new(),
        border_top: HashMap::new(),
        border_bottom: HashMap::new(),
        border_title: HashMap::new(),
        nesting_root: None,
        node_rank_factor: None,
        min_rank: HashMap::new(),
        max_rank: HashMap::new(),
        dummy_chains: vec![
            DummyChain {
                edge_index: 0,
                dummy_ids: vec![NodeId("_d1".to_string()), NodeId("_gone".to_string())],
                label_dummy_index: Some(0),
            },
            DummyChain { edge_index: 1, dummy_ids: vec![NodeId("_d2".to_string())], label_dummy_index: None },
        ],
        dummy_nodes,
    }
}

#[test]
fn snapshot_from_graph_keeps_real_nodes_in_index_order() {
    let graph = graph_with_dummies();
    let snapshot = TraceStageSnapshot::from_layout_graph(TraceStage::Order, &graph);
    assert_eq!(snapshot.stage, TraceStage::Order);
    assert_eq!(
        snapshot.nodes,
        vec![
            TraceNodeSnapshot { id: "A".to_string(), rank: 0, order: 0 },
            TraceNodeSnapshot { id: "B".to_string(), rank: 2, order: 0 },
        ]
    );
}

#[test]
fn snapshot_from_graph_keys_dummies_by_chain_position() {
    let graph = graph_with_dummies();
    let snapshot = TraceStageSnapshot::from_layout_graph(TraceStage::Normalize, &graph);
    assert_eq!(
        snapshot.dummies,
        vec![
            TraceDummySnapshot {
                generated_id: "_d1".to_string(),
                key: DummyTraceKey {
                    edge_index: 0,
                    role: DummyTraceRole::EdgeLabel,
                    chain_position: 0,
                    is_label_dummy: true,
                },
                rank: 1,
                order: 1,
            },
            TraceDummySnapshot {
                generated_id: "_d2".to_string(),
                key: DummyTraceKey { edge_index: 1, role: DummyTraceRole::Edge, chain_position: 0, is_label_dummy: false },
                rank: 3,
                order: 2,
            },
        ]
    );
}

#[test]
fn snapshot_from_graph_lists_reversed_edges_in_increasing_order() {
    let graph = graph_with_dummies();
    let snapshot = TraceStageSnapshot::from_layout_graph(TraceStage::Acyclic, &graph);
    assert_eq!(snapshot.reversed_edges, vec![1, 3]);
}

#[test]
fn dummy_nodes_are_recognised_by_index() {
    let graph = graph_with_dummies();
    assert!(!graph.is_dummy_index(0));
    assert!(graph.is_dummy_index(1));
    assert!(!graph.is_dummy_index(2));
    assert!(graph.is_dummy_index(3));
}
