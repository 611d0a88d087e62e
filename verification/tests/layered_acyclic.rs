use std::collections::{BTreeSet, HashMap, HashSet};

use mmdflux::layered::acyclic::{run, run_with_policy};
use mmdflux::layered::graph::{AcyclicPolicy, LayoutGraph, NodeId};

/// A layout graph with unit weights and minimum lengths, in the given node and
/// edge order; compounds are the nodes that have children.
fn layout_graph(
    nodes: &[&str],
    edges: &[(&str, &str)],
    parents: &[(&str, &str)],
    semantic_order: &[(&str, usize)],
) -> LayoutGraph {
    let index = |id: &str| nodes.iter().position(|n| *n == id).unwrap();
    let n = nodes.len();
    let mut parent_of = vec![None; n];
    for (child, parent) in parents {
        parent_of[index(child)] = Some(index(parent));
    }
    let mut order = vec![None; n];
    for (id, o) in semantic_order {
        order[index(id)] = Some(*o);
    }
    let compound_nodes: Vec<usize> = (0..n).filter(|i| parent_of.contains(&Some(*i))).collect();
    LayoutGraph {
        node_ids: nodes.iter().map(|id| NodeId(id.to_string())).collect(),
        edges: edges.iter().enumerate().map(|(i, (f, t))| (index(f), index(t), i)).collect(),
        edge_weights: vec![1; edges.len()],
        edge_minlens: vec![1; edges.len()],
        parents: parent_of,
        ranks: vec![0; n],
        order: vec![0; n],
        compound_semantic_order: order,
        model_order: vec![None; n],
        compound_nodes,
        compound_titles: Vec::new(),
        reversed_edges: BTreeSet::new(),
        nesting_edges: HashSet::new(),
        excluded_edges: HashSet::new(),
        position_excluded_nodes: HashSet::new(),
        border_top: HashMap::new(),
        border_bottom: HashMap::new(),
        border_title: HashMap::new(),
        nesting_root: None,
        node_rank_factor: None,
        min_rank: HashMap::new(),
        max_rank: HashMap::new(),
        dummy_chains: Vec::new(),
        dummy_nodes: HashMap::new(),
    }
}

#[test]
fn test_acyclic_no_cycle() {
    let mut lg = layout_graph(&["A", "B", "C"], &[("A", "B"), ("B", "C")], &[], &[]);
    run(&mut lg);
    assert!(lg.reversed_edges.is_empty());
}

#[test]
fn test_acyclic_simple_cycle() {
    let mut lg = layout_graph(&["A", "B"], &[("A", "B"), ("B", "A")], &[], &[]);
    run(&mut lg);
    assert_eq!(lg.reversed_edges.len(), 1);
}

#[test]
fn test_acyclic_triangle_cycle() {
    let mut lg = layout_graph(&["A", "B", "C"], &[("A", "B"), ("B", "C"), ("C", "A")], &[], &[]);
    run(&mut lg);
    assert_eq!(lg.reversed_edges.len(), 1);
}

#[test]
fn test_acyclic_self_loop() {
    let mut lg = layout_graph(&["A"], &[("A", "A")], &[], &[]);
    run(&mut lg);
    assert_eq!(lg.reversed_edges.len(), 1);
}

fn compound_cycle_graph_with_order(compound_insertion_order: &[&str]) -> LayoutGraph {
    let mut nodes = vec!["a1", "a2", "b1", "c1", "c2"];
    nodes.extend_from_slice(compound_insertion_order);
    layout_graph(
        &nodes,
        &[("a1", "b1"), ("b1", "c1"), ("c2", "a2")],
        &[("a1", "sg_a"), ("a2", "sg_a"), ("b1", "sg_b"), ("c1", "sg_c"), ("c2", "sg_c")],
        &[("sg_a", 0), ("sg_b", 1), ("sg_c", 2)],
    )
}

#[test]
fn test_acyclic_compound_level_back_edge() {
    for compound_order in [["sg_a", "sg_b", "sg_c"], ["sg_c", "sg_b", "sg_a"]] {
        let mut lg = compound_cycle_graph_with_order(&compound_order);
        run(&mut lg);
        assert!(
            lg.reversed_edges.contains(&2),
            "Edge c2 -> a2 (index 2) should be reversed as a compound-level back-edge; compound insertion order={compound_order:?}; got {:?}",
            lg.reversed_edges
        );
        assert!(
            !lg.reversed_edges.contains(&1),
            "Edge b1 -> c1 (index 1) should remain forward; compound insertion order={compound_order:?}; got {:?}",
            lg.reversed_edges
        );
    }
}

#[test]
fn test_acyclic_policy_dfs_only_skips_compound_feedback_edge() {
    let mut lg = compound_cycle_graph_with_order(&["sg_c", "sg_b", "sg_a"]);
    run_with_policy(&mut lg, AcyclicPolicy::DfsOnly);
    assert!(
        !lg.reversed_edges.contains(&2),
        "DfsOnly should skip semantic compound feedback detection; got {:?}",
        lg.reversed_edges
    );
}

#[test]
fn test_acyclic_policy_semantic_compound_feedback_reverses_c_to_a() {
    let mut lg = compound_cycle_graph_with_order(&["sg_c", "sg_b", "sg_a"]);
    run_with_policy(&mut lg, AcyclicPolicy::SemanticCompoundFeedback);
    assert!(
        lg.reversed_edges.contains(&2),
        "SemanticCompoundFeedback should preserve compound feedback detection; got {:?}",
        lg.reversed_edges
    );
}

#[test]
fn test_acyclic_compound_level_back_edges_converge_across_disjoint_cycles() {
    let nodes = [
        "a1", "a2", "b1", "c1", "c2", "d1", "d2", "e1", "f1", "f2", "sg_a", "sg_b", "sg_c", "sg_d", "sg_e", "sg_f",
    ];
    let mut lg = layout_graph(
        &nodes,
        &[("a1", "b1"), ("b1", "c1"), ("c2", "a2"), ("d1", "e1"), ("e1", "f1"), ("f2", "d2")],
        &[
            ("a1", "sg_a"),
            ("a2", "sg_a"),
            ("b1", "sg_b"),
            ("c1", "sg_c"),
            ("c2", "sg_c"),
            ("d1", "sg_d"),
            ("d2", "sg_d"),
            ("e1", "sg_e"),
            ("f1", "sg_f"),
            ("f2", "sg_f"),
        ],
        &[("sg_a", 0), ("sg_b", 1), ("sg_c", 2), ("sg_d", 3), ("sg_e", 4), ("sg_f", 5)],
    );
    run(&mut lg);
    assert_eq!(
        lg.reversed_edges,
        BTreeSet::from([2, 5]),
        "each disjoint compound cycle should contribute one semantic-backward feedback edge"
    );
}

#[test]
fn test_acyclic_disconnected() {
    let mut lg = layout_graph(&["A", "B", "C", "D"], &[("A", "B"), ("C", "D")], &[], &[]);
    run(&mut lg);
    assert!(lg.reversed_edges.is_empty());
}
