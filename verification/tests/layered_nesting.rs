use std::collections::{BTreeSet, HashMap, HashSet};

use mmdflux::layered::graph::{LayoutGraph, NodeId};
use mmdflux::layered::nesting::{assign_rank_minmax, cleanup, insert_title_nodes, run, tree_depths};

/// A layout graph with unit weights and minimum lengths, in the given node and
/// edge order; compounds are the nodes that have children.
fn layout_graph(nodes: &[&str], edges: &[(&str, &str)], parents: &[(&str, &str)], titled: &[&str]) -> LayoutGraph {
    let index = |id: &str| nodes.iter().position(|n| *n == id).unwrap();
    let n = nodes.len();
    let mut parent_of = vec![None; n];
    for (child, parent) in parents {
        parent_of[index(child)] = Some(index(parent));
    }
    let compound_nodes: Vec<usize> = (0..n).filter(|i| parent_of.contains(&Some(*i))).collect();
    let mut compound_titles: Vec<usize> = titled.iter().map(|t| index(t)).collect();
    compound_titles.sort();
    LayoutGraph {
        node_ids: nodes.iter().map(|id| NodeId(id.to_string())).collect(),
        edges: edges.iter().enumerate().map(|(i, (f, t))| (index(f), index(t), i)).collect(),
        edge_weights: vec![1; edges.len()],
        edge_minlens: vec![1; edges.len()],
        parents: parent_of,
        ranks: vec![0; n],
        order: vec![0; n],
        compound_semantic_order: vec![None; n],
        model_order: vec![None; n],
        compound_nodes,
        compound_titles,
        reversed_edges: BTreeSet::new(),
        nesting_edges: HashSet::new(),
        excluded_edges: HashSet::new(),
        position_excluded_nodes: HashSet::new(),
        border_top: HashMap::new(),
        border_bottom: HashMap::new(),
        border_title: HashMap::new(),
        nesting_root: None,
        node_rank_factor: None,
        min_rank: HashMap::new(),
        max_rank: HashMap::new(),
        dummy_chains: Vec::new(),
        dummy_nodes: HashMap::new(),
    }
}

/// Longest-path ranking over the edges that are not excluded, normalized so
/// that the lowest rank is 0 (stands in for the pipeline's ranker).
fn rank_longest_path(lg: &mut LayoutGraph) {
    let n = lg.node_ids.len();
    let mut ranks = vec![0i32; n];
    for _ in 0..=n {
        for (i, &(from, to, _)) in lg.edges.iter().enumerate() {
            if lg.excluded_edges.contains(&i) {
                continue;
            }
            let candidate = ranks[from] + lg.edge_minlens[i];
            if candidate > ranks[to] {
                ranks[to] = candidate;
            }
        }
    }
    let min = ranks.iter().copied().min().unwrap_or(0);
    lg.ranks = ranks.into_iter().map(|r| r - min).collect();
}

fn idx(lg: &LayoutGraph, id: &str) -> usize {
    lg.index_of(&id.to_string()).unwrap()
}

fn build_test_compound_layout_graph() -> LayoutGraph {
    layout_graph(&["A", "B", "sg1"], &[("A", "B")], &[("A", "sg1"), ("B", "sg1")], &[])
}

fn build_test_simple_layout_graph() -> LayoutGraph {
    layout_graph(&["A", "B"], &[("A", "B")], &[], &[])
}

fn build_test_titled_compound_layout_graph() -> LayoutGraph {
    layout_graph(&["A", "B", "sg1"], &[("A", "B")], &[("A", "sg1"), ("B", "sg1")], &["sg1"])
}

fn build_nested_layout_graph() -> LayoutGraph {
    layout_graph(
        &["A", "B", "inner", "outer"],
        &[("A", "B")],
        &[("A", "inner"), ("B", "inner"), ("inner", "outer")],
        &[],
    )
}

#[test]
fn test_tree_depths_single_level() {
    let lg = build_test_compound_layout_graph();
    let depths = tree_depths(&lg);
    assert_eq!(depths[&idx(&lg, "sg1")], 1);
    assert_eq!(depths[&idx(&lg, "A")], 2);
    assert_eq!(depths[&idx(&lg, "B")], 2);
}

#[test]
fn test_tree_depths_nested() {
    let lg = build_nested_layout_graph();
    let depths = tree_depths(&lg);
    assert_eq!(depths[&idx(&lg, "outer")], 1);
    assert_eq!(depths[&idx(&lg, "inner")], 2);
    assert_eq!(depths[&idx(&lg, "A")], 3);
}

#[test]
fn test_tree_depths_flat_graph() {
    let lg = build_test_simple_layout_graph();
    let depths = tree_depths(&lg);
    assert_eq!(depths[&idx(&lg, "A")], 1);
}

#[test]
fn test_nesting_run_sets_node_rank_factor_single_level() {
    let mut lg = build_test_compound_layout_graph();
    run(&mut lg);
    assert_eq!(lg.node_rank_factor, Some(3));
}

#[test]
fn test_nesting_run_sets_node_rank_factor_nested() {
    let mut lg = build_nested_layout_graph();
    run(&mut lg);
    assert_eq!(lg.node_rank_factor, Some(5));
}

#[test]
fn test_nesting_run_no_node_rank_factor_flat() {
    let mut lg = build_test_simple_layout_graph();
    run(&mut lg);
    assert_eq!(lg.node_rank_factor, None);
}

#[test]
fn test_nesting_run_multiplies_edge_minlens() {
    let mut lg = build_test_compound_layout_graph();
    assert_eq!(lg.edge_minlens[0], 1);
    run(&mut lg);
    assert_eq!(lg.edge_minlens[0], 3);
}

#[test]
fn test_nesting_run_multiplies_doubled_minlens() {
    let mut lg = build_test_compound_layout_graph();
    lg.edge_minlens[0] = 2;
    run(&mut lg);
    assert_eq!(lg.edge_minlens[0], 6);
}

#[test]
fn test_nesting_run_does_not_multiply_nesting_edges() {
    let mut lg = build_test_compound_layout_graph();
    let orig_edge_count = lg.edges.len();
    run(&mut lg);
    for i in orig_edge_count..lg.edge_minlens.len() {
        if lg.nesting_edges.contains(&i) {
            assert!(
                lg.edge_minlens[i] <= 5,
                "Nesting edge {} has unexpectedly large minlen {}",
                i,
                lg.edge_minlens[i]
            );
        }
    }
}

#[test]
fn test_nesting_border_to_leaf_minlen_single_level() {
    let mut lg = build_test_compound_layout_graph();
    run(&mut lg);
    let sg1_idx = idx(&lg, "sg1");
    let a_idx = idx(&lg, "A");
    let top_idx = lg.border_top[&sg1_idx];
    let edge_pos = lg.edges.iter().position(|&(from, to, _)| from == top_idx && to == a_idx);
    assert!(edge_pos.is_some(), "Should have border_top -> A edge");
    assert_eq!(lg.edge_minlens[edge_pos.unwrap()], 1);
}

#[test]
fn test_nesting_root_to_compound_border_minlen() {
    let mut lg = build_test_compound_layout_graph();
    run(&mut lg);
    let root = lg.nesting_root.unwrap();
    let sg1_idx = idx(&lg, "sg1");
    let top_idx = lg.border_top[&sg1_idx];
    let edge = lg.edges.iter().position(|&(f, t, _)| f == root && t == top_idx);
    assert!(edge.is_some(), "Root -> sg1.border_top edge should exist");
    assert_eq!(lg.edge_minlens[edge.unwrap()], 2, "Root to top-border minlen should be height + depth");
}

#[test]
fn test_nesting_root_to_leaf_minlen() {
    let mut lg = layout_graph(
        &["A", "B", "E", "sg1"],
        &[("A", "B"), ("E", "A")],
        &[("A", "sg1"), ("B", "sg1")],
        &[],
    );
    run(&mut lg);
    let root = lg.nesting_root.unwrap();
    let e_idx = idx(&lg, "E");
    let edge = lg.edges.iter().position(|&(f, t, _)| f == root && t == e_idx);
    assert!(edge.is_some(), "Root -> E edge should exist");
    assert_eq!(lg.edge_minlens[edge.unwrap()], 3, "Root to top-level leaf minlen should be node_sep");
}

#[test]
fn test_nesting_root_edges_have_zero_weight() {
    let mut lg = build_test_compound_layout_graph();
    run(&mut lg);
    let root = lg.nesting_root.unwrap();
    for (i, &(from, _, _)) in lg.edges.iter().enumerate() {
        if from == root {
            assert_eq!(lg.edge_weights[i], 0, "Root edges should have weight 0");
        }
    }
}

#[test]
fn test_nesting_run_adds_border_nodes() {
    let mut lg = build_test_compound_layout_graph();
    let sg1_idx = idx(&lg, "sg1");
    let initial_count = lg.node_count();
    run(&mut lg);
    assert!(lg.border_top.contains_key(&sg1_idx));
    assert!(lg.border_bottom.contains_key(&sg1_idx));
    assert!(lg.node_count() > initial_count);
}

#[test]
fn test_nesting_run_adds_nesting_edges() {
    let mut lg = build_test_compound_layout_graph();
    run(&mut lg);
    assert!(!lg.nesting_edges.is_empty());
}

#[test]
fn test_nesting_run_creates_root() {
    let mut lg = build_test_compound_layout_graph();
    run(&mut lg);
    assert!(lg.nesting_root.is_some());
}

#[test]
fn test_nesting_cleanup_removes_edges() {
    let mut lg = build_test_compound_layout_graph();
    run(&mut lg);
    assert!(!lg.nesting_edges.is_empty());
    cleanup(&mut lg);
    assert!(lg.nesting_root.is_none());
    assert!(lg.nesting_edges.is_empty());
}

#[test]
fn test_nesting_run_noop_simple_graph() {
    let mut lg = build_test_simple_layout_graph();
    let initial = lg.node_count();
    run(&mut lg);
    assert_eq!(lg.node_count(), initial);
}

#[test]
fn test_nesting_run_does_not_create_title_node() {
    let mut lg = build_test_titled_compound_layout_graph();
    let sg1_idx = idx(&lg, "sg1");
    run(&mut lg);
    assert!(!lg.border_title.contains_key(&sg1_idx), "run() should not create title nodes");
    assert!(lg.border_top.contains_key(&sg1_idx));
    assert!(lg.border_bottom.contains_key(&sg1_idx));
}

#[test]
fn test_titled_compound_gets_title_node_after_insert() {
    let mut lg = build_test_titled_compound_layout_graph();
    let sg1_idx = idx(&lg, "sg1");
    run(&mut lg);
    rank_longest_path(&mut lg);
    cleanup(&mut lg);
    insert_title_nodes(&mut lg);
    assert!(lg.border_title.contains_key(&sg1_idx));
    let title_idx = lg.border_title[&sg1_idx];
    assert_eq!(lg.node_ids[title_idx], NodeId("_tt_sg1".to_string()));
}

#[test]
fn test_nesting_run_no_title_node_for_untitled_compound() {
    let mut lg = build_test_compound_layout_graph();
    let sg1_idx = idx(&lg, "sg1");
    run(&mut lg);
    assert!(!lg.border_title.contains_key(&sg1_idx));
}

#[test]
fn test_assign_rank_minmax() {
    let mut lg = build_test_compound_layout_graph();
    let sg1_idx = idx(&lg, "sg1");
    run(&mut lg);
    rank_longest_path(&mut lg);
    cleanup(&mut lg);
    assign_rank_minmax(&mut lg);
    assert!(lg.min_rank.contains_key(&sg1_idx));
    assert!(lg.max_rank.contains_key(&sg1_idx));
    assert!(lg.min_rank[&sg1_idx] <= lg.max_rank[&sg1_idx]);
}

#[test]
fn test_assign_rank_minmax_uses_border_top_for_min() {
    let mut lg = build_test_titled_compound_layout_graph();
    let sg1_idx = idx(&lg, "sg1");
    run(&mut lg);
    rank_longest_path(&mut lg);
    cleanup(&mut lg);
    insert_title_nodes(&mut lg);
    assign_rank_minmax(&mut lg);
    let top_idx = lg.border_top[&sg1_idx];
    let title_idx = lg.border_title[&sg1_idx];
    assert_eq!(lg.min_rank[&sg1_idx], lg.ranks[top_idx]);
    assert!(lg.ranks[title_idx] < lg.ranks[top_idx]);
}

#[test]
fn test_insert_title_nodes_sets_correct_rank() {
    let mut lg = build_test_titled_compound_layout_graph();
    let sg1_idx = idx(&lg, "sg1");
    run(&mut lg);
    rank_longest_path(&mut lg);
    cleanup(&mut lg);
    let bt_rank_before = lg.ranks[lg.border_top[&sg1_idx]];
    insert_title_nodes(&mut lg);
    assert!(lg.border_title.contains_key(&sg1_idx));
    let title_idx = lg.border_title[&sg1_idx];
    assert_eq!(lg.ranks[title_idx], bt_rank_before - 1);
    assert_eq!(lg.parents[title_idx], Some(sg1_idx));
}

#[test]
fn test_insert_title_nodes_multi_subgraph_no_collision() {
    let mut lg = layout_graph(
        &["A", "B", "C", "D", "sg1", "sg2"],
        &[("A", "B"), ("C", "D"), ("A", "C")],
        &[("A", "sg1"), ("B", "sg1"), ("C", "sg2"), ("D", "sg2")],
        &["sg1", "sg2"],
    );
    run(&mut lg);
    rank_longest_path(&mut lg);
    cleanup(&mut lg);
    insert_title_nodes(&mut lg);
    let sg1_idx = idx(&lg, "sg1");
    let sg2_idx = idx(&lg, "sg2");
    let tt1 = lg.border_title[&sg1_idx];
    let tt2 = lg.border_title[&sg2_idx];
    let bt1 = lg.border_top[&sg1_idx];
    let bt2 = lg.border_top[&sg2_idx];
    assert_eq!(lg.ranks[tt1], lg.ranks[bt1] - 1);
    assert_eq!(lg.ranks[tt2], lg.ranks[bt2] - 1);
    assert!(lg.ranks[tt1] >= 0);
    assert!(lg.ranks[tt2] >= 0);
}

#[test]
fn test_insert_title_nodes_skips_untitled() {
    let mut lg = build_test_compound_layout_graph();
    let sg1_idx = idx(&lg, "sg1");
    run(&mut lg);
    rank_longest_path(&mut lg);
    cleanup(&mut lg);
    insert_title_nodes(&mut lg);
    assert!(!lg.border_title.contains_key(&sg1_idx));
}

#[test]
fn test_assign_rank_minmax_noop_simple() {
    let mut lg = build_test_simple_layout_graph();
    rank_longest_path(&mut lg);
    assign_rank_minmax(&mut lg);
    assert!(lg.min_rank.is_empty());
    assert!(lg.max_rank.is_empty());
}

fn build_sibling_compounds_with_cross_edge() -> LayoutGraph {
    layout_graph(&["a", "b", "sg_a", "sg_b"], &[("b", "a")], &[("a", "sg_a"), ("b", "sg_b")], &[])
}

#[test]
fn test_exit_constraint_skips_reversed_edge() {
    let mut lg = build_sibling_compounds_with_cross_edge();
    lg.reversed_edges.insert(0);
    run(&mut lg);
    let bot_a = lg.border_bottom[&idx(&lg, "sg_a")];
    let bot_b = lg.border_bottom[&idx(&lg, "sg_b")];
    let a_idx = idx(&lg, "a");
    let b_idx = idx(&lg, "b");
    let has_wrong_exit = lg
        .edges
        .iter()
        .enumerate()
        .any(|(i, &(from, to, _))| from == bot_b && to == a_idx && lg.nesting_edges.contains(&i));
    assert!(!has_wrong_exit, "Should NOT have border_bottom(sg_b) -> a for a reversed edge");
    let has_flipped_exit = lg
        .edges
        .iter()
        .enumerate()
        .any(|(i, &(from, to, _))| from == bot_a && to == b_idx && lg.nesting_edges.contains(&i));
    assert!(!has_flipped_exit, "Should NOT have any exit constraint for a reversed edge");
}

#[test]
fn test_forward_exit_constraint_preserved() {
    let mut lg = build_sibling_compounds_with_cross_edge();
    run(&mut lg);
    let bot_b = lg.border_bottom[&idx(&lg, "sg_b")];
    let a_idx = idx(&lg, "a");
    let has_exit = lg
        .edges
        .iter()
        .enumerate()
        .any(|(i, &(from, to, _))| from == bot_b && to == a_idx && lg.nesting_edges.contains(&i));
    assert!(has_exit, "Forward exit constraint border_bottom(sg_b) -> a must be preserved");
}

#[test]
fn test_reversed_edge_no_false_exit_constraint() {
    let mut lg = layout_graph(
        &["a1", "a2", "b1", "c1", "c2", "sg_a", "sg_b", "sg_c"],
        &[("a1", "b1"), ("b1", "c1"), ("c2", "a2")],
        &[("a1", "sg_a"), ("a2", "sg_a"), ("b1", "sg_b"), ("c1", "sg_c"), ("c2", "sg_c")],
        &[],
    );
    lg.reversed_edges.insert(2);
    run(&mut lg);
    let bot_c = lg.border_bottom[&idx(&lg, "sg_c")];
    let a2_idx = idx(&lg, "a2");
    let has_wrong = lg
        .edges
        .iter()
        .enumerate()
        .any(|(i, &(from, to, _))| from == bot_c && to == a2_idx && lg.nesting_edges.contains(&i));
    assert!(!has_wrong, "Must NOT have border_bottom(sg_c) -> a2 for reversed back-edge");
}
