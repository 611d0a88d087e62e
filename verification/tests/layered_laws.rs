use std::collections::{BTreeSet, HashMap, HashSet};

use mmdflux::layered::acyclic;
use mmdflux::layered::graph::{AcyclicPolicy, LayoutGraph, NodeId};
use mmdflux::layered::nesting;

fn layout_graph(nodes: &[&str], edges: &[(&str, &str)], parents: &[(&str, &str)]) -> LayoutGraph {
    let index = |id: &str| nodes.iter().position(|n| *n == id).unwrap();
    let n = nodes.len();
    let mut parent_of = vec![None; n];
    for (child, parent) in parents {
        parent_of[index(child)] = Some(index(parent));
    }
    let compound_nodes: Vec<usize> = (0..n).filter(|i| parent_of.contains(&Some(*i))).collect();
    LayoutGraph {
        node_ids: nodes.iter().map(|id| NodeId(id.to_string())).collect(),
        edges: edges.iter().enumerate().map(|(i, (f, t))| (index(f), index(t), i)).collect(),
        edge_weights: vec![1; edges.len()],
        edge_minlens: vec![1; edges.len()],
        parents: parent_of,
        ranks: vec![0; n],
        order: vec![0; n],
        compound_semantic_order: vec![None; n],
        model_order: vec![None; n],
        compound_nodes,
        compound_titles: Vec::new(),
        reversed_edges: BTreeSet::new(),
        nesting_edges: HashSet::new(),
        excluded_edges: HashSet::new(),
        position_excluded_nodes: HashSet::new(),
        border_top: HashMap::new(),
        border_bottom: HashMap::new(),
        border_title: HashMap::new(),
        nesting_root: None,
        node_rank_factor: None,
        min_rank: HashMap::new(),
        max_rank: HashMap::new(),
        dummy_chains: Vec::new(),
        dummy_nodes: HashMap::new(),
    }
}

/// Whether the directed graph given by `arcs` over `n` nodes is acyclic (self-loops ignored).
fn acyclic_ignoring_self_loops(n: usize, arcs: &[(usize, usize)]) -> bool {
    let mut indegree = vec![0usize; n];
    for &(u, v) in arcs {
        if u != v {
            indegree[v] += 1;
        }
    }
    let mut ready: Vec<usize> = (0..n).filter(|v| indegree[*v] == 0).collect();
    let mut seen = 0;
    while let Some(u) = ready.pop() {
        seen += 1;
        for &(a, b) in arcs {
            if a == u && a != b {
                indegree[b] -= 1;
                if indegree[b] == 0 {
                    ready.push(b);
                }
            }
        }
    }
    seen == n
}

fn tangled() -> LayoutGraph {
    layout_graph(
        &["A", "B", "C", "D", "E"],
        &[("A", "B"), ("B", "C"), ("C", "A"), ("C", "D"), ("D", "B"), ("D", "E"), ("E", "E"), ("E", "A")],
        &[],
    )
}

#[test]
fn unreversed_edges_form_no_cycle() {
    let mut lg = tangled();
    acyclic::run(&mut lg);
    let kept: Vec<(usize, usize)> = lg
        .edges
        .iter()
        .enumerate()
        .filter(|(i, _)| !lg.reversed_edges.contains(i))
        .map(|(_, &(u, v, _))| (u, v))
        .collect();
    assert!(acyclic_ignoring_self_loops(lg.node_ids.len(), &kept));
    assert!(kept.iter().all(|(u, v)| u != v), "self-loops are reversed");
}

#[test]
fn dfs_only_reorientation_is_acyclic_apart_from_self_loops() {
    let mut lg = tangled();
    acyclic::run_with_policy(&mut lg, AcyclicPolicy::DfsOnly);
    let oriented: Vec<(usize, usize)> = lg
        .edges
        .iter()
        .enumerate()
        .map(|(i, &(u, v, _))| if lg.reversed_edges.contains(&i) { (v, u) } else { (u, v) })
        .collect();
    assert!(acyclic_ignoring_self_loops(lg.node_ids.len(), &oriented));
}

#[test]
fn acyclic_phase_on_empty_graph_changes_nothing() {
    let mut lg = layout_graph(&[], &[], &[]);
    acyclic::run(&mut lg);
    assert!(lg.reversed_edges.is_empty());
}

#[test]
fn back_edges_are_those_closing_a_dfs_path() {
    // A -> B -> C -> A: the DFS from A reaches C last, so C -> A is the back-edge.
    let mut lg = layout_graph(&["A", "B", "C"], &[("A", "B"), ("B", "C"), ("C", "A")], &[]);
    acyclic::run(&mut lg);
    assert_eq!(lg.reversed_edges, BTreeSet::from([2]));
}

#[test]
fn single_compound_gets_no_compound_feedback() {
    let mut lg = layout_graph(&["a", "b", "sg"], &[("a", "b")], &[("a", "sg"), ("b", "sg")]);
    acyclic::run(&mut lg);
    assert!(lg.reversed_edges.is_empty());
}

#[test]
fn children_are_held_between_their_compound_borders() {
    let mut lg = layout_graph(
        &["A", "B", "inner", "outer", "C"],
        &[("A", "B"), ("B", "C")],
        &[("A", "inner"), ("B", "inner"), ("inner", "outer"), ("C", "outer")],
    );
    let n = lg.node_ids.len() as u64;
    nesting::run(&mut lg);
    let inner = lg.index_of(&"inner".to_string()).unwrap();
    let outer = lg.index_of(&"outer".to_string()).unwrap();
    let a = lg.index_of(&"A".to_string()).unwrap();
    let c = lg.index_of(&"C".to_string()).unwrap();
    let has_edge = |from: usize, to: usize, weight: u64, minlen: i32| {
        lg.edges.iter().enumerate().any(|(i, &(f, t, _))| {
            f == from && t == to && lg.edge_weights[i] == weight && lg.edge_minlens[i] == minlen && lg.nesting_edges.contains(&i)
        })
    };
    // Leaf A inside inner (depth 2, height 2): weight 4n, minlen height - depth + 1 = 1.
    assert!(has_edge(lg.border_top[&inner], a, 4 * n, 1));
    assert!(has_edge(a, lg.border_bottom[&inner], 4 * n, 1));
    // Compound inner inside outer: its borders, weight 2n, minlen 1.
    assert!(has_edge(lg.border_top[&outer], lg.border_top[&inner], 2 * n, 1));
    assert!(has_edge(lg.border_bottom[&inner], lg.border_bottom[&outer], 2 * n, 1));
    // Leaf C inside outer (depth 1): minlen height - depth + 1 = 2.
    assert!(has_edge(lg.border_top[&outer], c, 4 * n, 2));
    assert_eq!(lg.node_ids[lg.border_top[&inner]], NodeId("_bt_inner".to_string()));
    assert_eq!(lg.node_ids[lg.border_bottom[&outer]], NodeId("_bb_outer".to_string()));
    assert_eq!(lg.node_ids[lg.nesting_root.unwrap()], NodeId("_nesting_root".to_string()));
}

#[test]
fn exit_constraint_skipped_when_target_reaches_back_inside() {
    // a and b are inside sg; c is outside with a -> c -> b.
    let mut lg = layout_graph(&["a", "b", "c", "sg"], &[("a", "c"), ("c", "b")], &[("a", "sg"), ("b", "sg")]);
    nesting::run(&mut lg);
    let sg = lg.index_of(&"sg".to_string()).unwrap();
    let c = lg.index_of(&"c".to_string()).unwrap();
    let bot = lg.border_bottom[&sg];
    assert!(!lg.edges.iter().any(|&(f, t, _)| f == bot && t == c));
}

#[test]
fn dfs_only_nesting_adds_no_exit_constraints() {
    let mut lg = layout_graph(&["a", "b", "sg_a", "sg_b"], &[("b", "a")], &[("a", "sg_a"), ("b", "sg_b")]);
    nesting::run_with_policy(&mut lg, AcyclicPolicy::DfsOnly);
    let sg_b = lg.index_of(&"sg_b".to_string()).unwrap();
    let a = lg.index_of(&"a".to_string()).unwrap();
    let bot = lg.border_bottom[&sg_b];
    assert!(!lg.edges.iter().any(|&(f, t, _)| f == bot && t == a));
}

#[test]
fn cleanup_zeroes_and_excludes_every_nesting_edge() {
    let mut lg = layout_graph(&["A", "B", "sg"], &[("A", "B")], &[("A", "sg"), ("B", "sg")]);
    nesting::run(&mut lg);
    let nesting_edges: Vec<usize> = lg.nesting_edges.iter().copied().collect();
    let root = lg.nesting_root.unwrap();
    nesting::cleanup(&mut lg);
    for e in nesting_edges {
        assert_eq!(lg.edge_weights[e], 0);
        assert!(lg.excluded_edges.contains(&e));
    }
    assert_eq!(lg.edge_weights[0], 1, "the original edge keeps its weight");
    assert!(!lg.excluded_edges.contains(&0));
    assert!(lg.position_excluded_nodes.contains(&root));
    assert!(lg.nesting_root.is_none());
}

#[test]
fn title_nodes_are_excluded_from_positioning_and_linked_to_top_border() {
    let mut lg = layout_graph(&["A", "sg"], &[], &[("A", "sg")]);
    lg.compound_titles = vec![1];
    nesting::run(&mut lg);
    let top = lg.border_top[&1];
    lg.ranks[top] = 4;
    let edges_before = lg.edges.len();
    nesting::insert_title_nodes(&mut lg);
    let title = lg.border_title[&1];
    assert_eq!(lg.ranks[title], 3);
    assert!(lg.position_excluded_nodes.contains(&title));
    assert_eq!(lg.edges[edges_before], (title, top, edges_before));
    assert_eq!(lg.edge_weights[edges_before], 0);
    assert_eq!(lg.edge_minlens[edges_before], 1);
    assert!(!lg.nesting_edges.contains(&edges_before));
}

#[test]
fn rank_span_falls_back_to_title_without_top_border() {
    let mut lg = layout_graph(&["A", "sg", "t"], &[], &[("A", "sg")]);
    lg.ranks = vec![5, 0, 2];
    lg.border_title.insert(1, 2);
    nesting::assign_rank_minmax(&mut lg);
    assert_eq!(lg.min_rank[&1], 2);
    assert!(!lg.max_rank.contains_key(&1));
}
