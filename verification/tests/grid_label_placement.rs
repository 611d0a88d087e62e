use mmdflux::grid::cells::CellRole;
use mmdflux::grid::label_placement::{
    choose_corridor_aware_anchor, project_grid_polyline, seed_node_cells_into, seed_subgraph_borders_into,
    segments_to_footprint, EdgeLabelSide, PathFootprint, Segment,
};
use mmdflux::grid::layout::{GridLayout, NodeBounds, SubgraphBounds};

const GRID_W: usize = 16;
const GRID_H: usize = 16;

fn cells_with_role(footprint: &PathFootprint, role: CellRole) -> Vec<(usize, usize)> {
    footprint.cells.iter().filter(|(_, r)| **r == role).map(|(cell, _)| *cell).collect()
}

#[test]
fn project_straight_horizontal_segment_fills_corridor_cells() {
    let path = vec![(0usize, 2usize), (6, 2)];
    let footprint = project_grid_polyline(&path);
    assert_eq!(cells_with_role(&footprint, CellRole::Corridor), (1..=5).map(|c| (c, 2)).collect::<Vec<_>>());
    assert_eq!(cells_with_role(&footprint, CellRole::Terminal), vec![(0, 2), (6, 2)]);
}

#[test]
fn project_straight_vertical_segment_fills_corridor_cells() {
    let path = vec![(3usize, 0usize), (3, 5)];
    let footprint = project_grid_polyline(&path);
    assert_eq!(cells_with_role(&footprint, CellRole::Corridor), (1..=4).map(|r| (3, r)).collect::<Vec<_>>());
    assert_eq!(cells_with_role(&footprint, CellRole::Terminal), vec![(3, 0), (3, 5)]);
}

#[test]
fn project_l_bend_marks_corner_cell() {
    let path = vec![(0usize, 0usize), (3, 0), (3, 3)];
    let footprint = project_grid_polyline(&path);
    assert_eq!(cells_with_role(&footprint, CellRole::Corner), vec![(3, 0)]);
    assert_eq!(cells_with_role(&footprint, CellRole::Terminal), vec![(0, 0), (3, 3)]);
}

#[test]
fn project_u_channel_marks_terminals_and_two_corners() {
    let path = vec![(6usize, 1usize), (6, 3), (1, 3), (1, 1)];
    let footprint = project_grid_polyline(&path);
    assert_eq!(cells_with_role(&footprint, CellRole::Terminal), vec![(1, 1), (6, 1)]);
    assert_eq!(cells_with_role(&footprint, CellRole::Corner), vec![(1, 3), (6, 3)]);
    let long_leg_corridors: usize = footprint
        .cells
        .iter()
        .filter(|((col, row), role)| **role == CellRole::Corridor && *row == 3 && *col > 1 && *col < 6)
        .count();
    assert_eq!(long_leg_corridors, 4, "4 interior cells on the long leg");
}

#[test]
fn project_degenerate_single_point_returns_empty_footprint() {
    let path = vec![(0usize, 0usize)];
    let footprint = project_grid_polyline(&path);
    assert!(footprint.cells.is_empty());
}

fn u_channel_footprint() -> PathFootprint {
    project_grid_polyline(&[(6usize, 1usize), (6, 3), (1, 3), (1, 1)])
}

fn is_load_bearing(footprint: &PathFootprint, cell: (usize, usize)) -> bool {
    matches!(footprint.cells.get(&cell), Some(CellRole::Terminal | CellRole::Corner))
}

#[test]
fn anchor_on_terminal_cell_shifts_off() {
    let footprint = u_channel_footprint();
    let candidate = (6, 1);
    let anchor = choose_corridor_aware_anchor(candidate, EdgeLabelSide::Below, &footprint, GRID_W, GRID_H, 1, 1);
    assert_ne!(anchor, candidate);
    assert!(
        !is_load_bearing(&footprint, anchor),
        "anchor landed on a load-bearing cell: {:?}",
        footprint.cells.get(&anchor)
    );
}

#[test]
fn anchor_on_corner_cell_shifts_off() {
    let footprint = u_channel_footprint();
    let candidate = (1, 3);
    let anchor = choose_corridor_aware_anchor(candidate, EdgeLabelSide::Below, &footprint, GRID_W, GRID_H, 1, 1);
    assert_ne!(anchor, candidate);
    assert!(
        !is_load_bearing(&footprint, anchor),
        "anchor landed on a load-bearing cell: {:?}",
        footprint.cells.get(&anchor)
    );
}

#[test]
fn anchor_on_corridor_cell_remains_unchanged() {
    let footprint = u_channel_footprint();
    let candidate = (6, 2);
    let anchor = choose_corridor_aware_anchor(candidate, EdgeLabelSide::Below, &footprint, GRID_W, GRID_H, 1, 1);
    assert_eq!(anchor, candidate);
}

#[test]
fn anchor_off_path_remains_unchanged() {
    let footprint = u_channel_footprint();
    let candidate = (4, 2);
    let anchor = choose_corridor_aware_anchor(candidate, EdgeLabelSide::Below, &footprint, GRID_W, GRID_H, 1, 1);
    assert_eq!(anchor, candidate);
}

#[test]
fn below_side_prefers_shift_down_first() {
    let footprint = project_grid_polyline(&[(0usize, 0usize), (3, 0), (3, 2)]);
    let anchor = choose_corridor_aware_anchor((3, 0), EdgeLabelSide::Below, &footprint, GRID_W, GRID_H, 1, 1);
    assert_eq!(anchor, (3, 1));
    let anchor_above = choose_corridor_aware_anchor((3, 0), EdgeLabelSide::Above, &footprint, GRID_W, GRID_H, 1, 1);
    assert_ne!(anchor_above, (3, 0));
    assert!(
        !is_load_bearing(&footprint, anchor_above),
        "Above fallback landed on a load-bearing cell: {:?}",
        anchor_above
    );
}

fn node(x: usize, y: usize, w: usize, h: usize) -> NodeBounds {
    NodeBounds { x, y, width: w, height: h }
}

fn subgraph(
    id: &str,
    x: usize,
    y: usize,
    w: usize,
    h: usize,
    invisible: bool,
    concurrent_regions: Vec<String>,
) -> (String, SubgraphBounds) {
    (
        id.to_string(),
        SubgraphBounds { x, y, width: w, height: h, title: String::new(), depth: 0, invisible, concurrent_regions },
    )
}

#[test]
fn seed_subgraph_borders_skips_invisible_subgraphs() {
    let mut layout = GridLayout::new();
    let (id, bounds) = subgraph("s", 0, 0, 6, 4, true, Vec::new());
    layout.insert_subgraph_bounds(id, bounds);
    let mut fp = PathFootprint::default();
    seed_subgraph_borders_into(&mut fp, &layout);
    assert!(fp.cells.is_empty(), "invisible subgraph must contribute no cells");
}

#[test]
fn seed_subgraph_borders_marks_divider_cells_for_concurrent_regions() {
    let mut layout = GridLayout::new();
    let (pid, parent) = subgraph("parent", 0, 0, 20, 8, false, vec!["a".to_string(), "b".to_string()]);
    let (aid, a) = subgraph("a", 1, 1, 9, 6, false, Vec::new());
    let (bid, b) = subgraph("b", 11, 1, 9, 6, false, Vec::new());
    layout.insert_subgraph_bounds(pid, parent);
    layout.insert_subgraph_bounds(aid, a);
    layout.insert_subgraph_bounds(bid, b);
    let mut fp = PathFootprint::default();
    seed_subgraph_borders_into(&mut fp, &layout);
    for y in 1..7 {
        assert!(fp.cells.contains_key(&(10, y)), "missing divider cell at (10, {y})");
    }
    assert!(fp.cells.contains_key(&(10, 0)), "missing top tee junction");
    assert!(fp.cells.contains_key(&(10, 7)), "missing bottom tee junction");
}

#[test]
fn seed_node_cells_marks_node_interior_as_terminal() {
    let mut layout = GridLayout::new();
    layout.insert_node_bounds("n".to_string(), node(2, 3, 4, 2));
    let mut fp = PathFootprint::default();
    seed_node_cells_into(&mut fp, &layout);
    for y in 3..5 {
        for x in 2..6 {
            assert_eq!(fp.cells.get(&(x, y)), Some(&CellRole::Terminal), "({x}, {y}) should be Terminal");
        }
    }
}

#[test]
fn empty_segments_returns_empty_footprint() {
    let footprint = segments_to_footprint(&[]);
    assert!(footprint.cells.is_empty());
}

#[test]
fn single_horizontal_segment_marks_terminals_and_interior() {
    let segs = vec![Segment::Horizontal { y: 3, x_start: 1, x_end: 5 }];
    let footprint = segments_to_footprint(&segs);
    assert_eq!(footprint.cells.get(&(1, 3)), Some(&CellRole::Terminal));
    assert_eq!(footprint.cells.get(&(5, 3)), Some(&CellRole::Terminal));
    for x in 2..=4 {
        assert_eq!(footprint.cells.get(&(x, 3)), Some(&CellRole::Corridor));
    }
}

#[test]
fn single_vertical_segment_marks_terminals_and_interior() {
    let segs = vec![Segment::Vertical { x: 2, y_start: 0, y_end: 4 }];
    let footprint = segments_to_footprint(&segs);
    assert_eq!(footprint.cells.get(&(2, 0)), Some(&CellRole::Terminal));
    assert_eq!(footprint.cells.get(&(2, 4)), Some(&CellRole::Terminal));
    for y in 1..=3 {
        assert_eq!(footprint.cells.get(&(2, y)), Some(&CellRole::Corridor));
    }
}

#[test]
fn degenerate_one_cell_segment_idempotent() {
    let segs = vec![Segment::Horizontal { y: 2, x_start: 3, x_end: 3 }];
    let footprint = segments_to_footprint(&segs);
    assert_eq!(footprint.cells.len(), 1);
    assert_eq!(footprint.cells.get(&(3, 2)), Some(&CellRole::Terminal));
}

#[test]
fn two_segments_different_axes_shared_endpoint_marks_corner() {
    let segs = vec![
        Segment::Horizontal { y: 0, x_start: 0, x_end: 3 },
        Segment::Vertical { x: 3, y_start: 0, y_end: 3 },
    ];
    let footprint = segments_to_footprint(&segs);
    assert_eq!(footprint.cells.get(&(0, 0)), Some(&CellRole::Terminal));
    assert_eq!(footprint.cells.get(&(3, 3)), Some(&CellRole::Terminal));
    assert_eq!(footprint.cells.get(&(3, 0)), Some(&CellRole::Corner));
    assert_eq!(footprint.cells.get(&(1, 0)), Some(&CellRole::Corridor));
    assert_eq!(footprint.cells.get(&(2, 0)), Some(&CellRole::Corridor));
    assert_eq!(footprint.cells.get(&(3, 1)), Some(&CellRole::Corridor));
    assert_eq!(footprint.cells.get(&(3, 2)), Some(&CellRole::Corridor));
}

#[test]
fn two_segments_same_axis_shared_endpoint_no_corner() {
    let segs = vec![
        Segment::Horizontal { y: 2, x_start: 0, x_end: 3 },
        Segment::Horizontal { y: 2, x_start: 3, x_end: 6 },
    ];
    let footprint = segments_to_footprint(&segs);
    assert_eq!(footprint.cells.get(&(0, 2)), Some(&CellRole::Terminal));
    assert_eq!(footprint.cells.get(&(6, 2)), Some(&CellRole::Terminal));
    assert_eq!(footprint.cells.get(&(3, 2)), Some(&CellRole::Corridor));
}

#[test]
fn u_channel_three_segments_marks_two_corners_two_terminals() {
    let segs = vec![
        Segment::Vertical { x: 6, y_start: 1, y_end: 3 },
        Segment::Horizontal { y: 3, x_start: 6, x_end: 1 },
        Segment::Vertical { x: 1, y_start: 3, y_end: 1 },
    ];
    let footprint = segments_to_footprint(&segs);
    assert_eq!(footprint.cells.get(&(6, 1)), Some(&CellRole::Terminal));
    assert_eq!(footprint.cells.get(&(1, 1)), Some(&CellRole::Terminal));
    assert_eq!(footprint.cells.get(&(6, 3)), Some(&CellRole::Corner));
    assert_eq!(footprint.cells.get(&(1, 3)), Some(&CellRole::Corner));
    for x in 2..=5 {
        assert_eq!(footprint.cells.get(&(x, 3)), Some(&CellRole::Corridor));
    }
}

#[test]
fn self_edge_three_segments_marks_corners_at_both_bends() {
    let segs = vec![
        Segment::Horizontal { y: 7, x_start: 11, x_end: 14 },
        Segment::Vertical { x: 14, y_start: 7, y_end: 9 },
        Segment::Horizontal { y: 9, x_start: 14, x_end: 11 },
    ];
    let footprint = segments_to_footprint(&segs);
    assert_eq!(footprint.cells.get(&(11, 7)), Some(&CellRole::Terminal));
    assert_eq!(footprint.cells.get(&(11, 9)), Some(&CellRole::Terminal));
    assert_eq!(footprint.cells.get(&(14, 7)), Some(&CellRole::Corner));
    assert_eq!(footprint.cells.get(&(14, 9)), Some(&CellRole::Corner));
}

#[test]
fn c1_forward_vertical_corner_avoid() {
    let segs = vec![
        Segment::Horizontal { y: 0, x_start: 0, x_end: 3 },
        Segment::Vertical { x: 3, y_start: 0, y_end: 5 },
    ];
    let footprint = segments_to_footprint(&segs);
    let anchor = choose_corridor_aware_anchor((3, 0), EdgeLabelSide::Below, &footprint, 10, 10, 1, 1);
    assert_ne!(anchor, (3, 0), "placer must shift off the corner");
    assert!(
        !is_load_bearing(&footprint, anchor),
        "anchor landed on a load-bearing cell: {:?}",
        footprint.cells.get(&anchor)
    );
}

#[test]
fn c3_forward_horizontal_side_above() {
    let segs = vec![Segment::Horizontal { y: 5, x_start: 0, x_end: 6 }];
    let footprint = segments_to_footprint(&segs);
    let anchor = choose_corridor_aware_anchor((6, 5), EdgeLabelSide::Above, &footprint, 10, 10, 1, 1);
    assert_ne!(anchor, (6, 5), "placer must shift off terminal");
    assert!(
        anchor.1 < 5 || !matches!(footprint.cells.get(&anchor), Some(CellRole::Terminal)),
        "Above must not land on a Terminal below the edge"
    );
}

#[test]
fn segments_to_footprint_matches_extend_grid_polyline_on_l_bend() {
    let segs = vec![
        Segment::Horizontal { y: 0, x_start: 0, x_end: 3 },
        Segment::Vertical { x: 3, y_start: 0, y_end: 3 },
    ];
    let fp_segments = segments_to_footprint(&segs);
    let fp_polyline = project_grid_polyline(&[(0, 0), (3, 0), (3, 3)]);
    assert_eq!(fp_segments.cells, fp_polyline.cells);
}
