use mmdflux::grid::attachment::{
    clamp_to_boundary, clamp_to_face_axis, grid_face_capacity, infer_face_from_attachment, offset_for_face, NodeFace,
};
use mmdflux::grid::cells::CellRole;
use mmdflux::grid::label_placement::{
    choose_corridor_aware_anchor, claim_label_cells_into, extend_grid_polyline_into, label_rect_overlaps_nodes,
    project_grid_polyline, EdgeLabelSide, PathFootprint,
};
use mmdflux::grid::layout::{GridLayout, NodeBounds, SubgraphBounds};
use mmdflux::grid::label_placement::seed_subgraph_borders_into;

#[test]
fn diagonal_segment_is_rasterized() {
    let footprint = project_grid_polyline(&[(0, 0), (3, 1)]);
    let cells: Vec<_> = footprint.cells.iter().map(|(c, r)| (*c, *r)).collect();
    assert_eq!(
        cells,
        vec![
            ((0, 0), CellRole::Terminal),
            ((1, 0), CellRole::Corridor),
            ((2, 1), CellRole::Corridor),
            ((3, 1), CellRole::Terminal),
        ]
    );
}

#[test]
fn steep_diagonal_segment_is_rasterized() {
    let footprint = project_grid_polyline(&[(2, 0), (1, 3)]);
    let cells: Vec<_> = footprint.cells.keys().copied().collect();
    assert_eq!(cells, vec![(1, 2), (1, 3), (2, 0), (2, 1)]);
}

#[test]
fn extending_never_demotes_a_terminal() {
    let mut footprint = project_grid_polyline(&[(0, 2), (4, 2)]);
    extend_grid_polyline_into(&[(2, 0), (2, 2), (6, 2)], &mut footprint);
    assert_eq!(footprint.cells.get(&(0, 2)), Some(&CellRole::Terminal));
    assert_eq!(footprint.cells.get(&(4, 2)), Some(&CellRole::Terminal));
    assert_eq!(footprint.cells.get(&(2, 2)), Some(&CellRole::Corner));
    assert_eq!(footprint.cells.get(&(3, 2)), Some(&CellRole::Corridor));
}

#[test]
fn claimed_label_cells_become_terminals() {
    let mut footprint = PathFootprint::default();
    claim_label_cells_into((5, 5), (3, 2), &mut footprint);
    let cells: Vec<_> = footprint.cells.keys().copied().collect();
    assert_eq!(cells, vec![(4, 4), (4, 5), (5, 4), (5, 5), (6, 4), (6, 5)]);
    assert!(footprint.cells.values().all(|r| *r == CellRole::Terminal));
}

#[test]
fn claimed_label_block_is_clipped_at_origin() {
    let mut footprint = PathFootprint::default();
    claim_label_cells_into((0, 0), (0, 0), &mut footprint);
    assert_eq!(footprint.cells.keys().copied().collect::<Vec<_>>(), vec![(0, 0)]);
}

#[test]
fn label_rect_overlap_detection() {
    let nodes = vec![("n".to_string(), NodeBounds { x: 10, y: 10, width: 4, height: 3 })];
    assert!(label_rect_overlaps_nodes((10, 10), (1, 1), &nodes));
    assert!(label_rect_overlaps_nodes((9, 11), (3, 1), &nodes));
    assert!(!label_rect_overlaps_nodes((8, 11), (3, 1), &nodes));
    assert!(!label_rect_overlaps_nodes((11, 13), (1, 1), &nodes));
}

#[test]
fn wide_label_moves_until_its_whole_block_is_clear() {
    let footprint = project_grid_polyline(&[(0, 5), (8, 5)]);
    // A 3-wide block centred on (4, 4) covers no terminal; the candidate row is a corridor.
    let anchor = choose_corridor_aware_anchor((8, 5), EdgeLabelSide::Above, &footprint, 16, 16, 3, 1);
    assert_eq!(anchor, (8, 4));
}

#[test]
fn anchor_without_any_safe_shift_stays_put() {
    let mut footprint = PathFootprint::default();
    claim_label_cells_into((1, 1), (3, 3), &mut footprint);
    let anchor = choose_corridor_aware_anchor((1, 1), EdgeLabelSide::Center, &footprint, 3, 3, 1, 1);
    assert_eq!(anchor, (1, 1));
}

#[test]
fn subgraph_frame_cells_are_terminals() {
    let mut layout = GridLayout::new();
    layout.insert_subgraph_bounds(
        "s".to_string(),
        SubgraphBounds {
            x: 1,
            y: 1,
            width: 3,
            height: 3,
            title: String::new(),
            depth: 0,
            invisible: false,
            concurrent_regions: Vec::new(),
        },
    );
    let mut fp = PathFootprint::default();
    seed_subgraph_borders_into(&mut fp, &layout);
    let cells: Vec<_> = fp.cells.keys().copied().collect();
    assert_eq!(cells, vec![(1, 1), (1, 2), (1, 3), (2, 1), (2, 3), (3, 1), (3, 2), (3, 3)]);
}

#[test]
fn inserting_bounds_again_replaces_them() {
    let mut layout = GridLayout::new();
    layout.insert_node_bounds("n".to_string(), NodeBounds { x: 0, y: 0, width: 1, height: 1 });
    layout.insert_node_bounds("n".to_string(), NodeBounds { x: 5, y: 5, width: 2, height: 2 });
    assert_eq!(layout.node_entries().len(), 1);
    assert_eq!(layout.node_entries()[0].1, NodeBounds { x: 5, y: 5, width: 2, height: 2 });
}

#[test]
fn face_helpers() {
    let b = NodeBounds { x: 2, y: 3, width: 5, height: 4 };
    assert_eq!(grid_face_capacity(&b, NodeFace::Top), 5);
    assert_eq!(grid_face_capacity(&b, NodeFace::Left), 4);
    assert_eq!(infer_face_from_attachment(&b, (2, 4), NodeFace::Top), NodeFace::Left);
    assert_eq!(infer_face_from_attachment(&b, (6, 4), NodeFace::Top), NodeFace::Right);
    assert_eq!(infer_face_from_attachment(&b, (4, 3), NodeFace::Left), NodeFace::Top);
    assert_eq!(infer_face_from_attachment(&b, (4, 6), NodeFace::Left), NodeFace::Bottom);
    assert_eq!(infer_face_from_attachment(&b, (4, 4), NodeFace::Right), NodeFace::Right);
    assert_eq!(clamp_to_boundary((0, 10), &b), (2, 6));
    assert_eq!(clamp_to_boundary((4, 5), &b), (4, 5));
    assert_eq!(clamp_to_face_axis((20, 20), &b, NodeFace::Bottom), (20, 6));
    assert_eq!(clamp_to_face_axis((20, 20), &b, NodeFace::Right), (6, 20));
    assert_eq!(offset_for_face((0, 0), NodeFace::Top), (0, 0));
    assert_eq!(offset_for_face((3, 3), NodeFace::Bottom), (3, 4));
    assert_eq!(offset_for_face((3, 3), NodeFace::Left), (2, 3));
    assert_eq!(offset_for_face((3, 3), NodeFace::Right), (4, 3));
}

#[test]
fn anchor_search_stops_after_label_height_plus_two_rings() {
    let mut footprint = PathFootprint::default();
    for y in 0..3 {
        footprint.cells.insert((1, y), CellRole::Terminal);
    }
    let anchor = choose_corridor_aware_anchor((0, 0), EdgeLabelSide::Below, &footprint, 1, 10, 2, 0);
    assert_eq!(anchor, (0, 0));
}
