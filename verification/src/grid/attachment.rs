//! Small geometric rules used when attaching edges to node faces on the grid.

use vstd::prelude::*;

use super::cells::GridCell;
use super::layout::NodeBounds;

verus! {

/// A side of a node's rectangle.
#[derive(Debug, Clone, Copy, PartialEq, Eq, Structural)]
pub enum NodeFace {
    Top,
    Bottom,
    Left,
    Right,
}

/// The rectangle's last column and row exist without overflow.
pub open spec fn bounds_in_range(b: NodeBounds) -> bool {
    &&& b.width >= 1
    &&& b.height >= 1
    &&& b.x + b.width <= usize::MAX
    &&& b.y + b.height <= usize::MAX
}

/// How many distinct attachment cells a face offers: its length in cells.
pub fn grid_face_capacity(bounds: &NodeBounds, face: NodeFace) -> (r: usize)
    ensures
        r == (match face {
            NodeFace::Left | NodeFace::Right => bounds.height,
            NodeFace::Top | NodeFace::Bottom => bounds.width,
        }),
{
    match face {
        NodeFace::Left | NodeFace::Right => bounds.height,
        NodeFace::Top | NodeFace::Bottom => bounds.width,
    }
}

/// The face an attachment cell lies on, checked left, right, top, bottom in
/// that order; `fallback` when it lies on none.
pub fn infer_face_from_attachment(bounds: &NodeBounds, attach: GridCell, fallback: NodeFace) -> (r: NodeFace)
    requires
        bounds.x + bounds.width <= usize::MAX + 1,
        bounds.y + bounds.height <= usize::MAX + 1,
    ensures
        r == (if attach.0 == bounds.x {
            NodeFace::Left
        } else if attach.0 == bounds.x + bounds.width.saturating_sub(1) {
            NodeFace::Right
        } else if attach.1 == bounds.y {
            NodeFace::Top
        } else if attach.1 == bounds.y + bounds.height.saturating_sub(1) {
            NodeFace::Bottom
        } else {
            fallback
        }),
{
    let left = bounds.x;
    let right = bounds.x + bounds.width.saturating_sub(1);
    let top = bounds.y;
    let bottom = bounds.y + bounds.height.saturating_sub(1);
    if attach.0 == left {
        NodeFace::Left
    } else if attach.0 == right {
        NodeFace::Right
    } else if attach.1 == top {
        NodeFace::Top
    } else if attach.1 == bottom {
        NodeFace::Bottom
    } else {
        fallback
    }
}

pub open spec fn clamp_between(v: usize, lo: usize, hi: usize) -> usize {
    if v < lo {
        lo
    } else if v > hi {
        hi
    } else {
        v
    }
}

fn clamp_usize(v: usize, lo: usize, hi: usize) -> (r: usize)
    requires
        lo <= hi,
    ensures
        r == clamp_between(v, lo, hi),
{
    if v < lo {
        lo
    } else if v > hi {
        hi
    } else {
        v
    }
}

/// Clamp a point into the node's rectangle.
pub fn clamp_to_boundary(point: GridCell, bounds: &NodeBounds) -> (r: GridCell)
    requires
        bounds_in_range(*bounds),
    ensures
        r == (
            clamp_between(point.0, bounds.x, (bounds.x + bounds.width - 1) as usize),
            clamp_between(point.1, bounds.y, (bounds.y + bounds.height - 1) as usize),
        ),
{
    let (x, y) = point;
    let left = bounds.x;
    let right = bounds.x + bounds.width - 1;
    let top = bounds.y;
    let bottom = bounds.y + bounds.height - 1;
    (clamp_usize(x, left, right), clamp_usize(y, top, bottom))
}

/// Clamp only the face's fixed axis to the boundary, letting the cross-axis
/// extend freely, so dense fan-in spreads can place attachment points beyond
/// the face's extent.
pub fn clamp_to_face_axis(point: GridCell, bounds: &NodeBounds, face: NodeFace) -> (r: GridCell)
    requires
        bounds_in_range(*bounds),
    ensures
        r == (match face {
            NodeFace::Top => (point.0, bounds.y),
            NodeFace::Bottom => (point.0, (bounds.y + bounds.height - 1) as usize),
            NodeFace::Left => (bounds.x, point.1),
            NodeFace::Right => ((bounds.x + bounds.width - 1) as usize, point.1),
        }),
{
    let (x, y) = point;
    let left = bounds.x;
    let right = bounds.x + bounds.width - 1;
    let top = bounds.y;
    let bottom = bounds.y + bounds.height - 1;
    match face {
        NodeFace::Top => (x, top),
        NodeFace::Bottom => (x, bottom),
        NodeFace::Left => (left, y),
        NodeFace::Right => (right, y),
    }
}

/// The cell just outside `face` next to `point` (clipped at the grid origin).
pub fn offset_for_face(point: GridCell, face: NodeFace) -> (r: GridCell)
    requires
        face == NodeFace::Bottom ==> point.1 < usize::MAX,
        face == NodeFace::Right ==> point.0 < usize::MAX,
    ensures
        r == (match face {
            NodeFace::Top => (point.0, point.1.saturating_sub(1)),
            NodeFace::Bottom => (point.0, (point.1 + 1) as usize),
            NodeFace::Left => (point.0.saturating_sub(1), point.1),
            NodeFace::Right => ((point.0 + 1) as usize, point.1),
        }),
{
    let (x, y) = point;
    match face {
        NodeFace::Top => (x, y.saturating_sub(1)),
        NodeFace::Bottom => (x, y + 1),
        NodeFace::Left => (x.saturating_sub(1), y),
        NodeFace::Right => (x + 1, y),
    }
}

} // verus!
