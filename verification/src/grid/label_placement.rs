//! Corridor-aware label placement primitives for the text grid.
//!
//! Projects a routed polyline into grid space and classifies each
//! occupied cell by role. `choose_corridor_aware_anchor` consumes the
//! footprint to steer an authoritative label anchor off load-bearing
//! corridor glyphs.

use std::collections::BTreeMap;

use vstd::prelude::*;

use super::cells::{cell_role, default_cell, set_cell, CellRole, GridCell};
use super::layout::{GridLayout, NodeBounds, SubgraphBounds, key_index};
use super::line::{defaulted, fill_bresenham, line_cells, MAX_LINE_COORD};

verus! {

/// The cells a path occupies, each with its role.
#[derive(Debug, Clone)]
pub struct PathFootprint {
    pub cells: BTreeMap<GridCell, CellRole>,
}

impl Default for PathFootprint {
    fn default() -> (r: Self)
        ensures
            r.cells@ == Map::<GridCell, CellRole>::empty(),
    {
        PathFootprint { cells: BTreeMap::new() }
    }
}

/// Direction of an axis-aligned run.
#[derive(Debug, Clone, Copy, PartialEq, Eq, Structural)]
pub enum Axis {
    Horizontal,
    Vertical,
}

/// Axis of the run from `a` to `b`: none for a single cell or a diagonal.
pub open spec fn axis_between(a: GridCell, b: GridCell) -> Option<Axis> {
    if a.0 == b.0 && a.1 != b.1 {
        Some(Axis::Vertical)
    } else if a.0 != b.0 && a.1 == b.1 {
        Some(Axis::Horizontal)
    } else {
        None
    }
}

pub open spec fn min_u(p: usize, q: usize) -> usize {
    if p <= q {
        p
    } else {
        q
    }
}

pub open spec fn max_u(p: usize, q: usize) -> usize {
    if p <= q {
        q
    } else {
        p
    }
}

/// Cells of row `y` from column `x0` to `x1`, either way round.
pub open spec fn row_cells(y: usize, x0: usize, x1: usize) -> Set<GridCell> {
    Set::new(|c: GridCell| c.1 == y && min_u(x0, x1) <= c.0 <= max_u(x0, x1))
}

/// Cells of column `x` from row `y0` to `y1`, either way round.
pub open spec fn column_cells(x: usize, y0: usize, y1: usize) -> Set<GridCell> {
    Set::new(|c: GridCell| c.0 == x && min_u(y0, y1) <= c.1 <= max_u(y0, y1))
}

/// Cells covered by the segment from `a` to `b`.
pub open spec fn segment_cells(a: GridCell, b: GridCell) -> Set<GridCell> {
    match axis_between(a, b) {
        Some(Axis::Horizontal) => row_cells(a.1, a.0, b.0),
        Some(Axis::Vertical) => column_cells(a.0, a.1, b.1),
        None => line_cells(a, b),
    }
}

/// A diagonal (or single-cell) segment stays within the line arithmetic's range.
pub open spec fn segment_in_range(a: GridCell, b: GridCell) -> bool {
    axis_between(a, b) is None ==> a.0 <= MAX_LINE_COORD && a.1 <= MAX_LINE_COORD && b.0 <= MAX_LINE_COORD
        && b.1 <= MAX_LINE_COORD
}

/// `m` with cell `c` turned into a corner unless it is a terminal.
pub open spec fn corner_upgraded(m: Map<GridCell, CellRole>, c: GridCell) -> Map<GridCell, CellRole> {
    if m.contains_key(c) && m[c] == CellRole::Terminal {
        m
    } else {
        m.insert(c, CellRole::Corner)
    }
}

fn grid_segment_axis(a: GridCell, b: GridCell) -> (r: Option<Axis>)
    ensures
        r == axis_between(a, b),
{
    let same_col = a.0 == b.0;
    let same_row = a.1 == b.1;
    match (same_col, same_row) {
        (true, true) => None,
        (true, false) => Some(Axis::Vertical),
        (false, true) => Some(Axis::Horizontal),
        (false, false) => None,
    }
}

/// Mark cells `(lo..=hi, y)` (or `(x, lo..=hi)` when `vertical`) as corridors
/// unless they already have a role.
fn fill_run(fixed: usize, lo: usize, hi: usize, vertical: bool, cells: &mut BTreeMap<GridCell, CellRole>)
    requires
        lo <= hi,
    ensures
        final(cells)@ == defaulted(
            old(cells)@,
            if vertical {
                column_cells(fixed, lo, hi)
            } else {
                row_cells(fixed, lo, hi)
            },
            CellRole::Corridor,
        ),
{
    let ghost orig = cells@;
    let ghost target = if vertical {
        column_cells(fixed, lo, hi)
    } else {
        row_cells(fixed, lo, hi)
    };
    let mut k: usize = lo;
    while k < hi
        invariant
            lo <= k <= hi,
            orig == old(cells)@,
            cells@ == defaulted(
                orig,
                if vertical {
                    Set::new(|c: GridCell| c.0 == fixed && lo <= c.1 < k)
                } else {
                    Set::new(|c: GridCell| c.1 == fixed && lo <= c.0 < k)
                },
                CellRole::Corridor,
            ),
        decreases hi - k,
    {
        let c = if vertical {
            (fixed, k)
        } else {
            (k, fixed)
        };
        default_cell(cells, c, CellRole::Corridor);
        k = k + 1;
        proof {
            assert(cells@ =~= defaulted(
                orig,
                if vertical {
                    Set::new(|c: GridCell| c.0 == fixed && lo <= c.1 < k)
                } else {
                    Set::new(|c: GridCell| c.1 == fixed && lo <= c.0 < k)
                },
                CellRole::Corridor,
            ));
        }
    }
    let c = if vertical {
        (fixed, hi)
    } else {
        (hi, fixed)
    };
    default_cell(cells, c, CellRole::Corridor);
    proof {
        assert(cells@ =~= defaulted(orig, target, CellRole::Corridor));
    }
}

/// Mark the cells of the segment from `a` to `b` as corridors unless they
/// already have a role.
fn fill_grid_segment_cells(a: GridCell, b: GridCell, cells: &mut BTreeMap<GridCell, CellRole>)
    requires
        segment_in_range(a, b),
    ensures
        final(cells)@ == defaulted(old(cells)@, segment_cells(a, b), CellRole::Corridor),
{
    match grid_segment_axis(a, b) {
        Some(Axis::Horizontal) => {
            let (c_min, c_max) = if a.0 <= b.0 {
                (a.0, b.0)
            } else {
                (b.0, a.0)
            };
            fill_run(a.1, c_min, c_max, false, cells);
            proof {
                assert(row_cells(a.1, c_min, c_max) =~= row_cells(a.1, a.0, b.0));
            }
        },
        Some(Axis::Vertical) => {
            let (r_min, r_max) = if a.1 <= b.1 {
                (a.1, b.1)
            } else {
                (b.1, a.1)
            };
            fill_run(a.0, r_min, r_max, true, cells);
            proof {
                assert(column_cells(a.0, r_min, r_max) =~= column_cells(a.0, a.1, b.1));
            }
        },
        None => {
            fill_bresenham(a, b, cells);
        },
    }
}

/// The corridor cells of the first `k` segments of `path`, added to `m`.
pub open spec fn corridors_upto(m: Map<GridCell, CellRole>, path: Seq<GridCell>, k: nat) -> Map<GridCell, CellRole>
    decreases k,
{
    if k == 0 || k >= path.len() {
        m
    } else {
        defaulted(corridors_upto(m, path, (k - 1) as nat), segment_cells(path[k - 1], path[k as int]), CellRole::Corridor)
    }
}

/// `path` turns at interior vertex `i`.
pub open spec fn turns_at(path: Seq<GridCell>, i: int) -> bool {
    let prev = axis_between(path[i - 1], path[i]);
    let next = axis_between(path[i], path[i + 1]);
    prev is Some && next is Some && prev != next
}

/// Corner upgrades of the interior vertices `1..k` of `path`, applied to `m`.
pub open spec fn corners_upto(m: Map<GridCell, CellRole>, path: Seq<GridCell>, k: nat) -> Map<GridCell, CellRole>
    decreases k,
{
    if k <= 1 || k >= path.len() {
        m
    } else {
        let prev = corners_upto(m, path, (k - 1) as nat);
        if turns_at(path, k - 1) {
            corner_upgraded(prev, path[k - 1])
        } else {
            prev
        }
    }
}

/// The footprint of `path` unioned into `m`: corridors along every segment,
/// corners at every turn (a terminal stays a terminal), terminals at both ends.
/// A path of fewer than two cells adds nothing.
pub open spec fn polyline_footprint(m: Map<GridCell, CellRole>, path: Seq<GridCell>) -> Map<GridCell, CellRole> {
    if path.len() < 2 {
        m
    } else {
        let n = path.len();
        corners_upto(corridors_upto(m, path, (n - 1) as nat), path, (n - 1) as nat).insert(
            path[0],
            CellRole::Terminal,
        ).insert(path[n - 1], CellRole::Terminal)
    }
}

/// Every diagonal segment of `path` stays within the line arithmetic's range.
pub open spec fn path_in_range(path: Seq<GridCell>) -> bool {
    forall|i: int| #![trigger path[i]] 0 <= i < path.len() - 1 ==> segment_in_range(path[i], path[i + 1])
}

/// Build a `PathFootprint` directly from a grid-space polyline.
pub fn project_grid_polyline(path: &[GridCell]) -> (r: PathFootprint)
    requires
        path_in_range(path@),
    ensures
        r.cells@ == polyline_footprint(Map::empty(), path@),
{
    let mut footprint = PathFootprint::default();
    extend_grid_polyline_into(path, &mut footprint);
    footprint
}

/// Union the footprint of a grid-space polyline into `dest`.
///
/// Corridor cells first, then corners, then terminals: a corner upgrades a
/// corridor and a terminal upgrades both.
pub fn extend_grid_polyline_into(path: &[GridCell], dest: &mut PathFootprint)
    requires
        path_in_range(path@),
    ensures
        final(dest).cells@ == polyline_footprint(old(dest).cells@, path@),
{
    let n = path.len();
    if n < 2 {
        return;
    }
    let ghost orig = dest.cells@;
    let mut i: usize = 1;
    while i < n
        invariant
            n == path.len(),
            n >= 2,
            1 <= i <= n,
            path_in_range(path@),
            dest.cells@ == corridors_upto(orig, path@, (i - 1) as nat),
        decreases n - i,
    {
        proof {
            assert(segment_in_range(path@[i - 1], path@[i as int]));
        }
        fill_grid_segment_cells(path[i - 1], path[i], &mut dest.cells);
        i = i + 1;
    }
    let ghost filled = dest.cells@;
    let mut j: usize = 1;
    while j < n - 1
        invariant
            n == path.len(),
            n >= 2,
            1 <= j <= n - 1,
            filled == corridors_upto(orig, path@, (n - 1) as nat),
            dest.cells@ == corners_upto(filled, path@, j as nat),
        decreases n - 1 - j,
    {
        let prev_axis = grid_segment_axis(path[j - 1], path[j]);
        let next_axis = grid_segment_axis(path[j], path[j + 1]);
        if prev_axis != next_axis && prev_axis.is_some() && next_axis.is_some() {
            match cell_role(&dest.cells, path[j]) {
                Some(CellRole::Terminal) => {},
                _ => {
                    set_cell(&mut dest.cells, path[j], CellRole::Corner);
                },
            }
        }
        j = j + 1;
    }
    set_cell(&mut dest.cells, path[0], CellRole::Terminal);
    set_cell(&mut dest.cells, path[n - 1], CellRole::Terminal);
}

/// An axis-aligned routed segment on the grid.
#[derive(Debug, Clone, Copy, PartialEq, Eq, Structural)]
pub enum Segment {
    Horizontal { y: usize, x_start: usize, x_end: usize },
    Vertical { x: usize, y_start: usize, y_end: usize },
}

pub open spec fn seg_start(seg: Segment) -> GridCell {
    match seg {
        Segment::Horizontal { y, x_start, .. } => (x_start, y),
        Segment::Vertical { x, y_start, .. } => (x, y_start),
    }
}

pub open spec fn seg_end(seg: Segment) -> GridCell {
    match seg {
        Segment::Horizontal { y, x_end, .. } => (x_end, y),
        Segment::Vertical { x, y_end, .. } => (x, y_end),
    }
}

pub open spec fn seg_axis(seg: Segment) -> Axis {
    match seg {
        Segment::Horizontal { .. } => Axis::Horizontal,
        Segment::Vertical { .. } => Axis::Vertical,
    }
}

/// Every cell a segment paints, endpoints included.
pub open spec fn seg_cells(seg: Segment) -> Set<GridCell> {
    match seg {
        Segment::Horizontal { y, x_start, x_end } => row_cells(y, x_start, x_end),
        Segment::Vertical { x, y_start, y_end } => column_cells(x, y_start, y_end),
    }
}

/// Corridor cells of the first `k` segments, added to `m`.
pub open spec fn seg_corridors_upto(m: Map<GridCell, CellRole>, segs: Seq<Segment>, k: nat) -> Map<GridCell, CellRole>
    decreases k,
{
    if k == 0 || k > segs.len() {
        m
    } else {
        defaulted(seg_corridors_upto(m, segs, (k - 1) as nat), seg_cells(segs[k - 1]), CellRole::Corridor)
    }
}

/// Segments `i` and `i + 1` meet at a shared cell on different axes.
pub open spec fn seg_turns_at(segs: Seq<Segment>, i: int) -> bool {
    seg_end(segs[i]) == seg_start(segs[i + 1]) && seg_axis(segs[i]) != seg_axis(segs[i + 1])
}

/// Corner upgrades of the first `k` segment joins, applied to `m`.
pub open spec fn seg_corners_upto(m: Map<GridCell, CellRole>, segs: Seq<Segment>, k: nat) -> Map<GridCell, CellRole>
    decreases k,
{
    if k == 0 || k >= segs.len() {
        m
    } else {
        let prev = seg_corners_upto(m, segs, (k - 1) as nat);
        if seg_turns_at(segs, k - 1) {
            corner_upgraded(prev, seg_end(segs[k - 1]))
        } else {
            prev
        }
    }
}

/// The footprint of routed segments unioned into `m`: corridors along every
/// segment, corners where consecutive segments meet on different axes (a
/// terminal stays a terminal), terminals at the first and last cells.
pub open spec fn segments_footprint(m: Map<GridCell, CellRole>, segs: Seq<Segment>) -> Map<GridCell, CellRole> {
    if segs.len() == 0 {
        m
    } else {
        let n = segs.len();
        seg_corners_upto(seg_corridors_upto(m, segs, n), segs, (n - 1) as nat).insert(
            seg_start(segs[0]),
            CellRole::Terminal,
        ).insert(seg_end(segs[n - 1]), CellRole::Terminal)
    }
}

fn segment_axis(seg: &Segment) -> (r: Axis)
    ensures
        r == seg_axis(*seg),
{
    match seg {
        Segment::Horizontal { .. } => Axis::Horizontal,
        Segment::Vertical { .. } => Axis::Vertical,
    }
}

fn segment_start_cell(seg: &Segment) -> (r: GridCell)
    ensures
        r == seg_start(*seg),
{
    match *seg {
        Segment::Horizontal { y, x_start, .. } => (x_start, y),
        Segment::Vertical { x, y_start, .. } => (x, y_start),
    }
}

fn segment_end_cell(seg: &Segment) -> (r: GridCell)
    ensures
        r == seg_end(*seg),
{
    match *seg {
        Segment::Horizontal { y, x_end, .. } => (x_end, y),
        Segment::Vertical { x, y_end, .. } => (x, y_end),
    }
}

/// Build a `PathFootprint` directly from an ordered slice of routed segments.
pub fn segments_to_footprint(segments: &[Segment]) -> (r: PathFootprint)
    ensures
        r.cells@ == segments_footprint(Map::empty(), segments@),
{
    let mut footprint = PathFootprint::default();
    extend_segments_into(segments, &mut footprint);
    footprint
}

/// Union the footprint of routed segments into `dest`.
pub fn extend_segments_into(segments: &[Segment], dest: &mut PathFootprint)
    ensures
        final(dest).cells@ == segments_footprint(old(dest).cells@, segments@),
{
    let n = segments.len();
    if n == 0 {
        return;
    }
    let ghost orig = dest.cells@;
    // (1) Corridor fill along every segment.
    let mut i: usize = 0;
    while i < n
        invariant
            n == segments.len(),
            i <= n,
            dest.cells@ == seg_corridors_upto(orig, segments@, i as nat),
        decreases n - i,
    {
        match segments[i] {
            Segment::Horizontal { y, x_start, x_end } => {
                let (lo, hi) = if x_start <= x_end {
                    (x_start, x_end)
                } else {
                    (x_end, x_start)
                };
                fill_run(y, lo, hi, false, &mut dest.cells);
                proof {
                    assert(row_cells(y, lo, hi) =~= row_cells(y, x_start, x_end));
                }
            },
            Segment::Vertical { x, y_start, y_end } => {
                let (lo, hi) = if y_start <= y_end {
                    (y_start, y_end)
                } else {
                    (y_end, y_start)
                };
                fill_run(x, lo, hi, true, &mut dest.cells);
                proof {
                    assert(column_cells(x, lo, hi) =~= column_cells(x, y_start, y_end));
                }
            },
        }
        i = i + 1;
    }
    // (2) Corner upgrade where consecutive segments meet on different axes.
    let ghost filled = dest.cells@;
    let mut j: usize = 0;
    while j + 1 < n
        invariant
            n == segments.len(),
            n >= 1,
            j + 1 <= n,
            filled == seg_corridors_upto(orig, segments@, n as nat),
            dest.cells@ == seg_corners_upto(filled, segments@, j as nat),
        decreases n - j,
    {
        let prev_end = segment_end_cell(&segments[j]);
        let next_start = segment_start_cell(&segments[j + 1]);
        if prev_end.0 == next_start.0 && prev_end.1 == next_start.1 && segment_axis(&segments[j]) != segment_axis(&segments[j + 1]) {
            match cell_role(&dest.cells, prev_end) {
                Some(CellRole::Terminal) => {},
                _ => {
                    set_cell(&mut dest.cells, prev_end, CellRole::Corner);
                },
            }
        }
        j = j + 1;
    }
    // (3) Terminals at the first and last cells.
    let first = segment_start_cell(&segments[0]);
    let last = segment_end_cell(&segments[n - 1]);
    set_cell(&mut dest.cells, first, CellRole::Terminal);
    set_cell(&mut dest.cells, last, CellRole::Terminal);
}

/// `m` with `role` at every cell of `s`.
pub open spec fn assigned(m: Map<GridCell, CellRole>, s: Set<GridCell>, role: CellRole) -> Map<GridCell, CellRole> {
    Map::new(
        |c: GridCell| m.contains_key(c) || s.contains(c),
        |c: GridCell|
            if s.contains(c) {
                role
            } else {
                m[c]
            },
    )
}

/// The half-open rectangle `[x0, x1) x [y0, y1)`.
pub open spec fn rect_cells(x0: usize, y0: usize, x1: usize, y1: usize) -> Set<GridCell> {
    Set::new(|c: GridCell| x0 <= c.0 < x1 && y0 <= c.1 < y1)
}

/// Mark every cell of the inclusive run `(lo..=hi, fixed)` (or `(fixed, lo..=hi)`
/// when `vertical`) as a terminal.
fn stamp_run(fixed: usize, lo: usize, hi: usize, vertical: bool, cells: &mut BTreeMap<GridCell, CellRole>)
    requires
        lo <= hi,
    ensures
        final(cells)@ == assigned(
            old(cells)@,
            if vertical {
                column_cells(fixed, lo, hi)
            } else {
                row_cells(fixed, lo, hi)
            },
            CellRole::Terminal,
        ),
{
    let ghost orig = cells@;
    let mut k: usize = lo;
    while k < hi
        invariant
            lo <= k <= hi,
            orig == old(cells)@,
            cells@ == assigned(
                orig,
                if vertical {
                    Set::new(|c: GridCell| c.0 == fixed && lo <= c.1 < k)
                } else {
                    Set::new(|c: GridCell| c.1 == fixed && lo <= c.0 < k)
                },
                CellRole::Terminal,
            ),
        decreases hi - k,
    {
        let c = if vertical {
            (fixed, k)
        } else {
            (k, fixed)
        };
        set_cell(cells, c, CellRole::Terminal);
        k = k + 1;
        proof {
            assert(cells@ =~= assigned(
                orig,
                if vertical {
                    Set::new(|c: GridCell| c.0 == fixed && lo <= c.1 < k)
                } else {
                    Set::new(|c: GridCell| c.1 == fixed && lo <= c.0 < k)
                },
                CellRole::Terminal,
            ));
        }
    }
    let c = if vertical {
        (fixed, hi)
    } else {
        (hi, fixed)
    };
    set_cell(cells, c, CellRole::Terminal);
    proof {
        assert(cells@ =~= assigned(
            orig,
            if vertical {
                column_cells(fixed, lo, hi)
            } else {
                row_cells(fixed, lo, hi)
            },
            CellRole::Terminal,
        ));
    }
}

/// Mark every cell of the half-open rectangle `[x0, x1) x [y0, y1)` as a terminal.
fn stamp_rect(x0: usize, y0: usize, x1: usize, y1: usize, cells: &mut BTreeMap<GridCell, CellRole>)
    ensures
        final(cells)@ == assigned(old(cells)@, rect_cells(x0, y0, x1, y1), CellRole::Terminal),
{
    let ghost orig = cells@;
    if y0 >= y1 {
        proof {
            assert(cells@ =~= assigned(orig, rect_cells(x0, y0, x1, y1), CellRole::Terminal));
        }
        return;
    }
    let mut row: usize = y0;
    while row < y1
        invariant
            y0 <= row <= y1,
            orig == old(cells)@,
            cells@ == assigned(orig, rect_cells(x0, y0, x1, row), CellRole::Terminal),
        decreases y1 - row,
    {
        let ghost before = cells@;
        let mut col: usize = x0;
        while col < x1
            invariant
                y0 <= row < y1,
                x0 <= col,
                col <= x1 || col == x0,
                orig == old(cells)@,
                before == assigned(orig, rect_cells(x0, y0, x1, row), CellRole::Terminal),
                cells@ == assigned(before, rect_cells(x0, row, col, (row + 1) as usize), CellRole::Terminal),
            decreases x1 - col,
        {
            let ghost prev = cells@;
            set_cell(cells, (col, row), CellRole::Terminal);
            proof {
                assert(cells@ =~= assigned(before, rect_cells(x0, row, (col + 1) as usize, (row + 1) as usize), CellRole::Terminal));
            }
            col = col + 1;
        }
        proof {
            assert(rect_cells(x0, row, col, (row + 1) as usize) =~= rect_cells(x0, row, x1, (row + 1) as usize));
            assert(cells@ =~= assigned(orig, rect_cells(x0, y0, x1, (row + 1) as usize), CellRole::Terminal));
        }
        row = row + 1;
    }
}

/// The cells a `dims`-sized block centred on `center` covers (each side at
/// least one cell; the block is clipped at the grid origin and at the end of
/// the coordinate range).
pub open spec fn label_rect(center: GridCell, dims: (usize, usize)) -> Set<GridCell> {
    let w = if dims.0 >= 1 {
        dims.0
    } else {
        1
    };
    let h = if dims.1 >= 1 {
        dims.1
    } else {
        1
    };
    let base_x = center.0.saturating_sub(w / 2);
    let base_y = center.1.saturating_sub(h / 2);
    rect_cells(base_x, base_y, base_x.saturating_add(w), base_y.saturating_add(h))
}

/// Stamp a label rect into `dest` as `Terminal` so subsequent labels steer
/// around it. The rect is given by its center and dimensions.
pub fn claim_label_cells_into(center: GridCell, dims: (usize, usize), dest: &mut PathFootprint)
    ensures
        final(dest).cells@ == assigned(old(dest).cells@, label_rect(center, dims), CellRole::Terminal),
{
    let w = if dims.0 >= 1 {
        dims.0
    } else {
        1
    };
    let h = if dims.1 >= 1 {
        dims.1
    } else {
        1
    };
    let base_x = center.0.saturating_sub(w / 2);
    let base_y = center.1.saturating_sub(h / 2);
    stamp_rect(base_x, base_y, base_x.saturating_add(w), base_y.saturating_add(h), &mut dest.cells);
}

/// The label rect meets the rectangle of node bounds `b`.
pub open spec fn rect_meets_node(center: GridCell, dims: (usize, usize), b: NodeBounds) -> bool {
    let w = if dims.0 >= 1 {
        dims.0
    } else {
        1
    };
    let h = if dims.1 >= 1 {
        dims.1
    } else {
        1
    };
    let base_x = center.0.saturating_sub(w / 2);
    let base_y = center.1.saturating_sub(h / 2);
    &&& base_x < b.x.saturating_add(b.width)
    &&& b.x < base_x.saturating_add(w)
    &&& base_y < b.y.saturating_add(b.height)
    &&& b.y < base_y.saturating_add(h)
}

/// Check whether a label rect (center + dimensions) overlaps any node's bounding box.
pub fn label_rect_overlaps_nodes(center: GridCell, dims: (usize, usize), node_bounds: &[(String, NodeBounds)]) -> (r:
    bool)
    ensures
        r == exists|i: int| 0 <= i < node_bounds@.len() && rect_meets_node(center, dims, #[trigger] node_bounds@[i].1),
{
    let w = if dims.0 >= 1 {
        dims.0
    } else {
        1
    };
    let h = if dims.1 >= 1 {
        dims.1
    } else {
        1
    };
    let base_x = center.0.saturating_sub(w / 2);
    let base_y = center.1.saturating_sub(h / 2);
    let mut i: usize = 0;
    while i < node_bounds.len()
        invariant
            i <= node_bounds@.len(),
            w == (if dims.0 >= 1 { dims.0 } else { 1 }),
            h == (if dims.1 >= 1 { dims.1 } else { 1 }),
            base_x == center.0.saturating_sub(w / 2),
            base_y == center.1.saturating_sub(h / 2),
            forall|j: int| 0 <= j < i ==> !rect_meets_node(center, dims, #[trigger] node_bounds@[j].1),
        decreases node_bounds@.len() - i,
    {
        let bounds = &node_bounds[i].1;
        let overlaps_x = base_x < bounds.x.saturating_add(bounds.width) && bounds.x < base_x.saturating_add(w);
        let overlaps_y = base_y < bounds.y.saturating_add(bounds.height) && bounds.y < base_y.saturating_add(h);
        if overlaps_x && overlaps_y {
            return true;
        }
        i = i + 1;
    }
    false
}

/// Cells covered by the first `k` node rectangles.
pub open spec fn node_cells_upto(nodes: Seq<(String, NodeBounds)>, k: nat) -> Set<GridCell>
    decreases k,
{
    if k == 0 || k > nodes.len() {
        Set::empty()
    } else {
        let b = nodes[k - 1].1;
        node_cells_upto(nodes, (k - 1) as nat).union(
            rect_cells(b.x, b.y, b.x.saturating_add(b.width), b.y.saturating_add(b.height)),
        )
    }
}

/// Seed the footprint with every cell inside every node's bounding box, as
/// terminals, so the placer never lands a label on a node glyph.
pub fn seed_node_cells_into(dest: &mut PathFootprint, layout: &GridLayout)
    ensures
        final(dest).cells@ == assigned(
            old(dest).cells@,
            node_cells_upto(layout.nodes(), layout.nodes().len()),
            CellRole::Terminal,
        ),
{
    let ghost orig = dest.cells@;
    let nodes = layout.node_entries();
    let mut i: usize = 0;
    while i < nodes.len()
        invariant
            nodes@ == layout.nodes(),
            i <= nodes.len(),
            dest.cells@ == assigned(orig, node_cells_upto(nodes@, i as nat), CellRole::Terminal),
        decreases nodes.len() - i,
    {
        let b = nodes[i].1;
        stamp_rect(b.x, b.y, b.x.saturating_add(b.width), b.y.saturating_add(b.height), &mut dest.cells);
        i = i + 1;
        proof {
            assert(dest.cells@ =~= assigned(orig, node_cells_upto(nodes@, i as nat), CellRole::Terminal));
        }
    }
}

/// A subgraph whose frame is drawn: visible and at least 2x2.
pub open spec fn draws_frame(b: SubgraphBounds) -> bool {
    !b.invisible && b.width >= 2 && b.height >= 2
}

/// The cells of a subgraph's frame.
pub open spec fn frame_cells(b: SubgraphBounds) -> Set<GridCell> {
    let x1 = (b.x + b.width - 1) as usize;
    let y1 = (b.y + b.height - 1) as usize;
    row_cells(b.y, b.x, x1) + row_cells(y1, b.x, x1) + column_cells(b.x, b.y, y1) + column_cells(x1, b.y, y1)
}

/// Frame cells of the first `k` subgraphs.
pub open spec fn frames_upto(subs: Seq<(String, SubgraphBounds)>, k: nat) -> Set<GridCell>
    decreases k,
{
    if k == 0 || k > subs.len() {
        Set::empty()
    } else {
        let prev = frames_upto(subs, (k - 1) as nat);
        if draws_frame(subs[k - 1].1) {
            prev + frame_cells(subs[k - 1].1)
        } else {
            prev
        }
    }
}

/// The bounds of the regions among `ids` that exist, in order.
pub open spec fn found_regions(subs: Seq<(String, SubgraphBounds)>, ids: Seq<String>) -> Seq<SubgraphBounds>
    decreases ids.len(),
{
    if ids.len() == 0 {
        Seq::empty()
    } else {
        let prev = found_regions(subs, ids.drop_last());
        match key_index(subs, ids.last()@) {
            Some(i) => prev.push(subs[i].1),
            None => prev,
        }
    }
}

/// Column of the divider between two side-by-side regions, if there is a gap.
pub open spec fn divider_column(left: SubgraphBounds, right: SubgraphBounds) -> Option<int> {
    let l = left.x + left.width;
    let r = right.x as int;
    if r <= l {
        None
    } else {
        Some(l + (r - l) / 2)
    }
}

/// Cells of a divider at column `x` across `parent`: the top and bottom tee
/// junctions and the dotted run between them.
pub open spec fn divider_cells(parent: SubgraphBounds, x: int) -> Set<GridCell> {
    let top = parent.y as int;
    let bottom = parent.y + parent.height - 1;
    Set::new(|c: GridCell| c.0 == x && (c.1 == top || c.1 == bottom || (top + 1 <= c.1 < bottom)))
}

/// Divider cells between the first `k + 1` consecutive regions.
pub open spec fn dividers_between(parent: SubgraphBounds, regions: Seq<SubgraphBounds>, k: nat) -> Set<GridCell>
    decreases k,
{
    if k == 0 || k >= regions.len() {
        Set::empty()
    } else {
        let prev = dividers_between(parent, regions, (k - 1) as nat);
        match divider_column(regions[k - 1], regions[k as int]) {
            Some(x) => prev + divider_cells(parent, x),
            None => prev,
        }
    }
}

/// Divider cells of one parent subgraph.
pub open spec fn parent_dividers(subs: Seq<(String, SubgraphBounds)>, parent: SubgraphBounds) -> Set<GridCell> {
    if parent.concurrent_regions.len() < 2 {
        Set::empty()
    } else {
        let regions = found_regions(subs, parent.concurrent_regions@);
        dividers_between(parent, regions, (regions.len() - 1) as nat)
    }
}

/// Divider cells of the first `k` subgraphs.
pub open spec fn dividers_upto(subs: Seq<(String, SubgraphBounds)>, k: nat) -> Set<GridCell>
    decreases k,
{
    if k == 0 || k > subs.len() {
        Set::empty()
    } else {
        dividers_upto(subs, (k - 1) as nat) + parent_dividers(subs, subs[k - 1].1)
    }
}

/// Region `k` of parent `p`, among its regions that exist.
pub open spec fn region_at(subs: Seq<(String, SubgraphBounds)>, p: SubgraphBounds, k: int) -> SubgraphBounds {
    found_regions(subs, p.concurrent_regions@)[k]
}

/// The divider arithmetic of parent `p` stays in range.
pub open spec fn dividers_in_range(subs: Seq<(String, SubgraphBounds)>, p: SubgraphBounds) -> bool {
    p.concurrent_regions.len() >= 2 ==> forall|k: int|
        0 <= k < found_regions(subs, p.concurrent_regions@).len() - 1 ==> #[trigger] region_at(subs, p, k).x
            + region_at(subs, p, k).width <= usize::MAX && (divider_column(region_at(subs, p, k), region_at(subs, p, k + 1)) is Some
            ==> 1 <= p.y + p.height <= usize::MAX && p.y < usize::MAX)
}

/// The coordinates the borders and dividers are computed from stay in range.
pub open spec fn borders_in_range(subs: Seq<(String, SubgraphBounds)>) -> bool {
    &&& forall|i: int|
        0 <= i < subs.len() && draws_frame(#[trigger] subs[i].1) ==> subs[i].1.x + subs[i].1.width <= usize::MAX
            && subs[i].1.y + subs[i].1.height <= usize::MAX
    &&& forall|i: int| 0 <= i < subs.len() ==> dividers_in_range(subs, #[trigger] subs[i].1)
}

/// Seed the footprint with rendered subgraph obstacles: visible border cells
/// plus concurrent-region divider cells and their tee junctions. Invisible
/// subgraphs and subgraphs smaller than 2x2 draw no frame. All cells land as
/// `Terminal` so the placer treats them as load-bearing.
pub fn seed_subgraph_borders_into(dest: &mut PathFootprint, layout: &GridLayout)
    requires
        layout.wf(),
        borders_in_range(layout.subgraphs()),
    ensures
        final(dest).cells@ == assigned(
            old(dest).cells@,
            frames_upto(layout.subgraphs(), layout.subgraphs().len()) + dividers_upto(
                layout.subgraphs(),
                layout.subgraphs().len(),
            ),
            CellRole::Terminal,
        ),
{
    let ghost orig = dest.cells@;
    let subs = layout.subgraph_entries();
    let mut i: usize = 0;
    while i < subs.len()
        invariant
            subs@ == layout.subgraphs(),
            borders_in_range(subs@),
            i <= subs.len(),
            dest.cells@ == assigned(orig, frames_upto(subs@, i as nat), CellRole::Terminal),
        decreases subs.len() - i,
    {
        let bounds = &subs[i].1;
        if !bounds.invisible && bounds.width >= 2 && bounds.height >= 2 {
            proof {
                assert(draws_frame(subs@[i as int].1));
            }
            seed_subgraph_border_box(dest, bounds);
        }
        i = i + 1;
        proof {
            assert(dest.cells@ =~= assigned(orig, frames_upto(subs@, i as nat), CellRole::Terminal));
        }
    }
    let ghost framed = dest.cells@;
    seed_subgraph_region_dividers(dest, layout);
    proof {
        assert(dest.cells@ =~= assigned(
            orig,
            frames_upto(subs@, subs@.len()) + dividers_upto(subs@, subs@.len()),
            CellRole::Terminal,
        ));
    }
}

fn seed_subgraph_border_box(dest: &mut PathFootprint, bounds: &SubgraphBounds)
    requires
        draws_frame(*bounds),
        bounds.x + bounds.width <= usize::MAX,
        bounds.y + bounds.height <= usize::MAX,
    ensures
        final(dest).cells@ == assigned(old(dest).cells@, frame_cells(*bounds), CellRole::Terminal),
{
    let ghost orig = dest.cells@;
    let x0 = bounds.x;
    let y0 = bounds.y;
    let x1 = x0 + bounds.width - 1;
    let y1 = y0 + bounds.height - 1;
    stamp_run(y0, x0, x1, false, &mut dest.cells);
    stamp_run(y1, x0, x1, false, &mut dest.cells);
    stamp_run(x0, y0, y1, true, &mut dest.cells);
    stamp_run(x1, y0, y1, true, &mut dest.cells);
    proof {
        assert(dest.cells@ =~= assigned(orig, frame_cells(*bounds), CellRole::Terminal));
    }
}

/// The bounds of the regions among `ids` that exist, in order.
fn collect_regions<'a>(layout: &'a GridLayout, ids: &Vec<String>) -> (r: Vec<&'a SubgraphBounds>)
    requires
        layout.wf(),
    ensures
        r@.len() == found_regions(layout.subgraphs(), ids@).len(),
        forall|k: int| 0 <= k < r@.len() ==> *(#[trigger] r@[k]) == found_regions(layout.subgraphs(), ids@)[k],
{
    let mut out: Vec<&'a SubgraphBounds> = Vec::new();
    let mut j: usize = 0;
    while j < ids.len()
        invariant
            layout.wf(),
            j <= ids.len(),
            out@.len() == found_regions(layout.subgraphs(), ids@.take(j as int)).len(),
            forall|k: int|
                0 <= k < out@.len() ==> *(#[trigger] out@[k]) == found_regions(layout.subgraphs(), ids@.take(j as int))[k],
        decreases ids.len() - j,
    {
        proof {
            assert(ids@.take(j as int + 1).drop_last() =~= ids@.take(j as int));
        }
        match layout.subgraph(&ids[j]) {
            Some(b) => {
                out.push(b);
            },
            None => {},
        }
        j = j + 1;
    }
    proof {
        assert(ids@.take(ids.len() as int) =~= ids@);
    }
    out
}

fn seed_subgraph_region_dividers(dest: &mut PathFootprint, layout: &GridLayout)
    requires
        layout.wf(),
        borders_in_range(layout.subgraphs()),
    ensures
        final(dest).cells@ == assigned(
            old(dest).cells@,
            dividers_upto(layout.subgraphs(), layout.subgraphs().len()),
            CellRole::Terminal,
        ),
{
    let ghost orig = dest.cells@;
    let subs = layout.subgraph_entries();
    let mut i: usize = 0;
    while i < subs.len()
        invariant
            layout.wf(),
            subs@ == layout.subgraphs(),
            borders_in_range(subs@),
            i <= subs.len(),
            dest.cells@ == assigned(orig, dividers_upto(subs@, i as nat), CellRole::Terminal),
        decreases subs.len() - i,
    {
        let parent = &subs[i].1;
        let ghost before = dest.cells@;
        if parent.concurrent_regions.len() >= 2 {
            let region_bounds = collect_regions(layout, &parent.concurrent_regions);
            let ghost regions = found_regions(subs@, parent.concurrent_regions@);
            let mut k: usize = 0;
            while k < region_bounds.len() && k + 1 < region_bounds.len()
                invariant
                    subs@ == layout.subgraphs(),
                    borders_in_range(subs@),
                    i < subs.len(),
                    *parent == subs@[i as int].1,
                    parent.concurrent_regions.len() >= 2,
                    regions == found_regions(subs@, parent.concurrent_regions@),
                    region_bounds@.len() == regions.len(),
                    forall|t: int| 0 <= t < region_bounds@.len() ==> *(#[trigger] region_bounds@[t]) == regions[t],
                    k + 1 <= region_bounds@.len() || k == 0,
                    dest.cells@ == assigned(before, dividers_between(*parent, regions, k as nat), CellRole::Terminal),
                decreases region_bounds@.len() - k,
            {
                let left_region = region_bounds[k];
                let right_region = region_bounds[k + 1];
                proof {
                    assert(dividers_in_range(subs@, subs@[i as int].1));
                    assert(region_at(subs@, *parent, k as int).x + region_at(subs@, *parent, k as int).width <= usize::MAX);
                }
                let left_right_edge = left_region.x + left_region.width;
                let right_left_edge = right_region.x;
                if right_left_edge > left_right_edge {
                    proof {
                        assert(divider_column(regions[k as int], regions[k as int + 1]) is Some);
                        assert(region_at(subs@, *parent, k as int + 1) == regions[k as int + 1]);
                    }
                    let divider_x = left_right_edge + (right_left_edge - left_right_edge) / 2;
                    set_cell(&mut dest.cells, (divider_x, parent.y), CellRole::Terminal);
                    set_cell(&mut dest.cells, (divider_x, parent.y + parent.height - 1), CellRole::Terminal);
                    let top = parent.y + 1;
                    let bottom = parent.y + parent.height - 1;
                    if top < bottom {
                        stamp_run(divider_x, top, bottom - 1, true, &mut dest.cells);
                    }
                    proof {
                        assert(dest.cells@ =~= assigned(
                            before,
                            dividers_between(*parent, regions, (k + 1) as nat),
                            CellRole::Terminal,
                        ));
                    }
                } else {
                    proof {
                        assert(dest.cells@ =~= assigned(
                            before,
                            dividers_between(*parent, regions, (k + 1) as nat),
                            CellRole::Terminal,
                        ));
                    }
                }
                k = k + 1;
            }
            proof {
                if region_bounds@.len() == 0 {
                    assert(dividers_between(*parent, regions, (regions.len() - 1) as nat) =~= Set::empty());
                }
            }
        }
        i = i + 1;
        proof {
            assert(dest.cells@ =~= assigned(orig, dividers_upto(subs@, i as nat), CellRole::Terminal));
        }
    }
}

/// Which side of its edge a label prefers.
#[derive(Debug, Clone, Copy, PartialEq, Eq, Structural)]
pub enum EdgeLabelSide {
    Above,
    Below,
    Center,
}

/// The cell holds a load-bearing glyph (a corner or a terminal).
pub open spec fn load_bearing(m: Map<GridCell, CellRole>, c: GridCell) -> bool {
    m.contains_key(c) && (m[c] == CellRole::Corner || m[c] == CellRole::Terminal)
}

/// The cells a `label_width` x `label_height` block centred on `center` covers.
pub open spec fn block_cells(center: GridCell, label_width: usize, label_height: usize) -> Set<GridCell> {
    let base_x = center.0.saturating_sub(label_width / 2);
    let base_y = center.1.saturating_sub(label_height / 2);
    let h = if label_height >= 1 {
        label_height
    } else {
        1
    };
    let w = if label_width >= 1 {
        label_width
    } else {
        1
    };
    rect_cells(base_x, base_y, base_x.saturating_add(w), base_y.saturating_add(h))
}

/// A block is safe when it covers no load-bearing cell.
pub open spec fn safe_block(m: Map<GridCell, CellRole>, center: GridCell, label_width: usize, label_height: usize) -> bool {
    forall|c: GridCell| #[trigger] block_cells(center, label_width, label_height).contains(c) ==> !load_bearing(m, c)
}

/// The four shift directions tried for `side`, in order.
pub open spec fn step_dirs(side: EdgeLabelSide) -> Seq<(int, int)> {
    match side {
        EdgeLabelSide::Below => seq![(0, 1), (1, 0), (-1, 0), (0, -1)],
        EdgeLabelSide::Above => seq![(0, -1), (-1, 0), (1, 0), (0, 1)],
        EdgeLabelSide::Center => seq![(0, 1), (0, -1), (1, 0), (-1, 0)],
    }
}

/// `cell` moved by `(dx, dy)`, if it stays on the grid.
pub open spec fn shifted(cell: GridCell, dx: int, dy: int, grid_width: usize, grid_height: usize) -> Option<GridCell> {
    let nx = cell.0 + dx;
    let ny = cell.1 + dy;
    if nx < 0 || ny < 0 || nx > isize::MAX || ny > isize::MAX || nx >= grid_width || ny >= grid_height {
        None
    } else {
        Some((nx as usize, ny as usize))
    }
}

/// The safe cell at ring `ring`, direction `k`, if that shift lands on a safe block.
pub open spec fn probe(
    m: Map<GridCell, CellRole>,
    candidate: GridCell,
    side: EdgeLabelSide,
    grid_width: usize,
    grid_height: usize,
    label_width: usize,
    label_height: usize,
    ring: int,
    k: int,
) -> Option<GridCell> {
    let d = step_dirs(side)[k];
    match shifted(candidate, d.0 * ring, d.1 * ring, grid_width, grid_height) {
        Some(s) => if safe_block(m, s, label_width, label_height) {
            Some(s)
        } else {
            None
        },
        None => None,
    }
}

/// The first safe shift at ring `ring` (from direction `k`) or any later ring up to `max_ring`.
pub open spec fn search_from(
    m: Map<GridCell, CellRole>,
    candidate: GridCell,
    side: EdgeLabelSide,
    grid_width: usize,
    grid_height: usize,
    label_width: usize,
    label_height: usize,
    ring: int,
    k: int,
    max_ring: int,
) -> Option<GridCell>
    decreases max_ring + 1 - ring, 4 - k,
{
    if ring > max_ring || ring < 1 || k < 0 {
        None
    } else if k >= 4 {
        search_from(m, candidate, side, grid_width, grid_height, label_width, label_height, ring + 1, 0, max_ring)
    } else {
        match probe(m, candidate, side, grid_width, grid_height, label_width, label_height, ring, k) {
            Some(s) => Some(s),
            None => search_from(
                m,
                candidate,
                side,
                grid_width,
                grid_height,
                label_width,
                label_height,
                ring,
                k + 1,
                max_ring,
            ),
        }
    }
}

/// Where `choose_corridor_aware_anchor` puts the label.
pub open spec fn corridor_anchor(
    m: Map<GridCell, CellRole>,
    candidate: GridCell,
    side: EdgeLabelSide,
    grid_width: usize,
    grid_height: usize,
    label_width: usize,
    label_height: usize,
) -> GridCell {
    if safe_block(m, candidate, label_width, label_height) {
        candidate
    } else {
        match search_from(
            m,
            candidate,
            side,
            grid_width,
            grid_height,
            label_width,
            label_height,
            1,
            0,
            label_height.saturating_add(2) as int,
        ) {
            Some(s) => s,
            None => candidate,
        }
    }
}

/// Pick a grid cell for an authoritative label anchor that respects the
/// edge's path footprint.
///
/// The candidate is the *center* of a `label_width`-by-`label_height` block.
/// A placement is safe when no cell of that block is a `Terminal` or `Corner`.
/// A safe candidate is kept; otherwise shifts are tried ring by ring (ring 1
/// up to `label_height + 2`), in the four directions that
/// `side` orders, and the first safe shifted cell on the grid wins. If none is
/// safe, the candidate is returned unchanged.
pub fn choose_corridor_aware_anchor(
    candidate: GridCell,
    side: EdgeLabelSide,
    footprint: &PathFootprint,
    grid_width: usize,
    grid_height: usize,
    label_width: usize,
    label_height: usize,
) -> (r: GridCell)
    requires
        candidate.0 <= isize::MAX,
        candidate.1 <= isize::MAX,
        label_width + 2 <= isize::MAX,
        label_height + 2 <= isize::MAX,
    ensures
        r == corridor_anchor(footprint.cells@, candidate, side, grid_width, grid_height, label_width, label_height),
{
    let ghost m = footprint.cells@;
    if is_safe_block(candidate, label_width, label_height, footprint) {
        return candidate;
    }
    let max_ring = label_height.saturating_add(2);
    let ghost mr = max_ring as int;
    let steps = shift_steps(side);
    let mut ring: usize = 1;
    while ring <= max_ring
        invariant
            1 <= ring <= max_ring + 1,
            max_ring <= isize::MAX,
            !safe_block(m, candidate, label_width, label_height),
            max_ring == label_height.saturating_add(2),
            mr == max_ring,
            m == footprint.cells@,
            candidate.0 <= isize::MAX,
            candidate.1 <= isize::MAX,
            forall|t: int| 0 <= t < 4 ==> (#[trigger] steps@[t]).0 == step_dirs(side)[t].0 && steps@[t].1 == step_dirs(side)[t].1,
            forall|t: int| 0 <= t < 4 ==> -1 <= (#[trigger] steps@[t]).0 <= 1 && -1 <= steps@[t].1 <= 1,
            steps@.len() == 4,
            search_from(m, candidate, side, grid_width, grid_height, label_width, label_height, 1, 0, mr)
                == search_from(m, candidate, side, grid_width, grid_height, label_width, label_height, ring as int, 0, mr),
        decreases max_ring + 1 - ring,
    {
        let mut k: usize = 0;
        while k < 4
            invariant
                1 <= ring <= max_ring,
                max_ring <= isize::MAX,
                mr == max_ring,
                m == footprint.cells@,
                candidate.0 <= isize::MAX,
                candidate.1 <= isize::MAX,
                forall|t: int| 0 <= t < 4 ==> (#[trigger] steps@[t]).0 == step_dirs(side)[t].0 && steps@[t].1 == step_dirs(side)[t].1,
            forall|t: int| 0 <= t < 4 ==> -1 <= (#[trigger] steps@[t]).0 <= 1 && -1 <= steps@[t].1 <= 1,
            steps@.len() == 4,
                k <= 4,
                !safe_block(m, candidate, label_width, label_height),
                max_ring == label_height.saturating_add(2),
                search_from(m, candidate, side, grid_width, grid_height, label_width, label_height, 1, 0, mr)
                    == search_from(m, candidate, side, grid_width, grid_height, label_width, label_height, ring as int, k as int, mr),
            decreases 4 - k,
        {
            let (dx, dy) = steps[k];
            proof {
                assert(-1 <= steps@[k as int].0 <= 1 && -1 <= steps@[k as int].1 <= 1);
                let ri = ring as int;
                assert(-ri <= dx * ri <= ri) by (nonlinear_arith)
                    requires
                        -1 <= dx <= 1,
                        ri >= 0,
                ;
                assert(-ri <= dy * ri <= ri) by (nonlinear_arith)
                    requires
                        -1 <= dy <= 1,
                        ri >= 0,
                ;
            }
            let rdx = dx * (ring as isize);
            let rdy = dy * (ring as isize);
            let ghost pr = probe(m, candidate, side, grid_width, grid_height, label_width, label_height, ring as int, k as int);
            proof {
                assert(step_dirs(side)[k as int].0 * (ring as int) == rdx as int);
                assert(step_dirs(side)[k as int].1 * (ring as int) == rdy as int);
            }
            match apply_step(candidate, rdx, rdy, grid_width, grid_height) {
                Some(shifted_cell) => {
                    if is_safe_block(shifted_cell, label_width, label_height, footprint) {
                        proof {
                            assert(pr == Some(shifted_cell));
                            assert(search_from(m, candidate, side, grid_width, grid_height, label_width, label_height, ring as int, k as int, mr)
                                == Some(shifted_cell));
                        }
                        return shifted_cell;
                    }
                    proof {
                        assert(pr is None);
                    }
                },
                None => {
                    proof {
                        assert(pr is None);
                    }
                },
            }
            k = k + 1;
        }
        ring = ring + 1;
    }
    candidate
}

fn is_safe_block(center: GridCell, label_width: usize, label_height: usize, footprint: &PathFootprint) -> (r: bool)
    ensures
        r == safe_block(footprint.cells@, center, label_width, label_height),
{
    let base_x = center.0.saturating_sub(label_width / 2);
    let base_y = center.1.saturating_sub(label_height / 2);
    let h = if label_height >= 1 {
        label_height
    } else {
        1
    };
    let w = if label_width >= 1 {
        label_width
    } else {
        1
    };
    let end_y = base_y.saturating_add(h);
    let end_x = base_x.saturating_add(w);
    let ghost m = footprint.cells@;
    let mut row: usize = base_y;
    while row < end_y
        invariant
            base_y <= row,
            m == footprint.cells@,
            base_x == center.0.saturating_sub(label_width / 2),
            base_y == center.1.saturating_sub(label_height / 2),
            end_x == base_x.saturating_add(w),
            end_y == base_y.saturating_add(h),
            w == (if label_width >= 1 { label_width } else { 1 }),
            h == (if label_height >= 1 { label_height } else { 1 }),
            forall|c: GridCell| base_x <= c.0 < end_x && base_y <= c.1 < row ==> !load_bearing(m, c),
        decreases end_y - row,
    {
        let mut col: usize = base_x;
        while col < end_x
            invariant
                base_y <= row < end_y,
                base_x <= col,
                m == footprint.cells@,
                base_x == center.0.saturating_sub(label_width / 2),
                base_y == center.1.saturating_sub(label_height / 2),
                end_x == base_x.saturating_add(w),
                end_y == base_y.saturating_add(h),
                w == (if label_width >= 1 { label_width } else { 1 }),
                h == (if label_height >= 1 { label_height } else { 1 }),
                forall|c: GridCell| base_x <= c.0 < end_x && base_y <= c.1 < row ==> !load_bearing(m, c),
                forall|c: GridCell| base_x <= c.0 < col && c.1 == row ==> !load_bearing(m, c),
            decreases end_x - col,
        {
            match cell_role(&footprint.cells, (col, row)) {
                Some(CellRole::Corner) | Some(CellRole::Terminal) => {
                    proof {
                        assert(block_cells(center, label_width, label_height).contains((col, row)));
                    }
                    return false;
                },
                _ => {},
            }
            col = col + 1;
        }
        row = row + 1;
    }
    true
}

fn shift_steps(side: EdgeLabelSide) -> (r: Vec<(isize, isize)>)
    ensures
        r@.len() == 4,
        forall|k: int| 0 <= k < 4 ==> (#[trigger] r@[k]).0 == step_dirs(side)[k].0 && r@[k].1 == step_dirs(side)[k].1,
        forall|k: int| 0 <= k < 4 ==> -1 <= (#[trigger] r@[k]).0 <= 1 && -1 <= r@[k].1 <= 1,
{
    // Primary steps follow the declared side first; fallbacks cover the
    // remaining cardinals so the placer always gets a chance to escape a
    // load-bearing cell.
    let mut r: Vec<(isize, isize)> = Vec::new();
    match side {
        EdgeLabelSide::Below => {
            r.push((0, 1));
            r.push((1, 0));
            r.push((-1, 0));
            r.push((0, -1));
            proof {
                assert(step_dirs(side) =~= seq![(0int, 1int), (1int, 0int), (-1int, 0int), (0int, -1int)]);
            }
        },
        EdgeLabelSide::Above => {
            r.push((0, -1));
            r.push((-1, 0));
            r.push((1, 0));
            r.push((0, 1));
            proof {
                assert(step_dirs(side) =~= seq![(0int, -1int), (-1int, 0int), (1int, 0int), (0int, 1int)]);
            }
        },
        EdgeLabelSide::Center => {
            r.push((0, 1));
            r.push((0, -1));
            r.push((1, 0));
            r.push((-1, 0));
            proof {
                assert(step_dirs(side) =~= seq![(0int, 1int), (0int, -1int), (1int, 0int), (-1int, 0int)]);
            }
        },
    }
    r
}

fn apply_step(cell: GridCell, dx: isize, dy: isize, grid_width: usize, grid_height: usize) -> (r: Option<GridCell>)
    requires
        cell.0 <= isize::MAX,
        cell.1 <= isize::MAX,
    ensures
        r == shifted(cell, dx as int, dy as int, grid_width, grid_height),
{
    let new_x = match (cell.0 as isize).checked_add(dx) {
        Some(v) => if v >= 0 {
            v as usize
        } else {
            return None;
        },
        None => {
            return None;
        },
    };
    let new_y = match (cell.1 as isize).checked_add(dy) {
        Some(v) => if v >= 0 {
            v as usize
        } else {
            return None;
        },
        None => {
            return None;
        },
    };
    if new_x >= grid_width || new_y >= grid_height {
        return None;
    }
    Some((new_x, new_y))
}

/// Cells keep their presence, and terminals stay terminals.
pub open spec fn keeps_terminals(before: Map<GridCell, CellRole>, after: Map<GridCell, CellRole>) -> bool {
    forall|c: GridCell|
        #[trigger] before.contains_key(c) ==> after.contains_key(c) && (before[c] == CellRole::Terminal ==> after[c]
            == CellRole::Terminal)
}

proof fn lemma_corridors_keep(m: Map<GridCell, CellRole>, path: Seq<GridCell>, k: nat)
    ensures
        keeps_terminals(m, corridors_upto(m, path, k)),
    decreases k,
{
    if k > 0 && k < path.len() {
        lemma_corridors_keep(m, path, (k - 1) as nat);
    }
}

proof fn lemma_corners_keep(m: Map<GridCell, CellRole>, path: Seq<GridCell>, k: nat)
    ensures
        keeps_terminals(m, corners_upto(m, path, k)),
    decreases k,
{
    if k > 1 && k < path.len() {
        lemma_corners_keep(m, path, (k - 1) as nat);
    }
}

proof fn lemma_seg_corridors_keep(m: Map<GridCell, CellRole>, segs: Seq<Segment>, k: nat)
    ensures
        keeps_terminals(m, seg_corridors_upto(m, segs, k)),
    decreases k,
{
    if k > 0 && k <= segs.len() {
        lemma_seg_corridors_keep(m, segs, (k - 1) as nat);
    }
}

proof fn lemma_seg_corners_keep(m: Map<GridCell, CellRole>, segs: Seq<Segment>, k: nat)
    ensures
        keeps_terminals(m, seg_corners_upto(m, segs, k)),
    decreases k,
{
    if k > 0 && k < segs.len() {
        lemma_seg_corners_keep(m, segs, (k - 1) as nat);
    }
}

/// Adding a path to a footprint never removes a cell or demotes a terminal,
/// and both ends of a path of two or more cells become terminals.
pub proof fn law_polyline_footprint_roles(m: Map<GridCell, CellRole>, path: Seq<GridCell>)
    ensures
        keeps_terminals(m, polyline_footprint(m, path)),
        path.len() >= 2 ==> polyline_footprint(m, path)[path[0]] == CellRole::Terminal && polyline_footprint(
            m,
            path,
        )[path[path.len() - 1]] == CellRole::Terminal,
{
    if path.len() >= 2 {
        let n = path.len();
        let filled = corridors_upto(m, path, (n - 1) as nat);
        lemma_corridors_keep(m, path, (n - 1) as nat);
        lemma_corners_keep(filled, path, (n - 1) as nat);
    }
}

/// Adding routed segments to a footprint never removes a cell or demotes a
/// terminal, and the first and last cells become terminals.
pub proof fn law_segments_footprint_roles(m: Map<GridCell, CellRole>, segs: Seq<Segment>)
    ensures
        keeps_terminals(m, segments_footprint(m, segs)),
        segs.len() >= 1 ==> segments_footprint(m, segs)[seg_start(segs[0])] == CellRole::Terminal
            && segments_footprint(m, segs)[seg_end(segs[segs.len() - 1])] == CellRole::Terminal,
{
    if segs.len() >= 1 {
        let n = segs.len();
        let filled = seg_corridors_upto(m, segs, n);
        lemma_seg_corridors_keep(m, segs, n);
        lemma_seg_corners_keep(filled, segs, (n - 1) as nat);
    }
}

proof fn lemma_search_safe(
    m: Map<GridCell, CellRole>,
    candidate: GridCell,
    side: EdgeLabelSide,
    grid_width: usize,
    grid_height: usize,
    label_width: usize,
    label_height: usize,
    ring: int,
    k: int,
    max_ring: int,
)
    ensures
        search_from(m, candidate, side, grid_width, grid_height, label_width, label_height, ring, k, max_ring) matches Some(
            s,
        ) ==> safe_block(m, s, label_width, label_height) && s.0 < grid_width && s.1 < grid_height,
    decreases max_ring + 1 - ring, 4 - k,
{
    if ring > max_ring || ring < 1 || k < 0 {
    } else if k >= 4 {
        lemma_search_safe(m, candidate, side, grid_width, grid_height, label_width, label_height, ring + 1, 0, max_ring);
    } else {
        lemma_search_safe(m, candidate, side, grid_width, grid_height, label_width, label_height, ring, k + 1, max_ring);
    }
}

/// The corridor-aware placer keeps the candidate or moves the label to a cell
/// on the grid whose block covers no corner or terminal; it never moves the
/// label onto a load-bearing glyph.
pub proof fn law_anchor_is_safe_or_unchanged(
    m: Map<GridCell, CellRole>,
    candidate: GridCell,
    side: EdgeLabelSide,
    grid_width: usize,
    grid_height: usize,
    label_width: usize,
    label_height: usize,
)
    ensures
        ({
            let r = corridor_anchor(m, candidate, side, grid_width, grid_height, label_width, label_height);
            r == candidate || (safe_block(m, r, label_width, label_height) && r.0 < grid_width && r.1 < grid_height)
        }),
        safe_block(m, candidate, label_width, label_height) ==> corridor_anchor(
            m,
            candidate,
            side,
            grid_width,
            grid_height,
            label_width,
            label_height,
        ) == candidate,
{
    lemma_search_safe(
        m,
        candidate,
        side,
        grid_width,
        grid_height,
        label_width,
        label_height,
        1,
        0,
        label_height.saturating_add(2) as int,
    );
}

/// `(r1, k1)` comes before `(r2, k2)` in the search: an earlier ring, or the
/// same ring and an earlier direction.
pub open spec fn probe_before(r1: int, k1: int, r2: int, k2: int) -> bool {
    r1 < r2 || (r1 == r2 && k1 < k2)
}

/// The search from `(ring, k)` finds the first safe probe at or after
/// `(ring, k)`, or reports none when every such probe up to `max_ring` fails.
proof fn lemma_search_first(
    m: Map<GridCell, CellRole>,
    candidate: GridCell,
    side: EdgeLabelSide,
    grid_width: usize,
    grid_height: usize,
    label_width: usize,
    label_height: usize,
    ring: int,
    k: int,
    max_ring: int,
)
    requires
        ring >= 1,
        0 <= k <= 4,
    ensures
        match search_from(m, candidate, side, grid_width, grid_height, label_width, label_height, ring, k, max_ring) {
            Some(c) => exists|r2: int, k2: int|
                #![trigger probe(m, candidate, side, grid_width, grid_height, label_width, label_height, r2, k2)]
                ring <= r2 <= max_ring && 0 <= k2 < 4 && !probe_before(r2, k2, ring, k) && probe(
                    m,
                    candidate,
                    side,
                    grid_width,
                    grid_height,
                    label_width,
                    label_height,
                    r2,
                    k2,
                ) == Some(c) && forall|r3: int, k3: int|
                    0 <= k3 < 4 && !probe_before(r3, k3, ring, k) && probe_before(r3, k3, r2, k2) ==> #[trigger] probe(
                        m,
                        candidate,
                        side,
                        grid_width,
                        grid_height,
                        label_width,
                        label_height,
                        r3,
                        k3,
                    ) is None,
            None => forall|r3: int, k3: int|
                r3 <= max_ring && 0 <= k3 < 4 && !probe_before(r3, k3, ring, k) ==> #[trigger] probe(
                    m,
                    candidate,
                    side,
                    grid_width,
                    grid_height,
                    label_width,
                    label_height,
                    r3,
                    k3,
                ) is None,
        },
    decreases max_ring + 1 - ring, 4 - k,
{
    if ring > max_ring {
    } else if k >= 4 {
        lemma_search_first(m, candidate, side, grid_width, grid_height, label_width, label_height, ring + 1, 0, max_ring);
    } else if probe(m, candidate, side, grid_width, grid_height, label_width, label_height, ring, k) is Some {
    } else {
        lemma_search_first(m, candidate, side, grid_width, grid_height, label_width, label_height, ring, k + 1, max_ring);
    }
}

/// The corridor-aware placer takes the first safe shift: a safe candidate
/// stays; otherwise, probing rings `1..=label_height + 2` and, within a ring,
/// the four directions in the side's order, the anchor is the first probe
/// that lands on a safe block in the grid, and the candidate stays when no
/// probe does.
pub proof fn law_anchor_is_first_safe_shift(
    m: Map<GridCell, CellRole>,
    candidate: GridCell,
    side: EdgeLabelSide,
    grid_width: usize,
    grid_height: usize,
    label_width: usize,
    label_height: usize,
)
    ensures
        safe_block(m, candidate, label_width, label_height) ==> corridor_anchor(
            m,
            candidate,
            side,
            grid_width,
            grid_height,
            label_width,
            label_height,
        ) == candidate,
        !safe_block(m, candidate, label_width, label_height) ==> (
        match search_from(m, candidate, side, grid_width, grid_height, label_width, label_height, 1, 0, label_height.saturating_add(2) as int) {
            Some(c) => corridor_anchor(m, candidate, side, grid_width, grid_height, label_width, label_height) == c
                && exists|r: int, k: int|
                #![trigger probe(m, candidate, side, grid_width, grid_height, label_width, label_height, r, k)]
                1 <= r <= label_height.saturating_add(2) && 0 <= k < 4 && probe(
                    m,
                    candidate,
                    side,
                    grid_width,
                    grid_height,
                    label_width,
                    label_height,
                    r,
                    k,
                ) == Some(c) && forall|r3: int, k3: int|
                    1 <= r3 && 0 <= k3 < 4 && probe_before(r3, k3, r, k) ==> #[trigger] probe(
                        m,
                        candidate,
                        side,
                        grid_width,
                        grid_height,
                        label_width,
                        label_height,
                        r3,
                        k3,
                    ) is None,
            None => corridor_anchor(m, candidate, side, grid_width, grid_height, label_width, label_height)
                == candidate && forall|r3: int, k3: int|
                1 <= r3 <= label_height.saturating_add(2) && 0 <= k3 < 4 ==> #[trigger] probe(
                    m,
                    candidate,
                    side,
                    grid_width,
                    grid_height,
                    label_width,
                    label_height,
                    r3,
                    k3,
                ) is None,
        }),
{
    lemma_search_first(
        m,
        candidate,
        side,
        grid_width,
        grid_height,
        label_width,
        label_height,
        1,
        0,
        label_height.saturating_add(2) as int,
    );
}

/// The routed segment from `a` to `b` (horizontal when they share a row).
pub open spec fn segment_between(a: GridCell, b: GridCell) -> Segment {
    if a.1 == b.1 {
        Segment::Horizontal { y: a.1, x_start: a.0, x_end: b.0 }
    } else {
        Segment::Vertical { x: a.0, y_start: a.1, y_end: b.1 }
    }
}

/// The segments of a polyline, one per consecutive pair of cells.
pub open spec fn polyline_segments(path: Seq<GridCell>) -> Seq<Segment> {
    Seq::new((path.len() - 1) as nat, |i: int| segment_between(path[i], path[i + 1]))
}

/// Every segment of `path` runs along a row or a column.
pub open spec fn axis_aligned(path: Seq<GridCell>) -> bool {
    forall|i: int| #![trigger path[i]] 0 <= i < path.len() - 1 ==> axis_between(path[i], path[i + 1]) is Some
}

proof fn lemma_corridors_match(m: Map<GridCell, CellRole>, path: Seq<GridCell>, k: nat)
    requires
        path.len() >= 2,
        axis_aligned(path),
        k <= path.len() - 1,
    ensures
        seg_corridors_upto(m, polyline_segments(path), k) == corridors_upto(m, path, k),
    decreases k,
{
    if k > 0 {
        lemma_corridors_match(m, path, (k - 1) as nat);
        let a = path[k - 1];
        let b = path[k as int];
        assert(axis_between(path[k - 1], path[(k - 1) + 1]) is Some);
        assert(seg_cells(segment_between(a, b)) =~= segment_cells(a, b));
    }
}

proof fn lemma_corners_match(m: Map<GridCell, CellRole>, path: Seq<GridCell>, k: nat)
    requires
        path.len() >= 2,
        axis_aligned(path),
        k <= path.len() - 1,
    ensures
        seg_corners_upto(m, polyline_segments(path), k) == corners_upto(m, path, k + 1),
    decreases k,
{
    let segs = polyline_segments(path);
    if k > 0 && k < segs.len() {
        lemma_corners_match(m, path, (k - 1) as nat);
        assert(axis_between(path[k - 1], path[(k - 1) + 1]) is Some);
        assert(axis_between(path[k as int], path[k as int + 1]) is Some);
        assert(seg_end(segs[k - 1]) == path[k as int]);
        assert(seg_start(segs[k as int]) == path[k as int]);
        assert(seg_turns_at(segs, k - 1) == turns_at(path, k as int));
    }
}

/// Routed segments and the polyline through their endpoints have the same
/// footprint: for a polyline whose every segment runs along a row or a
/// column, building the footprint from its segments gives exactly the
/// footprint of the polyline.
pub proof fn law_segments_match_polyline(m: Map<GridCell, CellRole>, path: Seq<GridCell>)
    requires
        path.len() >= 2,
        axis_aligned(path),
    ensures
        segments_footprint(m, polyline_segments(path)) == polyline_footprint(m, path),
{
    let n = path.len();
    let segs = polyline_segments(path);
    lemma_corridors_match(m, path, (n - 1) as nat);
    let filled = corridors_upto(m, path, (n - 1) as nat);
    lemma_corners_match(filled, path, (n - 2) as nat);
    assert(seg_start(segs[0]) == path[0]) by {
        assert(axis_between(path[0], path[0int + 1]) is Some);
    }
    assert(seg_end(segs[n - 2]) == path[n - 1]) by {
        assert(axis_between(path[n - 2], path[(n - 2) + 1]) is Some);
    }
}

} // verus!
