//! Cells covered by a straight line between two grid cells.

use std::collections::BTreeMap;

use vstd::prelude::*;

use super::cells::{default_cell, CellRole, GridCell};

verus! {

/// Largest coordinate a diagonal line may have, so that the line's error
/// term stays within 64-bit arithmetic.
pub const MAX_LINE_COORD: usize = 0x3fff_ffff;

/// `m` with `role` at every cell of `s` that has no role yet.
pub open spec fn defaulted(m: Map<GridCell, CellRole>, s: Set<GridCell>, role: CellRole) -> Map<GridCell, CellRole> {
    Map::new(
        |c: GridCell| m.contains_key(c) || s.contains(c),
        |c: GridCell|
            if m.contains_key(c) {
                m[c]
            } else {
                role
            },
    )
}

pub open spec fn abs_diff(p: int, q: int) -> int {
    if p <= q {
        q - p
    } else {
        p - q
    }
}

/// The cell at `(x, y)` when both are non-negative.
pub open spec fn cell_if_on_grid(x: int, y: int) -> Set<GridCell> {
    if x >= 0 && y >= 0 {
        set![(x as usize, y as usize)]
    } else {
        Set::empty()
    }
}

/// Cells the line walk visits from `(x, y)` towards `(x1, y1)`, given the
/// spans `a = |dx|`, `b = |dy|`, the step signs and the error term, for at
/// most `fuel` cells.
pub open spec fn line_walk(
    x: int,
    y: int,
    x1: int,
    y1: int,
    a: int,
    b: int,
    sx: int,
    sy: int,
    err: int,
    fuel: nat,
) -> Set<GridCell>
    decreases fuel,
{
    if fuel == 0 {
        Set::empty()
    } else if x == x1 && y == y1 {
        cell_if_on_grid(x, y)
    } else {
        let e2 = 2 * err;
        let err1 = if e2 >= -b {
            err - b
        } else {
            err
        };
        let xn = if e2 >= -b {
            x + sx
        } else {
            x
        };
        let err2 = if e2 <= a {
            err1 + a
        } else {
            err1
        };
        let yn = if e2 <= a {
            y + sy
        } else {
            y
        };
        cell_if_on_grid(x, y).union(line_walk(xn, yn, x1, y1, a, b, sx, sy, err2, (fuel - 1) as nat))
    }
}

/// Cells of the rasterized line from `s` to `e` (all-octant Bresenham).
pub open spec fn line_cells(s: GridCell, e: GridCell) -> Set<GridCell> {
    let a = abs_diff(s.0 as int, e.0 as int);
    let b = abs_diff(s.1 as int, e.1 as int);
    let sx = if s.0 < e.0 {
        1int
    } else {
        -1int
    };
    let sy = if s.1 < e.1 {
        1int
    } else {
        -1int
    };
    line_walk(s.0 as int, s.1 as int, e.0 as int, e.1 as int, a, b, sx, sy, a - b, (a + b + 1) as nat)
}

proof fn lemma_err_bound(a: int, b: int, rx: int, ry: int, err: int)
    requires
        0 <= rx <= a <= 0x3fff_ffff,
        0 <= ry <= b <= 0x3fff_ffff,
        err == a - b + b * rx - a * ry,
    ensures
        -0x1000_0000_0000_0000 <= err <= 0x1000_0000_0000_0000,
{
    assert(0 <= b * rx <= 0x3fff_ffff * 0x3fff_ffff) by (nonlinear_arith)
        requires
            0 <= rx <= a <= 0x3fff_ffff,
            0 <= b <= 0x3fff_ffff,
    ;
    assert(0 <= a * ry <= 0x3fff_ffff * 0x3fff_ffff) by (nonlinear_arith)
        requires
            0 <= ry <= b <= 0x3fff_ffff,
            0 <= a <= 0x3fff_ffff,
    ;
}

/// Every step of the walk moves towards the end point and never past it.
proof fn lemma_walk_progress(a: int, b: int, rx: int, ry: int, err: int)
    requires
        0 <= rx <= a,
        0 <= ry <= b,
        err == a - b + b * rx - a * ry,
        rx > 0 || ry > 0,
    ensures
        2 * err >= -b ==> rx > 0,
        2 * err <= a ==> ry > 0,
        2 * err >= -b || 2 * err <= a,
{
    if rx == 0 {
        assert(a * ry >= a) by (nonlinear_arith)
            requires
                ry >= 1,
                a >= 0,
        ;
    }
    if ry == 0 {
        assert(b * rx >= b) by (nonlinear_arith)
            requires
                rx >= 1,
                b >= 0,
        ;
    }
}

/// Mark every cell of the line from `start` to `end` as a corridor unless it
/// already has a role.
pub(crate) fn fill_bresenham(start: GridCell, end: GridCell, cells: &mut BTreeMap<GridCell, CellRole>)
    requires
        start.0 <= MAX_LINE_COORD,
        start.1 <= MAX_LINE_COORD,
        end.0 <= MAX_LINE_COORD,
        end.1 <= MAX_LINE_COORD,
    ensures
        final(cells)@ == defaulted(old(cells)@, line_cells(start, end), CellRole::Corridor),
{
    let ghost total = line_cells(start, end);
    let ghost orig = cells@;
    let mut x0: i64 = start.0 as i64;
    let mut y0: i64 = start.1 as i64;
    let x1: i64 = end.0 as i64;
    let y1: i64 = end.1 as i64;
    let dx: i64 = if x1 >= x0 {
        x1 - x0
    } else {
        x0 - x1
    };
    let dy: i64 = -(if y1 >= y0 {
        y1 - y0
    } else {
        y0 - y1
    });
    let sx: i64 = if x0 < x1 {
        1
    } else {
        -1
    };
    let sy: i64 = if y0 < y1 {
        1
    } else {
        -1
    };
    let mut err: i64 = dx + dy;
    let ghost a: int = dx as int;
    let ghost b: int = -dy;
    let ghost mut rx: int = a;
    let ghost mut ry: int = b;
    let ghost mut fuel: nat = (a + b + 1) as nat;
    let ghost mut done: Set<GridCell> = Set::empty();
    proof {
        assert(err == a - b + b * rx - a * ry) by (nonlinear_arith)
            requires
                err == a - b,
                rx == a,
                ry == b,
        ;
        assert(cells@ =~= defaulted(orig, done, CellRole::Corridor));
    }
    loop
        invariant
            0 <= a <= MAX_LINE_COORD,
            0 <= b <= MAX_LINE_COORD,
            dx == a,
            dy == -b,
            sx == 1 || sx == -1,
            sy == 1 || sy == -1,
            x1 >= 0 && y1 >= 0,
            0 <= rx <= a,
            0 <= ry <= b,
            sx == 1 ==> x0 == x1 - rx && x1 - a >= 0,
            sx == -1 ==> x0 == x1 + rx,
            sy == 1 ==> y0 == y1 - ry && y1 - b >= 0,
            sy == -1 ==> y0 == y1 + ry,
            x1 <= MAX_LINE_COORD && y1 <= MAX_LINE_COORD,
            err == a - b + b * rx - a * ry,
            fuel >= rx + ry + 1,
            cells@ == defaulted(orig, done, CellRole::Corridor),
            total == line_cells(start, end),
            orig == old(cells)@,
            done.union(line_walk(x0 as int, y0 as int, x1 as int, y1 as int, a, b, sx as int, sy as int, err as int, fuel))
                == total,
        ensures
            cells@ == defaulted(orig, total, CellRole::Corridor),
        decreases rx + ry,
    {
        proof {
            assert(-a * b <= b * rx - a * ry <= a * b) by (nonlinear_arith)
                requires
                    0 <= rx <= a,
                    0 <= ry <= b,
            ;
            assert(a * b <= 0x3fff_ffff * 0x3fff_ffff) by (nonlinear_arith)
                requires
                    0 <= a <= 0x3fff_ffff,
                    0 <= b <= 0x3fff_ffff,
            ;
        }
        let ghost gx = x0 as int;
        let ghost gy = y0 as int;
        let ghost gerr = err as int;
        let ghost gfuel = fuel;
        let ghost top_done = done;
        if x0 >= 0 && y0 >= 0 {
            let ghost before = cells@;
            default_cell(cells, (x0 as usize, y0 as usize), CellRole::Corridor);
            proof {
                let c = (x0 as usize, y0 as usize);
                done = done.insert(c);
                assert(cells@ =~= defaulted(orig, done, CellRole::Corridor));
            }
        }
        if x0 == x1 && y0 == y1 {
            proof {
                assert(top_done.union(line_walk(gx, gy, x1 as int, y1 as int, a, b, sx as int, sy as int, gerr, gfuel)) == total);
                assert(done.union(line_walk(x0 as int, y0 as int, x1 as int, y1 as int, a, b, sx as int, sy as int, err as int, fuel))
                    =~= done.union(cell_if_on_grid(x0 as int, y0 as int)));
                assert(done =~= total);
            }
            break;
        }
        proof {
            assert(rx > 0 || ry > 0);
            lemma_walk_progress(a, b, rx, ry, err as int);
        }
        proof {
            lemma_err_bound(a, b, rx, ry, err as int);
        }
        let e2 = 2 * err;
        if e2 >= dy {
            err = err + dy;
            x0 = x0 + sx;
            proof {
                assert(b * rx - b == b * (rx - 1)) by (nonlinear_arith);
                rx = rx - 1;
            }
        }
        if e2 <= dx {
            err = err + dx;
            y0 = y0 + sy;
            proof {
                assert(a * ry - a == a * (ry - 1)) by (nonlinear_arith);
                ry = ry - 1;
            }
        }
        proof {
            fuel = (fuel - 1) as nat;
            assert(done == top_done.union(cell_if_on_grid(gx, gy))) by {
                assert(gx >= 0 && gy >= 0);
                assert(done =~= top_done.union(cell_if_on_grid(gx, gy)));
            }
            assert(line_walk(gx, gy, x1 as int, y1 as int, a, b, sx as int, sy as int, gerr, gfuel) == cell_if_on_grid(
                gx,
                gy,
            ).union(line_walk(x0 as int, y0 as int, x1 as int, y1 as int, a, b, sx as int, sy as int, err as int, fuel)));
            assert(done.union(line_walk(x0 as int, y0 as int, x1 as int, y1 as int, a, b, sx as int, sy as int, err as int, fuel))
                =~= top_done.union(line_walk(gx, gy, x1 as int, y1 as int, a, b, sx as int, sy as int, gerr, gfuel)));
        }
    }
}

} // verus!
