//! The cell map of a path footprint: grid cells keyed in row-major-free
//! `(column, row)` order, each with the role of the glyph drawn there.

use std::collections::BTreeMap;

use vstd::prelude::*;

verus! {

/// A grid cell `(column, row)`.
pub type GridCell = (usize, usize);

/// The role of an occupied cell.
#[derive(Debug, Clone, Copy, PartialEq, Eq, Structural)]
pub enum CellRole {
    /// A straight run of an edge; a label may cover it.
    Corridor,
    /// A bend glyph.
    Corner,
    /// An endpoint, arrowhead, border or other load-bearing glyph.
    Terminal,
}

/// The role recorded for `c`, if any.
pub(crate) fn cell_role(cells: &BTreeMap<GridCell, CellRole>, c: GridCell) -> (r: Option<CellRole>)
    ensures
        r == (if cells@.contains_key(c) {
            Some(cells@[c])
        } else {
            None
        }),
{
    broadcast use vstd::std_specs::btree::group_btree_axioms;
    broadcast use vstd::laws_cmp::group_laws_cmp;

    match cells.get(&c) {
        Some(role) => Some(*role),
        None => None,
    }
}

/// Record `role` at `c`, replacing any earlier role.
pub(crate) fn set_cell(cells: &mut BTreeMap<GridCell, CellRole>, c: GridCell, role: CellRole)
    ensures
        final(cells)@ == old(cells)@.insert(c, role),
{
    broadcast use vstd::std_specs::btree::group_btree_axioms;
    broadcast use vstd::laws_cmp::group_laws_cmp;

    cells.insert(c, role);
}

/// Record `role` at `c` unless `c` already has a role.
pub(crate) fn default_cell(cells: &mut BTreeMap<GridCell, CellRole>, c: GridCell, role: CellRole)
    ensures
        final(cells)@ == (if old(cells)@.contains_key(c) {
            old(cells)@
        } else {
            old(cells)@.insert(c, role)
        }),
{
    broadcast use vstd::std_specs::btree::group_btree_axioms;
    broadcast use vstd::laws_cmp::group_laws_cmp;

    if !cells.contains_key(&c) {
        cells.insert(c, role);
    }
}

} // verus!
