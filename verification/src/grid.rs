//! The geometry of the grid: cells, the walls between them, and the number
//! that stands for a cell in flat arrays.
//!
//! A maze of `width` by `height` cells sits inside a frame one cell wide, so
//! the grid has `width + 2` columns and `height + 2` rows. The interior cells
//! are those with `1 <= x <= width` and `1 <= y <= height`.

use vstd::prelude::*;
use vstd::set_lib::{lemma_int_range, lemma_set_disjoint_lens, set_int_range};

verus! {

/// A grid position `(x, y)`.
pub type Cell = (usize, usize);

/// A wall between a cell and its neighbour to the east or to the south.
pub type Wall = (Cell, Cell);

/// The cell lies in the grid, frame included.
pub open spec fn in_grid(width: int, height: int, c: Cell) -> bool {
    c.0 <= width + 1 && c.1 <= height + 1
}

/// The cell lies inside the frame.
pub open spec fn interior(width: int, height: int, c: Cell) -> bool {
    1 <= c.0 <= width && 1 <= c.1 <= height
}

/// The number of cells of the grid, frame included.
pub open spec fn grid_size(width: int, height: int) -> int {
    (width + 2) * (height + 2)
}

/// The grid has a number of cells that fits in `usize`.
pub open spec fn grid_ok(width: int, height: int) -> bool {
    0 <= width && 0 <= height && grid_size(width, height) <= usize::MAX
}

/// The index of a cell, row by row.
pub open spec fn cell_id(width: int, c: Cell) -> int {
    c.0 + c.1 * (width + 2)
}

/// The neighbour to the east.
pub open spec fn east(c: Cell) -> Cell {
    ((c.0 + 1) as usize, c.1)
}

/// The neighbour to the south.
pub open spec fn south(c: Cell) -> Cell {
    (c.0, (c.1 + 1) as usize)
}

/// One of the walls the grid is built with: from an interior cell to its
/// east or south neighbour, which may lie on the far frame.
pub open spec fn is_candidate(width: int, height: int, wall: Wall) -> bool {
    interior(width, height, wall.0) && (wall.1 == east(wall.0) || wall.1 == south(wall.0))
}

/// The wall starts on the near frame or ends on the far frame. Such a wall
/// is never opened.
pub open spec fn touches_frame(width: int, height: int, wall: Wall) -> bool {
    wall.0.0 == 0 || wall.0.1 == 0 || wall.1.0 == width + 1 || wall.1.1 == height + 1
}

/// A candidate wall between two interior cells: one that may be opened.
pub open spec fn is_passage(width: int, height: int, wall: Wall) -> bool {
    is_candidate(width, height, wall) && !touches_frame(width, height, wall)
}

/// The ids of the interior cells.
pub open spec fn interior_ids(width: int, height: int) -> Set<int> {
    Set::new(
        |i: int| exists|c: Cell| interior(width, height, c) && #[trigger] cell_id(width, c) == i,
    )
}

/// The ids of the interior cells of the rows `1..=rows`.
spec fn rows_ids(width: int, rows: int) -> Set<int> {
    Set::new(|i: int| exists|c: Cell| interior(width, rows, c) && #[trigger] cell_id(width, c) == i)
}

/// Each side of a grid that fits in memory fits too.
pub proof fn lemma_sides_fit(width: int, height: int)
    requires
        grid_ok(width, height),
    ensures
        width + 2 <= usize::MAX,
        height + 2 <= usize::MAX,
        width * height <= usize::MAX,
        0 <= width * height,
{
    assert(width + 2 <= grid_size(width, height) && height + 2 <= grid_size(width, height)
        && width * height <= grid_size(width, height) && 0 <= width * height) by (nonlinear_arith)
        requires
            0 <= width,
            0 <= height,
    ;
}

/// The cells of the grid have the ids below `grid_size`.
pub proof fn lemma_cell_id_bound(width: int, height: int, c: Cell)
    requires
        0 <= width,
        0 <= height,
        in_grid(width, height, c),
    ensures
        0 <= cell_id(width, c) < grid_size(width, height),
{
    assert(c.1 * (width + 2) <= (height + 1) * (width + 2)) by (nonlinear_arith)
        requires
            c.1 <= height + 1,
            0 <= width,
    ;
    assert((height + 1) * (width + 2) + (width + 2) == (width + 2) * (height + 2))
        by (nonlinear_arith);
    assert(0 <= c.1 * (width + 2)) by (nonlinear_arith)
        requires
            0 <= width,
            0 <= c.1,
    ;
}

/// Two cells of one grid with the same id are the same cell.
pub proof fn lemma_cell_id_injective(width: int, a: Cell, b: Cell)
    requires
        0 <= width,
        a.0 <= width + 1,
        b.0 <= width + 1,
        cell_id(width, a) == cell_id(width, b),
    ensures
        a == b,
{
    if a.1 < b.1 {
        assert(b.1 * (width + 2) >= a.1 * (width + 2) + (width + 2)) by (nonlinear_arith)
            requires
                a.1 + 1 <= b.1,
                0 <= width,
        ;
    } else if b.1 < a.1 {
        assert(a.1 * (width + 2) >= b.1 * (width + 2) + (width + 2)) by (nonlinear_arith)
            requires
                b.1 + 1 <= a.1,
                0 <= width,
        ;
    }
}

proof fn lemma_rows_ids_len(width: int, rows: int)
    requires
        0 <= width,
        0 <= rows,
        grid_size(width, rows) <= usize::MAX,
    ensures
        rows_ids(width, rows).finite(),
        rows_ids(width, rows).len() == width * rows,
    decreases rows,
{
    if rows == 0 {
        assert(rows_ids(width, rows) =~= Set::empty());
        assert(width * rows == 0) by (nonlinear_arith)
            requires
                rows == 0,
        ;
    } else {
        let above = rows_ids(width, rows - 1);
        let lo = rows * (width + 2) + 1;
        let row = set_int_range(lo, lo + width);
        assert(grid_size(width, rows - 1) <= grid_size(width, rows)) by (nonlinear_arith)
            requires
                0 <= width,
        ;
        assert(rows * (width + 2) + (width + 2) <= grid_size(width, rows)) by (nonlinear_arith)
            requires
                0 <= width,
                0 <= rows,
        ;
        lemma_rows_ids_len(width, rows - 1);
        lemma_int_range(lo, lo + width);
        assert(rows_ids(width, rows) =~= above + row) by {
            assert forall|i: int| rows_ids(width, rows).contains(i) implies (above + row).contains(
                i,
            ) by {
                let c = choose|c: Cell|
                    interior(width, rows, c) && #[trigger] cell_id(width, c) == i;
                if c.1 < rows {
                    assert(interior(width, rows - 1, c));
                }
            }
            assert forall|i: int| row.contains(i) implies rows_ids(width, rows).contains(i) by {
                assert(rows <= grid_size(width, rows) && width <= grid_size(width, rows))
                    by (nonlinear_arith)
                    requires
                        0 <= width,
                        0 <= rows,
                ;
                let c: Cell = ((i - lo + 1) as usize, rows as usize);
                assert(interior(width, rows, c) && cell_id(width, c) == i);
            }
            assert forall|i: int| above.contains(i) implies rows_ids(width, rows).contains(i) by {
                let c = choose|c: Cell|
                    interior(width, rows - 1, c) && #[trigger] cell_id(width, c) == i;
                assert(interior(width, rows, c));
            }
        }
        assert(above.disjoint(row)) by {
            assert forall|i: int| above.contains(i) implies !row.contains(i) by {
                let c = choose|c: Cell|
                    interior(width, rows - 1, c) && #[trigger] cell_id(width, c) == i;
                assert(c.1 * (width + 2) + (width + 2) <= rows * (width + 2)) by (nonlinear_arith)
                    requires
                        c.1 + 1 <= rows,
                        0 <= width,
                ;
            }
        }
        lemma_set_disjoint_lens(above, row);
        assert(width * (rows - 1) + width == width * rows) by (nonlinear_arith);
    }
}

/// There are `width * height` interior cells, each with an id of its own.
pub proof fn lemma_interior_ids_len(width: int, height: int)
    requires
        0 <= width,
        0 <= height,
        grid_size(width, height) <= usize::MAX,
    ensures
        interior_ids(width, height).finite(),
        interior_ids(width, height).len() == width * height,
{
    lemma_rows_ids_len(width, height);
    assert(interior_ids(width, height) =~= rows_ids(width, height));
}

} // verus!
