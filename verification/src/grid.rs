//! The 9x9 grid, its coordinates and their raster order.
//!
//! Cells are addressed by `(row, column)`, both in `0..=8`. Raster order walks
//! a row from left to right and the rows from top to bottom; the position
//! `(9, 0)`, one step past the last cell, marks a walk that has left the grid.

use vstd::prelude::*;

verus! {

/// A puzzle or a partial assignment: nine rows of nine cells, `0` for an
/// empty cell.
pub type Grid = [[i32; 9]; 9];

/// The mathematical grid that contracts speak of: a sequence of rows, each a
/// sequence of cell values.
pub type Board = Seq<Seq<int>>;

/// Nine rows of nine cells.
pub open spec fn well_shaped(b: Board) -> bool {
    b.len() == 9 && forall|r: int| 0 <= r < 9 ==> (#[trigger] b[r]).len() == 9
}

/// The board that a grid stands for.
pub open spec fn grid_view(g: Grid) -> Board {
    Seq::new(9, |r: int| Seq::new(9, |c: int| g[r][c] as int))
}

/// Nine machine integers as a sequence of mathematical ones.
pub open spec fn values_of(vals: [i32; 9]) -> Seq<int> {
    Seq::new(9, |k: int| vals[k] as int)
}

/// `(r, c)` names a cell of the grid.
pub open spec fn in_grid(r: int, c: int) -> bool {
    0 <= r < 9 && 0 <= c < 9
}

/// Position of a cell in raster order, `0` for the top left cell and `80`
/// for the bottom right one; `81` for the position past the grid.
pub open spec fn raster(r: int, c: int) -> int {
    9 * r + c
}

/// The board with the value of one cell replaced.
pub open spec fn put(b: Board, r: int, c: int, v: int) -> Board {
    b.update(r, b[r].update(c, v))
}

/// Raster successor: one column to the right, or the start of the next row.
pub open spec fn next_cell(r: int, c: int) -> (int, int) {
    if c == 8 {
        (r + 1, 0)
    } else {
        (r, c + 1)
    }
}

/// Raster predecessor: one column to the left, or the end of the row above.
pub open spec fn prev_cell(r: int, c: int) -> (int, int) {
    if c == 0 {
        (r - 1, 8)
    } else {
        (r, c - 1)
    }
}

/// The successor of a cell is the next position in raster order: a cell of
/// the grid, or `(9, 0)` after the last cell.
pub proof fn next_is_raster_successor(r: int, c: int)
    requires
        in_grid(r, c),
    ensures
        raster(next_cell(r, c).0, next_cell(r, c).1) == raster(r, c) + 1,
        (r, c) != (8int, 8int) ==> in_grid(next_cell(r, c).0, next_cell(r, c).1),
        (r, c) == (8int, 8int) ==> next_cell(r, c) == (9int, 0int),
{
}

/// The predecessor of any cell but the first is the cell just before it in
/// raster order.
pub proof fn previous_is_raster_predecessor(r: int, c: int)
    requires
        in_grid(r, c),
        (r, c) != (0int, 0int),
    ensures
        raster(prev_cell(r, c).0, prev_cell(r, c).1) == raster(r, c) - 1,
        in_grid(prev_cell(r, c).0, prev_cell(r, c).1),
{
}

/// Successor and predecessor undo each other away from the two ends of the
/// grid.
pub proof fn next_and_previous_are_inverse(r: int, c: int)
    requires
        in_grid(r, c),
    ensures
        (r, c) != (8int, 8int) ==> prev_cell(next_cell(r, c).0, next_cell(r, c).1) == (r, c),
        (r, c) != (0int, 0int) ==> next_cell(prev_cell(r, c).0, prev_cell(r, c).1) == (r, c),
{
}

/// Grids that stand for the same board are the same grid.
pub proof fn grid_view_is_injective(a: Grid, b: Grid)
    requires
        grid_view(a) == grid_view(b),
    ensures
        a == b,
{
    assert forall|r: int| 0 <= r < 9 implies a[r] == b[r] by {
        assert forall|c: int| 0 <= c < 9 implies a[r][c] == b[r][c] by {
            assert(grid_view(a)[r][c] == a[r][c] as int);
            assert(grid_view(b)[r][c] == b[r][c] as int);
        }
        assert(a[r] =~= b[r]);
    }
    assert(a =~= b);
}

/// Raster successor of the cell `(i, j)`.
pub fn get_next_index(i: i32, j: i32) -> (next: (i32, i32))
    requires
        in_grid(i as int, j as int),
    ensures
        (next.0 as int, next.1 as int) == next_cell(i as int, j as int),
{
    if (j + 1) % 9 == 0 {
        (i + 1, 0)
    } else {
        (i, j + 1)
    }
}

/// Raster predecessor of the cell `(i, j)`, which is not the first cell.
pub fn get_previous_index(i: i32, j: i32) -> (previous: (i32, i32))
    requires
        in_grid(i as int, j as int),
        (i, j) != (0i32, 0i32),
    ensures
        (previous.0 as int, previous.1 as int) == prev_cell(i as int, j as int),
{
    if j == 0 {
        (i - 1, 8)
    } else {
        (i, j - 1)
    }
}

/// Writes `v` into the cell `(i, j)`.
pub fn set_cell(g: &mut Grid, i: usize, j: usize, v: i32)
    requires
        i < 9,
        j < 9,
    ensures
        grid_view(*final(g)) == put(grid_view(*old(g)), i as int, j as int, v as int),
{
    g[i][j] = v;
    assert(grid_view(*g) =~~= put(grid_view(*old(g)), i as int, j as int, v as int));
}

} // verus!
