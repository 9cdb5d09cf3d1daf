//! The constraint validator: rows, columns and 3x3 boxes free of repeated
//! digits.
//!
//! Empty cells, which hold `0`, never clash with anything. The validator
//! reads a whole grid and keeps no state, so it can be asked about a grid
//! that holds a tentative value.

use vstd::prelude::*;
use vstd::set_lib::{lemma_int_range, lemma_len_subset, set_int_range};
use crate::grid::{grid_view, in_grid, put, values_of, well_shaped, Board, Grid};

verus! {

/// No value other than `0` stands at two places of `s`.
pub open spec fn no_repeats(s: Seq<int>) -> bool {
    forall|a: int, b: int|
        0 <= a < s.len() && 0 <= b < s.len() && a != b && s[a] != 0 ==> s[a] != s[b]
}

/// The nine entries are the digits from 1 to 9, each exactly once.
pub open spec fn is_digit_permutation(s: Seq<int>) -> bool {
    &&& s.len() == 9
    &&& forall|k: int| 0 <= k < 9 ==> 1 <= #[trigger] s[k] <= 9
    &&& forall|a: int, b: int| 0 <= a < 9 && 0 <= b < 9 && a != b ==> s[a] != s[b]
    &&& forall|d: int| 1 <= d <= 9 ==> s.contains(d)
}

/// The nine values of row `r`, from left to right.
pub open spec fn row_of(b: Board, r: int) -> Seq<int> {
    Seq::new(9, |k: int| b[r][k])
}

/// The nine values of column `c`, from top to bottom.
pub open spec fn column_of(b: Board, c: int) -> Seq<int> {
    Seq::new(9, |k: int| b[k][c])
}

/// The nine values of the box in band `br` of rows and band `bc` of columns,
/// in raster order.
pub open spec fn box_of(b: Board, br: int, bc: int) -> Seq<int> {
    Seq::new(9, |k: int| b[3 * br + k / 3][3 * bc + k % 3])
}

/// The band of three rows, or of three columns, that `x` lies in.
pub open spec fn band(x: int) -> int {
    if x < 3 {
        0
    } else if x < 6 {
        1
    } else {
        2
    }
}

/// Index of the box that holds the cell `(r, c)`: boxes are numbered in
/// raster order, three to a band of rows.
pub open spec fn segment_of(r: int, c: int) -> int {
    3 * band(r) + band(c)
}

/// The row, the column and the box of the cell `(r, c)` each hold no digit
/// twice.
pub open spec fn valid_cell(b: Board, r: int, c: int) -> bool {
    &&& no_repeats(row_of(b, r))
    &&& no_repeats(column_of(b, c))
    &&& no_repeats(box_of(b, band(r), band(c)))
}

/// No cell of the board is empty.
pub open spec fn filled(b: Board) -> bool {
    forall|r: int, c: int| in_grid(r, c) ==> #[trigger] b[r][c] != 0
}

/// Every cell is filled and no row, column or box holds a value twice.
pub open spec fn board_valid(b: Board) -> bool {
    &&& filled(b)
    &&& forall|r: int, c: int| in_grid(r, c) ==> #[trigger] valid_cell(b, r, c)
}

/// Nine different digits are all the digits.
pub proof fn distinct_digits_are_all(s: Seq<int>)
    requires
        s.len() == 9,
        forall|k: int| 0 <= k < 9 ==> 1 <= #[trigger] s[k] <= 9,
        no_repeats(s),
    ensures
        is_digit_permutation(s),
{
    assert forall|d: int| 1 <= d <= 9 implies s.contains(d) by {
        if !s.contains(d) {
            s.unique_seq_to_set();
            lemma_int_range(1, 10);
            let rest = set_int_range(1, 10).remove(d);
            assert(s.to_set().subset_of(rest));
            lemma_len_subset(s.to_set(), rest);
        }
    }
}

/// Taking values away introduces no repeat: when `a` agrees with `b` wherever
/// `a` holds a value, and `b` holds no value twice, neither does `a`.
pub proof fn no_repeats_in_part(a: Seq<int>, b: Seq<int>)
    requires
        a.len() == b.len(),
        forall|k: int| 0 <= k < a.len() && #[trigger] a[k] != 0 ==> a[k] == b[k],
        no_repeats(b),
    ensures
        no_repeats(a),
{
}

/// A board that agrees with `b` wherever it holds a value is free of repeats
/// around every cell around which `b` is.
pub proof fn valid_cell_in_part(a: Board, b: Board, r: int, c: int)
    requires
        in_grid(r, c),
        forall|r2: int, c2: int| in_grid(r2, c2) && #[trigger] a[r2][c2] != 0 ==> a[r2][c2] == b[r2][c2],
        valid_cell(b, r, c),
    ensures
        valid_cell(a, r, c),
{
    no_repeats_in_part(row_of(a, r), row_of(b, r));
    no_repeats_in_part(column_of(a, c), column_of(b, c));
    no_repeats_in_part(box_of(a, band(r), band(c)), box_of(b, band(r), band(c)));
}

/// Writing a value into the cell `(xr, xc)` keeps the surroundings of
/// `(yr, yc)` free of repeats, provided that they were so before and that the
/// surroundings of `(xr, xc)` are so afterwards.
pub proof fn valid_cell_after_put(b: Board, xr: int, xc: int, v: int, yr: int, yc: int)
    requires
        well_shaped(b),
        in_grid(xr, xc),
        in_grid(yr, yc),
        valid_cell(b, yr, yc),
        valid_cell(put(b, xr, xc, v), xr, xc),
    ensures
        valid_cell(put(b, xr, xc, v), yr, yc),
{
    let nb = put(b, xr, xc, v);
    if yr != xr {
        assert(row_of(nb, yr) =~= row_of(b, yr));
    }
    if yc != xc {
        assert(column_of(nb, yc) =~= column_of(b, yc));
    }
    if band(yr) != band(xr) || band(yc) != band(xc) {
        assert(box_of(nb, band(yr), band(yc)) =~= box_of(b, band(yr), band(yc)));
    }
}

/// Index of the 3x3 box that holds the cell `(i, j)`.
pub fn get_segment(i: i32, j: i32) -> (segment: i32)
    ensures
        segment == segment_of(i as int, j as int),
        in_grid(i as int, j as int) ==> segment == 3 * (i / 3) + j / 3,
        0 <= segment <= 8,
{
    if i < 3 {
        if j < 3 {
            return 0;
        } else if j < 6 {
            return 1;
        } else {
            return 2;
        }
    } else if i < 6 {
        if j < 3 {
            return 3;
        } else if j < 6 {
            return 4;
        } else {
            return 5;
        }
    } else {
        if j < 3 {
            return 6;
        } else if j < 6 {
            return 7;
        } else {
            return 8;
        }
    }
}

/// First and last row, then first and last column, of the box with the given
/// index.
pub fn get_segment_coordinates(index: i32) -> (bounds: ([i32; 2], [i32; 2]))
    requires
        0 <= index <= 8,
    ensures
        bounds.0[0] == 3 * (index / 3),
        bounds.0[1] == 3 * (index / 3) + 2,
        bounds.1[0] == 3 * (index % 3),
        bounds.1[1] == 3 * (index % 3) + 2,
{
    match index {
        0 => ([0, 2], [0, 2]),
        1 => ([0, 2], [3, 5]),
        2 => ([0, 2], [6, 8]),
        3 => ([3, 5], [0, 2]),
        4 => ([3, 5], [3, 5]),
        5 => ([3, 5], [6, 8]),
        6 => ([6, 8], [0, 2]),
        7 => ([6, 8], [3, 5]),
        _ => ([6, 8], [6, 8]),
    }
}

/// Whether nine cells hold no digit twice.
pub fn all_distinct(vals: &[i32; 9]) -> (ok: bool)
    ensures
        ok == no_repeats(values_of(*vals)),
{
    let ghost s = values_of(*vals);
    let mut a: usize = 0;
    while a < 9
        invariant
            a <= 9,
            s == values_of(*vals),
            forall|x: int, y: int|
                0 <= x < a && 0 <= y < 9 && x != y && s[x] != 0 ==> s[x] != s[y],
        decreases 9 - a,
    {
        if vals[a] != 0 {
            let mut b: usize = 0;
            while b < 9
                invariant
                    a < 9,
                    b <= 9,
                    s == values_of(*vals),
                    vals[a as int] != 0,
                    forall|y: int| 0 <= y < b && a != y ==> s[a as int] != s[y],
                decreases 9 - b,
            {
                if b != a && vals[a] == vals[b] {
                    assert(s[a as int] == s[b as int] && s[a as int] != 0);
                    return false;
                }
                b += 1;
            }
        }
        a += 1;
    }
    true
}

/// Whether the row, the column and the box of the cell `(i, j)` are free of
/// repeated digits in `grid`.
pub fn is_valid_cell(i: i32, j: i32, grid: &Grid) -> (ok: bool)
    requires
        in_grid(i as int, j as int),
    ensures
        ok == valid_cell(grid_view(*grid), i as int, j as int),
{
    let ghost b = grid_view(*grid);
    let row: usize = i as usize;
    let col: usize = j as usize;
    assert(values_of(grid[row as int]) =~= row_of(b, i as int));
    if !all_distinct(&grid[row]) {
        return false;
    }
    let mut column: [i32; 9] = [0; 9];
    let mut x: usize = 0;
    while x < 9
        invariant
            x <= 9,
            col < 9,
            b == grid_view(*grid),
            forall|k: int| 0 <= k < x ==> column[k] == b[k][col as int],
        decreases 9 - x,
    {
        column[x] = grid[x][col];
        x += 1;
    }
    assert(values_of(column) =~= column_of(b, j as int));
    if !all_distinct(&column) {
        return false;
    }
    let (rows, cols) = get_segment_coordinates(get_segment(i, j));
    let top: usize = rows[0] as usize;
    let left: usize = cols[0] as usize;
    let mut cells: [i32; 9] = [0; 9];
    let mut k: usize = 0;
    while k < 9
        invariant
            k <= 9,
            top <= 6,
            left <= 6,
            b == grid_view(*grid),
            forall|n: int| 0 <= n < k ==> cells[n] == b[top + n / 3][left + n % 3],
        decreases 9 - k,
    {
        cells[k] = grid[top + k / 3][left + k % 3];
        k += 1;
    }
    assert(values_of(cells) =~= box_of(b, band(i as int), band(j as int)));
    all_distinct(&cells)
}

/// Whether `grid` is completely filled with every row, column and box free
/// of repeated values.
pub fn is_board_valid(grid: &Grid) -> (ok: bool)
    ensures
        ok == board_valid(grid_view(*grid)),
{
    let ghost b = grid_view(*grid);
    let mut i: usize = 0;
    while i < 9
        invariant
            i <= 9,
            b == grid_view(*grid),
            forall|r: int, c: int| 0 <= r < i && 0 <= c < 9 ==> #[trigger] b[r][c] != 0,
            forall|r: int, c: int| 0 <= r < i && 0 <= c < 9 ==> #[trigger] valid_cell(b, r, c),
        decreases 9 - i,
    {
        let mut j: usize = 0;
        while j < 9
            invariant
                i < 9,
                j <= 9,
                b == grid_view(*grid),
                forall|c: int| 0 <= c < j ==> #[trigger] b[i as int][c] != 0,
                forall|c: int| 0 <= c < j ==> #[trigger] valid_cell(b, i as int, c),
            decreases 9 - j,
        {
            assert(b[i as int][j as int] == grid[i as int][j as int]);
            if grid[i][j] == 0 || !is_valid_cell(i as i32, j as i32, grid) {
                return false;
            }
            j += 1;
        }
        i += 1;
    }
    true
}

} // verus!
