//! What it means to solve a puzzle.

use vstd::prelude::*;
use crate::grid::{in_grid, well_shaped, Board};
use crate::validator::{
    box_of, column_of, distinct_digits_are_all, is_digit_permutation, no_repeats, row_of, valid_cell,
};

verus! {

/// `f` fills in `puzzle`: it keeps the values that the puzzle gives, holds a
/// digit from 1 to 9 in every cell that the puzzle leaves empty, and around
/// each of those cells the row, the column and the box hold no value twice.
pub open spec fn is_solution(puzzle: Board, f: Board) -> bool {
    &&& well_shaped(f)
    &&& forall|r: int, c: int| in_grid(r, c) && puzzle[r][c] != 0 ==> #[trigger] f[r][c] == puzzle[r][c]
    &&& forall|r: int, c: int| in_grid(r, c) && puzzle[r][c] == 0 ==> 1 <= #[trigger] f[r][c] <= 9
    &&& forall|r: int, c: int| in_grid(r, c) && puzzle[r][c] == 0 ==> #[trigger] valid_cell(f, r, c)
}

/// A finished Sudoku: every row, every column and every box holds each digit
/// from 1 to 9 exactly once.
pub open spec fn is_sudoku(f: Board) -> bool {
    &&& well_shaped(f)
    &&& forall|k: int| 0 <= k < 9 ==> is_digit_permutation(#[trigger] row_of(f, k))
    &&& forall|k: int| 0 <= k < 9 ==> is_digit_permutation(#[trigger] column_of(f, k))
    &&& forall|br: int, bc: int|
        0 <= br < 3 && 0 <= bc < 3 ==> is_digit_permutation(#[trigger] box_of(f, br, bc))
}

/// No entry is empty.
pub open spec fn is_full(s: Seq<int>) -> bool {
    forall|k: int| 0 <= k < s.len() ==> #[trigger] s[k] != 0
}

/// The puzzle is one that a Sudoku can come of: its values lie between 0 and
/// 9, and a row, a column or a box that it gives in full holds no value
/// twice.
pub open spec fn is_clean(puzzle: Board) -> bool {
    &&& forall|r: int, c: int| in_grid(r, c) ==> 0 <= #[trigger] puzzle[r][c] <= 9
    &&& forall|k: int| 0 <= k < 9 && is_full(#[trigger] row_of(puzzle, k)) ==> no_repeats(row_of(puzzle, k))
    &&& forall|k: int|
        0 <= k < 9 && is_full(#[trigger] column_of(puzzle, k)) ==> no_repeats(column_of(puzzle, k))
    &&& forall|br: int, bc: int|
        0 <= br < 3 && 0 <= bc < 3 && is_full(#[trigger] box_of(puzzle, br, bc)) ==> no_repeats(
            box_of(puzzle, br, bc),
        )
}

/// A unit of the solution that holds an empty cell of the puzzle holds no
/// value twice; a unit that the puzzle gives in full is the same in both.
proof fn unit_of_solution(puzzle: Board, f: Board, p: Seq<int>, u: Seq<int>, cells: Seq<(int, int)>)
    requires
        is_solution(puzzle, f),
        cells.len() == 9,
        p.len() == 9,
        u.len() == 9,
        forall|k: int| 0 <= k < 9 ==> in_grid(#[trigger] cells[k].0, cells[k].1),
        forall|k: int| 0 <= k < 9 ==> #[trigger] p[k] == puzzle[cells[k].0][cells[k].1],
        forall|k: int| 0 <= k < 9 ==> #[trigger] u[k] == f[cells[k].0][cells[k].1],
    ensures
        is_full(p) ==> u == p,
        forall|k: int| 0 <= k < 9 ==> #[trigger] u[k] != 0,
        forall|k: int| 0 <= k < 9 && (0 <= p[k] <= 9) ==> 1 <= #[trigger] u[k] <= 9,
{
    assert forall|k: int| 0 <= k < 9 implies #[trigger] u[k] != 0 && (0 <= p[k] <= 9 ==> 1 <= u[k] <= 9) by {
        assert(in_grid(cells[k].0, cells[k].1));
    }
    if is_full(p) {
        assert(u =~= p);
    }
}

/// A solution of a puzzle is a finished Sudoku exactly when the puzzle is
/// clean: a clash between two given values in a unit without an empty cell,
/// or a given value that is no digit, stays in every solution, and nothing
/// else can keep a solution from being a Sudoku.
pub proof fn solution_is_sudoku_iff_clean(puzzle: Board, f: Board)
    requires
        is_solution(puzzle, f),
    ensures
        is_sudoku(f) <==> is_clean(puzzle),
{
    if is_clean(puzzle) {
        assert forall|k: int| 0 <= k < 9 implies is_digit_permutation(#[trigger] row_of(f, k)) by {
            let cells = Seq::new(9, |j: int| (k, j));
            unit_of_solution(puzzle, f, row_of(puzzle, k), row_of(f, k), cells);
            if !is_full(row_of(puzzle, k)) {
                let j = choose|j: int| 0 <= j < 9 && row_of(puzzle, k)[j] == 0;
                assert(valid_cell(f, k, j));
            }
            distinct_digits_are_all(row_of(f, k));
        }
        assert forall|k: int| 0 <= k < 9 implies is_digit_permutation(#[trigger] column_of(f, k)) by {
            let cells = Seq::new(9, |j: int| (j, k));
            unit_of_solution(puzzle, f, column_of(puzzle, k), column_of(f, k), cells);
            if !is_full(column_of(puzzle, k)) {
                let j = choose|j: int| 0 <= j < 9 && column_of(puzzle, k)[j] == 0;
                assert(valid_cell(f, j, k));
            }
            distinct_digits_are_all(column_of(f, k));
        }
        assert forall|br: int, bc: int| 0 <= br < 3 && 0 <= bc < 3 implies is_digit_permutation(
            #[trigger] box_of(f, br, bc),
        ) by {
            let cells = Seq::new(9, |j: int| (3 * br + j / 3, 3 * bc + j % 3));
            unit_of_solution(puzzle, f, box_of(puzzle, br, bc), box_of(f, br, bc), cells);
            if !is_full(box_of(puzzle, br, bc)) {
                let j = choose|j: int| 0 <= j < 9 && box_of(puzzle, br, bc)[j] == 0;
                let r = 3 * br + j / 3;
                let c = 3 * bc + j % 3;
                assert(valid_cell(f, r, c));
            }
            distinct_digits_are_all(box_of(f, br, bc));
        }
    }
    if is_sudoku(f) {
        assert forall|r: int, c: int| in_grid(r, c) implies 0 <= #[trigger] puzzle[r][c] <= 9 by {
            assert(1 <= row_of(f, r)[c] <= 9);
        }
        assert forall|k: int| 0 <= k < 9 && is_full(#[trigger] row_of(puzzle, k)) implies no_repeats(
            row_of(puzzle, k),
        ) by {
            let cells = Seq::new(9, |j: int| (k, j));
            unit_of_solution(puzzle, f, row_of(puzzle, k), row_of(f, k), cells);
        }
        assert forall|k: int| 0 <= k < 9 && is_full(#[trigger] column_of(puzzle, k)) implies no_repeats(
            column_of(puzzle, k),
        ) by {
            let cells = Seq::new(9, |j: int| (j, k));
            unit_of_solution(puzzle, f, column_of(puzzle, k), column_of(f, k), cells);
        }
        assert forall|br: int, bc: int|
            0 <= br < 3 && 0 <= bc < 3 && is_full(#[trigger] box_of(puzzle, br, bc)) implies no_repeats(
            box_of(puzzle, br, bc),
        ) by {
            let cells = Seq::new(9, |j: int| (3 * br + j / 3, 3 * bc + j % 3));
            unit_of_solution(puzzle, f, box_of(puzzle, br, bc), box_of(f, br, bc), cells);
        }
    }
}

} // verus!
