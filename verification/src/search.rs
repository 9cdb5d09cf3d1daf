//! Why the search is exhaustive: it never passes a solution by.
//!
//! A solution is kept open by a state when nothing that the state records as
//! tried, and nothing that it has turned away from, stands in that solution.
//! Every transition that walks a permutation of the digits keeps open every
//! solution that was open before. Walking the digits in ascending order, the
//! search moreover meets the solutions in lexicographic order of their cells.

use vstd::prelude::*;
use crate::candidate::{
    ascending, ascending_candidate_is_least, first_candidate, first_candidate_is_exhaustive,
    is_candidate,
};
use crate::grid::{in_grid, put, raster, well_shaped, Board};
use crate::solution::is_solution;
use crate::soundness::retreat_target_is_nearest;
use crate::state::{retreat_target, SolverState, GAME_STATE};
use crate::validator::{is_digit_permutation, valid_cell, valid_cell_in_part};

verus! {

/// The two boards hold the same values in the cells before raster position
/// `k`.
pub open spec fn same_before(a: Board, b: Board, k: int) -> bool {
    forall|r: int, c: int| in_grid(r, c) && raster(r, c) < k ==> #[trigger] a[r][c] == b[r][c]
}

/// Lexicographic order of boards read in raster order: at the first cell in
/// which the two differ, if there is one, `a` holds the smaller value.
pub open spec fn lex_le(a: Board, b: Board) -> bool {
    forall|r: int, c: int|
        in_grid(r, c) && same_before(a, b, raster(r, c)) ==> #[trigger] a[r][c] <= b[r][c]
}

/// `f` is a solution of `puzzle` that comes first among its solutions in
/// lexicographic order.
pub open spec fn is_least_solution(puzzle: Board, f: Board) -> bool {
    &&& is_solution(puzzle, f)
    &&& forall|other: Board| #[trigger] is_solution(puzzle, other) ==> lex_le(f, other)
}

impl SolverState {
    /// The search in this state has not passed by the solution `f`.
    ///
    /// Behind the cursor, where `f` holds what the grid holds in all cells
    /// before an empty cell of the puzzle, `f` holds in that cell the value of
    /// the grid or a digit that was not tried there. Under the cursor, where
    /// `f` holds what the grid holds in all cells before it, the digit of `f`
    /// was not tried yet; while the solver backs out of that cell, `f` differs
    /// from the grid somewhere before it. A failed run has no solution.
    pub open spec fn keeps_open(self, f: Board) -> bool {
        let (cr, cc) = self.cursor;
        &&& forall|r: int, c: int|
            self.is_blank(r, c) && raster(r, c) < self.position() && same_before(
                f,
                self.grid,
                raster(r, c),
            ) && #[trigger] f[r][c] != self.grid[r][c] ==> !self.visited[(r, c)].contains(f[r][c])
        &&& self.at_blank() && same_before(f, self.grid, self.position()) ==> !self.backtrack
            && !self.visited[self.cursor].contains(f[cr][cc])
        &&& self.state != GAME_STATE::Failed
    }

    /// Behind the cursor the search has not gone past the solution `f`:
    /// where `f` holds what the grid holds in all cells before an empty cell
    /// of the puzzle, the grid holds in that cell at most what `f` holds.
    pub open spec fn not_beyond(self, f: Board) -> bool {
        forall|r: int, c: int|
            self.is_blank(r, c) && raster(r, c) < self.position() && same_before(
                f,
                self.grid,
                raster(r, c),
            ) ==> self.grid[r][c] <= #[trigger] f[r][c]
    }
}

/// What a solution holds in the cell under the cursor clashes with nothing
/// in the grid, provided that the solution holds what the grid holds in all
/// cells before the cursor.
pub proof fn value_of_solution_is_valid(s: SolverState, f: Board)
    requires
        s.inv(),
        s.at_blank(),
        is_solution(s.puzzle(), f),
        same_before(f, s.grid, s.position()),
    ensures
        valid_cell(put(s.grid, s.cursor.0, s.cursor.1, f[s.cursor.0][s.cursor.1]), s.cursor.0, s.cursor.1),
        1 <= f[s.cursor.0][s.cursor.1] <= 9,
{
    let (cr, cc) = s.cursor;
    let a = put(s.grid, cr, cc, f[cr][cc]);
    assert forall|r: int, c: int| in_grid(r, c) && #[trigger] a[r][c] != 0 implies a[r][c] == f[r][c] by {}
    valid_cell_in_part(a, f, cr, cc);
}

/// A solution holds in every given cell what the grid holds there.
proof fn solution_holds_givens(s: SolverState, f: Board)
    requires
        s.inv(),
        is_solution(s.puzzle(), f),
    ensures
        forall|r: int, c: int| s.given.contains((r, c)) ==> #[trigger] f[r][c] == s.grid[r][c],
{
    assert forall|r: int, c: int| s.given.contains((r, c)) implies #[trigger] f[r][c] == s.grid[r][c] by {}
}

/// The state in which a run starts keeps every solution open and lies
/// beyond none.
pub proof fn initial_state_keeps_open(puzzle: Board, f: Board)
    requires
        well_shaped(puzzle),
        is_solution(puzzle, f),
    ensures
        SolverState::initial(puzzle).keeps_open(f),
        SolverState::initial(puzzle).not_beyond(f),
{
}

/// A transition that walks a permutation of the digits keeps open every
/// solution that was open before it.
pub proof fn step_keeps_open(s: SolverState, order: Seq<int>, f: Board)
    requires
        s.inv(),
        is_digit_permutation(order),
        is_solution(s.puzzle(), f),
        s.keeps_open(f),
    ensures
        s.step(order).keeps_open(f),
{
    let n = s.step(order);
    let (r, c) = s.cursor;
    let p = s.position();
    solution_holds_givens(s, f);
    if s.state != GAME_STATE::InProgress {
    } else if !s.backtrack {
        if r <= 8 && !s.given.contains((r, c)) {
            first_candidate_is_exhaustive(order, s.visited[(r, c)], s.grid, r, c);
            match first_candidate(order, s.visited[(r, c)], s.grid, r, c) {
                Some(v) => {
                    assert forall|k: int| k <= p implies same_before(f, n.grid, k) == same_before(
                        f,
                        s.grid,
                        k,
                    ) by {
                        same_before_untouched(f, s.grid, r, c, v, k);
                    }
                },
                None => {
                    if same_before(f, s.grid, p) {
                        value_of_solution_is_valid(s, f);
                        assert(is_candidate(s.visited[(r, c)], s.grid, r, c, f[r][c]));
                    }
                },
            }
        }
    } else {
        retreat_target_is_nearest(s.given, r, c);
        assert forall|k: int| k <= p implies same_before(f, n.grid, k) == same_before(f, s.grid, k) by {
            same_before_untouched(f, s.grid, r, c, 0, k);
        }
        match retreat_target(s.given, r, c) {
            Some(t) => {
                if same_before(f, s.grid, raster(t.0, t.1)) && f[t.0][t.1] == s.grid[t.0][t.1] {
                    assert forall|r2: int, c2: int|
                        in_grid(r2, c2) && raster(r2, c2) < p implies #[trigger] f[r2][c2]
                        == s.grid[r2][c2] by {}
                }
            },
            None => {
                assert forall|r2: int, c2: int| in_grid(r2, c2) && raster(r2, c2) < p implies #[trigger] f[r2][c2]
                    == s.grid[r2][c2] by {
                    if !s.given.contains((r2, c2)) {
                        nearest_blank_exists(s.given, r, c, r2, c2);
                    }
                }
            },
        }
    }
}

/// Writing into the cell `(r, c)` changes nothing before that cell.
proof fn same_before_untouched(f: Board, g: Board, r: int, c: int, v: int, k: int)
    requires
        in_grid(r, c),
        well_shaped(g),
        k <= raster(r, c),
    ensures
        same_before(f, put(g, r, c, v), k) == same_before(f, g, k),
{
    let h = put(g, r, c, v);
    assert forall|r2: int, c2: int| in_grid(r2, c2) && raster(r2, c2) < k implies h[r2][c2] == g[r2][c2] by {}
    if same_before(f, g, k) {
        assert forall|r2: int, c2: int| in_grid(r2, c2) && raster(r2, c2) < k implies #[trigger] f[r2][c2]
            == h[r2][c2] by {}
    }
    if same_before(f, h, k) {
        assert forall|r2: int, c2: int| in_grid(r2, c2) && raster(r2, c2) < k implies #[trigger] f[r2][c2]
            == g[r2][c2] by {}
    }
}

/// Where a cell before `(r, c)` is not given, one of them is the nearest.
pub proof fn nearest_blank_exists(given: Set<(int, int)>, r: int, c: int, r2: int, c2: int)
    requires
        in_grid(r, c),
        in_grid(r2, c2),
        raster(r2, c2) < raster(r, c),
        !given.contains((r2, c2)),
    ensures
        retreat_target(given, r, c) is Some,
    decreases raster(r, c) - raster(r2, c2),
{
    if exists|r3: int, c3: int|
        in_grid(r3, c3) && raster(r2, c2) < raster(r3, c3) < raster(r, c) && !given.contains((r3, c3)) {
        let (r3, c3) = choose|r3: int, c3: int|
            in_grid(r3, c3) && raster(r2, c2) < raster(r3, c3) < raster(r, c) && !given.contains(
                (r3, c3),
            );
        nearest_blank_exists(given, r, c, r3, c3);
    } else {
        assert(crate::state::is_nearest_blank_before(given, r, c, (r2, c2)));
    }
}

/// A transition that walks the digits in ascending order takes the search
/// beyond no solution that it had not gone beyond before.
pub proof fn ascending_step_not_beyond(s: SolverState, f: Board)
    requires
        s.inv(),
        is_solution(s.puzzle(), f),
        s.keeps_open(f),
        s.not_beyond(f),
    ensures
        s.step(ascending()).not_beyond(f),
{
    let order = ascending();
    let n = s.step(order);
    let (r, c) = s.cursor;
    let p = s.position();
    if s.state != GAME_STATE::InProgress {
    } else if !s.backtrack {
        if r <= 8 && !s.given.contains((r, c)) {
            ascending_candidate_is_least(s.visited[(r, c)], s.grid, r, c);
            if let Some(v) = first_candidate(order, s.visited[(r, c)], s.grid, r, c) {
                assert forall|k: int| k <= p implies same_before(f, n.grid, k) == same_before(
                    f,
                    s.grid,
                    k,
                ) by {
                    same_before_untouched(f, s.grid, r, c, v, k);
                }
                if same_before(f, s.grid, p) {
                    value_of_solution_is_valid(s, f);
                    if f[r][c] < v {
                        assert(!is_candidate(s.visited[(r, c)], s.grid, r, c, f[r][c]));
                    }
                }
            }
        }
    } else {
        retreat_target_is_nearest(s.given, r, c);
        assert forall|k: int| k <= p implies same_before(f, n.grid, k) == same_before(f, s.grid, k) by {
            same_before_untouched(f, s.grid, r, c, 0, k);
        }
    }
}

/// Boards that agree before a position do so whichever is named first.
proof fn same_before_is_symmetric(a: Board, b: Board, k: int)
    requires
        same_before(a, b, k),
    ensures
        same_before(b, a, k),
{
    assert forall|r: int, c: int| in_grid(r, c) && raster(r, c) < k implies #[trigger] b[r][c] == a[r][c] by {}
}

/// The grid of a completed run is a solution of the puzzle.
pub proof fn completed_grid_is_solution(s: SolverState)
    requires
        s.inv(),
        s.state == GAME_STATE::Completed,
    ensures
        is_solution(s.puzzle(), s.grid),
{
    assert(s.settled() == s.grid);
}

/// The grid of a completed run comes first among the solutions that the run
/// has not gone beyond.
pub proof fn completed_grid_is_first(s: SolverState, f: Board)
    requires
        s.inv(),
        s.state == GAME_STATE::Completed,
        is_solution(s.puzzle(), f),
        s.not_beyond(f),
    ensures
        lex_le(s.grid, f),
{
    solution_holds_givens(s, f);
    assert forall|r: int, c: int| in_grid(r, c) && same_before(s.grid, f, raster(r, c)) implies #[trigger] s.grid[r][c]
        <= f[r][c] by {
        same_before_is_symmetric(s.grid, f, raster(r, c));
    }
}

/// Boards of which each comes before the other in lexicographic order hold
/// the same values in all cells before any position.
proof fn lex_le_both_ways(a: Board, b: Board, k: int)
    requires
        lex_le(a, b),
        lex_le(b, a),
        0 <= k <= 81,
    ensures
        same_before(a, b, k),
    decreases k,
{
    if k > 0 {
        lex_le_both_ways(a, b, k - 1);
        same_before_is_symmetric(a, b, k - 1);
        assert forall|r: int, c: int| in_grid(r, c) && raster(r, c) < k implies #[trigger] a[r][c] == b[r][c] by {}
    }
}

/// A puzzle has at most one least solution.
pub proof fn least_solution_is_unique(puzzle: Board, a: Board, b: Board)
    requires
        is_least_solution(puzzle, a),
        is_least_solution(puzzle, b),
    ensures
        a == b,
{
    lex_le_both_ways(a, b, 81);
    assert(a =~~= b);
}

} // verus!
