//! The batch solver: a whole run in one call.

use vstd::prelude::*;
use crate::candidate::{ascending, ascending_is_permutation, ascending_order};
use crate::grid::{grid_view, grid_view_is_injective, values_of, Board, Grid};
use crate::measure::step_lowers_measure;
use crate::search::{
    ascending_step_not_beyond, completed_grid_is_first, completed_grid_is_solution,
    initial_state_keeps_open, is_least_solution, least_solution_is_unique, lex_le, step_keeps_open,
};
use crate::solution::is_solution;
use crate::solver::SudokuSolver;
use crate::soundness::{initial_state_inv, initial_state_puzzle, step_keeps_givens, step_keeps_inv};
use crate::state::GAME_STATE;

verus! {

/// What solving `puzzle` comes to: its least solution, or nothing when it has
/// no solution.
pub open spec fn is_outcome(puzzle: Board, outcome: Option<Board>) -> bool {
    match outcome {
        Some(f) => is_least_solution(puzzle, f),
        None => forall|f: Board| !is_solution(puzzle, f),
    }
}

/// The board of a grid that may be missing.
pub open spec fn outcome_view(result: Option<Grid>) -> Option<Board> {
    match result {
        Some(f) => Some(grid_view(f)),
        None => None,
    }
}

/// A puzzle has one outcome: solving it twice gives the same.
pub proof fn outcome_is_unique(puzzle: Board, a: Option<Board>, b: Option<Board>)
    requires
        is_outcome(puzzle, a),
        is_outcome(puzzle, b),
    ensures
        a == b,
{
    match (a, b) {
        (Some(x), Some(y)) => {
            least_solution_is_unique(puzzle, x, y);
        },
        _ => {},
    }
}

/// The batch solver is deterministic: whatever it may return for a puzzle is
/// one and the same result.
pub proof fn solve_is_deterministic(g: Grid, a: Option<Grid>, b: Option<Grid>)
    requires
        is_outcome(grid_view(g), outcome_view(a)),
        is_outcome(grid_view(g), outcome_view(b)),
    ensures
        a == b,
{
    outcome_is_unique(grid_view(g), outcome_view(a), outcome_view(b));
    if let (Some(x), Some(y)) = (a, b) {
        grid_view_is_injective(x, y);
    }
}

/// Solves the puzzle `g` by running the state machine to its end, trying the
/// digits in ascending order.
///
/// Returns the solution that comes first in lexicographic order of the cells,
/// or `None` when the puzzle has no solution. The puzzle is taken as it is: a
/// solution keeps every given value, whether it is a digit or not, and is
/// free of repeats in every row, column and box that the puzzle left a cell
/// of empty.
pub fn solve(g: &Grid) -> (result: Option<Grid>)
    ensures
        is_outcome(grid_view(*g), outcome_view(result)),
{
    let ghost puzzle = grid_view(*g);
    let mut solver = SudokuSolver::new(g);
    let order = ascending_order();
    proof {
        initial_state_inv(puzzle);
        initial_state_puzzle(puzzle);
        assert forall|f: Board| #[trigger] is_solution(puzzle, f) implies solver@.keeps_open(f)
            && solver@.not_beyond(f) by {
            initial_state_keeps_open(puzzle, f);
        }
    }
    while solver.current_state() == GAME_STATE::InProgress
        invariant
            values_of(order) == ascending(),
            solver@.inv(),
            solver@.puzzle() == puzzle,
            forall|f: Board| #[trigger]
                is_solution(puzzle, f) ==> solver@.keeps_open(f) && solver@.not_beyond(f),
        decreases solver@.measure(),
    {
        let ghost before = solver@;
        solver.iterate_with(&order);
        proof {
            step_keeps_inv(before, ascending());
            step_keeps_givens(before, ascending());
            step_lowers_measure(before, ascending());
            assert forall|f: Board| #[trigger] is_solution(puzzle, f) implies solver@.keeps_open(f)
                && solver@.not_beyond(f) by {
                ascending_is_permutation();
                step_keeps_open(before, ascending(), f);
                ascending_step_not_beyond(before, f);
            }
        }
    }
    match solver.current_state() {
        GAME_STATE::Completed => {
            proof {
                completed_grid_is_solution(solver@);
                assert forall|f: Board| #[trigger] is_solution(puzzle, f) implies lex_le(solver@.grid, f) by {
                    completed_grid_is_first(solver@, f);
                }
            }
            Some(*solver.grid())
        },
        _ => {
            None
        },
    }
}

} // verus!
