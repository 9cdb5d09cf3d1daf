//! What holds of whole runs, whatever the orders in which the digits are
//! tried.

use vstd::prelude::*;
use vstd::set_lib::{lemma_int_range, lemma_len_subset, set_int_range};
use crate::batch::is_outcome;
use crate::candidate::{candidate_from_is_first, first_candidate_is_exhaustive, is_candidate};
use crate::grid::{in_grid, raster, well_shaped, Board};
use crate::measure::{measure_of_running_state, step_lowers_measure};
use crate::search::{
    completed_grid_is_solution, initial_state_keeps_open, nearest_blank_exists, step_keeps_open,
};
use crate::solution::{is_clean, is_solution, is_sudoku, solution_is_sudoku_iff_clean};
use crate::soundness::{
    initial_state_inv, initial_state_puzzle, retreat_target_is_nearest, step_keeps_givens,
    step_keeps_inv,
};
use crate::state::{is_nearest_blank_before, retreat_target, SolverState, GAME_STATE};
use crate::validator::{is_digit_permutation, row_of, valid_cell};

verus! {

/// Every entry is a permutation of the digits.
pub open spec fn are_digit_permutations(orders: Seq<Seq<int>>) -> bool {
    forall|k: int| 0 <= k < orders.len() ==> is_digit_permutation(#[trigger] orders[k])
}

/// However many steps are taken, the given cells stay the given cells and
/// keep their values, and the invariant of the run holds.
pub proof fn run_keeps_givens(s: SolverState, orders: Seq<Seq<int>>)
    requires
        s.inv(),
    ensures
        s.run(orders).inv(),
        s.run(orders).given == s.given,
        forall|r: int, c: int| s.given.contains((r, c)) ==> #[trigger] s.run(orders).grid[r][c] == s.grid[r][c],
        s.run(orders).puzzle() == s.puzzle(),
    decreases orders.len(),
{
    if orders.len() > 0 {
        let before = s.run(orders.drop_last());
        run_keeps_givens(s, orders.drop_last());
        step_keeps_inv(before, orders.last());
        step_keeps_givens(before, orders.last());
    }
}

/// A run that has ended stays as it is: neither end can be left again.
pub proof fn ended_run_stays(s: SolverState, orders: Seq<Seq<int>>)
    requires
        s.state != GAME_STATE::InProgress,
    ensures
        s.run(orders) == s,
    decreases orders.len(),
{
    if orders.len() > 0 {
        ended_run_stays(s, orders.drop_last());
    }
}

/// While a run goes on, each step has used up one unit of the measure.
proof fn run_uses_measure(s: SolverState, orders: Seq<Seq<int>>)
    requires
        s.inv(),
    ensures
        s.run(orders).state == GAME_STATE::InProgress ==> s.run(orders).measure() + orders.len()
            <= s.measure(),
    decreases orders.len(),
{
    if orders.len() > 0 {
        let before = s.run(orders.drop_last());
        run_uses_measure(s, orders.drop_last());
        run_keeps_givens(s, orders.drop_last());
        if before.state == GAME_STATE::InProgress {
            step_lowers_measure(before, orders.last());
        }
    }
}

/// Every run ends: after as many steps as the measure of the state it starts
/// in, whatever the orders, it is completed or has failed.
pub proof fn run_ends(s: SolverState, orders: Seq<Seq<int>>)
    requires
        s.inv(),
        orders.len() >= s.measure(),
    ensures
        s.run(orders).state != GAME_STATE::InProgress,
{
    run_uses_measure(s, orders);
    if s.run(orders).state == GAME_STATE::InProgress {
        measure_of_running_state(s.run(orders));
    }
}

/// A run that is completed has filled the puzzle in: its grid is a solution.
pub proof fn completed_run_is_solution(puzzle: Board, orders: Seq<Seq<int>>)
    requires
        well_shaped(puzzle),
        SolverState::initial(puzzle).run(orders).state == GAME_STATE::Completed,
    ensures
        is_solution(puzzle, SolverState::initial(puzzle).run(orders).grid),
{
    let start = SolverState::initial(puzzle);
    initial_state_inv(puzzle);
    initial_state_puzzle(puzzle);
    run_keeps_givens(start, orders);
    completed_grid_is_solution(start.run(orders));
}

/// A run that walks permutations of the digits keeps every solution of the
/// puzzle open.
proof fn run_keeps_open(puzzle: Board, orders: Seq<Seq<int>>, f: Board)
    requires
        well_shaped(puzzle),
        are_digit_permutations(orders),
        is_solution(puzzle, f),
    ensures
        SolverState::initial(puzzle).run(orders).keeps_open(f),
    decreases orders.len(),
{
    let start = SolverState::initial(puzzle);
    initial_state_inv(puzzle);
    initial_state_puzzle(puzzle);
    if orders.len() == 0 {
        initial_state_keeps_open(puzzle, f);
    } else {
        run_keeps_open(puzzle, orders.drop_last(), f);
        run_keeps_givens(start, orders.drop_last());
        step_keeps_open(start.run(orders.drop_last()), orders.last(), f);
    }
}

/// A run that walks permutations of the digits fails only on a puzzle that
/// has no solution.
pub proof fn failed_run_has_no_solution(puzzle: Board, orders: Seq<Seq<int>>)
    requires
        well_shaped(puzzle),
        are_digit_permutations(orders),
        SolverState::initial(puzzle).run(orders).state == GAME_STATE::Failed,
    ensures
        forall|f: Board| !is_solution(puzzle, f),
{
    assert forall|f: Board| !is_solution(puzzle, f) by {
        if is_solution(puzzle, f) {
            run_keeps_open(puzzle, orders, f);
        }
    }
}

/// A run on a puzzle that has a solution is completed, with a solution in
/// its grid, once it has taken as many steps as the measure of its first
/// state, provided that it walks permutations of the digits.
pub proof fn solvable_puzzle_is_completed(puzzle: Board, orders: Seq<Seq<int>>, f: Board)
    requires
        well_shaped(puzzle),
        is_solution(puzzle, f),
        are_digit_permutations(orders),
        orders.len() >= SolverState::initial(puzzle).measure(),
    ensures
        SolverState::initial(puzzle).run(orders).state == GAME_STATE::Completed,
        is_solution(puzzle, SolverState::initial(puzzle).run(orders).grid),
{
    initial_state_inv(puzzle);
    run_ends(SolverState::initial(puzzle), orders);
    if SolverState::initial(puzzle).run(orders).state == GAME_STATE::Failed {
        failed_run_has_no_solution(puzzle, orders);
    }
    completed_run_is_solution(puzzle, orders);
}

/// A puzzle that gives the same value twice in a row of which it leaves a
/// cell empty has no solution, and every run on it fails, whatever the orders
/// in which the digits are tried.
pub proof fn clash_in_a_row_fails(
    puzzle: Board,
    orders: Seq<Seq<int>>,
    r: int,
    empty: int,
    c1: int,
    c2: int,
)
    requires
        well_shaped(puzzle),
        in_grid(r, empty),
        in_grid(r, c1),
        in_grid(r, c2),
        c1 != c2,
        puzzle[r][empty] == 0,
        puzzle[r][c1] != 0,
        puzzle[r][c1] == puzzle[r][c2],
        orders.len() >= SolverState::initial(puzzle).measure(),
    ensures
        forall|f: Board| !is_solution(puzzle, f),
        SolverState::initial(puzzle).run(orders).state == GAME_STATE::Failed,
{
    assert forall|f: Board| !is_solution(puzzle, f) by {
        if is_solution(puzzle, f) {
            assert(valid_cell(f, r, empty));
            assert(row_of(f, r)[c1] == f[r][c1] && row_of(f, r)[c2] == f[r][c2]);
        }
    }
    initial_state_inv(puzzle);
    run_ends(SolverState::initial(puzzle), orders);
    if SolverState::initial(puzzle).run(orders).state == GAME_STATE::Completed {
        completed_run_is_solution(puzzle, orders);
    }
}

/// What the batch solver returns for a clean puzzle is a finished Sudoku or
/// nothing. For a puzzle that is not clean it returns no Sudoku: what it
/// returns then still holds the clash that the puzzle came with.
pub proof fn outcome_is_sudoku_iff_clean(puzzle: Board, outcome: Option<Board>)
    requires
        is_outcome(puzzle, outcome),
    ensures
        outcome matches Some(f) ==> (is_sudoku(f) <==> is_clean(puzzle)),
{
    if let Some(f) = outcome {
        solution_is_sudoku_iff_clean(puzzle, f);
    }
}

/// At no cell are more than nine values recorded as tried.
pub proof fn visited_has_at_most_nine(s: SolverState, r: int, c: int)
    requires
        s.inv(),
        s.is_blank(r, c),
    ensures
        s.visited[(r, c)].finite(),
        s.visited[(r, c)].len() <= 9,
{
    lemma_int_range(1, 10);
    lemma_len_subset(s.visited[(r, c)], set_int_range(1, 10));
}

/// A cell at which every digit has been tried is given up: the next step
/// turns the solver round, and the step after that empties the cell, forgets
/// what was tried there and retreats to the nearest cell before it that is
/// not given, stepping over the given cells in between. Where no such cell
/// exists the run has failed.
pub proof fn exhausted_cell_is_left(s: SolverState, first: Seq<int>, second: Seq<int>)
    requires
        s.inv(),
        s.state == GAME_STATE::InProgress,
        !s.backtrack,
        s.at_blank(),
        forall|d: int| 1 <= d <= 9 ==> s.visited[s.cursor].contains(d),
    ensures
        s.step(first) == (SolverState { backtrack: true, ..s }),
        s.step(first).step(second).grid[s.cursor.0][s.cursor.1] == 0,
        s.step(first).step(second).visited[s.cursor] == Set::<int>::empty(),
        match retreat_target(s.given, s.cursor.0, s.cursor.1) {
            Some(t) => is_nearest_blank_before(s.given, s.cursor.0, s.cursor.1, t) && s.step(first).step(
                second,
            ).cursor == t && !s.step(first).step(second).backtrack && s.step(first).step(second).state
                == GAME_STATE::InProgress,
            None => s.step(first).step(second).state == GAME_STATE::Failed,
        },
{
    let (r, c) = s.cursor;
    candidate_from_is_first(first, 0, s.visited[(r, c)], s.grid, r, c);
    retreat_target_is_nearest(s.given, r, c);
}

/// A cell that has no candidate left is given up as well, provided that the
/// step walks a permutation of the digits.
pub proof fn cell_without_candidate_is_left(s: SolverState, order: Seq<int>)
    requires
        s.inv(),
        s.state == GAME_STATE::InProgress,
        !s.backtrack,
        s.at_blank(),
        is_digit_permutation(order),
    ensures
        s.step(order).backtrack <==> forall|d: int|
            !#[trigger] is_candidate(s.visited[s.cursor], s.grid, s.cursor.0, s.cursor.1, d),
{
    let (r, c) = s.cursor;
    first_candidate_is_exhaustive(order, s.visited[(r, c)], s.grid, r, c);
}

/// A run fails only when a retreat would lead out of the grid: the solver is
/// backing out of a cell before which every cell is given.
pub proof fn failure_only_at_the_front(s: SolverState, order: Seq<int>)
    requires
        s.inv(),
        s.state == GAME_STATE::InProgress,
        s.step(order).state == GAME_STATE::Failed,
    ensures
        s.backtrack,
        forall|r: int, c: int|
            in_grid(r, c) && raster(r, c) < s.position() ==> #[trigger] s.given.contains((r, c)),
{
    let (cr, cc) = s.cursor;
    retreat_target_is_nearest(s.given, cr, cc);
    assert forall|r: int, c: int| in_grid(r, c) && raster(r, c) < s.position() implies #[trigger] s.given.contains(
        (r, c),
    ) by {
        if !s.given.contains((r, c)) {
            nearest_blank_exists(s.given, cr, cc, r, c);
        }
    }
}

} // verus!
