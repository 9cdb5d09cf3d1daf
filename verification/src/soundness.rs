//! The invariant of a run holds at the start and after every transition.

use vstd::prelude::*;
use crate::candidate::{candidate_from_is_first, first_candidate, is_candidate};
use crate::grid::{next_cell, put, raster, well_shaped, Board};
use crate::state::{is_nearest_blank_before, retreat_target, SolverState, GAME_STATE};
use crate::validator::{valid_cell, valid_cell_after_put, valid_cell_in_part};

verus! {

/// At most one cell is the nearest empty cell of the puzzle before `(r, c)`.
pub proof fn nearest_blank_is_unique(
    given: Set<(int, int)>,
    r: int,
    c: int,
    t1: (int, int),
    t2: (int, int),
)
    requires
        is_nearest_blank_before(given, r, c, t1),
        is_nearest_blank_before(given, r, c, t2),
    ensures
        t1 == t2,
{
}

/// A retreat leads to the nearest cell before the cursor that is not given,
/// stepping over the given cells in between, and leads nowhere only when
/// there is no such cell.
pub proof fn retreat_target_is_nearest(given: Set<(int, int)>, r: int, c: int)
    ensures
        match retreat_target(given, r, c) {
            Some(t) => is_nearest_blank_before(given, r, c, t),
            None => forall|t: (int, int)| !is_nearest_blank_before(given, r, c, t),
        },
{
}

/// Every run starts in a state of which the invariant holds.
pub proof fn initial_state_inv(puzzle: Board)
    requires
        well_shaped(puzzle),
    ensures
        SolverState::initial(puzzle).inv(),
{
}

/// The puzzle of the state in which a run starts is the puzzle that the run
/// was started on.
pub proof fn initial_state_puzzle(puzzle: Board)
    requires
        well_shaped(puzzle),
    ensures
        SolverState::initial(puzzle).puzzle() == puzzle,
{
    assert(SolverState::initial(puzzle).puzzle() =~~= puzzle);
}

/// Stepping over a given cell keeps the invariant.
proof fn skip_keeps_inv(s: SolverState)
    requires
        s.inv(),
        s.state == GAME_STATE::InProgress,
        !s.backtrack,
        s.cursor.0 <= 8,
        s.given.contains(s.cursor),
    ensures
        (SolverState { cursor: next_cell(s.cursor.0, s.cursor.1), ..s }).inv(),
{
    let n = SolverState { cursor: next_cell(s.cursor.0, s.cursor.1), ..s };
    assert(n.settled() =~~= s.settled());
}

/// Writing a candidate into the cell under the cursor and moving on keeps the
/// invariant.
proof fn assign_keeps_inv(s: SolverState, v: int)
    requires
        s.inv(),
        s.state == GAME_STATE::InProgress,
        !s.backtrack,
        s.at_blank(),
        is_candidate(s.visited[s.cursor], s.grid, s.cursor.0, s.cursor.1, v),
    ensures
        (SolverState {
            grid: put(s.grid, s.cursor.0, s.cursor.1, v),
            visited: s.visited.insert(s.cursor, s.visited[s.cursor].insert(v)),
            cursor: next_cell(s.cursor.0, s.cursor.1),
            ..s
        }).inv(),
{
    let (r, c) = s.cursor;
    let n = SolverState {
        grid: put(s.grid, r, c, v),
        visited: s.visited.insert(s.cursor, s.visited[s.cursor].insert(v)),
        cursor: next_cell(r, c),
        ..s
    };
    assert(n.settled() =~~= n.grid);
    assert(n.grid =~~= put(s.settled(), r, c, v));
    assert forall|r2: int, c2: int|
        n.is_blank(r2, c2) && raster(r2, c2) < n.position() implies #[trigger] valid_cell(
        n.settled(),
        r2,
        c2,
    ) by {
        if (r2, c2) != (r, c) {
            valid_cell_after_put(s.settled(), r, c, v, r2, c2);
        }
    }
}

/// Emptying the cell under the cursor and retreating to the nearest cell
/// before it that is not given keeps the invariant.
proof fn retreat_keeps_inv(s: SolverState, t: (int, int))
    requires
        s.inv(),
        s.state == GAME_STATE::InProgress,
        s.backtrack,
        is_nearest_blank_before(s.given, s.cursor.0, s.cursor.1, t),
    ensures
        (SolverState {
            grid: put(s.grid, s.cursor.0, s.cursor.1, 0),
            visited: s.visited.insert(s.cursor, Set::empty()),
            cursor: t,
            backtrack: false,
            ..s
        }).inv(),
{
    let (r, c) = s.cursor;
    let n = SolverState {
        grid: put(s.grid, r, c, 0),
        visited: s.visited.insert(s.cursor, Set::empty()),
        cursor: t,
        backtrack: false,
        ..s
    };
    assert forall|r2: int, c2: int|
        n.is_blank(r2, c2) && raster(r2, c2) < n.position() implies #[trigger] valid_cell(
        n.settled(),
        r2,
        c2,
    ) by {
        valid_cell_in_part(n.settled(), s.settled(), r2, c2);
    }
}

/// Emptying the cell under the cursor and giving up keeps the invariant.
proof fn fail_keeps_inv(s: SolverState)
    requires
        s.inv(),
        s.state == GAME_STATE::InProgress,
        s.backtrack,
    ensures
        (SolverState {
            grid: put(s.grid, s.cursor.0, s.cursor.1, 0),
            visited: s.visited.insert(s.cursor, Set::empty()),
            state: GAME_STATE::Failed,
            ..s
        }).inv(),
{
    let (r, c) = s.cursor;
    let n = SolverState {
        grid: put(s.grid, r, c, 0),
        visited: s.visited.insert(s.cursor, Set::empty()),
        state: GAME_STATE::Failed,
        ..s
    };
    assert(n.settled() =~~= s.settled());
}

/// Every transition keeps the invariant.
pub proof fn step_keeps_inv(s: SolverState, order: Seq<int>)
    requires
        s.inv(),
    ensures
        s.step(order).inv(),
{
    let (r, c) = s.cursor;
    if s.state != GAME_STATE::InProgress {
    } else if !s.backtrack {
        if r > 8 {
            let n = SolverState { state: GAME_STATE::Completed, ..s };
            assert(n.settled() == s.settled());
        } else if s.given.contains((r, c)) {
            skip_keeps_inv(s);
        } else {
            candidate_from_is_first(order, 0, s.visited[(r, c)], s.grid, r, c);
            match first_candidate(order, s.visited[(r, c)], s.grid, r, c) {
                Some(v) => {
                    assign_keeps_inv(s, v);
                },
                None => {
                    let n = SolverState { backtrack: true, ..s };
                    assert(n.settled() == s.settled());
                },
            }
        }
    } else {
        retreat_target_is_nearest(s.given, r, c);
        match retreat_target(s.given, r, c) {
            Some(t) => {
                retreat_keeps_inv(s, t);
            },
            None => {
                fail_keeps_inv(s);
            },
        }
    }
}

/// No transition adds or removes a given cell or changes the value of one.
pub proof fn step_keeps_givens(s: SolverState, order: Seq<int>)
    requires
        s.inv(),
    ensures
        s.step(order).given == s.given,
        forall|r: int, c: int|
            s.given.contains((r, c)) ==> #[trigger] s.step(order).grid[r][c] == s.grid[r][c],
        s.step(order).puzzle() == s.puzzle(),
{
    assert(s.step(order).puzzle() =~~= s.puzzle());
}

} // verus!
