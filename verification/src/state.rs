//! The solving state and its transition function, as mathematics.
//!
//! The solver walks the cells in raster order. Moving forward it skips the
//! cells that the puzzle gave and writes a candidate into each empty one,
//! remembering per cell which digits it has tried. When a cell has no
//! candidate left it backtracks: it clears the cell, forgets what was tried
//! there and retreats to the nearest empty cell before it, where the walk
//! resumes with the next untried digit. The walk ends past the last cell, with
//! the grid filled, or with a retreat that finds no empty cell to go back to.

use vstd::prelude::*;
use crate::candidate::first_candidate;
use crate::grid::{in_grid, next_cell, put, raster, well_shaped, Board};
use crate::validator::valid_cell;

verus! {

/// Whether a run is still under way, and how it ended if it is not.
#[allow(non_camel_case_types)]
#[derive(Clone, Copy, Debug, PartialEq, Eq, Structural)]
pub enum GAME_STATE {
    /// More steps can be taken.
    InProgress,
    /// The walk has passed the last cell: the grid is filled.
    Completed,
    /// The search has backtracked out of the grid: nothing is left to try.
    Failed,
}

/// How a cell presents itself to someone who watches a run.
#[derive(Clone, Copy, Debug, PartialEq, Eq, Structural)]
pub enum CellKind {
    /// The cursor stands on the cell.
    Cursor,
    /// The puzzle gave the cell.
    Given,
    /// The solver has written a digit into the cell.
    Filled,
    /// The cell is empty.
    Empty,
}

/// Everything a run consists of.
pub struct SolverState {
    /// The values of the cells, `0` for an empty one.
    pub grid: Board,
    /// The cells that the puzzle filled in.
    pub given: Set<(int, int)>,
    /// For every cell that is not given, the digits tried there during the
    /// current descent.
    pub visited: Map<(int, int), Set<int>>,
    /// The cell to be decided next, or `(9, 0)` once the walk has passed the
    /// last cell.
    pub cursor: (int, int),
    /// `true` while the solver is backing out of the cell under the cursor.
    pub backtrack: bool,
    /// Whether the run goes on.
    pub state: GAME_STATE,
}

/// `t` is the last cell before `(r, c)` in raster order that the puzzle left
/// empty.
pub open spec fn is_nearest_blank_before(given: Set<(int, int)>, r: int, c: int, t: (int, int)) -> bool {
    &&& in_grid(t.0, t.1)
    &&& !given.contains(t)
    &&& raster(t.0, t.1) < raster(r, c)
    &&& forall|r2: int, c2: int|
        in_grid(r2, c2) && raster(t.0, t.1) < raster(r2, c2) < raster(r, c) ==> #[trigger] given.contains(
            (r2, c2),
        )
}

/// Where backtracking out of `(r, c)` leads: the nearest cell before `(r, c)`
/// that is not given, or nowhere when every cell before `(r, c)` is given.
pub open spec fn retreat_target(given: Set<(int, int)>, r: int, c: int) -> Option<(int, int)> {
    if exists|t: (int, int)| is_nearest_blank_before(given, r, c, t) {
        Some(choose|t: (int, int)| is_nearest_blank_before(given, r, c, t))
    } else {
        None
    }
}

impl SolverState {
    /// The state in which a run on `puzzle` starts: the cells that hold a
    /// value are the given ones, nothing has been tried, and the cursor stands
    /// on the first cell, moving forward.
    pub open spec fn initial(puzzle: Board) -> SolverState {
        SolverState {
            grid: puzzle,
            given: Set::new(|rc: (int, int)| in_grid(rc.0, rc.1) && puzzle[rc.0][rc.1] != 0),
            visited: Map::new(
                |rc: (int, int)| in_grid(rc.0, rc.1) && puzzle[rc.0][rc.1] == 0,
                |rc: (int, int)| Set::<int>::empty(),
            ),
            cursor: (0, 0),
            backtrack: false,
            state: GAME_STATE::InProgress,
        }
    }

    /// `(r, c)` is a cell that the puzzle left empty.
    pub open spec fn is_blank(self, r: int, c: int) -> bool {
        in_grid(r, c) && !self.given.contains((r, c))
    }

    /// The cursor stands on a cell that the puzzle left empty.
    pub open spec fn at_blank(self) -> bool {
        self.is_blank(self.cursor.0, self.cursor.1)
    }

    /// How the cell `(r, c)` presents itself: the cursor comes before a
    /// given value, and a given value before one that the solver wrote.
    pub open spec fn kind_of(self, r: int, c: int) -> CellKind {
        if self.cursor == (r, c) {
            CellKind::Cursor
        } else if self.given.contains((r, c)) {
            CellKind::Given
        } else if in_grid(r, c) && self.grid[r][c] != 0 {
            CellKind::Filled
        } else {
            CellKind::Empty
        }
    }

    /// Raster position of the cursor.
    pub open spec fn position(self) -> int {
        raster(self.cursor.0, self.cursor.1)
    }

    /// The puzzle that the run started from: the given cells with their
    /// values, every other cell empty.
    pub open spec fn puzzle(self) -> Board {
        Seq::new(
            9,
            |r: int|
                Seq::new(
                    9,
                    |c: int|
                        if self.given.contains((r, c)) {
                            self.grid[r][c]
                        } else {
                            0
                        },
                ),
        )
    }

    /// The grid without the value under the cursor, which is still to be
    /// decided when the cursor stands on an empty cell of the puzzle.
    pub open spec fn settled(self) -> Board {
        if self.at_blank() {
            put(self.grid, self.cursor.0, self.cursor.1, 0)
        } else {
            self.grid
        }
    }

    /// One transition. A run that has ended stays as it is. `order` is the
    /// order in which the candidate generator walks the digits.
    ///
    /// Moving forward: past the last cell the run is completed; a given cell
    /// is stepped over; an empty cell receives the first candidate of `order`,
    /// which is recorded as tried, and the cursor advances; a cell without a
    /// candidate turns the solver round, the cursor staying where it is.
    ///
    /// Backtracking: the cell under the cursor is emptied and what was tried
    /// there is forgotten; the cursor retreats to the nearest cell before it
    /// that is not given and the solver moves forward again from there; with
    /// no such cell the run has failed.
    pub open spec fn step(self, order: Seq<int>) -> SolverState {
        let (r, c) = self.cursor;
        if self.state != GAME_STATE::InProgress {
            self
        } else if !self.backtrack {
            if r > 8 {
                SolverState { state: GAME_STATE::Completed, ..self }
            } else if self.given.contains((r, c)) {
                SolverState { cursor: next_cell(r, c), ..self }
            } else {
                match first_candidate(order, self.visited[(r, c)], self.grid, r, c) {
                    Some(v) => SolverState {
                        grid: put(self.grid, r, c, v),
                        visited: self.visited.insert((r, c), self.visited[(r, c)].insert(v)),
                        cursor: next_cell(r, c),
                        ..self
                    },
                    None => SolverState { backtrack: true, ..self },
                }
            }
        } else {
            let cleared = SolverState {
                grid: put(self.grid, r, c, 0),
                visited: self.visited.insert((r, c), Set::empty()),
                ..self
            };
            match retreat_target(self.given, r, c) {
                Some(t) => SolverState { cursor: t, backtrack: false, ..cleared },
                None => SolverState { state: GAME_STATE::Failed, ..cleared },
            }
        }
    }

    /// The state after one transition for each entry of `orders`, the first
    /// entry being the order that the first transition walks.
    pub open spec fn run(self, orders: Seq<Seq<int>>) -> SolverState
        decreases orders.len(),
    {
        if orders.len() == 0 {
            self
        } else {
            self.run(orders.drop_last()).step(orders.last())
        }
    }

    /// The grid has nine rows of nine cells, the cursor stands on a cell or
    /// just past the last one, what was tried is recorded for exactly the
    /// cells that are not given and holds digits only, the solver backtracks
    /// only out of cells that are not given, and a completed run has left the
    /// grid.
    pub open spec fn well_formed(self) -> bool {
        &&& well_shaped(self.grid)
        &&& (in_grid(self.cursor.0, self.cursor.1) || self.cursor == (9int, 0int))
        &&& forall|r: int, c: int| #[trigger] self.given.contains((r, c)) ==> in_grid(r, c)
        &&& forall|rc: (int, int)| #[trigger]
            self.visited.dom().contains(rc) <==> self.is_blank(rc.0, rc.1)
        &&& forall|r: int, c: int, d: int|
            self.is_blank(r, c) && #[trigger] self.visited[(r, c)].contains(d) ==> 1 <= d <= 9
        &&& self.backtrack ==> self.at_blank()
        &&& self.state == GAME_STATE::Completed ==> self.cursor == (9int, 0int) && !self.backtrack
    }

    /// Every given cell holds a value.
    pub open spec fn givens_filled(self) -> bool {
        forall|r: int, c: int| self.given.contains((r, c)) ==> #[trigger] self.grid[r][c] != 0
    }

    /// The cells after the cursor that are not given are empty, and nothing
    /// has been tried there.
    pub open spec fn ahead_untouched(self) -> bool {
        &&& forall|r: int, c: int|
            self.is_blank(r, c) && raster(r, c) > self.position() ==> #[trigger] self.grid[r][c] == 0
        &&& forall|r: int, c: int|
            self.is_blank(r, c) && raster(r, c) > self.position() ==> #[trigger] self.visited[(r, c)]
                == Set::<int>::empty()
    }

    /// Each cell before the cursor that is not given holds a digit, and that
    /// digit is recorded as tried there.
    pub open spec fn behind_placed(self) -> bool {
        &&& forall|r: int, c: int|
            self.is_blank(r, c) && raster(r, c) < self.position() ==> 1 <= #[trigger] self.grid[r][c]
                <= 9
        &&& forall|r: int, c: int|
            self.is_blank(r, c) && raster(r, c) < self.position() ==> (#[trigger] self.visited[(
                r,
                c,
            )]).contains(self.grid[r][c])
    }

    /// Around each cell before the cursor that is not given, the row, the
    /// column and the box hold no digit twice. The value under the cursor,
    /// which may be left over from an earlier descent, does not count.
    pub open spec fn behind_valid(self) -> bool {
        forall|r: int, c: int|
            self.is_blank(r, c) && raster(r, c) < self.position() ==> #[trigger] valid_cell(
                self.settled(),
                r,
                c,
            )
    }

    /// An empty cell of the puzzle under the cursor is empty or holds a digit
    /// that is recorded as tried there.
    pub open spec fn cursor_value_tried(self) -> bool {
        let (r, c) = self.cursor;
        self.at_blank() ==> self.grid[r][c] == 0 || (1 <= self.grid[r][c] <= 9 && self.visited[(
            r,
            c,
        )].contains(self.grid[r][c]))
    }

    /// What holds of every state that a run passes through.
    pub open spec fn inv(self) -> bool {
        &&& self.well_formed()
        &&& self.givens_filled()
        &&& self.ahead_untouched()
        &&& self.behind_placed()
        &&& self.behind_valid()
        &&& self.cursor_value_tried()
    }
}

} // verus!
