//! The step engine: a solver that advances by one decision per call.

use vstd::prelude::*;
use crate::candidate::{
    ascending_is_permutation, ascending_order, candidate_from_is_first, digits_of,
    get_unvisited_coord, random_order,
};
use crate::grid::{
    get_next_index, get_previous_index, grid_view, in_grid, raster, set_cell, values_of, Grid,
};
use crate::soundness::{
    initial_state_inv, nearest_blank_is_unique, retreat_target_is_nearest, step_keeps_givens,
    step_keeps_inv,
};
use crate::state::{retreat_target, CellKind, SolverState, GAME_STATE};
use crate::validator::is_digit_permutation;

verus! {

/// The cells that a table of flags marks.
pub open spec fn given_view(flags: [[bool; 9]; 9]) -> Set<(int, int)> {
    Set::new(|rc: (int, int)| in_grid(rc.0, rc.1) && flags[rc.0][rc.1])
}

/// For each cell that is not given, the digits that its nine flags mark.
pub open spec fn visited_view(flags: [[[bool; 9]; 9]; 9], given: Set<(int, int)>) -> Map<
    (int, int),
    Set<int>,
> {
    Map::new(
        |rc: (int, int)| in_grid(rc.0, rc.1) && !given.contains(rc),
        |rc: (int, int)| digits_of(flags[rc.0][rc.1]),
    )
}

/// A run of the solver on one puzzle.
///
/// The fields are private, and the invariant of the state machine holds of
/// every value of this type: no caller can bring a solver into a state that
/// the invariant rules out.
pub struct SudokuSolver {
    grid: Grid,
    completed_cell_coord: [[bool; 9]; 9],
    visited: [[[bool; 9]; 9]; 9],
    current_grid_index: (i32, i32),
    is_backtrack: bool,
    current_state: GAME_STATE,
}

impl View for SudokuSolver {
    type V = SolverState;

    closed spec fn view(&self) -> SolverState {
        SolverState {
            grid: grid_view(self.grid),
            given: given_view(self.completed_cell_coord),
            visited: visited_view(self.visited, given_view(self.completed_cell_coord)),
            cursor: (self.current_grid_index.0 as int, self.current_grid_index.1 as int),
            backtrack: self.is_backtrack,
            state: self.current_state,
        }
    }
}

/// Flags that mark no digit at any cell.
fn nothing_tried() -> (flags: [[[bool; 9]; 9]; 9])
    ensures
        forall|r: int, c: int| in_grid(r, c) ==> #[trigger] digits_of(flags[r][c]) == Set::<int>::empty(),
{
    let flags: [[[bool; 9]; 9]; 9] = [[[false; 9]; 9]; 9];
    assert forall|r: int, c: int| in_grid(r, c) implies #[trigger] digits_of(flags[r][c]) =~= Set::<
        int,
    >::empty() by {}
    flags
}

/// Records the digit `v` as tried at the cell `(r, c)`.
fn mark_tried(flags: &mut [[[bool; 9]; 9]; 9], r: usize, c: usize, v: i32)
    requires
        r < 9,
        c < 9,
        1 <= v <= 9,
    ensures
        digits_of(final(flags)[r as int][c as int]) == digits_of(old(flags)[r as int][c as int]).insert(
            v as int,
        ),
        forall|r2: int, c2: int|
            in_grid(r2, c2) && (r2, c2) != (r as int, c as int) ==> #[trigger] final(flags)[r2][c2]
                == old(flags)[r2][c2],
{
    flags[r][c][(v - 1) as usize] = true;
    assert(digits_of(flags[r as int][c as int]) =~= digits_of(old(flags)[r as int][c as int]).insert(
        v as int,
    ));
}

/// Forgets what was tried at the cell `(r, c)`.
fn forget_tried(flags: &mut [[[bool; 9]; 9]; 9], r: usize, c: usize)
    requires
        r < 9,
        c < 9,
    ensures
        digits_of(final(flags)[r as int][c as int]) == Set::<int>::empty(),
        forall|r2: int, c2: int|
            in_grid(r2, c2) && (r2, c2) != (r as int, c as int) ==> #[trigger] final(flags)[r2][c2]
                == old(flags)[r2][c2],
{
    flags[r][c] = [false; 9];
}

/// The nearest cell before `(i, j)` in raster order whose flag is not raised.
fn nearest_blank_before(flags: &[[bool; 9]; 9], i: i32, j: i32) -> (target: Option<(i32, i32)>)
    requires
        in_grid(i as int, j as int),
    ensures
        retreat_target(given_view(*flags), i as int, j as int) == match target {
            Some(t) => Some((t.0 as int, t.1 as int)),
            None => None::<(int, int)>,
        },
{
    let ghost given = given_view(*flags);
    let mut cur: (i32, i32) = (i, j);
    while cur.0 != 0 || cur.1 != 0
        invariant
            in_grid(cur.0 as int, cur.1 as int),
            in_grid(i as int, j as int),
            given == given_view(*flags),
            raster(cur.0 as int, cur.1 as int) <= raster(i as int, j as int),
            forall|r2: int, c2: int|
                in_grid(r2, c2) && raster(cur.0 as int, cur.1 as int) <= raster(r2, c2) < raster(
                    i as int,
                    j as int,
                ) ==> #[trigger] given.contains((r2, c2)),
        decreases raster(cur.0 as int, cur.1 as int),
    {
        cur = get_previous_index(cur.0, cur.1);
        if !flags[cur.0 as usize][cur.1 as usize] {
            proof {
                let t = (cur.0 as int, cur.1 as int);
                retreat_target_is_nearest(given, i as int, j as int);
                nearest_blank_is_unique(
                    given,
                    i as int,
                    j as int,
                    t,
                    retreat_target(given, i as int, j as int).unwrap(),
                );
            }
            return Some(cur);
        }
    }
    None
}

impl SudokuSolver {
    /// The invariant of the state machine holds of the state that the solver
    /// is in.
    #[verifier::type_invariant]
    pub open spec fn inv(self) -> bool {
        self@.inv()
    }

    /// Starts a run on the puzzle `g`: the cells of `g` that hold a value are
    /// the given ones.
    ///
    /// The puzzle is taken as it is. Given values that clash, or that are no
    /// digits, are not turned away: the run on such a puzzle ends like any
    /// other, failed where the clash is in the way of an empty cell.
    pub fn new(g: &Grid) -> (solver: Self)
        ensures
            solver@ == SolverState::initial(grid_view(*g)),
    {
        let ghost puzzle = grid_view(*g);
        let mut given: [[bool; 9]; 9] = [[false; 9]; 9];
        let mut i: usize = 0;
        while i < 9
            invariant
                i <= 9,
                puzzle == grid_view(*g),
                forall|r: int, c: int|
                    0 <= r < i && 0 <= c < 9 ==> #[trigger] given[r][c] == (puzzle[r][c] != 0),
            decreases 9 - i,
        {
            let mut j: usize = 0;
            while j < 9
                invariant
                    i < 9,
                    j <= 9,
                    puzzle == grid_view(*g),
                    forall|r: int, c: int|
                        0 <= r < i && 0 <= c < 9 ==> #[trigger] given[r][c] == (puzzle[r][c] != 0),
                    forall|c: int| 0 <= c < j ==> #[trigger] given[i as int][c] == (puzzle[i as int][c] != 0),
                decreases 9 - j,
            {
                given[i][j] = g[i][j] != 0;
                j += 1;
            }
            i += 1;
        }
        let solver = SudokuSolver {
            grid: *g,
            completed_cell_coord: given,
            visited: nothing_tried(),
            current_grid_index: (0, 0),
            is_backtrack: false,
            current_state: GAME_STATE::InProgress,
        };
        proof {
            initial_state_inv(puzzle);
            assert(solver@.given =~= SolverState::initial(puzzle).given);
            assert(solver@.visited =~~= SolverState::initial(puzzle).visited);
        }
        solver
    }

    /// The grid as it stands.
    pub fn grid(&self) -> (g: &Grid)
        ensures
            grid_view(*g) == self@.grid,
    {
        &self.grid
    }

    /// The cell under the cursor, or `(9, 0)` once the walk has passed the
    /// last cell.
    pub fn current_grid_index(&self) -> (cursor: (i32, i32))
        ensures
            (cursor.0 as int, cursor.1 as int) == self@.cursor,
            in_grid(cursor.0 as int, cursor.1 as int) || cursor == (9i32, 0i32),
    {
        proof {
            use_type_invariant(self);
        }
        self.current_grid_index
    }

    /// Whether the solver is backing out of the cell under the cursor.
    pub fn is_backtrack(&self) -> (b: bool)
        ensures
            b == self@.backtrack,
    {
        self.is_backtrack
    }

    /// Whether the run goes on, and how it ended if it does not.
    pub fn current_state(&self) -> (state: GAME_STATE)
        ensures
            state == self@.state,
    {
        self.current_state
    }

    /// Whether `(i, j)` is a cell that the puzzle filled in.
    pub fn is_completed_coord(&self, i: i32, j: i32) -> (b: bool)
        ensures
            b == self@.given.contains((i as int, j as int)),
    {
        0 <= i && i < 9 && 0 <= j && j < 9 && self.completed_cell_coord[i as usize][j as usize]
    }

    /// Whether the cursor stands on `(i, j)`.
    pub fn is_active_coord(&self, i: i32, j: i32) -> (b: bool)
        ensures
            b == (self@.cursor == (i as int, j as int)),
    {
        self.current_grid_index.0 == i && self.current_grid_index.1 == j
    }

    /// Whether the next step chooses a digit: the run goes on and the solver
    /// moves forward onto a cell that the puzzle left empty.
    pub fn is_choosing(&self) -> (b: bool)
        ensures
            b == (self@.state == GAME_STATE::InProgress && !self@.backtrack && self@.at_blank()),
    {
        let (i, j) = self.current_grid_index;
        match self.current_state {
            GAME_STATE::InProgress => !self.is_backtrack && 0 <= i && i < 9 && 0 <= j && j < 9
                && !self.completed_cell_coord[i as usize][j as usize],
            _ => false,
        }
    }

    /// How the cell `(i, j)` is to be shown.
    pub fn cell_kind(&self, i: i32, j: i32) -> (kind: CellKind)
        ensures
            kind == self@.kind_of(i as int, j as int),
    {
        if self.is_active_coord(i, j) {
            CellKind::Cursor
        } else if self.is_completed_coord(i, j) {
            CellKind::Given
        } else if 0 <= i && i < 9 && 0 <= j && j < 9 && self.grid[i as usize][j as usize] != 0 {
            CellKind::Filled
        } else {
            CellKind::Empty
        }
    }

    /// Whether the digit `n` is recorded as tried at `(i, j)`, a cell that the
    /// puzzle left empty.
    pub fn is_visited(&self, i: i32, j: i32, n: i32) -> (b: bool)
        ensures
            b == (self@.is_blank(i as int, j as int) && self@.visited[(i as int, j as int)].contains(
                n as int,
            )),
    {
        0 <= i && i < 9 && 0 <= j && j < 9 && 1 <= n && n <= 9
            && !self.completed_cell_coord[i as usize][j as usize]
            && self.visited[i as usize][j as usize][(n - 1) as usize]
    }

    /// Takes one step, walking the digits in the given order when the step
    /// has to choose a digit.
    ///
    /// The entries of `order` that are no digits from 1 to 9 are passed over. A
    /// digit that `order` does not hold is never proposed: for the search to
    /// be exhaustive `order` has to hold each digit.
    pub fn iterate_with(&mut self, order: &[i32; 9])
        ensures
            final(self)@ == old(self)@.step(values_of(*order)),
            final(self)@.given == old(self)@.given,
            forall|r: int, c: int|
                old(self)@.given.contains((r, c)) ==> #[trigger] final(self)@.grid[r][c] == old(
                    self,
                )@.grid[r][c],
    {
        let ghost before = self@;
        let ghost after = before.step(values_of(*order));
        proof {
            use_type_invariant(&*self);
            step_keeps_inv(before, values_of(*order));
            step_keeps_givens(before, values_of(*order));
        }
        match self.current_state {
            GAME_STATE::InProgress => {},
            _ => {
                return ;
            },
        }
        let c_i: i32 = self.current_grid_index.0;
        let c_j: i32 = self.current_grid_index.1;
        if !self.is_backtrack {
            if c_i > 8 {
                self.current_state = GAME_STATE::Completed;
                return ;
            }
            let r: usize = c_i as usize;
            let c: usize = c_j as usize;
            if self.completed_cell_coord[r][c] {
                self.current_grid_index = get_next_index(c_i, c_j);
                return ;
            }
            match get_unvisited_coord(&self.visited[r][c], c_i, c_j, &self.grid, order) {
                None => {
                    self.is_backtrack = true;
                },
                Some(coordinate) => {
                    proof {
                        candidate_from_is_first(
                            values_of(*order),
                            0,
                            before.visited[(c_i as int, c_j as int)],
                            before.grid,
                            c_i as int,
                            c_j as int,
                        );
                    }
                    let mut grid: Grid = self.grid;
                    set_cell(&mut grid, r, c, coordinate);
                    let mut visited: [[[bool; 9]; 9]; 9] = self.visited;
                    mark_tried(&mut visited, r, c, coordinate);
                    assert(visited_view(visited, before.given) =~~= after.visited);
                    *self = SudokuSolver {
                        grid,
                        completed_cell_coord: self.completed_cell_coord,
                        visited,
                        current_grid_index: get_next_index(c_i, c_j),
                        is_backtrack: self.is_backtrack,
                        current_state: self.current_state,
                    };
                },
            }
            return ;
        }
        let r: usize = c_i as usize;
        let c: usize = c_j as usize;
        let mut grid: Grid = self.grid;
        set_cell(&mut grid, r, c, 0);
        let mut visited: [[[bool; 9]; 9]; 9] = self.visited;
        forget_tried(&mut visited, r, c);
        let ghost cleared_visited = visited_view(visited, before.given);
        assert(cleared_visited =~~= before.visited.insert(before.cursor, Set::empty()));
        match nearest_blank_before(&self.completed_cell_coord, c_i, c_j) {
            None => {
                *self = SudokuSolver {
                    grid,
                    completed_cell_coord: self.completed_cell_coord,
                    visited,
                    current_grid_index: self.current_grid_index,
                    is_backtrack: self.is_backtrack,
                    current_state: GAME_STATE::Failed,
                };
            },
            Some(target) => {
                *self = SudokuSolver {
                    grid,
                    completed_cell_coord: self.completed_cell_coord,
                    visited,
                    current_grid_index: target,
                    is_backtrack: false,
                    current_state: self.current_state,
                };
            },
        }
    }

    /// Takes one step, trying the digits in an order drawn at random when the
    /// step has to choose a digit. No order is drawn for a step that chooses
    /// none.
    ///
    /// Whatever order is drawn, the step is the transition of the state
    /// machine for some permutation of the digits, and it leaves the given
    /// cells as they are.
    pub fn iterate(&mut self)
        ensures
            exists|order: Seq<int>|
                is_digit_permutation(order) && final(self)@ == #[trigger] old(self)@.step(order),
            final(self)@.given == old(self)@.given,
            forall|r: int, c: int|
                old(self)@.given.contains((r, c)) ==> #[trigger] final(self)@.grid[r][c] == old(
                    self,
                )@.grid[r][c],
    {
        let order = if self.is_choosing() {
            random_order()
        } else {
            ascending_order()
        };
        proof {
            ascending_is_permutation();
        }
        self.iterate_with(&order);
    }
}

} // verus!
