use sudoku_solver::candidate::ascending_order;
use sudoku_solver::validator::is_board_valid;
use sudoku_solver::{CellKind, Grid, SudokuSolver, GAME_STATE};

fn example() -> Grid {
    [
        [2, 0, 0, 5, 0, 3, 0, 0, 0],
        [8, 0, 7, 0, 2, 0, 0, 0, 0],
        [0, 0, 0, 0, 7, 0, 0, 0, 6],
        [0, 0, 5, 2, 0, 7, 6, 1, 0],
        [0, 2, 1, 6, 0, 5, 3, 0, 7],
        [3, 7, 0, 0, 0, 8, 0, 0, 0],
        [0, 0, 8, 0, 0, 0, 0, 4, 0],
        [6, 0, 2, 4, 8, 0, 0, 0, 0],
        [0, 9, 0, 7, 5, 2, 8, 6, 0],
    ]
}

fn example_solved() -> Grid {
    [
        [2, 1, 9, 5, 6, 3, 4, 7, 8],
        [8, 6, 7, 9, 2, 4, 1, 3, 5],
        [5, 4, 3, 8, 7, 1, 2, 9, 6],
        [4, 8, 5, 2, 3, 7, 6, 1, 9],
        [9, 2, 1, 6, 4, 5, 3, 8, 7],
        [3, 7, 6, 1, 9, 8, 5, 2, 4],
        [7, 5, 8, 3, 1, 6, 9, 4, 2],
        [6, 3, 2, 4, 8, 9, 7, 5, 1],
        [1, 9, 4, 7, 5, 2, 8, 6, 3],
    ]
}

/// Two empty cells at the start of the first row, of which the second can
/// only hold 1: the digit that ascending order writes into the first.
fn forcing_a_retreat() -> Grid {
    let mut g: Grid = [[0; 9]; 9];
    g[0] = [0, 0, 3, 4, 5, 6, 7, 8, 9];
    g[5][1] = 2;
    g
}

#[test]
fn new_solver_stands_on_the_first_cell() {
    let solver = SudokuSolver::new(&example());
    assert_eq!(solver.current_grid_index(), (0, 0));
    assert!(!solver.is_backtrack());
    assert_eq!(solver.current_state(), GAME_STATE::InProgress);
    assert_eq!(*solver.grid(), example());
}

#[test]
fn new_solver_has_tried_nothing() {
    let solver = SudokuSolver::new(&example());
    for i in 0..9 {
        for j in 0..9 {
            for n in 1..=9 {
                assert!(!solver.is_visited(i, j, n));
            }
        }
    }
}

#[test]
fn given_cells_are_the_filled_cells_of_the_puzzle() {
    let g = example();
    let solver = SudokuSolver::new(&g);
    for i in 0..9 {
        for j in 0..9 {
            assert_eq!(solver.is_completed_coord(i, j), g[i as usize][j as usize] != 0);
        }
    }
}

#[test]
fn no_cell_outside_the_grid_is_given() {
    let solver = SudokuSolver::new(&example());
    assert!(!solver.is_completed_coord(-1, 0));
    assert!(!solver.is_completed_coord(0, -1));
    assert!(!solver.is_completed_coord(9, 0));
    assert!(!solver.is_completed_coord(0, 9));
    assert!(!solver.is_completed_coord(0, 10));
    assert!(!solver.is_completed_coord(100, 100));
}

#[test]
fn active_cell_is_the_cell_under_the_cursor() {
    let mut solver = SudokuSolver::new(&example());
    assert!(solver.is_active_coord(0, 0));
    assert!(!solver.is_active_coord(0, 1));
    solver.iterate_with(&ascending_order());
    assert!(!solver.is_active_coord(0, 0));
    assert!(solver.is_active_coord(0, 1));
}

#[test]
fn forward_step_steps_over_a_given_cell() {
    let mut solver = SudokuSolver::new(&example());
    solver.iterate_with(&ascending_order());
    assert_eq!(solver.current_grid_index(), (0, 1));
    assert!(!solver.is_backtrack());
    assert_eq!(solver.current_state(), GAME_STATE::InProgress);
    assert_eq!(*solver.grid(), example());
}

#[test]
fn forward_step_writes_the_first_candidate() {
    let mut solver = SudokuSolver::new(&example());
    solver.iterate_with(&ascending_order());
    solver.iterate_with(&ascending_order());
    let mut expected = example();
    expected[0][1] = 1;
    assert_eq!(*solver.grid(), expected);
    assert_eq!(solver.current_grid_index(), (0, 2));
    assert!(solver.is_visited(0, 1, 1));
    assert!(!solver.is_visited(0, 1, 2));
    assert!(!solver.is_backtrack());
}

#[test]
fn forward_step_follows_the_given_order() {
    let g: Grid = [[0; 9]; 9];
    let mut solver = SudokuSolver::new(&g);
    solver.iterate_with(&[9, 8, 7, 6, 5, 4, 3, 2, 1]);
    assert_eq!(solver.grid()[0][0], 9);
    solver.iterate_with(&[9, 8, 7, 6, 5, 4, 3, 2, 1]);
    assert_eq!(solver.grid()[0][1], 8);
    assert_eq!(solver.current_grid_index(), (0, 2));
}

#[test]
fn cell_without_candidate_turns_the_solver_round() {
    let mut solver = SudokuSolver::new(&forcing_a_retreat());
    let order = ascending_order();
    solver.iterate_with(&order);
    assert_eq!(solver.grid()[0][0], 1);
    assert_eq!(solver.current_grid_index(), (0, 1));
    solver.iterate_with(&order);
    assert!(solver.is_backtrack());
    assert_eq!(solver.current_grid_index(), (0, 1));
    assert_eq!(solver.current_state(), GAME_STATE::InProgress);
    assert_eq!(solver.grid()[0][0], 1);
    assert_eq!(solver.grid()[0][1], 0);
}

#[test]
fn backtrack_step_retreats_and_the_search_resumes() {
    let mut solver = SudokuSolver::new(&forcing_a_retreat());
    let order = ascending_order();
    solver.iterate_with(&order);
    solver.iterate_with(&order);
    solver.iterate_with(&order);
    assert!(!solver.is_backtrack());
    assert_eq!(solver.current_grid_index(), (0, 0));
    assert_eq!(solver.grid()[0][0], 1);
    assert!(solver.is_visited(0, 0, 1));
    solver.iterate_with(&order);
    assert_eq!(solver.grid()[0][0], 2);
    assert!(solver.is_visited(0, 0, 1));
    assert!(solver.is_visited(0, 0, 2));
    assert_eq!(solver.current_grid_index(), (0, 1));
    solver.iterate_with(&order);
    assert_eq!(solver.grid()[0][1], 1);
    assert_eq!(solver.current_grid_index(), (0, 2));
}

#[test]
fn backtrack_step_clears_the_cell_and_skips_given_cells() {
    let mut g: Grid = [[0; 9]; 9];
    g[0] = [0, 4, 5, 0, 3, 6, 7, 8, 9];
    g[5][3] = 2;
    let mut solver = SudokuSolver::new(&g);
    let order = ascending_order();
    for _ in 0..3 {
        solver.iterate_with(&order);
    }
    assert_eq!(solver.grid()[0][0], 1);
    assert_eq!(solver.current_grid_index(), (0, 3));
    assert!(!solver.is_backtrack());
    solver.iterate_with(&order);
    assert!(solver.is_backtrack());
    assert_eq!(solver.current_grid_index(), (0, 3));
    solver.iterate_with(&order);
    assert!(!solver.is_backtrack());
    assert_eq!(solver.current_grid_index(), (0, 0));
    assert_eq!(solver.grid()[0][3], 0);
    for n in 1..=9 {
        assert!(!solver.is_visited(0, 3, n));
    }
    assert_eq!(solver.grid()[0][1], 4);
    assert_eq!(solver.grid()[0][2], 5);
    assert_eq!(solver.current_state(), GAME_STATE::InProgress);
}

#[test]
fn tenth_digit_is_never_asked_for() {
    let mut solver = SudokuSolver::new(&example());
    let order = ascending_order();
    let mut steps = 0;
    while solver.current_state() == GAME_STATE::InProgress {
        solver.iterate_with(&order);
        steps += 1;
        let (i, j) = solver.current_grid_index();
        let mut tried = 0;
        for n in -3..=13 {
            if solver.is_visited(i, j, n) {
                assert!(1 <= n && n <= 9);
                tried += 1;
            }
        }
        assert!(tried <= 9);
        assert!(steps <= 100000);
    }
}

#[test]
fn run_fails_where_the_first_cell_has_no_candidate() {
    let mut g: Grid = [[0; 9]; 9];
    g[0][1] = 5;
    g[0][2] = 5;
    let mut solver = SudokuSolver::new(&g);
    let order = ascending_order();
    solver.iterate_with(&order);
    assert!(solver.is_backtrack());
    assert_eq!(solver.current_state(), GAME_STATE::InProgress);
    solver.iterate_with(&order);
    assert_eq!(solver.current_state(), GAME_STATE::Failed);
    assert_eq!(solver.current_grid_index(), (0, 0));
    assert_eq!(*solver.grid(), g);
}

#[test]
fn run_fails_where_only_given_cells_lie_before_the_cursor() {
    let mut g: Grid = [[0; 9]; 9];
    g[0][0] = 5;
    g[0][1] = 5;
    let mut solver = SudokuSolver::new(&g);
    let order = ascending_order();
    solver.iterate_with(&order);
    solver.iterate_with(&order);
    assert_eq!(solver.current_grid_index(), (0, 2));
    solver.iterate_with(&order);
    assert!(solver.is_backtrack());
    solver.iterate_with(&order);
    assert_eq!(solver.current_state(), GAME_STATE::Failed);
    assert_eq!(solver.current_grid_index(), (0, 2));
    assert_eq!(*solver.grid(), g);
}

#[test]
fn row_with_two_equal_givens_fails() {
    let mut g: Grid = [[0; 9]; 9];
    g[0][3] = 7;
    g[0][8] = 7;
    g[4][4] = 1;
    let mut solver = SudokuSolver::new(&g);
    let mut steps = 0;
    while solver.current_state() == GAME_STATE::InProgress {
        solver.iterate();
        steps += 1;
        assert!(steps <= 1000);
    }
    assert_eq!(solver.current_state(), GAME_STATE::Failed);
    assert_eq!(*solver.grid(), g);
}

#[test]
fn ended_run_stays_as_it_is() {
    let mut g: Grid = [[0; 9]; 9];
    g[0][1] = 5;
    g[0][2] = 5;
    let mut solver = SudokuSolver::new(&g);
    solver.iterate();
    solver.iterate();
    assert_eq!(solver.current_state(), GAME_STATE::Failed);
    for _ in 0..5 {
        solver.iterate();
        assert_eq!(solver.current_state(), GAME_STATE::Failed);
        assert_eq!(solver.current_grid_index(), (0, 0));
        assert!(solver.is_backtrack());
        assert_eq!(*solver.grid(), g);
    }
    let mut done = SudokuSolver::new(&example_solved());
    for _ in 0..82 {
        done.iterate();
    }
    assert_eq!(done.current_state(), GAME_STATE::Completed);
    for _ in 0..5 {
        done.iterate();
        assert_eq!(done.current_state(), GAME_STATE::Completed);
        assert_eq!(done.current_grid_index(), (9, 0));
        assert_eq!(*done.grid(), example_solved());
    }
}

#[test]
fn puzzle_given_in_full_takes_one_step_per_cell() {
    let mut solver = SudokuSolver::new(&example_solved());
    for k in 0..81 {
        assert_eq!(solver.current_grid_index(), (k / 9, k % 9));
        assert_eq!(solver.current_state(), GAME_STATE::InProgress);
        solver.iterate();
    }
    assert_eq!(solver.current_grid_index(), (9, 0));
    assert_eq!(solver.current_state(), GAME_STATE::InProgress);
    solver.iterate();
    assert_eq!(solver.current_state(), GAME_STATE::Completed);
    assert_eq!(solver.current_grid_index(), (9, 0));
}

#[test]
fn example_is_completed_in_ascending_order() {
    let mut solver = SudokuSolver::new(&example());
    let order = ascending_order();
    let mut steps = 0;
    while solver.current_state() == GAME_STATE::InProgress {
        solver.iterate_with(&order);
        steps += 1;
        assert!(steps <= 100000);
    }
    assert_eq!(solver.current_state(), GAME_STATE::Completed);
    assert_eq!(steps, 14701);
    assert_eq!(*solver.grid(), example_solved());
    assert_eq!(solver.current_grid_index(), (9, 0));
}

#[test]
fn example_is_completed_in_random_order() {
    let g = example();
    let mut solver = SudokuSolver::new(&g);
    let mut steps = 0;
    while solver.current_state() == GAME_STATE::InProgress {
        solver.iterate();
        steps += 1;
        assert!(steps <= 10000000);
    }
    assert_eq!(solver.current_state(), GAME_STATE::Completed);
    assert!(is_board_valid(solver.grid()));
    for i in 0..9 {
        for j in 0..9 {
            if g[i][j] != 0 {
                assert_eq!(solver.grid()[i][j], g[i][j]);
            }
        }
    }
}

#[test]
fn given_cells_are_never_altered() {
    let g = example();
    let mut solver = SudokuSolver::new(&g);
    let mut steps = 0;
    while solver.current_state() == GAME_STATE::InProgress {
        solver.iterate();
        steps += 1;
        for i in 0..9 {
            for j in 0..9 {
                if g[i][j] != 0 {
                    assert_eq!(solver.grid()[i][j], g[i][j]);
                    assert!(solver.is_completed_coord(i as i32, j as i32));
                } else {
                    assert!(!solver.is_completed_coord(i as i32, j as i32));
                }
            }
        }
        assert!(steps <= 10000000);
    }
}

#[test]
fn cursor_stays_in_the_grid_until_the_run_is_completed() {
    let mut solver = SudokuSolver::new(&example());
    let mut steps = 0;
    while solver.current_state() == GAME_STATE::InProgress {
        let (i, j) = solver.current_grid_index();
        assert!((0 <= i && i <= 8 && 0 <= j && j <= 8) || (i, j) == (9, 0));
        if solver.is_backtrack() {
            assert!(!solver.is_completed_coord(i, j));
        }
        solver.iterate();
        steps += 1;
        assert!(steps <= 10000000);
    }
    assert_eq!(solver.current_grid_index(), (9, 0));
}

#[test]
fn digit_is_chosen_only_forward_on_an_empty_cell() {
    let mut solver = SudokuSolver::new(&forcing_a_retreat());
    let order = ascending_order();
    assert!(solver.is_choosing());
    solver.iterate_with(&order);
    assert!(solver.is_choosing());
    solver.iterate_with(&order);
    assert!(solver.is_backtrack());
    assert!(!solver.is_choosing());
    solver.iterate_with(&order);
    assert!(solver.is_choosing());
    solver.iterate_with(&order);
    solver.iterate_with(&order);
    assert_eq!(solver.current_grid_index(), (0, 2));
    assert!(!solver.is_choosing());
    let mut done = SudokuSolver::new(&example_solved());
    for _ in 0..82 {
        assert!(!done.is_choosing());
        done.iterate();
    }
    assert!(!done.is_choosing());
}

#[test]
fn nothing_is_tried_at_given_cells_or_outside_the_grid() {
    let mut solver = SudokuSolver::new(&example());
    let order = ascending_order();
    for _ in 0..200 {
        solver.iterate_with(&order);
    }
    for n in 0..=10 {
        assert!(!solver.is_visited(0, 0, n));
        assert!(!solver.is_visited(-1, 1, n));
        assert!(!solver.is_visited(1, 9, n));
        assert!(!solver.is_visited(9, 0, n));
    }
    assert!(!solver.is_visited(0, 1, 0));
    assert!(!solver.is_visited(0, 1, 10));
    let value = solver.grid()[0][1];
    assert!(solver.is_visited(0, 1, value));
}

#[test]
fn cell_kinds_follow_the_run() {
    let mut solver = SudokuSolver::new(&example());
    assert_eq!(solver.cell_kind(0, 0), CellKind::Cursor);
    assert_eq!(solver.cell_kind(0, 3), CellKind::Given);
    assert_eq!(solver.cell_kind(0, 1), CellKind::Empty);
    solver.iterate_with(&ascending_order());
    solver.iterate_with(&ascending_order());
    assert_eq!(solver.cell_kind(0, 0), CellKind::Given);
    assert_eq!(solver.cell_kind(0, 1), CellKind::Filled);
    assert_eq!(solver.cell_kind(0, 2), CellKind::Cursor);
    assert_eq!(solver.cell_kind(8, 8), CellKind::Empty);
    assert_eq!(solver.cell_kind(-1, 4), CellKind::Empty);
    assert_eq!(solver.cell_kind(9, 0), CellKind::Empty);
}
