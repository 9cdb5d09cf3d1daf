use sudoku_solver::grid::{get_next_index, get_previous_index, set_cell};
use sudoku_solver::Grid;

#[test]
fn next_moves_one_column_right() {
    assert_eq!(get_next_index(0, 0), (0, 1));
    assert_eq!(get_next_index(4, 3), (4, 4));
    assert_eq!(get_next_index(8, 7), (8, 8));
}

#[test]
fn next_wraps_to_the_following_row() {
    assert_eq!(get_next_index(0, 8), (1, 0));
    assert_eq!(get_next_index(7, 8), (8, 0));
}

#[test]
fn next_of_the_last_cell_leaves_the_grid() {
    assert_eq!(get_next_index(8, 8), (9, 0));
}

#[test]
fn previous_moves_one_column_left() {
    assert_eq!(get_previous_index(0, 1), (0, 0));
    assert_eq!(get_previous_index(4, 4), (4, 3));
    assert_eq!(get_previous_index(8, 8), (8, 7));
}

#[test]
fn previous_wraps_to_the_row_above() {
    assert_eq!(get_previous_index(1, 0), (0, 8));
    assert_eq!(get_previous_index(8, 0), (7, 8));
}

#[test]
fn next_and_previous_undo_each_other() {
    for i in 0..9 {
        for j in 0..9 {
            if (i, j) != (8, 8) {
                let (ni, nj) = get_next_index(i, j);
                assert_eq!(get_previous_index(ni, nj), (i, j));
            }
            if (i, j) != (0, 0) {
                let (pi, pj) = get_previous_index(i, j);
                assert_eq!(get_next_index(pi, pj), (i, j));
            }
        }
    }
}

#[test]
fn raster_walk_visits_every_cell_once() {
    let mut seen = [[false; 9]; 9];
    let mut cell = (0, 0);
    let mut count = 0;
    while cell != (9, 0) {
        assert!(!seen[cell.0 as usize][cell.1 as usize]);
        seen[cell.0 as usize][cell.1 as usize] = true;
        count += 1;
        cell = get_next_index(cell.0, cell.1);
    }
    assert_eq!(count, 81);
}

#[test]
fn set_cell_changes_one_cell() {
    let mut g: Grid = [[0; 9]; 9];
    g[2][3] = 4;
    set_cell(&mut g, 5, 6, 7);
    for i in 0..9 {
        for j in 0..9 {
            let expected = if (i, j) == (5, 6) {
                7
            } else if (i, j) == (2, 3) {
                4
            } else {
                0
            };
            assert_eq!(g[i][j], expected);
        }
    }
    set_cell(&mut g, 5, 6, 0);
    assert_eq!(g[5][6], 0);
}
