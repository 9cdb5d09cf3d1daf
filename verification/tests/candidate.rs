use sudoku_solver::candidate::{ascending_order, get_unvisited_coord, random_order};
use sudoku_solver::Grid;

#[test]
fn ascending_order_counts_from_one_to_nine() {
    assert_eq!(ascending_order(), [1, 2, 3, 4, 5, 6, 7, 8, 9]);
}

#[test]
fn random_order_is_a_permutation_of_the_digits() {
    for _ in 0..200 {
        let order = random_order();
        let mut seen = [false; 9];
        for n in order {
            assert!(1 <= n && n <= 9);
            assert!(!seen[(n - 1) as usize]);
            seen[(n - 1) as usize] = true;
        }
        assert_eq!(seen, [true; 9]);
    }
}

#[test]
fn random_order_varies() {
    let mut varied = false;
    for _ in 0..64 {
        if random_order() != ascending_order() {
            varied = true;
        }
    }
    assert!(varied);
}

#[test]
fn first_untried_digit_is_proposed() {
    let g: Grid = [[0; 9]; 9];
    let none = [false; 9];
    assert_eq!(get_unvisited_coord(&none, 0, 0, &g, &ascending_order()), Some(1));
    let mut tried = [false; 9];
    tried[0] = true;
    tried[1] = true;
    assert_eq!(get_unvisited_coord(&tried, 0, 0, &g, &ascending_order()), Some(3));
}

#[test]
fn proposal_follows_the_order() {
    let g: Grid = [[0; 9]; 9];
    let none = [false; 9];
    let order = [7, 3, 9, 1, 2, 4, 5, 6, 8];
    assert_eq!(get_unvisited_coord(&none, 4, 4, &g, &order), Some(7));
    let mut tried = [false; 9];
    tried[6] = true;
    assert_eq!(get_unvisited_coord(&tried, 4, 4, &g, &order), Some(3));
}

#[test]
fn clashing_digits_are_passed_over() {
    let mut g: Grid = [[0; 9]; 9];
    g[0][5] = 1;
    g[6][0] = 2;
    g[1][1] = 3;
    let none = [false; 9];
    assert_eq!(get_unvisited_coord(&none, 0, 0, &g, &ascending_order()), Some(4));
    assert_eq!(get_unvisited_coord(&none, 8, 8, &g, &ascending_order()), Some(1));
}

#[test]
fn leftover_value_in_the_cell_does_not_count() {
    let mut g: Grid = [[0; 9]; 9];
    g[3][3] = 1;
    let none = [false; 9];
    assert_eq!(get_unvisited_coord(&none, 3, 3, &g, &ascending_order()), Some(1));
    assert_eq!(g[3][3], 1);
}

#[test]
fn exhausted_cell_has_no_proposal() {
    let g: Grid = [[0; 9]; 9];
    let all = [true; 9];
    assert_eq!(get_unvisited_coord(&all, 0, 0, &g, &ascending_order()), None);
    let mut full: Grid = [[0; 9]; 9];
    full[0] = [0, 1, 2, 3, 4, 5, 6, 7, 8];
    full[1][0] = 9;
    let none = [false; 9];
    assert_eq!(get_unvisited_coord(&none, 0, 0, &full, &ascending_order()), None);
}

#[test]
fn cell_in_a_row_with_a_repeat_has_no_proposal() {
    let mut g: Grid = [[0; 9]; 9];
    g[0][1] = 5;
    g[0][2] = 5;
    let none = [false; 9];
    assert_eq!(get_unvisited_coord(&none, 0, 0, &g, &ascending_order()), None);
    assert_eq!(get_unvisited_coord(&none, 1, 0, &g, &ascending_order()), None);
    assert_eq!(get_unvisited_coord(&none, 3, 0, &g, &ascending_order()), Some(1));
    assert_eq!(get_unvisited_coord(&none, 3, 1, &g, &ascending_order()), Some(1));
    assert_eq!(get_unvisited_coord(&none, 0, 8, &g, &ascending_order()), None);
}

#[test]
fn entries_that_are_no_digits_are_passed_over() {
    let g: Grid = [[0; 9]; 9];
    let none = [false; 9];
    let order = [0, 10, -4, 6, 1, 2, 3, 4, 5];
    assert_eq!(get_unvisited_coord(&none, 0, 0, &g, &order), Some(6));
    let junk = [0, 0, 0, 0, 0, 0, 0, 0, 0];
    assert_eq!(get_unvisited_coord(&none, 0, 0, &g, &junk), None);
}
