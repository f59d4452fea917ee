use cde_rust_sudoku::base::{compute_exclude, Ix, NumberSet, Sudoku};
use cde_rust_sudoku::solve::{brute_force, brute_force_with_exclude, SolverResult};

fn from_digits(rows: [[i8; 9]; 9]) -> Sudoku<NumberSet> {
    let mut arr = [[NumberSet::full(); 9]; 9];
    for r in 0..9 {
        for c in 0..9 {
            if rows[r][c] != 0 {
                arr[r][c] = NumberSet::singleton_for(rows[r][c]);
            }
        }
    }
    Sudoku::new(arr)
}

fn cells(grid: &Sudoku<NumberSet>) -> Vec<NumberSet> {
    grid.iter().into_iter().copied().collect()
}

fn digits(grid: &Sudoku<NumberSet>) -> Vec<i8> {
    grid.iter().into_iter().map(|cell| cell.to_digit().unwrap_or(0)).collect()
}

fn flat(rows: [[i8; 9]; 9]) -> Vec<i8> {
    rows.iter().flat_map(|row| row.iter().copied()).collect()
}

const SOLVED: [[i8; 9]; 9] = [
    [7, 8, 2, 9, 5, 3, 4, 1, 6],
    [5, 1, 6, 2, 8, 4, 7, 9, 3],
    [9, 4, 3, 1, 6, 7, 2, 8, 5],
    [2, 9, 4, 7, 3, 6, 1, 5, 8],
    [6, 3, 1, 5, 2, 8, 9, 7, 4],
    [8, 7, 5, 4, 9, 1, 3, 6, 2],
    [1, 5, 7, 8, 4, 2, 6, 3, 9],
    [4, 6, 9, 3, 7, 5, 8, 2, 1],
    [3, 2, 8, 6, 1, 9, 5, 4, 7],
];

const PUZZLE: [[i8; 9]; 9] = [
    [0, 8, 0, 9, 0, 0, 4, 0, 0],
    [5, 0, 6, 0, 8, 0, 7, 9, 0],
    [9, 4, 3, 0, 6, 0, 0, 8, 0],
    [0, 9, 0, 0, 0, 0, 1, 5, 8],
    [6, 0, 0, 5, 2, 8, 0, 0, 4],
    [8, 7, 5, 0, 0, 0, 0, 6, 0],
    [0, 5, 0, 0, 4, 0, 6, 3, 9],
    [0, 6, 9, 0, 7, 0, 8, 0, 1],
    [0, 0, 8, 0, 0, 9, 0, 4, 0],
];

const FIRST_OF_ALL: [[i8; 9]; 9] = [
    [1, 2, 3, 4, 5, 6, 7, 8, 9],
    [4, 5, 6, 7, 8, 9, 1, 2, 3],
    [7, 8, 9, 1, 2, 3, 4, 5, 6],
    [2, 1, 4, 3, 6, 5, 8, 9, 7],
    [3, 6, 5, 8, 9, 7, 2, 1, 4],
    [8, 9, 7, 2, 1, 4, 3, 6, 5],
    [5, 3, 1, 6, 4, 2, 9, 7, 8],
    [6, 4, 2, 9, 7, 8, 5, 3, 1],
    [9, 7, 8, 5, 3, 1, 6, 4, 2],
];

#[test]
fn empty_grid_is_solved_by_plain_search() {
    match brute_force(from_digits([[0; 9]; 9])) {
        SolverResult::Solved(s) => {
            assert!(s.is_solved());
            assert_eq!(digits(&s), flat(FIRST_OF_ALL));
        }
        SolverResult::Contradiction(_) => panic!("the empty grid has solutions"),
    }
}

#[test]
fn empty_grid_is_solved_by_search_with_propagation() {
    match brute_force_with_exclude(from_digits([[0; 9]; 9])) {
        SolverResult::Solved(s) => {
            assert!(s.is_solved());
            assert_eq!(digits(&s), flat(FIRST_OF_ALL));
        }
        SolverResult::Contradiction(_) => panic!("the empty grid has solutions"),
    }
}

#[test]
fn repeated_digit_in_a_row_is_a_contradiction_at_once() {
    let mut rows = [[0i8; 9]; 9];
    rows[2][0] = 4;
    rows[2][6] = 4;
    let grid = from_digits(rows);
    assert!(grid.is_invalid());
    let before = cells(&grid);
    match brute_force(grid) {
        SolverResult::Contradiction(s) => assert_eq!(cells(&s), before),
        SolverResult::Solved(_) => panic!("a digit stands twice in a row"),
    }
    match brute_force_with_exclude(from_digits(rows)) {
        SolverResult::Contradiction(s) => assert!(s.is_invalid()),
        SolverResult::Solved(_) => panic!("a digit stands twice in a row"),
    }
}

#[test]
fn solved_grid_comes_back_unchanged() {
    let before = cells(&from_digits(SOLVED));
    match brute_force(from_digits(SOLVED)) {
        SolverResult::Solved(s) => assert_eq!(cells(&s), before),
        SolverResult::Contradiction(_) => panic!("the grid is solved"),
    }
    match brute_force_with_exclude(from_digits(SOLVED)) {
        SolverResult::Solved(s) => assert_eq!(cells(&s), before),
        SolverResult::Contradiction(_) => panic!("the grid is solved"),
    }
}

#[test]
fn propagation_fills_the_one_blank_cell() {
    let mut rows = SOLVED;
    rows[4][4] = 0;
    let mut grid = from_digits(rows);
    assert!(!grid.is_solved());
    compute_exclude(&mut grid);
    assert_eq!(grid.get(Ix::Ix5, Ix::Ix5).to_digit(), Some(2));
    assert!(grid.is_solved());
    assert_eq!(digits(&grid), flat(SOLVED));
}

#[test]
fn both_searches_solve_the_puzzle_alike() {
    let plain = match brute_force(from_digits(PUZZLE)) {
        SolverResult::Solved(s) => s,
        SolverResult::Contradiction(_) => panic!("the puzzle has a solution"),
    };
    let pruned = match brute_force_with_exclude(from_digits(PUZZLE)) {
        SolverResult::Solved(s) => s,
        SolverResult::Contradiction(_) => panic!("the puzzle has a solution"),
    };
    assert!(plain.is_solved());
    assert_eq!(digits(&plain), flat(SOLVED));
    assert_eq!(cells(&plain), cells(&pruned));
}

#[test]
fn solution_keeps_the_given_digits() {
    let solution = match brute_force_with_exclude(from_digits(PUZZLE)) {
        SolverResult::Solved(s) => s,
        SolverResult::Contradiction(_) => panic!("the puzzle has a solution"),
    };
    let found = digits(&solution);
    let given = flat(PUZZLE);
    for k in 0..81 {
        if given[k] != 0 {
            assert_eq!(found[k], given[k]);
        }
    }
}

/// Row 2 has lost the digit 1: there is no solution, but no cell is empty and no
/// digit stands twice.
fn hidden_contradiction() -> Sudoku<NumberSet> {
    let n = NumberSet::singleton_for;
    let mut grid = from_digits([
        [5, 6, 3, 2, 1, 7, 9, 8, 4],
        [9, 0, 0, 0, 0, 6, 7, 5, 2],
        [2, 4, 7, 9, 8, 5, 1, 3, 6],
        [7, 1, 8, 5, 6, 9, 2, 4, 3],
        [4, 9, 6, 1, 2, 3, 5, 7, 8],
        [3, 2, 5, 4, 7, 8, 6, 9, 1],
        [1, 3, 4, 7, 5, 2, 8, 6, 9],
        [6, 7, 9, 8, 3, 1, 4, 2, 5],
        [8, 5, 2, 6, 9, 4, 3, 1, 7],
    ]);
    *grid.get_mut(Ix::Ix2, Ix::Ix2) = n(8) | n(9);
    *grid.get_mut(Ix::Ix2, Ix::Ix3) = n(8) | n(3) | n(4);
    *grid.get_mut(Ix::Ix2, Ix::Ix4) = n(3) | n(9);
    *grid.get_mut(Ix::Ix2, Ix::Ix5) = n(4) | n(8) | n(9);
    grid
}

#[test]
fn plain_search_hands_an_unsolvable_grid_back_as_it_came() {
    let grid = hidden_contradiction();
    assert!(!grid.is_invalid());
    let before = cells(&grid);
    match brute_force(grid) {
        SolverResult::Contradiction(s) => assert_eq!(cells(&s), before),
        SolverResult::Solved(_) => panic!("row 2 cannot hold the digit 1"),
    }
}

#[test]
fn search_with_propagation_hands_back_the_propagated_grid() {
    let mut propagated = hidden_contradiction();
    compute_exclude(&mut propagated);
    match brute_force_with_exclude(hidden_contradiction()) {
        SolverResult::Contradiction(s) => assert_eq!(cells(&s), cells(&propagated)),
        SolverResult::Solved(_) => panic!("row 2 cannot hold the digit 1"),
    }
}

#[test]
fn search_is_deterministic() {
    let mut rows = [[0i8; 9]; 9];
    rows[0][0] = 9;
    rows[8][8] = 1;
    let first = match brute_force_with_exclude(from_digits(rows)) {
        SolverResult::Solved(s) => cells(&s),
        SolverResult::Contradiction(_) => panic!("the grid has solutions"),
    };
    let second = match brute_force_with_exclude(from_digits(rows)) {
        SolverResult::Solved(s) => cells(&s),
        SolverResult::Contradiction(_) => panic!("the grid has solutions"),
    };
    assert_eq!(first, second);
    let plain = match brute_force(from_digits(rows)) {
        SolverResult::Solved(s) => cells(&s),
        SolverResult::Contradiction(_) => panic!("the grid has solutions"),
    };
    assert_eq!(first, plain);
}

#[test]
fn first_unresolved_is_found_in_row_major_order() {
    let mut rows = SOLVED;
    rows[3][7] = 0;
    rows[3][2] = 0;
    rows[6][0] = 0;
    let grid = from_digits(rows);
    let (r, c) = grid.first_unresolved().unwrap();
    assert_eq!((usize::from(r), usize::from(c)), (3, 2));
    assert!(from_digits(SOLVED).first_unresolved().is_none());
}
