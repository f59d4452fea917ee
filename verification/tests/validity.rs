use cde_rust_sudoku::base::{NumberSet, Sudoku};

fn n(digit: i8) -> NumberSet {
    NumberSet::singleton_for(digit)
}

fn from_digits(rows: [[i8; 9]; 9]) -> Sudoku<NumberSet> {
    let mut arr = [[NumberSet::full(); 9]; 9];
    for r in 0..9 {
        for c in 0..9 {
            if rows[r][c] != 0 {
                arr[r][c] = n(rows[r][c]);
            }
        }
    }
    Sudoku::new(arr)
}

const SOLVED_DIGITS: [[i8; 9]; 9] = [
    [5, 6, 3, 2, 1, 7, 9, 8, 4],
    [9, 8, 1, 3, 4, 6, 7, 5, 2],
    [2, 4, 7, 9, 8, 5, 1, 3, 6],
    [7, 1, 8, 5, 6, 9, 2, 4, 3],
    [4, 9, 6, 1, 2, 3, 5, 7, 8],
    [3, 2, 5, 4, 7, 8, 6, 9, 1],
    [1, 3, 4, 7, 5, 2, 8, 6, 9],
    [6, 7, 9, 8, 3, 1, 4, 2, 5],
    [8, 5, 2, 6, 9, 4, 3, 1, 7],
];

fn valid_sudoku() -> Sudoku<NumberSet> {
    from_digits(SOLVED_DIGITS)
}

/// One cell has no digit left.
fn contradiction_sudoku1() -> Sudoku<NumberSet> {
    let mut arr = [[NumberSet::full(); 9]; 9];
    for r in 0..9 {
        for c in 0..9 {
            arr[r][c] = n(SOLVED_DIGITS[r][c]);
        }
    }
    arr[7][5] = NumberSet::empty();
    Sudoku::new(arr)
}

/// A digit is missing from a row and a block.
fn contradiction_sudoku2() -> Sudoku<NumberSet> {
    let mut arr = [[NumberSet::full(); 9]; 9];
    for r in 0..9 {
        for c in 0..9 {
            arr[r][c] = n(SOLVED_DIGITS[r][c]);
        }
    }
    arr[1][1] = n(8) | n(9);
    arr[1][2] = n(8) | n(3) | n(4);
    arr[1][3] = n(3) | n(9);
    arr[1][4] = n(4) | n(8) | n(9);
    Sudoku::new(arr)
}

/// The digit 6 stands twice in the lower right block.
fn contradiction_sudoku3() -> Sudoku<NumberSet> {
    from_digits([
        [5, 0, 3, 2, 1, 0, 0, 8, 4],
        [9, 8, 1, 0, 4, 0, 0, 5, 2],
        [2, 4, 7, 0, 8, 0, 0, 3, 6],
        [7, 1, 8, 0, 6, 0, 0, 4, 3],
        [4, 9, 6, 0, 2, 0, 0, 7, 8],
        [3, 2, 5, 0, 7, 0, 0, 9, 1],
        [1, 3, 4, 0, 5, 0, 0, 6, 9],
        [6, 7, 9, 0, 3, 0, 0, 2, 5],
        [0, 0, 0, 0, 0, 0, 6, 1, 7],
    ])
}

#[test]
fn test_is_solved() {
    assert_eq!(valid_sudoku().is_solved(), true);
    assert_eq!(contradiction_sudoku1().is_solved(), false);
    assert_eq!(contradiction_sudoku2().is_solved(), false);
    assert_eq!(contradiction_sudoku3().is_solved(), false);
}

#[test]
fn test_is_invalid() {
    assert_eq!(valid_sudoku().is_invalid(), false);
    assert_eq!(contradiction_sudoku1().is_invalid(), true);
    assert_eq!(contradiction_sudoku2().is_invalid(), false);
    assert_eq!(contradiction_sudoku3().is_invalid(), true);
}

#[test]
fn test_has_no_contradiction() {
    assert_eq!(valid_sudoku().has_no_contradiction(), true);
    assert_eq!(contradiction_sudoku1().has_no_contradiction(), false);
    assert_eq!(contradiction_sudoku2().has_no_contradiction(), false);
    assert_eq!(contradiction_sudoku3().has_no_contradiction(), false);
}

#[test]
fn test_all_numbers_possible() {
    assert_eq!(valid_sudoku().all_numbers_possible(), true);
    assert_eq!(contradiction_sudoku1().all_numbers_possible(), false);
    assert_eq!(contradiction_sudoku2().all_numbers_possible(), false);
    assert_eq!(contradiction_sudoku3().all_numbers_possible(), true);
}

#[test]
fn is_valid_agrees_with_is_solved() {
    assert_eq!(valid_sudoku().is_valid(), true);
    assert_eq!(contradiction_sudoku1().is_valid(), false);
    assert_eq!(contradiction_sudoku2().is_valid(), false);
    assert_eq!(contradiction_sudoku3().is_valid(), false);
}

#[test]
fn empty_grid_is_neither_solved_nor_invalid() {
    let blank = from_digits([[0; 9]; 9]);
    assert!(!blank.is_solved());
    assert!(!blank.is_invalid());
    assert!(blank.all_numbers_possible());
    assert!(blank.has_no_contradiction());
}

#[test]
fn repeated_digit_in_a_row_is_invalid() {
    let mut rows = [[0i8; 9]; 9];
    rows[4][1] = 7;
    rows[4][8] = 7;
    assert!(from_digits(rows).is_invalid());
    let mut cols = [[0i8; 9]; 9];
    cols[0][3] = 2;
    cols[8][3] = 2;
    assert!(from_digits(cols).is_invalid());
    let mut apart = [[0i8; 9]; 9];
    apart[0][0] = 2;
    apart[8][8] = 2;
    assert!(!from_digits(apart).is_invalid());
}

#[test]
fn swapped_digits_are_not_solved() {
    let mut rows = SOLVED_DIGITS;
    rows[0][0] = 6;
    rows[0][1] = 5;
    let grid = from_digits(rows);
    assert!(!grid.is_solved());
    assert!(grid.is_invalid());
}
