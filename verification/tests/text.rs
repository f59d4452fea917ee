use cde_rust_sudoku::base::{conv_sudoku_type, Ix, NumberSet, Sudoku};
use std::convert::TryFrom;
use std::str::FromStr;

const SOLVED_SUDOKU: &str = "\
┌─┬─┬─┬─┬─┬─┬─┬─┬─┐
│7│8│2│9│5│3│4│1│6│
├─┼─┼─┼─┼─┼─┼─┼─┼─┤
│5│1│6│2│8│4│7│9│3│
├─┼─┼─┼─┼─┼─┼─┼─┼─┤
│9│4│3│1│6│7│2│8│5│
├─┼─┼─┼─┼─┼─┼─┼─┼─┤
│2│9│4│7│3│6│1│5│8│
├─┼─┼─┼─┼─┼─┼─┼─┼─┤
│6│3│1│5│2│8│9│7│4│
├─┼─┼─┼─┼─┼─┼─┼─┼─┤
│8│7│5│4│9│1│3│6│2│
├─┼─┼─┼─┼─┼─┼─┼─┼─┤
│1│5│7│8│4│2│6│3│9│
├─┼─┼─┼─┼─┼─┼─┼─┼─┤
│4│6│9│3│7│5│8│2│1│
├─┼─┼─┼─┼─┼─┼─┼─┼─┤
│3│2│8│6│1│9│5│4│7│
└─┴─┴─┴─┴─┴─┴─┴─┴─┘";

const SUDOKU1: &str = "\
┌─┬─┬─┬─┬─┬─┬─┬─┬─┐
│ │8│ │9│ │ │4│ │ │
├─┼─┼─┼─┼─┼─┼─┼─┼─┤
│5│ │6│ │8│ │7│9│ │
├─┼─┼─┼─┼─┼─┼─┼─┼─┤
│9│4│3│ │6│ │ │8│ │
├─┼─┼─┼─┼─┼─┼─┼─┼─┤
│ │9│ │ │ │ │1│5│8│
├─┼─┼─┼─┼─┼─┼─┼─┼─┤
│6│ │ │5│2│8│ │ │4│
├─┼─┼─┼─┼─┼─┼─┼─┼─┤
│8│7│5│ │ │ │ │6│ │
├─┼─┼─┼─┼─┼─┼─┼─┼─┤
│ │5│ │ │4│ │6│3│9│
├─┼─┼─┼─┼─┼─┼─┼─┼─┤
│ │6│9│ │7│ │8│ │1│
├─┼─┼─┼─┼─┼─┼─┼─┼─┤
│ │ │8│ │ │9│ │4│ │
└─┴─┴─┴─┴─┴─┴─┴─┴─┘";

#[test]
fn framed_grid_is_read_cell_by_cell() {
    let grid = Sudoku::from_str(SOLVED_SUDOKU).unwrap();
    assert!(grid.is_solved());
    assert_eq!(grid.get(Ix::Ix1, Ix::Ix1).to_digit(), Some(7));
    assert_eq!(grid.get(Ix::Ix1, Ix::Ix9).to_digit(), Some(6));
    assert_eq!(grid.get(Ix::Ix9, Ix::Ix1).to_digit(), Some(3));
    assert_eq!(grid.get(Ix::Ix9, Ix::Ix9).to_digit(), Some(7));
    let puzzle = Sudoku::from_framed(SUDOKU1).unwrap();
    assert_eq!(*puzzle.get(Ix::Ix1, Ix::Ix1), NumberSet::full());
    assert_eq!(puzzle.get(Ix::Ix1, Ix::Ix2).to_digit(), Some(8));
    assert_eq!(puzzle.get(Ix::Ix9, Ix::Ix8).to_digit(), Some(4));
}

#[test]
fn short_text_is_an_error() {
    let short: String = SOLVED_SUDOKU.chars().take(357).collect();
    assert_eq!(
        Sudoku::from_str(&short).err(),
        Some("Not a valid Sudoku: the text is too short".to_string())
    );
    assert!(Sudoku::from_str("").is_err());
    let enough: String = SOLVED_SUDOKU.chars().take(358).collect();
    assert!(Sudoku::from_str(&enough).is_ok());
}

#[test]
fn first_bad_cell_character_is_named() {
    let bad: String = SOLVED_SUDOKU
        .chars()
        .enumerate()
        .map(|(k, ch)| if k == 21 + 40 * 3 + 2 * 4 { 'x' } else if k == 21 + 40 * 5 { '0' } else { ch })
        .collect();
    assert_eq!(Sudoku::from_str(&bad).err(), Some("Not a valid value: x".to_string()));
}

#[test]
fn characters_and_candidates() {
    assert_eq!(NumberSet::try_from(' '), Ok(NumberSet::full()));
    for (k, ch) in "123456789".chars().enumerate() {
        assert_eq!(NumberSet::try_from(ch), Ok(NumberSet::singleton_for(k as i8 + 1)));
        assert_eq!(NumberSet::singleton_for(k as i8 + 1).to_char(), ch);
    }
    assert_eq!(NumberSet::try_from('0'), Err("Not a valid value: 0".to_string()));
    assert_eq!(NumberSet::from_char('│'), Err("Not a valid value: │".to_string()));
    assert_eq!(NumberSet::full().to_char(), ' ');
    assert_eq!(NumberSet::empty().to_char(), ' ');
    assert_eq!(NumberSet::singleton_for(4).to_string(), "4");
    assert_eq!((NumberSet::singleton_for(4) | NumberSet::singleton_for(5)).to_string(), " ");
}

#[test]
fn grid_is_shown_with_bars_and_rules() {
    let grid = Sudoku::from_str(SUDOKU1).unwrap();
    let expected = [
        " 8 │9  │4  ",
        "5 6│ 8 │79 ",
        "943│ 6 │ 8 ",
        "───┼───┼───",
        " 9 │   │158",
        "6  │528│  4",
        "875│   │ 6 ",
        "───┼───┼───",
        " 5 │ 4 │639",
        " 69│ 7 │8 1",
        "  8│  9│ 4 ",
        "",
    ]
    .join("\n");
    assert_eq!(grid.to_string(), expected);
}

#[test]
fn cells_are_converted_one_by_one() {
    let mut arr = [[0u8; 9]; 9];
    for r in 0..9 {
        for c in 0..9 {
            arr[r][c] = (10 * r + c) as u8;
        }
    }
    let input = Sudoku::new(arr);
    let mut output: Sudoku<u32> = Sudoku::new([[0u32; 9]; 9]);
    conv_sudoku_type(input, &mut output);
    let cells: Vec<u32> = output.iter().into_iter().copied().collect();
    for r in 0..9 {
        for c in 0..9 {
            assert_eq!(cells[9 * r + c], (10 * r + c) as u32);
        }
    }
}
