use cde_rust_sudoku::base::{Ix1, Ix2, Ix3, Ix4, Ix5, Ix6, Ix7, Ix8, Ix9};
use cde_rust_sudoku::base::{Ix, Sudoku};
use std::collections::HashSet;

fn numbered() -> Sudoku<u8> {
    Sudoku::new([
        [11, 12, 13, 14, 15, 16, 17, 18, 19],
        [21, 22, 23, 24, 25, 26, 27, 28, 29],
        [31, 32, 33, 34, 35, 36, 37, 38, 39],
        [41, 42, 43, 44, 45, 46, 47, 48, 49],
        [51, 52, 53, 54, 55, 56, 57, 58, 59],
        [61, 62, 63, 64, 65, 66, 67, 68, 69],
        [71, 72, 73, 74, 75, 76, 77, 78, 79],
        [81, 82, 83, 84, 85, 86, 87, 88, 89],
        [91, 92, 93, 94, 95, 96, 97, 98, 99],
    ])
}

#[test]
fn test_row_iter() {
    let sudoku = numbered();
    let row2: HashSet<_> = sudoku.row(Ix2).into_iter().collect();
    let expected: HashSet<_> = [21, 22, 23, 24, 25, 26, 27, 28, 29].iter().collect();
    assert_eq!(row2, expected);
}

#[test]
fn test_col_iter() {
    let sudoku = numbered();
    let col2: HashSet<_> = sudoku.col(Ix2).into_iter().collect();
    let expected: HashSet<_> = [12, 22, 32, 42, 52, 62, 72, 82, 92].iter().collect();
    assert_eq!(col2, expected);
}

#[test]
fn test_block_iter() {
    let sudoku = numbered();
    let block2: HashSet<_> = sudoku.block(Ix2).into_iter().collect();
    let expected: HashSet<_> = [14, 15, 16, 24, 25, 26, 34, 35, 36].iter().collect();
    assert_eq!(block2, expected);
}

#[test]
fn row_keeps_column_order() {
    let sudoku = numbered();
    let row: Vec<u8> = sudoku.row(Ix9).into_iter().copied().collect();
    assert_eq!(row, vec![91, 92, 93, 94, 95, 96, 97, 98, 99]);
    let col: Vec<u8> = sudoku.col(Ix1).into_iter().copied().collect();
    assert_eq!(col, vec![11, 21, 31, 41, 51, 61, 71, 81, 91]);
}

#[test]
fn block_for_cell_is_the_block_of_the_cell() {
    let sudoku = numbered();
    let by_cell: Vec<u8> = sudoku.block_for_cell(Ix5, Ix9).into_iter().copied().collect();
    let by_block: Vec<u8> = sudoku.block(Ix6).into_iter().copied().collect();
    assert_eq!(by_cell, by_block);
    assert_eq!(by_cell, vec![47, 48, 49, 57, 58, 59, 67, 68, 69]);
}

#[test]
fn get_mut_writes_one_cell() {
    let mut sudoku = numbered();
    *sudoku.get_mut(Ix3, Ix4) = 0;
    assert_eq!(*sudoku.get(Ix3, Ix4), 0);
    assert_eq!(*sudoku.get(Ix3, Ix5), 35);
    assert_eq!(*sudoku.get(Ix4, Ix4), 44);
}

#[test]
fn set_writes_one_cell() {
    let mut sudoku = numbered();
    sudoku.set(Ix9, Ix1, 7);
    assert_eq!(*sudoku.get(Ix9, Ix1), 7);
    assert_eq!(*sudoku.get(Ix9, Ix2), 92);
    assert_eq!(*sudoku.get(Ix8, Ix1), 81);
}

#[test]
fn views_for_writing_reach_the_grid() {
    let mut sudoku = numbered();
    *sudoku.row_mut(Ix1, Ix2) = 1;
    *sudoku.col_mut(Ix1, Ix2) = 2;
    *sudoku.block_mut(Ix9, Ix5) = 3;
    *sudoku.block_for_cell_mut(Ix1, Ix9, Ix1) = 4;
    assert_eq!(*sudoku.get(Ix1, Ix2), 1);
    assert_eq!(*sudoku.get(Ix2, Ix1), 2);
    assert_eq!(*sudoku.get(Ix8, Ix8), 3);
    assert_eq!(*sudoku.get(Ix1, Ix7), 4);
    assert!(sudoku.iter_mut(81).is_none());
    *sudoku.iter_mut(80).unwrap() = 5;
    assert_eq!(*sudoku.get(Ix9, Ix9), 5);
}

#[test]
fn traversal_is_row_major() {
    let sudoku = numbered();
    let cells: Vec<u8> = sudoku.iter().into_iter().copied().collect();
    assert_eq!(cells.len(), 81);
    assert_eq!(cells[0], 11);
    assert_eq!(cells[9], 21);
    assert_eq!(cells[80], 99);
    let indexed = sudoku.iter_with_index();
    assert_eq!(indexed.len(), 81);
    let (r, c, v) = indexed[13];
    assert_eq!((usize::from(r), usize::from(c), *v), (1, 4, 25));
}

#[test]
fn regions_come_as_rows_columns_blocks() {
    let sudoku = numbered();
    let mut regions = sudoku.regions();
    let mut firsts: Vec<u8> = Vec::new();
    let mut count = 0;
    while let Some(region) = regions.next() {
        assert_eq!(region.len(), 9);
        firsts.push(*region[1]);
        count += 1;
    }
    assert_eq!(count, 27);
    assert_eq!(&firsts[0..3], &[12, 22, 32]);
    assert_eq!(&firsts[9..12], &[21, 22, 23]);
    assert_eq!(&firsts[18..21], &[12, 15, 18]);
    assert!(regions.next().is_none());
}

#[test]
fn all_indices_are_ascending() {
    let positions: Vec<usize> = Ix::all_indices().iter().map(|i| usize::from(*i)).collect();
    assert_eq!(positions, vec![0, 1, 2, 3, 4, 5, 6, 7, 8]);
}
