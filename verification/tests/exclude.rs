use cde_rust_sudoku::base::{compute_exclude, ij2sk, sk2ij, Ix, NumberSet, Sudoku};

fn blank() -> Sudoku<NumberSet> {
    Sudoku::new([[NumberSet::full(); 9]; 9])
}

fn cells(grid: &Sudoku<NumberSet>) -> Vec<NumberSet> {
    grid.iter().into_iter().copied().collect()
}

#[test]
fn block_coordinates_go_there_and_back() {
    assert_eq!(ij2sk(0, 0), (0, 0));
    assert_eq!(ij2sk(4, 7), (5, 4));
    assert_eq!(ij2sk(8, 8), (8, 8));
    assert_eq!(sk2ij(5, 4), (4, 7));
    assert_eq!(sk2ij(2, 3), (1, 6));
    for i in 0..9 {
        for j in 0..9 {
            let (s, k) = ij2sk(i, j);
            assert_eq!(sk2ij(s, k), (i, j));
        }
    }
}

#[test]
fn a_resolved_cell_is_taken_from_its_peers_only() {
    let mut grid = blank();
    let five = NumberSet::singleton_for(5);
    *grid.get_mut(Ix::Ix2, Ix::Ix5) = five;
    compute_exclude(&mut grid);
    let without = NumberSet::full() - five;
    for r in 0..9usize {
        for c in 0..9usize {
            let cell = cells(&grid)[9 * r + c];
            let peer = (r != 1 || c != 4) && (r == 1 || c == 4 || (r / 3 == 0 && c / 3 == 1));
            if r == 1 && c == 4 {
                assert_eq!(cell, five);
            } else if peer {
                assert_eq!(cell, without);
            } else {
                assert_eq!(cell, NumberSet::full());
            }
        }
    }
}

#[test]
fn propagation_only_takes_away() {
    let mut grid = blank();
    *grid.get_mut(Ix::Ix1, Ix::Ix1) = NumberSet::singleton_for(1);
    *grid.get_mut(Ix::Ix1, Ix::Ix2) = NumberSet::singleton_for(2);
    *grid.get_mut(Ix::Ix9, Ix::Ix9) = NumberSet::singleton_for(1);
    let before = cells(&grid);
    compute_exclude(&mut grid);
    let after = cells(&grid);
    for k in 0..81 {
        assert_eq!(after[k].union(before[k]), before[k]);
    }
}

#[test]
fn propagation_leaves_an_exhausted_cell_empty() {
    let mut grid = blank();
    let seven = NumberSet::singleton_for(7);
    *grid.get_mut(Ix::Ix4, Ix::Ix1) = seven;
    *grid.get_mut(Ix::Ix4, Ix::Ix9) = seven;
    compute_exclude(&mut grid);
    assert_eq!(*grid.get(Ix::Ix4, Ix::Ix1), seven);
    assert!(grid.get(Ix::Ix4, Ix::Ix9).is_empty());
    assert!(grid.is_invalid());
}

#[test]
fn a_cell_resolved_during_the_pass_is_propagated_when_reached() {
    let mut grid = blank();
    for d in 1..=8i8 {
        let c = Ix::all_indices()[d as usize - 1];
        *grid.get_mut(Ix::Ix1, c) = NumberSet::singleton_for(d);
    }
    compute_exclude(&mut grid);
    let nine = NumberSet::singleton_for(9);
    assert_eq!(*grid.get(Ix::Ix1, Ix::Ix9), nine);
    assert!(!grid.get(Ix::Ix5, Ix::Ix9).intersects(nine));
    assert!(!grid.get(Ix::Ix2, Ix::Ix8).intersects(nine));
    assert!(grid.get(Ix::Ix5, Ix::Ix1).intersects(nine));
}

#[test]
fn a_second_pass_over_a_settled_grid_changes_nothing() {
    let mut grid = blank();
    *grid.get_mut(Ix::Ix3, Ix::Ix3) = NumberSet::singleton_for(4);
    compute_exclude(&mut grid);
    let once = cells(&grid);
    compute_exclude(&mut grid);
    assert_eq!(cells(&grid), once);
}

#[test]
fn a_second_pass_goes_on_where_the_first_left() {
    let one = NumberSet::singleton_for(1);
    let two = NumberSet::singleton_for(2);
    let mut grid = blank();
    *grid.get_mut(Ix::Ix1, Ix::Ix1) = one | two;
    *grid.get_mut(Ix::Ix1, Ix::Ix2) = one;
    compute_exclude(&mut grid);
    assert_eq!(*grid.get(Ix::Ix1, Ix::Ix1), two);
    assert!(grid.get(Ix::Ix5, Ix::Ix1).intersects(two));
    compute_exclude(&mut grid);
    assert!(!grid.get(Ix::Ix5, Ix::Ix1).intersects(two));
}
