use cde_rust_sudoku::base::{
    format_game_state, game_to_solver_state, parse_game_state, solver_to_game_state,
    GameStateCell, Ix, NumberSet, Sudoku,
};

fn cells(state: &Sudoku<GameStateCell>) -> Vec<GameStateCell> {
    state.iter().into_iter().copied().collect()
}

#[test]
fn digits_are_read_for_themselves() {
    let state = parse_game_state("123456789").unwrap();
    let row: Vec<GameStateCell> = state.row(Ix::Ix1).into_iter().copied().collect();
    assert_eq!(
        row,
        vec![Some(1), Some(2), Some(3), Some(4), Some(5), Some(6), Some(7), Some(8), Some(9)]
    );
    for cell in state.row(Ix::Ix2) {
        assert_eq!(*cell, None);
    }
}

#[test]
fn blanks_are_unknown_and_frames_are_skipped() {
    let state = parse_game_state("|1 _|0x2|\n+---+\n\n|..7|\r\n").unwrap();
    let all = cells(&state);
    assert_eq!(&all[0..6], &[Some(1), None, None, None, Some(2), None]);
    assert_eq!(&all[9..11], &[Some(7), None]);
    assert!(all[11..].iter().all(|cell| cell.is_none()));
}

#[test]
fn cells_beyond_the_ninth_are_dropped() {
    let state = parse_game_state("1234567891234\n5").unwrap();
    let all = cells(&state);
    assert_eq!(all[8], Some(9));
    assert_eq!(all[9], Some(5));
    assert_eq!(all[10], None);
}

#[test]
fn nine_rows_are_read_and_ten_are_an_error() {
    let nine = "1\n2\n3\n4\n5\n6\n7\n8\n9";
    let state = parse_game_state(nine).unwrap();
    assert_eq!(*state.get(Ix::Ix9, Ix::Ix1), Some(9));
    let ten = "1\n2\n3\n4\n5\n6\n7\n8\n9\n1\n";
    assert_eq!(
        parse_game_state(ten).err(),
        Some("Error while parsing Sudoku: Too many lines".to_string())
    );
    let ten_with_blank_lines = "1\n\n2\n3\n4\n---\n5\n6\n7\n8\n9\n";
    assert!(parse_game_state(ten_with_blank_lines).is_ok());
}

#[test]
fn empty_text_is_an_empty_puzzle() {
    let state = parse_game_state("").unwrap();
    assert!(cells(&state).iter().all(|cell| cell.is_none()));
}

#[test]
fn format_writes_nine_lines() {
    let state = parse_game_state("12\n 3\n").unwrap();
    let text = format_game_state(&state);
    let mut expected = String::from("12       \n 3       \n");
    for _ in 0..7 {
        expected.push_str("         \n");
    }
    assert_eq!(text, expected);
}

#[test]
fn format_writes_any_number_in_decimal() {
    let mut arr: [[GameStateCell; 9]; 9] = [[None; 9]; 9];
    arr[0][0] = Some(-128);
    arr[0][1] = Some(127);
    arr[0][2] = Some(0);
    arr[0][3] = Some(-7);
    arr[0][4] = Some(42);
    let text = format_game_state(&Sudoku::new(arr));
    assert_eq!(text.lines().next(), Some("-1281270-742    "));
}

#[test]
fn parse_reads_what_format_writes() {
    let text = "53  7    \n6  195   \n 98    6 \n8   6   3\n4  8 3  1\n7   2   6\n 6    28 \n   419  5\n    8  79\n";
    let state = parse_game_state(text).unwrap();
    assert_eq!(format_game_state(&state), text);
}

#[test]
fn solver_state_of_a_puzzle() {
    let state = parse_game_state("5 3").unwrap();
    let solver = game_to_solver_state(&state);
    assert_eq!(*solver.get(Ix::Ix1, Ix::Ix1), NumberSet::singleton_for(5));
    assert_eq!(*solver.get(Ix::Ix1, Ix::Ix2), NumberSet::full());
    assert_eq!(*solver.get(Ix::Ix1, Ix::Ix3), NumberSet::singleton_for(3));
    assert_eq!(*solver.get(Ix::Ix9, Ix::Ix9), NumberSet::full());
}

#[test]
fn game_state_of_a_solver_state() {
    let mut solver = Sudoku::new([[NumberSet::full(); 9]; 9]);
    *solver.get_mut(Ix::Ix2, Ix::Ix3) = NumberSet::singleton_for(8);
    *solver.get_mut(Ix::Ix2, Ix::Ix4) = NumberSet::singleton_for(8) | NumberSet::singleton_for(1);
    *solver.get_mut(Ix::Ix2, Ix::Ix5) = NumberSet::empty();
    let state = solver_to_game_state(&solver);
    assert_eq!(*state.get(Ix::Ix2, Ix::Ix3), Some(8));
    assert_eq!(*state.get(Ix::Ix2, Ix::Ix4), None);
    assert_eq!(*state.get(Ix::Ix2, Ix::Ix5), None);
    assert_eq!(*state.get(Ix::Ix1, Ix::Ix1), None);
}

#[test]
fn conversion_goes_there_and_back() {
    let text = "53  7    \n6  195   \n 98    6 \n8   6   3\n4  8 3  1\n7   2   6\n 6    28 \n   419  5\n    8  79\n";
    let state = parse_game_state(text).unwrap();
    let back = solver_to_game_state(&game_to_solver_state(&state));
    assert_eq!(cells(&back), cells(&state));
}
