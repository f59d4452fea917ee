use crate::base::grid::Sudoku;
use crate::base::number_set::{all_digits, NumberSet};
use vstd::prelude::*;
use vstd::string::StringSliceAdditionalSpecFns;

verus! {

/// A cell of a puzzle as it is written down: a digit from 1 to 9, or unknown.
pub type GameStateCell = Option<i8>;

/// `String::push` of the standard library appends the character to the end of the
/// string and leaves what stood there before as it was.
pub assume_specification[ String::push ](s: &mut String, ch: char)
    ensures
        final(s)@ == old(s)@.push(ch),
;

/// The cell is unknown or holds a digit from 1 to 9.
pub open spec fn is_game_cell(cell: GameStateCell) -> bool {
    match cell {
        Some(n) => 1 <= n <= 9,
        None => true,
    }
}

/// The candidates that stand for a written cell: the one digit, or all of them.
pub open spec fn solver_cell(cell: GameStateCell) -> NumberSet {
    match cell {
        Some(n) => NumberSet::singleton_for(n),
        None => NumberSet::full(),
    }
}

impl Sudoku<GameStateCell> {
    /// Every cell is unknown or holds a digit from 1 to 9.
    pub open spec fn is_game_state(self) -> bool {
        forall|r: int, c: int| 0 <= r < 9 && 0 <= c < 9 ==> is_game_cell(#[trigger] self.at(r, c))
    }
}

/// The candidate grid of a written puzzle: a known digit becomes the set of that
/// digit, an unknown cell the set of all nine.
pub fn game_to_solver_state(game_state: &Sudoku<GameStateCell>) -> (solver_state: Sudoku<NumberSet>)
    requires
        game_state.is_game_state(),
    ensures
        forall|r: int, c: int|
            0 <= r < 9 && 0 <= c < 9 ==> #[trigger] solver_state.at(r, c) == solver_cell(
                game_state.at(r, c),
            ),
        forall|r: int, c: int|
            0 <= r < 9 && 0 <= c < 9 ==> (#[trigger] solver_state.at(r, c))@ =~= match game_state.at(
                r,
                c,
            ) {
                Some(n) => set![n as int],
                None => all_digits(),
            },
{
    let mut solver_state = Sudoku::new([[NumberSet::empty();9];9]);
    let mut i: usize = 0;
    while i < 9
        invariant
            i <= 9,
            game_state.is_game_state(),
            forall|r: int, c: int|
                0 <= r < i && 0 <= c < 9 ==> #[trigger] solver_state.at(r, c) == solver_cell(
                    game_state.at(r, c),
                ),
        decreases 9 - i,
    {
        let mut j: usize = 0;
        while j < 9
            invariant
                i < 9,
                j <= 9,
                game_state.is_game_state(),
                forall|r: int, c: int|
                    0 <= r < i && 0 <= c < 9 ==> #[trigger] solver_state.at(r, c) == solver_cell(
                        game_state.at(r, c),
                    ),
                forall|c: int|
                    0 <= c < j ==> #[trigger] solver_state.at(i as int, c) == solver_cell(
                        game_state.at(i as int, c),
                    ),
            decreases 9 - j,
        {
            assert(is_game_cell(game_state.at(i as int, j as int)));
            let cell = match *game_state.cell(i, j) {
                Some(n) => NumberSet::singleton_for(n),
                None => NumberSet::full(),
            };
            *solver_state.cell_mut(i, j) = cell;
            j += 1;
        }
        i += 1;
    }
    proof {
        assert forall|r: int, c: int| 0 <= r < 9 && 0 <= c < 9 implies (
        #[trigger] solver_state.at(r, c))@ =~= match game_state.at(r, c) {
            Some(n) => set![n as int],
            None => all_digits(),
        } by {
            assert(is_game_cell(game_state.at(r, c)));
            match game_state.at(r, c) {
                Some(n) => NumberSet::lemma_singleton_for_view(n),
                None => NumberSet::lemma_full_view(),
            }
        }
    }
    solver_state
}

/// The written form of a candidate grid: a resolved cell becomes its digit, every
/// other cell unknown.
pub fn solver_to_game_state(solver_state: &Sudoku<NumberSet>) -> (game_state: Sudoku<GameStateCell>)
    ensures
        game_state.is_game_state(),
        forall|r: int, c: int|
            0 <= r < 9 && 0 <= c < 9 ==> #[trigger] game_state.at(r, c) == solver_state.at(
                r,
                c,
            ).to_digit(),
{
    let mut game_state: Sudoku<GameStateCell> = Sudoku::new([[None;9];9]);
    let mut i: usize = 0;
    while i < 9
        invariant
            i <= 9,
            forall|r: int, c: int|
                0 <= r < i && 0 <= c < 9 ==> #[trigger] game_state.at(r, c) == solver_state.at(
                    r,
                    c,
                ).to_digit() && is_game_cell(game_state.at(r, c)),
        decreases 9 - i,
    {
        let mut j: usize = 0;
        while j < 9
            invariant
                i < 9,
                j <= 9,
                forall|r: int, c: int|
                    0 <= r < i && 0 <= c < 9 ==> #[trigger] game_state.at(r, c) == solver_state.at(
                        r,
                        c,
                    ).to_digit() && is_game_cell(game_state.at(r, c)),
                forall|c: int|
                    0 <= c < j ==> #[trigger] game_state.at(i as int, c) == solver_state.at(
                        i as int,
                        c,
                    ).to_digit() && is_game_cell(game_state.at(i as int, c)),
            decreases 9 - j,
        {
            let digit = solver_state.cell(i, j).to_digit();
            *game_state.cell_mut(i, j) = digit;
            j += 1;
        }
        i += 1;
    }
    game_state
}


/// The character of a decimal digit.
pub open spec fn digit_char(d: int) -> char {
    if d == 0 {
        '0'
    } else if d == 1 {
        '1'
    } else if d == 2 {
        '2'
    } else if d == 3 {
        '3'
    } else if d == 4 {
        '4'
    } else if d == 5 {
        '5'
    } else if d == 6 {
        '6'
    } else if d == 7 {
        '7'
    } else if d == 8 {
        '8'
    } else {
        '9'
    }
}

/// A number that is not negative, written in decimal without leading zeros.
pub open spec fn decimal_nat(n: int) -> Seq<char>
    decreases n,
{
    if n < 10 {
        seq![digit_char(n)]
    } else {
        decimal_nat(n / 10).push(digit_char(n % 10))
    }
}

/// A number written in decimal, with a minus sign where it is negative.
pub open spec fn decimal(n: int) -> Seq<char> {
    if n < 0 {
        seq!['-'] + decimal_nat(-n)
    } else {
        decimal_nat(n)
    }
}

/// What is written for one cell: its number, or a space where it is unknown.
pub open spec fn cell_text(cell: GameStateCell) -> Seq<char> {
    match cell {
        Some(n) => decimal(n as int),
        None => seq![' '],
    }
}

/// What is written for the first `n` cells in row-major order: the cells one after
/// the other, and a line feed after each ninth.
pub open spec fn game_state_text(game_state: Sudoku<GameStateCell>, n: int) -> Seq<char>
    decreases n,
{
    if n <= 0 {
        Seq::empty()
    } else {
        let text = game_state_text(game_state, n - 1) + cell_text(
            game_state.at((n - 1) / 9, (n - 1) % 9),
        );
        if n % 9 == 0 {
            text.push('\n')
        } else {
            text
        }
    }
}

fn push_digit(s: &mut String, d: i16)
    requires
        0 <= d <= 9,
    ensures
        final(s)@ == old(s)@.push(digit_char(d as int)),
{
    let ch = if d == 0 {
        '0'
    } else if d == 1 {
        '1'
    } else if d == 2 {
        '2'
    } else if d == 3 {
        '3'
    } else if d == 4 {
        '4'
    } else if d == 5 {
        '5'
    } else if d == 6 {
        '6'
    } else if d == 7 {
        '7'
    } else if d == 8 {
        '8'
    } else {
        '9'
    };
    s.push(ch);
}

fn push_decimal(s: &mut String, n: i8)
    ensures
        final(s)@ == old(s)@ + decimal(n as int),
{
    let mut m: i16 = n as i16;
    if m < 0 {
        s.push('-');
        m = -m;
    }
    let ghost signed = s@;
    proof {
        reveal_with_fuel(decimal_nat, 3);
    }
    if m >= 100 {
        push_digit(s, m / 100);
        push_digit(s, (m / 10) % 10);
        push_digit(s, m % 10);
    } else if m >= 10 {
        push_digit(s, m / 10);
        push_digit(s, m % 10);
    } else {
        push_digit(s, m);
    }
    assert(s@ =~= signed + decimal_nat(m as int));
    assert(s@ =~= old(s)@ + decimal(n as int));
}

/// The puzzle as text: nine lines of nine cells, each line closed by a line feed. A
/// known cell is written as its number, an unknown one as a space.
pub fn format_game_state(game_state: &Sudoku<GameStateCell>) -> (text: String)
    ensures
        text@ == game_state_text(*game_state, 81),
{
    let mut s = String::new();
    let mut i: usize = 0;
    while i < 9
        invariant
            i <= 9,
            s@ == game_state_text(*game_state, 9 * i),
        decreases 9 - i,
    {
        let mut j: usize = 0;
        while j < 9
            invariant
                i < 9,
                j <= 9,
                j < 9 ==> s@ == game_state_text(*game_state, 9 * i + j),
                j == 9 ==> s@ == game_state_text(*game_state, 9 * i + 8) + cell_text(
                    game_state.at(i as int, 8),
                ),
            decreases 9 - j,
        {
            let ghost n = 9 * i + j + 1;
            assert((n - 1) / 9 == i && (n - 1) % 9 == j);
            assert(n % 9 == 0 <==> j == 8);
            match *game_state.cell(i, j) {
                Some(n) => push_decimal(&mut s, n),
                None => {
                    s.push(' ');
                    assert(s@ =~= game_state_text(*game_state, 9 * i + j) + seq![' ']);
                },
            }
            j += 1;
        }
        s.push('\n');
        assert((9 * i + 9) % 9 == 0 && (9 * i + 8) / 9 == i && (9 * i + 8) % 9 == 8);
        i += 1;
    }
    s
}

/// What one byte of the text stands for: `Some` of a cell, or `None` where the byte
/// is skipped. The digits 1 to 9 are known cells; the space, the underscore and the
/// digit 0 are unknown cells.
pub open spec fn cell_of_byte(b: u8) -> Option<GameStateCell> {
    if 0x31 <= b <= 0x39 {
        Some(Some((b - 0x30) as i8))
    } else if b == 0x20 || b == 0x5f || b == 0x30 {
        Some(None)
    } else {
        None
    }
}

/// The text read up to its end: the rows that a line feed has closed, and the cells of
/// the line that is still open. A line without a cell makes no row.
pub open spec fn scanned(text: Seq<u8>) -> (Seq<Seq<GameStateCell>>, Seq<GameStateCell>)
    decreases text.len(),
{
    if text.len() == 0 {
        (Seq::empty(), Seq::empty())
    } else {
        let (rows, open) = scanned(text.drop_last());
        let b = text.last();
        if b == 0x0a {
            if open.len() > 0 {
                (rows.push(open), Seq::empty())
            } else {
                (rows, Seq::empty())
            }
        } else {
            match cell_of_byte(b) {
                Some(cell) => (rows, open.push(cell)),
                None => (rows, open),
            }
        }
    }
}

/// The rows of cells that the text holds: one for each line with at least one cell.
pub open spec fn game_state_rows(text: Seq<u8>) -> Seq<Seq<GameStateCell>> {
    let (rows, open) = scanned(text);
    if open.len() > 0 {
        rows.push(open)
    } else {
        rows
    }
}

/// The cell that the rows put at (`r`, `c`): unknown where the rows or a row end early.
pub open spec fn placed(rows: Seq<Seq<GameStateCell>>, r: int, c: int) -> GameStateCell {
    if 0 <= r < rows.len() && 0 <= c < rows[r].len() {
        rows[r][c]
    } else {
        None
    }
}

/// Reads a puzzle from free text.
///
/// Each line with at least one cell is a row. In a line the digits 1 to 9 are known
/// cells, and a space, an underscore or a 0 is an unknown cell; every other character
/// is skipped, so the text may be framed at will. Rows and cells that the text does
/// not give are unknown, and cells beyond the ninth of a row are dropped. More than
/// nine rows are an error.
pub fn parse_game_state(input: &str) -> (result: Result<Sudoku<GameStateCell>, String>)
    ensures
        match result {
            Ok(game_state) => {
                &&& game_state_rows(input.spec_bytes()).len() <= 9
                &&& game_state.is_game_state()
                &&& forall|r: int, c: int|
                    0 <= r < 9 && 0 <= c < 9 ==> #[trigger] game_state.at(r, c) == placed(
                        game_state_rows(input.spec_bytes()),
                        r,
                        c,
                    )
            },
            Err(message) => {
                &&& game_state_rows(input.spec_bytes()).len() > 9
                &&& message@ == "Error while parsing Sudoku: Too many lines"@
            },
        },
{
    let bytes = input.as_bytes();
    let ghost text = bytes@;
    let mut game_state: Sudoku<GameStateCell> = Sudoku::new([[None;9];9]);
    let mut rows_done: usize = 0;
    let mut open_len: usize = 0;
    let mut i: usize = 0;
    while i < bytes.len()
        invariant
            i <= bytes.len(),
            text == bytes@,
            rows_done <= i,
            open_len <= i,
            open_len > 0 ==> rows_done < i,
            rows_done == scanned(text.take(i as int)).0.len(),
            open_len == scanned(text.take(i as int)).1.len(),
            game_state.is_game_state(),
            forall|r: int, c: int|
                0 <= r < 9 && 0 <= c < 9 ==> #[trigger] game_state.at(r, c) == placed(
                    scanned(text.take(i as int)).0.push(scanned(text.take(i as int)).1),
                    r,
                    c,
                ),
        decreases bytes.len() - i,
    {
        let b = bytes[i];
        let ghost before = scanned(text.take(i as int));
        proof {
            assert(text.take(i + 1).drop_last() =~= text.take(i as int));
            assert(text.take(i + 1).last() == b);
        }
        if b == 0x0a {
            if open_len > 0 {
                rows_done += 1;
            }
            open_len = 0;
        } else if 0x31 <= b && b <= 0x39 {
            if rows_done < 9 && open_len < 9 {
                *game_state.cell_mut(rows_done, open_len) = Some((b - 0x30) as i8);
            }
            open_len += 1;
        } else if b == 0x20 || b == 0x5f || b == 0x30 {
            open_len += 1;
        }
        i += 1;
    }
    proof {
        assert(text.take(i as int) =~= text);
    }
    if open_len > 0 {
        rows_done += 1;
    }
    if rows_done > 9 {
        return Err("Error while parsing Sudoku: Too many lines".to_owned());
    }
    Ok(game_state)
}

} // verus!
