use crate::base::grid::{comes_before, Sudoku};
use crate::base::number_set::NumberSet;
use vstd::prelude::*;
use vstd::string::StrSliceExecFns;

verus! {

/// The candidates that a character of a drawn grid stands for: a digit from 1 to 9
/// for itself, a space for all nine digits. No other character stands for a cell.
pub open spec fn cell_of_char(c: char) -> Option<NumberSet> {
    if c == ' ' {
        Some(NumberSet::full())
    } else if c == '1' {
        Some(NumberSet::singleton_for(1))
    } else if c == '2' {
        Some(NumberSet::singleton_for(2))
    } else if c == '3' {
        Some(NumberSet::singleton_for(3))
    } else if c == '4' {
        Some(NumberSet::singleton_for(4))
    } else if c == '5' {
        Some(NumberSet::singleton_for(5))
    } else if c == '6' {
        Some(NumberSet::singleton_for(6))
    } else if c == '7' {
        Some(NumberSet::singleton_for(7))
    } else if c == '8' {
        Some(NumberSet::singleton_for(8))
    } else if c == '9' {
        Some(NumberSet::singleton_for(9))
    } else {
        None
    }
}

/// The character that is shown for a cell: its digit where it is resolved, and a space
/// for every other set.
pub open spec fn char_of_cell(cell: NumberSet) -> char {
    match cell.to_digit() {
        Some(d) => if d == 1 {
            '1'
        } else if d == 2 {
            '2'
        } else if d == 3 {
            '3'
        } else if d == 4 {
            '4'
        } else if d == 5 {
            '5'
        } else if d == 6 {
            '6'
        } else if d == 7 {
            '7'
        } else if d == 8 {
            '8'
        } else {
            '9'
        },
        None => ' ',
    }
}

/// Where the character of cell (`r`, `c`) stands in a grid drawn with a frame: each
/// drawn row takes 40 characters, each cell two, and the first cell comes after 21.
pub open spec fn framed_index(r: int, c: int) -> int {
    21 + 40 * r + 2 * c
}

/// The least number of characters that a grid drawn with a frame has.
pub const FRAMED_LEN: usize = 358;

/// In the framed text, (`r`, `c`) is the first cell in row-major order whose character
/// stands for no cell.
pub open spec fn is_first_bad_cell(text: Seq<char>, r: int, c: int) -> bool {
    &&& 0 <= r < 9
    &&& 0 <= c < 9
    &&& cell_of_char(text[framed_index(r, c)]) is None
    &&& forall|i: int, j: int|
        0 <= i < 9 && 0 <= j < 9 && comes_before(i, j, r, c) ==> cell_of_char(
            #[trigger] text[framed_index(i, j)],
        ) is Some
}

/// `result` is what reading the character `c` as a cell gives: the candidates that it
/// stands for, or, where it stands for none, an error that names it.
pub open spec fn is_cell_reading(c: char, result: Result<NumberSet, String>) -> bool {
    match result {
        Ok(cell) => cell_of_char(c) == Some(cell),
        Err(message) => cell_of_char(c) is None && message@ == "Not a valid value: "@.push(c),
    }
}

/// `result` is what reading `text` as a grid drawn with a frame gives.
///
/// It is a grid exactly if the text is long enough for the last cell and each of the
/// 81 cell characters stands for a cell; the grid then holds what they stand for. A
/// text that is too short gives an error that says so, and any other failure an error
/// that names the first cell character, in row-major order, that stands for no cell.
pub open spec fn is_framed_reading(
    text: Seq<char>,
    result: Result<Sudoku<NumberSet>, String>,
) -> bool {
    match result {
        Ok(grid) => {
            &&& text.len() >= FRAMED_LEN
            &&& forall|r: int, c: int|
                0 <= r < 9 && 0 <= c < 9 ==> cell_of_char(text[framed_index(r, c)]) == Some(
                    #[trigger] grid.at(r, c),
                )
        },
        Err(message) => if text.len() < FRAMED_LEN {
            message@ == "Not a valid Sudoku: the text is too short"@
        } else {
            exists|r: int, c: int| #[trigger]
                is_first_bad_cell(text, r, c) && message@ == "Not a valid value: "@.push(
                    text[framed_index(r, c)],
                )
        },
    }
}

/// One row of a shown grid: nine cell characters, with a bar after the third and the
/// sixth.
pub open spec fn shown_row(grid: Sudoku<NumberSet>, r: int) -> Seq<char> {
    seq![
        char_of_cell(grid.at(r, 0)),
        char_of_cell(grid.at(r, 1)),
        char_of_cell(grid.at(r, 2)),
        '│',
        char_of_cell(grid.at(r, 3)),
        char_of_cell(grid.at(r, 4)),
        char_of_cell(grid.at(r, 5)),
        '│',
        char_of_cell(grid.at(r, 6)),
        char_of_cell(grid.at(r, 7)),
        char_of_cell(grid.at(r, 8)),
    ]
}

/// What closes row `r` of a shown grid: a line feed, and after the third and the sixth
/// row a rule as well.
pub open spec fn shown_row_end(r: int) -> Seq<char> {
    if r == 2 || r == 5 {
        seq!['\n', '─', '─', '─', '┼', '─', '─', '─', '┼', '─', '─', '─', '\n']
    } else {
        seq!['\n']
    }
}

/// The first `n` rows of a shown grid.
pub open spec fn shown_rows(grid: Sudoku<NumberSet>, n: int) -> Seq<char>
    decreases n,
{
    if n <= 0 {
        Seq::empty()
    } else {
        shown_rows(grid, n - 1) + shown_row(grid, n - 1) + shown_row_end(n - 1)
    }
}

impl NumberSet {
    /// The candidates that a character of a drawn grid stands for, or an error that
    /// names the character where it stands for none.
    pub fn from_char(c: char) -> (result: Result<NumberSet, String>)
        ensures
            is_cell_reading(c, result),
    {
        Ok(
            match c {
                ' ' => NumberSet::full(),
                '1' => NumberSet::singleton_for(1),
                '2' => NumberSet::singleton_for(2),
                '3' => NumberSet::singleton_for(3),
                '4' => NumberSet::singleton_for(4),
                '5' => NumberSet::singleton_for(5),
                '6' => NumberSet::singleton_for(6),
                '7' => NumberSet::singleton_for(7),
                '8' => NumberSet::singleton_for(8),
                '9' => NumberSet::singleton_for(9),
                x => {
                    let mut message = "Not a valid value: ".to_owned();
                    message.push(x);
                    return Err(message);
                },
            },
        )
    }

    /// The character that is shown for the set: its digit where it holds exactly one,
    /// and a space for every other set.
    pub fn to_char(&self) -> (c: char)
        ensures
            c == char_of_cell(*self),
    {
        match self.to_digit() {
            Some(1) => '1',
            Some(2) => '2',
            Some(3) => '3',
            Some(4) => '4',
            Some(5) => '5',
            Some(6) => '6',
            Some(7) => '7',
            Some(8) => '8',
            Some(9) => '9',
            _ => ' ',
        }
    }

    /// The set as text: the one character of `to_char`.
    pub fn to_string(&self) -> (text: String)
        ensures
            text@ == seq![char_of_cell(*self)],
    {
        let mut text = String::new();
        text.push(self.to_char());
        assert(text@ =~= seq![char_of_cell(*self)]);
        text
    }
}

impl TryFrom<char> for NumberSet {
    type Error = String;

    /// The candidates that a character of a drawn grid stands for, or an error that
    /// names the character where it stands for none.
    fn try_from(c: char) -> (result: Result<Self, Self::Error>)
        ensures
            is_cell_reading(c, result),
    {
        NumberSet::from_char(c)
    }
}

impl vstd::std_specs::convert::TryFromSpecImpl<char> for NumberSet {
    /// The error of a failed conversion is a text made for the occasion, which no
    /// ghost value can stand for: what `try_from` returns is stated on `try_from`.
    open spec fn obeys_try_from_spec() -> bool {
        false
    }

    open spec fn try_from_spec(c: char) -> Result<Self, Self::Error> {
        arbitrary()
    }
}

impl Sudoku<NumberSet> {
    /// Reads a grid that is drawn with a frame: the character of cell (`r`, `c`) is
    /// character number `21 + 40 * r + 2 * c` of the text.
    ///
    /// A text that is too short for the last cell is an error, and so is a cell
    /// character that is neither a digit from 1 to 9 nor a space; of several such
    /// characters the first in row-major order is named.
    pub fn from_framed(s: &str) -> (result: Result<Sudoku<NumberSet>, String>)
        ensures
            is_framed_reading(s@, result),
    {
        if s.unicode_len() < FRAMED_LEN {
            return Err("Not a valid Sudoku: the text is too short".to_owned());
        }
        let mut grid = Sudoku::new([[NumberSet::full();9];9]);
        let mut row: usize = 0;
        while row < 9
            invariant
                row <= 9,
                s@.len() >= FRAMED_LEN,
                forall|r: int, c: int|
                    0 <= r < row && 0 <= c < 9 ==> cell_of_char(s@[framed_index(r, c)]) == Some(
                        #[trigger] grid.at(r, c),
                    ),
                forall|r: int, c: int|
                    0 <= r < row && 0 <= c < 9 ==> cell_of_char(
                        #[trigger] s@[framed_index(r, c)],
                    ) is Some,
            decreases 9 - row,
        {
            let mut col: usize = 0;
            while col < 9
                invariant
                    row < 9,
                    col <= 9,
                    s@.len() >= FRAMED_LEN,
                    forall|r: int, c: int|
                        0 <= r < row && 0 <= c < 9 ==> cell_of_char(s@[framed_index(r, c)])
                            == Some(#[trigger] grid.at(r, c)),
                    forall|r: int, c: int|
                        0 <= r < row && 0 <= c < 9 ==> cell_of_char(
                            #[trigger] s@[framed_index(r, c)],
                        ) is Some,
                    forall|c: int|
                        0 <= c < col ==> cell_of_char(s@[framed_index(row as int, c)]) == Some(
                            #[trigger] grid.at(row as int, c),
                        ),
                    forall|c: int|
                        0 <= c < col ==> cell_of_char(
                            #[trigger] s@[framed_index(row as int, c)],
                        ) is Some,
                decreases 9 - col,
            {
                let value = s.get_char(21 + 40 * row + 2 * col);
                match NumberSet::from_char(value) {
                    Ok(cell) => {
                        *grid.cell_mut(row, col) = cell;
                    },
                    Err(message) => {
                        proof {
                            assert forall|i: int, j: int|
                                0 <= i < 9 && 0 <= j < 9 && comes_before(
                                    i,
                                    j,
                                    row as int,
                                    col as int,
                                ) implies cell_of_char(#[trigger] s@[framed_index(i, j)]) is Some by {
                                if i == row {
                                    assert(cell_of_char(s@[framed_index(row as int, j)]) is Some);
                                }
                            }
                            assert(is_first_bad_cell(s@, row as int, col as int));
                        }
                        return Err(message);
                    },
                }
                col += 1;
            }
            row += 1;
        }
        Ok(grid)
    }

    /// The grid as text, nine lines of cells with bars and rules between the blocks. A
    /// resolved cell is shown as its digit, every other cell as a space.
    pub fn to_string(&self) -> (text: String)
        ensures
            text@ == shown_rows(*self, 9),
    {
        let mut text = String::new();
        let mut row: usize = 0;
        while row < 9
            invariant
                row <= 9,
                text@ == shown_rows(*self, row as int),
            decreases 9 - row,
        {
            let ghost before = text@;
            let mut col: usize = 0;
            while col < 9
                invariant
                    row < 9,
                    col <= 9,
                    text@ == before + shown_row(*self, row as int).take(
                        if col <= 3 {
                            col as int
                        } else if col <= 6 {
                            col + 1
                        } else {
                            col + 2
                        },
                    ),
                decreases 9 - col,
            {
                if col == 3 || col == 6 {
                    text.push('│');
                }
                text.push(self.cell(row, col).to_char());
                assert(text@ =~= before + shown_row(*self, row as int).take(
                    if col + 1 <= 3 {
                        col + 1
                    } else if col + 1 <= 6 {
                        col + 2
                    } else {
                        col + 3
                    },
                ));
                col += 1;
            }
            assert(shown_row(*self, row as int).take(11) =~= shown_row(*self, row as int));
            if row == 2 || row == 5 {
                text.push('\n');
                text.push('─');
                text.push('─');
                text.push('─');
                text.push('┼');
                text.push('─');
                text.push('─');
                text.push('─');
                text.push('┼');
                text.push('─');
                text.push('─');
                text.push('─');
                text.push('\n');
            } else {
                text.push('\n');
            }
            assert(text@ =~= before + shown_row(*self, row as int) + shown_row_end(row as int));
            row += 1;
        }
        text
    }
}

impl core::str::FromStr for Sudoku<NumberSet> {
    type Err = String;

    /// Reads a grid that is drawn with a frame, as `from_framed` does.
    fn from_str(s: &str) -> (result: Result<Self, Self::Err>)
        ensures
            is_framed_reading(s@, result),
    {
        Sudoku::from_framed(s)
    }
}

} // verus!
