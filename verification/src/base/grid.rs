use crate::base::index::Ix;
use vstd::prelude::*;

verus! {

/// A 9x9 grid of cells, stored row by row.
pub struct Sudoku<T> {
    arr: [[T; 9]; 9],
}

/// The row of cell `k` of block `b`: blocks and their cells are counted row by row.
pub open spec fn block_row(b: int, k: int) -> int {
    (b / 3) * 3 + k / 3
}

/// The column of cell `k` of block `b`.
pub open spec fn block_col(b: int, k: int) -> int {
    (b % 3) * 3 + k % 3
}

/// The number of the block that holds cell (`r`, `c`).
pub open spec fn block_of(r: int, c: int) -> int {
    (r / 3) * 3 + c / 3
}

/// The place of cell (`r`, `c`) within its block, counted row by row.
pub open spec fn block_pos(r: int, c: int) -> int {
    (r % 3) * 3 + c % 3
}

/// Cell (`r`, `c`) is another cell than (`i`, `j`) and shares its row, its column or
/// its block.
pub open spec fn is_peer(i: int, j: int, r: int, c: int) -> bool {
    (r != i || c != j) && (r == i || c == j || block_of(r, c) == block_of(i, j))
}

/// Cell (`i`, `j`) comes before cell (`r`, `c`) when the grid is read row by row.
pub open spec fn comes_before(i: int, j: int, r: int, c: int) -> bool {
    i < r || (i == r && j < c)
}

/// The row of cell `j` of region `k`. The 27 regions are numbered in the order in
/// which they are visited: the rows 0 to 8, then the columns 9 to 17, then the blocks
/// 18 to 26.
pub open spec fn region_row(k: int, j: int) -> int {
    if k < 9 {
        k
    } else if k < 18 {
        j
    } else {
        block_row(k - 18, j)
    }
}

/// The column of cell `j` of region `k`.
pub open spec fn region_col(k: int, j: int) -> int {
    if k < 9 {
        j
    } else if k < 18 {
        k - 9
    } else {
        block_col(k - 18, j)
    }
}

/// Every region keeps inside the grid, and no two of its nine cells are the same cell.
pub proof fn lemma_region_cells(k: int)
    requires
        0 <= k < 27,
    ensures
        forall|j: int|
            0 <= j < 9 ==> 0 <= #[trigger] region_row(k, j) < 9 && 0 <= region_col(k, j) < 9,
        forall|i: int, j: int|
            0 <= i < 9 && 0 <= j < 9 && i != j ==> #[trigger] region_row(k, i) != #[trigger] region_row(k, j)
                || region_col(k, i) != region_col(k, j),
{
}

impl<T> View for Sudoku<T> {
    type V = Seq<Seq<T>>;

    /// The nine rows, each a sequence of nine cells.
    open spec fn view(&self) -> Seq<Seq<T>> {
        Seq::new(9, |r: int| Seq::new(9, |c: int| self.at(r, c)))
    }
}

impl<T> Sudoku<T> {
    /// The cell in row `r` and column `c`, both counted from 0.
    pub closed spec fn at(self, r: int, c: int) -> T {
        self.arr[r][c]
    }

    /// Cell `j` of region `k`.
    pub open spec fn region_cell(self, k: int, j: int) -> T {
        self.at(region_row(k, j), region_col(k, j))
    }

    /// `self` is `before` with the cell at (`r`, `c`) replaced by `v`.
    pub open spec fn is_update_of(self, before: Sudoku<T>, r: int, c: int, v: T) -> bool {
        forall|i: int, j: int|
            0 <= i < 9 && 0 <= j < 9 ==> #[trigger] self.at(i, j) == if i == r && j == c {
                v
            } else {
                before.at(i, j)
            }
    }

    /// Grids that agree in all 81 cells are the same grid.
    pub proof fn lemma_ext_equal(self, other: Sudoku<T>)
        requires
            forall|r: int, c: int| 0 <= r < 9 && 0 <= c < 9 ==> self.at(r, c) == other.at(r, c),
        ensures
            self == other,
    {
        assert forall|r: int| 0 <= r < 9 implies self.arr[r] == other.arr[r] by {
            assert forall|c: int| 0 <= c < 9 implies self.arr[r][c] == other.arr[r][c] by {
                assert(self.at(r, c) == other.at(r, c));
            }
            assert(self.arr[r] =~= other.arr[r]);
        }
        assert(self.arr =~= other.arr);
    }

    /// The grid made of the given rows.
    pub fn new(arr: [[T; 9]; 9]) -> (s: Sudoku<T>)
        ensures
            forall|r: int, c: int| 0 <= r < 9 && 0 <= c < 9 ==> s.at(r, c) == arr[r][c],
    {
        Sudoku { arr }
    }

    /// The cell in row `r` and column `c`.
    pub fn get(&self, r: Ix, c: Ix) -> (cell: &T)
        ensures
            *cell == self.at(r.index(), c.index()),
    {
        &self.arr[usize::from(r)][usize::from(c)]
    }

    /// Puts `value` into the cell in row `r` and column `c`; no other cell changes.
    pub fn set(&mut self, r: Ix, c: Ix, value: T)
        ensures
            final(self).is_update_of(*old(self), r.index(), c.index(), value),
    {
        self.arr[usize::from(r)][usize::from(c)] = value;
    }

    /// The cell in row `r` and column `c`, for writing: what is written through the
    /// reference is written into the grid, and no other cell changes.
    pub fn get_mut(&mut self, r: Ix, c: Ix) -> (cell: &mut T)
        ensures
            *cell == old(self).at(r.index(), c.index()),
            final(self).is_update_of(*old(self), r.index(), c.index(), *final(cell)),
    {
        &mut self.arr[usize::from(r)][usize::from(c)]
    }

    /// The cell in row `r` and column `c`, by position.
    pub(crate) fn cell(&self, r: usize, c: usize) -> (cell: &T)
        requires
            r < 9,
            c < 9,
        ensures
            *cell == self.at(r as int, c as int),
    {
        &self.arr[r][c]
    }

    /// The cell in row `r` and column `c`, by position, for writing.
    pub(crate) fn cell_mut(&mut self, r: usize, c: usize) -> (cell: &mut T)
        requires
            r < 9,
            c < 9,
        ensures
            *cell == old(self).at(r as int, c as int),
            final(self).is_update_of(*old(self), r as int, c as int, *final(cell)),
    {
        &mut self.arr[r][c]
    }

    /// Cell `j` of region `k`, by position.
    pub(crate) fn region_at(&self, k: usize, j: usize) -> (cell: &T)
        requires
            k < 27,
            j < 9,
        ensures
            *cell == self.region_cell(k as int, j as int),
            0 <= region_row(k as int, j as int) < 9,
            0 <= region_col(k as int, j as int) < 9,
    {
        if k < 9 {
            &self.arr[k][j]
        } else if k < 18 {
            &self.arr[j][k - 9]
        } else {
            let b = k - 18;
            &self.arr[(b / 3) * 3 + j / 3][(b % 3) * 3 + j % 3]
        }
    }

    /// All 81 cells, row by row.
    pub fn iter(&self) -> (cells: Vec<&T>)
        ensures
            cells@.len() == 81,
            forall|r: int, c: int|
                0 <= r < 9 && 0 <= c < 9 ==> *cells@[9 * r + c] == #[trigger] self.at(r, c),
    {
        let mut cells: Vec<&T> = Vec::new();
        let mut r: usize = 0;
        while r < 9
            invariant
                r <= 9,
                cells@.len() == 9 * r,
                forall|i: int, j: int|
                    0 <= i < r && 0 <= j < 9 ==> *cells@[9 * i + j] == #[trigger] self.at(i, j),
            decreases 9 - r,
        {
            let mut c: usize = 0;
            while c < 9
                invariant
                    r < 9,
                    c <= 9,
                    cells@.len() == 9 * r + c,
                    forall|i: int, j: int|
                        0 <= i < r && 0 <= j < 9 ==> *cells@[9 * i + j] == #[trigger] self.at(i, j),
                    forall|j: int| 0 <= j < c ==> *cells@[9 * r + j] == #[trigger] self.at(r as int, j),
                decreases 9 - c,
            {
                cells.push(&self.arr[r][c]);
                c += 1;
            }
            r += 1;
        }
        cells
    }

    /// Cell number `k` of the row-by-row traversal, for writing; `None` where `k` is
    /// past the last cell.
    pub fn iter_mut(&mut self, k: usize) -> (cell: Option<&mut T>)
        ensures
            cell is Some <==> k < 81,
            match cell {
                Some(cell) => {
                    &&& *cell == old(self).at(k as int / 9, k as int % 9)
                    &&& final(self).is_update_of(*old(self), k as int / 9, k as int % 9, *final(cell))
                },
                None => *final(self) == *old(self),
            },
    {
        if k < 81 {
            Some(&mut self.arr[k / 9][k % 9])
        } else {
            None
        }
    }

    /// All 81 cells with their coordinates, row by row: rows from first to last, and
    /// within a row the columns from first to last.
    pub fn iter_with_index(&self) -> (cells: Vec<(Ix, Ix, &T)>)
        ensures
            cells@.len() == 81,
            forall|r: int, c: int|
                0 <= r < 9 && 0 <= c < 9 ==> {
                    let item = #[trigger] cells@[9 * r + c];
                    item.0.index() == r && item.1.index() == c && *item.2 == self.at(r, c)
                },
    {
        let ixs = Ix::all_indices();
        let mut cells: Vec<(Ix, Ix, &T)> = Vec::new();
        let mut r: usize = 0;
        while r < 9
            invariant
                r <= 9,
                cells@.len() == 9 * r,
                forall|k: int| 0 <= k < 9 ==> (#[trigger] ixs[k]).index() == k,
                forall|i: int, j: int|
                    0 <= i < r && 0 <= j < 9 ==> {
                        let item = #[trigger] cells@[9 * i + j];
                        item.0.index() == i && item.1.index() == j && *item.2 == self.at(i, j)
                    },
            decreases 9 - r,
        {
            let mut c: usize = 0;
            while c < 9
                invariant
                    r < 9,
                    c <= 9,
                    cells@.len() == 9 * r + c,
                    forall|k: int| 0 <= k < 9 ==> (#[trigger] ixs[k]).index() == k,
                    forall|i: int, j: int|
                        0 <= i < r && 0 <= j < 9 ==> {
                            let item = #[trigger] cells@[9 * i + j];
                            item.0.index() == i && item.1.index() == j && *item.2 == self.at(i, j)
                        },
                    forall|j: int|
                        0 <= j < c ==> {
                            let item = #[trigger] cells@[9 * r + j];
                            item.0.index() == r && item.1.index() == j && *item.2 == self.at(
                                r as int,
                                j,
                            )
                        },
                decreases 9 - c,
            {
                cells.push((ixs[r], ixs[c], &self.arr[r][c]));
                c += 1;
            }
            r += 1;
        }
        cells
    }

    /// The nine cells of row `r`, from the first column to the last.
    pub fn row(&self, r: Ix) -> (cells: Vec<&T>)
        ensures
            cells@.len() == 9,
            forall|k: int| 0 <= k < 9 ==> *(#[trigger] cells@[k]) == self.at(r.index(), k),
    {
        let r = usize::from(r);
        let mut cells: Vec<&T> = Vec::new();
        let mut k: usize = 0;
        while k < 9
            invariant
                r < 9,
                k <= 9,
                cells@.len() == k,
                forall|j: int| 0 <= j < k ==> *(#[trigger] cells@[j]) == self.at(r as int, j),
            decreases 9 - k,
        {
            cells.push(&self.arr[r][k]);
            k += 1;
        }
        cells
    }

    /// Cell `k` of row `r`, for writing.
    pub fn row_mut(&mut self, r: Ix, k: Ix) -> (cell: &mut T)
        ensures
            *cell == old(self).at(r.index(), k.index()),
            final(self).is_update_of(*old(self), r.index(), k.index(), *final(cell)),
    {
        &mut self.arr[usize::from(r)][usize::from(k)]
    }

    /// The nine cells of column `c`, from the first row to the last.
    pub fn col(&self, c: Ix) -> (cells: Vec<&T>)
        ensures
            cells@.len() == 9,
            forall|k: int| 0 <= k < 9 ==> *(#[trigger] cells@[k]) == self.at(k, c.index()),
    {
        let c = usize::from(c);
        let mut cells: Vec<&T> = Vec::new();
        let mut k: usize = 0;
        while k < 9
            invariant
                c < 9,
                k <= 9,
                cells@.len() == k,
                forall|j: int| 0 <= j < k ==> *(#[trigger] cells@[j]) == self.at(j, c as int),
            decreases 9 - k,
        {
            cells.push(&self.arr[k][c]);
            k += 1;
        }
        cells
    }

    /// Cell `k` of column `c`, for writing.
    pub fn col_mut(&mut self, c: Ix, k: Ix) -> (cell: &mut T)
        ensures
            *cell == old(self).at(k.index(), c.index()),
            final(self).is_update_of(*old(self), k.index(), c.index(), *final(cell)),
    {
        &mut self.arr[usize::from(k)][usize::from(c)]
    }

    /// The nine cells of the 3x3 square whose top left cell is (`r_min`, `c_min`),
    /// row by row.
    fn square(&self, r_min: usize, c_min: usize) -> (cells: Vec<&T>)
        requires
            r_min <= 6,
            c_min <= 6,
        ensures
            cells@.len() == 9,
            forall|k: int|
                0 <= k < 9 ==> *(#[trigger] cells@[k]) == self.at(r_min + k / 3, c_min + k % 3),
    {
        let mut cells: Vec<&T> = Vec::new();
        let mut k: usize = 0;
        while k < 9
            invariant
                r_min <= 6,
                c_min <= 6,
                k <= 9,
                cells@.len() == k,
                forall|j: int|
                    0 <= j < k ==> *(#[trigger] cells@[j]) == self.at(r_min + j / 3, c_min + j % 3),
            decreases 9 - k,
        {
            cells.push(&self.arr[r_min + k / 3][c_min + k % 3]);
            k += 1;
        }
        cells
    }

    /// The nine cells of block `block_ix`, row by row. Block `b` starts in row
    /// `(b / 3) * 3` and column `(b % 3) * 3`.
    pub fn block(&self, block_ix: Ix) -> (cells: Vec<&T>)
        ensures
            cells@.len() == 9,
            forall|k: int|
                0 <= k < 9 ==> *(#[trigger] cells@[k]) == self.at(
                    block_row(block_ix.index(), k),
                    block_col(block_ix.index(), k),
                ),
    {
        let b = usize::from(block_ix);
        self.square((b / 3) * 3, (b % 3) * 3)
    }

    /// Cell `k` of block `block_ix`, for writing.
    pub fn block_mut(&mut self, block_ix: Ix, k: Ix) -> (cell: &mut T)
        ensures
            *cell == old(self).at(
                block_row(block_ix.index(), k.index()),
                block_col(block_ix.index(), k.index()),
            ),
            final(self).is_update_of(
                *old(self),
                block_row(block_ix.index(), k.index()),
                block_col(block_ix.index(), k.index()),
                *final(cell),
            ),
    {
        let b = usize::from(block_ix);
        let k = usize::from(k);
        &mut self.arr[(b / 3) * 3 + k / 3][(b % 3) * 3 + k % 3]
    }

    /// The nine cells of the block that holds cell (`r`, `c`), row by row.
    pub fn block_for_cell(&self, r: Ix, c: Ix) -> (cells: Vec<&T>)
        ensures
            cells@.len() == 9,
            forall|k: int|
                0 <= k < 9 ==> *(#[trigger] cells@[k]) == self.at(
                    block_row(block_of(r.index(), c.index()), k),
                    block_col(block_of(r.index(), c.index()), k),
                ),
    {
        let r = usize::from(r);
        let c = usize::from(c);
        self.square((r / 3) * 3, (c / 3) * 3)
    }

    /// Cell `k` of the block that holds cell (`r`, `c`), for writing.
    pub fn block_for_cell_mut(&mut self, r: Ix, c: Ix, k: Ix) -> (cell: &mut T)
        ensures
            *cell == old(self).at(
                block_row(block_of(r.index(), c.index()), k.index()),
                block_col(block_of(r.index(), c.index()), k.index()),
            ),
            final(self).is_update_of(
                *old(self),
                block_row(block_of(r.index(), c.index()), k.index()),
                block_col(block_of(r.index(), c.index()), k.index()),
                *final(cell),
            ),
    {
        let r = usize::from(r);
        let c = usize::from(c);
        let k = usize::from(k);
        &mut self.arr[(r / 3) * 3 + k / 3][(c / 3) * 3 + k % 3]
    }
}

impl<T: Clone> Clone for Sudoku<T> {
    /// A grid whose every cell is a clone of the cell in the same place.
    fn clone(&self) -> (res: Self)
        ensures
            forall|r: int, c: int|
                0 <= r < 9 && 0 <= c < 9 ==> cloned(self.at(r, c), #[trigger] res.at(r, c)),
    {
        Sudoku { arr: self.arr.clone() }
    }
}

} // verus!
