use crate::base::grid::{block_col, block_of, block_pos, block_row, is_peer, Sudoku};
use crate::base::number_set::{lemma_difference_twice, NumberSet};
use crate::base::validity::lemma_solved_peers_differ;
use vstd::prelude::*;

verus! {

/// Cell (`r`, `c`) is among the peers of (`i`, `j`) that a sweep has reached once it
/// has gone through `in_row` cells of the row, `in_col` cells of the column and
/// `in_block` cells of the block.
spec fn is_swept(
    i: int,
    j: int,
    in_row: int,
    in_col: int,
    in_block: int,
    r: int,
    c: int,
) -> bool {
    ||| r == i && c != j && c < in_row
    ||| c == j && r != i && r < in_col
    ||| block_of(r, c) == block_of(i, j) && (r != i || c != j) && block_pos(r, c) < in_block
}

/// What one more cell of the block adds to a sweep that is through with row and column.
proof fn lemma_block_sweep(i: int, j: int, k: int, r: int, c: int)
    requires
        0 <= i < 9,
        0 <= j < 9,
        0 <= k < 9,
        0 <= r < 9,
        0 <= c < 9,
    ensures
        (r == block_row(block_of(i, j), k) && c == block_col(block_of(i, j), k)) <==> (block_of(
            r,
            c,
        ) == block_of(i, j) && block_pos(r, c) == k),
        is_swept(i, j, 9, 9, k + 1, r, c) <==> is_swept(i, j, 9, 9, k, r, c) || (block_of(r, c)
            == block_of(i, j) && block_pos(r, c) == k && k != block_pos(i, j)),
{
}

/// From row and column to the number of the block and the place within it.
pub fn ij2sk(i: usize, j: usize) -> (sk: (usize, usize))
    requires
        i < 9,
        j < 9,
    ensures
        sk.0 == block_of(i as int, j as int),
        sk.1 == block_pos(i as int, j as int),
        sk.0 < 9,
        sk.1 < 9,
{
    let s = i / 3 * 3 + j / 3;
    let k = i % 3 * 3 + j % 3;
    (s, k)
}

/// From the number of a block and a place within it to row and column.
pub fn sk2ij(s: usize, k: usize) -> (ij: (usize, usize))
    requires
        s < 9,
        k < 9,
    ensures
        ij.0 == block_row(s as int, k as int),
        ij.1 == block_col(s as int, k as int),
        ij.0 < 9,
        ij.1 < 9,
        block_of(ij.0 as int, ij.1 as int) == s,
        block_pos(ij.0 as int, ij.1 as int) == k,
{
    let i = s / 3 * 3 + k / 3;
    let j = s % 3 * 3 + k % 3;
    (i, j)
}

impl Sudoku<NumberSet> {
    /// The cell at (`r`, `c`) once the propagation pass has dealt with the first `n`
    /// cells in row-major order.
    ///
    /// Dealing with a cell that is resolved at that moment takes its digit away from
    /// each of its peers; dealing with any other cell changes nothing.
    pub open spec fn excluded(self, n: int, r: int, c: int) -> NumberSet
        decreases n,
    {
        if n <= 0 {
            self.at(r, c)
        } else {
            let i = (n - 1) / 9;
            let j = (n - 1) % 9;
            let source = self.excluded(n - 1, i, j);
            let before = self.excluded(n - 1, r, c);
            if source.is_singleton() && is_peer(i, j, r, c) {
                before.difference(source)
            } else {
                before
            }
        }
    }

    /// `self` is what one propagation pass makes of `before`.
    pub open spec fn is_propagation_of(self, before: Sudoku<NumberSet>) -> bool {
        forall|r: int, c: int|
            0 <= r < 9 && 0 <= c < 9 ==> #[trigger] self.at(r, c) == before.excluded(81, r, c)
    }

    /// However far the pass has come, a cell holds no digit that it did not hold before.
    pub proof fn lemma_excluded_subset(self, n: int, r: int, c: int)
        ensures
            self.excluded(n, r, c)@.subset_of(self.at(r, c)@),
        decreases n,
    {
        if n > 0 {
            self.lemma_excluded_subset(n - 1, r, c);
            let source = self.excluded(n - 1, (n - 1) / 9, (n - 1) % 9);
            self.excluded(n - 1, r, c).lemma_difference_view(source);
        }
    }

    /// However far the pass has come, every cell still holds the digit that a solution
    /// of the grid gives it.
    pub proof fn lemma_excluded_keeps_solution(
        self,
        solution: Sudoku<NumberSet>,
        n: int,
        r: int,
        c: int,
    )
        requires
            solution.is_solution_of(self),
            0 <= n <= 81,
            0 <= r < 9,
            0 <= c < 9,
        ensures
            solution.at(r, c)@.subset_of(self.excluded(n, r, c)@),
        decreases n,
    {
        if n > 0 {
            let i = (n - 1) / 9;
            let j = (n - 1) % 9;
            let source = self.excluded(n - 1, i, j);
            let before = self.excluded(n - 1, r, c);
            self.lemma_excluded_keeps_solution(solution, n - 1, r, c);
            self.lemma_excluded_keeps_solution(solution, n - 1, i, j);
            if source.is_singleton() && is_peer(i, j, r, c) {
                before.lemma_difference_view(source);
                source.lemma_singleton_digit();
                let given = solution.at(i, j);
                assert(given.is_singleton());
                given.lemma_singleton_digit();
                assert(given@.contains(given.digit()));
                assert(source@.contains(given.digit()));
                assert(source@ =~= given@);
                lemma_solved_peers_differ(solution, i, j, r, c);
                assert forall|d: int| solution.at(r, c)@.contains(d) implies before.difference(
                    source,
                )@.contains(d) by {
                    assert(before@.contains(d));
                    assert(!given@.contains(d));
                }
            }
        }
    }

    /// Propagation is sound: it leaves every cell a subset of what it was, and every
    /// solution of the grid before the pass is a solution of the grid after it. The
    /// grids before and after have the same solutions.
    pub proof fn lemma_propagation_sound(self, before: Sudoku<NumberSet>)
        requires
            self.is_propagation_of(before),
        ensures
            forall|r: int, c: int|
                0 <= r < 9 && 0 <= c < 9 ==> (#[trigger] self.at(r, c))@.subset_of(before.at(r, c)@),
            forall|solution: Sudoku<NumberSet>| #[trigger]
                solution.is_solution_of(before) <==> solution.is_solution_of(self),
    {
        assert forall|r: int, c: int| 0 <= r < 9 && 0 <= c < 9 implies (#[trigger] self.at(
            r,
            c,
        ))@.subset_of(before.at(r, c)@) by {
            before.lemma_excluded_subset(81, r, c);
        }
        assert forall|solution: Sudoku<NumberSet>| #[trigger]
            solution.is_solution_of(before) <==> solution.is_solution_of(self) by {
            if solution.is_solution_of(before) {
                assert forall|r: int, c: int| 0 <= r < 9 && 0 <= c < 9 implies (
                #[trigger] solution.at(r, c))@.subset_of(self.at(r, c)@) by {
                    before.lemma_excluded_keeps_solution(solution, 81, r, c);
                }
            }
            if solution.is_solution_of(self) {
                assert forall|r: int, c: int| 0 <= r < 9 && 0 <= c < 9 implies (
                #[trigger] solution.at(r, c))@.subset_of(before.at(r, c)@) by {
                    assert(self.at(r, c)@.subset_of(before.at(r, c)@));
                }
            }
        }
    }

    /// Takes `source` away from every peer of cell (`i`, `j`): the other cells of its
    /// row, of its column and of its block.
    fn exclude_from_peers(&mut self, i: usize, j: usize, source: NumberSet)
        requires
            i < 9,
            j < 9,
        ensures
            forall|r: int, c: int|
                0 <= r < 9 && 0 <= c < 9 ==> #[trigger] final(self).at(r, c) == if is_peer(
                    i as int,
                    j as int,
                    r,
                    c,
                ) {
                    old(self).at(r, c).difference(source)
                } else {
                    old(self).at(r, c)
                },
    {
        let ghost before = *self;
        let ghost ii = i as int;
        let ghost jj = j as int;
        let mut k: usize = 0;
        while k < 9
            invariant
                i < 9,
                j < 9,
                k <= 9,
                ii == i,
                jj == j,
                forall|r: int, c: int|
                    0 <= r < 9 && 0 <= c < 9 ==> #[trigger] self.at(r, c) == if is_swept(
                        ii,
                        jj,
                        k as int,
                        0,
                        0,
                        r,
                        c,
                    ) {
                        before.at(r, c).difference(source)
                    } else {
                        before.at(r, c)
                    },
            decreases 9 - k,
        {
            if k != j {
                let cell = self.cell_mut(i, k);
                *cell = *cell - source;
            }
            k += 1;
        }
        let mut k: usize = 0;
        while k < 9
            invariant
                i < 9,
                j < 9,
                k <= 9,
                ii == i,
                jj == j,
                forall|r: int, c: int|
                    0 <= r < 9 && 0 <= c < 9 ==> #[trigger] self.at(r, c) == if is_swept(
                        ii,
                        jj,
                        9,
                        k as int,
                        0,
                        r,
                        c,
                    ) {
                        before.at(r, c).difference(source)
                    } else {
                        before.at(r, c)
                    },
            decreases 9 - k,
        {
            if k != i {
                let cell = self.cell_mut(k, j);
                *cell = *cell - source;
            }
            k += 1;
        }
        let (sq, sqi) = ij2sk(i, j);
        let mut k: usize = 0;
        while k < 9
            invariant
                i < 9,
                j < 9,
                k <= 9,
                ii == i,
                jj == j,
                sq == block_of(ii, jj),
                sqi == block_pos(ii, jj),
                sq < 9,
                forall|r: int, c: int|
                    0 <= r < 9 && 0 <= c < 9 ==> #[trigger] self.at(r, c) == if is_swept(
                        ii,
                        jj,
                        9,
                        9,
                        k as int,
                        r,
                        c,
                    ) {
                        before.at(r, c).difference(source)
                    } else {
                        before.at(r, c)
                    },
            decreases 9 - k,
        {
            let ghost swept = *self;
            if k != sqi {
                let (i2, j2) = sk2ij(sq, k);
                proof {
                    lemma_difference_twice(before.at(i2 as int, j2 as int), source);
                }
                let cell = self.cell_mut(i2, j2);
                *cell = *cell - source;
            }
            proof {
                assert forall|r: int, c: int| 0 <= r < 9 && 0 <= c < 9 implies #[trigger] self.at(
                    r,
                    c,
                ) == if is_swept(ii, jj, 9, 9, k + 1, r, c) {
                    before.at(r, c).difference(source)
                } else {
                    before.at(r, c)
                } by {
                    lemma_block_sweep(ii, jj, k as int, r, c);
                    assert(swept.at(r, c) == if is_swept(ii, jj, 9, 9, k as int, r, c) {
                        before.at(r, c).difference(source)
                    } else {
                        before.at(r, c)
                    });
                }
            }
            k += 1;
        }
    }
}

/// One pass of constraint propagation over the grid, cell by cell in row-major order.
///
/// For each cell that is resolved when the pass reaches it, its digit is taken away
/// from the candidates of its peers. The pass adds no candidate, it does not repeat
/// itself until nothing changes, and it reports nothing: a cell that loses its last
/// candidate is left empty.
pub fn compute_exclude(solver_state: &mut Sudoku<NumberSet>)
    ensures
        final(solver_state).is_propagation_of(*old(solver_state)),
        forall|r: int, c: int|
            0 <= r < 9 && 0 <= c < 9 ==> (#[trigger] final(solver_state).at(r, c))@.subset_of(
                old(solver_state).at(r, c)@,
            ),
{
    let ghost start = *solver_state;
    proof {
        assert forall|r: int, c: int| 0 <= r < 9 && 0 <= c < 9 implies (#[trigger] start.excluded(
            81,
            r,
            c,
        ))@.subset_of(start.at(r, c)@) by {
            start.lemma_excluded_subset(81, r, c);
        }
    }
    let mut i: usize = 0;
    while i < 9
        invariant
            i <= 9,
            forall|r: int, c: int|
                0 <= r < 9 && 0 <= c < 9 ==> #[trigger] solver_state.at(r, c) == start.excluded(
                    9 * i,
                    r,
                    c,
                ),
        decreases 9 - i,
    {
        let mut j: usize = 0;
        while j < 9
            invariant
                i < 9,
                j <= 9,
                forall|r: int, c: int|
                    0 <= r < 9 && 0 <= c < 9 ==> #[trigger] solver_state.at(r, c) == start.excluded(
                        9 * i + j,
                        r,
                        c,
                    ),
            decreases 9 - j,
        {
            let cell_num_set = *solver_state.cell(i, j);
            let ghost n = 9 * i + j + 1;
            assert((n - 1) / 9 == i && (n - 1) % 9 == j);
            if cell_num_set.is_singleton() {
                solver_state.exclude_from_peers(i, j, cell_num_set);
            }
            j += 1;
        }
        i += 1;
    }
}

} // verus!
