use crate::base::grid::{comes_before, lemma_region_cells, region_col, region_row, Sudoku};
use crate::base::number_set::NumberSet;
use vstd::prelude::*;

verus! {

/// Two resolved sets of which one holds nothing that the other lacks hold the same digit.
pub proof fn lemma_resolved_subset(a: NumberSet, b: NumberSet)
    requires
        a.is_singleton(),
        b.is_singleton(),
        a@.subset_of(b@),
    ensures
        a@ =~= b@,
        a.digit() == b.digit(),
{
    a.lemma_singleton_digit();
    b.lemma_singleton_digit();
    assert(a@.contains(a.digit()));
    assert(b@.contains(a.digit()));
}

/// A set with a digit left that holds nothing but what a resolved set holds is resolved.
pub proof fn lemma_subset_of_resolved(a: NumberSet, b: NumberSet)
    requires
        !a.is_empty(),
        b.is_singleton(),
        a@.subset_of(b@),
    ensures
        a.is_singleton(),
{
    b.lemma_singleton_digit();
    let d = b.digit();
    if !a@.contains(d) {
        assert(a@ =~= Set::<int>::empty());
    }
    assert(a@ =~= set![d]);
    a.lemma_digit_of(d);
}

impl Sudoku<NumberSet> {
    /// Every cell that comes before (`r`, `c`) in row-major order is resolved.
    pub open spec fn resolved_before(self, r: int, c: int) -> bool {
        forall|i: int, j: int|
            0 <= i < 9 && 0 <= j < 9 && comes_before(i, j, r, c) ==> (#[trigger] self.at(
                i,
                j,
            )).is_singleton()
    }

    /// The two grids hold the same digits in every cell that comes before (`r`, `c`).
    pub open spec fn agrees_before(self, other: Sudoku<NumberSet>, r: int, c: int) -> bool {
        forall|i: int, j: int|
            0 <= i < 9 && 0 <= j < 9 && comes_before(i, j, r, c) ==> (#[trigger] self.at(i, j))@
                =~= other.at(i, j)@
    }

    /// The two grids hold the same digits in every cell.
    pub open spec fn same_digits(self, other: Sudoku<NumberSet>) -> bool {
        forall|r: int, c: int|
            0 <= r < 9 && 0 <= c < 9 ==> (#[trigger] self.at(r, c))@ =~= other.at(r, c)@
    }

    /// (`r`, `c`) is the first cell in which the two grids differ, and there `self`
    /// holds the smaller digit.
    pub open spec fn precedes_at(self, other: Sudoku<NumberSet>, r: int, c: int) -> bool {
        &&& 0 <= r < 9
        &&& 0 <= c < 9
        &&& self.agrees_before(other, r, c)
        &&& self.at(r, c).digit() < other.at(r, c).digit()
    }

    /// `self` comes before `other` when finished grids are ordered by their digits
    /// read row by row.
    pub open spec fn precedes(self, other: Sudoku<NumberSet>) -> bool {
        exists|r: int, c: int| #[trigger] self.precedes_at(other, r, c)
    }

    /// `self` is the solution of `puzzle` that comes first: every other solution
    /// comes after it in row-major order of the digits.
    pub open spec fn is_first_solution_of(self, puzzle: Sudoku<NumberSet>) -> bool {
        &&& self.is_solution_of(puzzle)
        &&& forall|other: Sudoku<NumberSet>| #[trigger]
            other.is_solution_of(puzzle) ==> self.same_digits(other) || self.precedes(other)
    }

    /// How many of the first `n` cells, counted row by row, are not resolved.
    pub open spec fn unresolved(self, n: int) -> nat
        decreases n,
    {
        if n <= 0 {
            0
        } else if self.at((n - 1) / 9, (n - 1) % 9).is_singleton() {
            self.unresolved(n - 1)
        } else {
            self.unresolved(n - 1) + 1
        }
    }

    /// A solution gives each cell one digit, and that digit is a candidate of the puzzle.
    pub proof fn lemma_solution_cell(self, puzzle: Sudoku<NumberSet>, r: int, c: int)
        requires
            self.is_solution_of(puzzle),
            0 <= r < 9,
            0 <= c < 9,
        ensures
            self.at(r, c).is_singleton(),
            self.at(r, c)@ =~= set![self.at(r, c).digit()],
            1 <= self.at(r, c).digit() <= 9,
            puzzle.at(r, c)@.contains(self.at(r, c).digit()),
    {
        assert(self.at(r, c).is_singleton());
        self.at(r, c).lemma_singleton_digit();
        assert(self.at(r, c)@.contains(self.at(r, c).digit()));
        assert(self.at(r, c)@.subset_of(puzzle.at(r, c)@));
    }

    /// Where the puzzle has a cell resolved, every solution holds the same digit.
    pub proof fn lemma_solution_keeps_given(self, puzzle: Sudoku<NumberSet>, r: int, c: int)
        requires
            self.is_solution_of(puzzle),
            0 <= r < 9,
            0 <= c < 9,
            puzzle.at(r, c).is_singleton(),
        ensures
            self.at(r, c)@ =~= puzzle.at(r, c)@,
    {
        self.lemma_solution_cell(puzzle, r, c);
        lemma_resolved_subset(self.at(r, c), puzzle.at(r, c));
    }

    /// Valid grids with the same digits in every cell are the same grid.
    pub proof fn lemma_same_digits_equal(self, other: Sudoku<NumberSet>)
        requires
            self.cells_valid(),
            other.cells_valid(),
            self.same_digits(other),
        ensures
            self == other,
    {
        assert forall|r: int, c: int| 0 <= r < 9 && 0 <= c < 9 implies self.at(r, c) == other.at(
            r,
            c,
        ) by {
            assert(self.at(r, c).wf() && other.at(r, c).wf());
            assert(self.at(r, c)@ =~= other.at(r, c)@);
            self.at(r, c).lemma_view_injective(other.at(r, c));
        }
        self.lemma_ext_equal(other);
    }

    /// Grids with the same digits in every cell have the same digits in every region.
    pub proof fn lemma_same_digits_regions(self, other: Sudoku<NumberSet>, k: int, n: int)
        requires
            self.same_digits(other),
            0 <= k < 27,
            0 <= n <= 9,
        ensures
            self.region_union(k, n) =~= other.region_union(k, n),
        decreases n,
    {
        if n > 0 {
            self.lemma_same_digits_regions(other, k, n - 1);
            lemma_region_cells(k);
            assert(self.at(region_row(k, n - 1), region_col(k, n - 1))@ =~= other.at(
                region_row(k, n - 1),
                region_col(k, n - 1),
            )@);
        }
    }

    /// A grid with the digits of a solved grid is solved.
    pub proof fn lemma_same_digits_solved(self, other: Sudoku<NumberSet>)
        requires
            self.same_digits(other),
            other.spec_is_solved(),
        ensures
            self.spec_is_solved(),
    {
        assert forall|r: int, c: int| 0 <= r < 9 && 0 <= c < 9 implies (#[trigger] self.at(
            r,
            c,
        )).is_singleton() by {
            assert(other.at(r, c).is_singleton());
            assert(self.at(r, c)@ =~= other.at(r, c)@);
        }
        assert forall|k: int| 0 <= k < 27 implies #[trigger] self.region_covers_all(k) by {
            self.lemma_same_digits_regions(other, k, 9);
            assert(other.region_covers_all(k));
        }
    }

    /// A solved grid is its own first solution: it has no other.
    pub proof fn lemma_solved_is_first_solution(self)
        requires
            self.spec_is_solved(),
        ensures
            self.is_first_solution_of(self),
    {
        assert forall|other: Sudoku<NumberSet>| #[trigger]
            other.is_solution_of(self) implies self.same_digits(other) by {
            assert forall|r: int, c: int| 0 <= r < 9 && 0 <= c < 9 implies (#[trigger] self.at(
                r,
                c,
            ))@ =~= other.at(r, c)@ by {
                assert(self.at(r, c).is_singleton());
                other.lemma_solution_keeps_given(self, r, c);
            }
        }
    }

    /// An invalid grid has no solution.
    pub proof fn lemma_invalid_has_no_solution(self)
        requires
            self.spec_is_invalid(),
        ensures
            !self.has_solution(),
    {
        if self.has_solution() {
            let s = choose|s: Sudoku<NumberSet>| #[trigger] s.is_solution_of(self);
            if self.has_empty_cell() {
                let (r, c) = choose|r: int, c: int|
                    0 <= r < 9 && 0 <= c < 9 && (#[trigger] self.at(r, c)).is_empty();
                s.lemma_solution_cell(self, r, c);
                assert(false);
            } else {
                let k = choose|k: int| 0 <= k < 27 && #[trigger] self.region_repeats(k, 9);
                let (i, j) = choose|i: int, j: int|
                    0 <= i < j < 9 && (#[trigger] self.region_cell(k, i)).is_singleton() && (
                    #[trigger] self.region_cell(k, j))@ =~= self.region_cell(k, i)@;
                lemma_region_cells(k);
                s.lemma_solution_keeps_given(self, region_row(k, i), region_col(k, i));
                s.lemma_solution_keeps_given(self, region_row(k, j), region_col(k, j));
                s.lemma_solved_region_distinct(k, i, j);
                s.lemma_region_cell_resolved(k, i);
                assert(s.region_cell(k, i)@.contains(s.region_cell(k, i).digit()));
                assert(false);
            }
        }
    }

    /// A grid whose cells are all resolved but which is not solved has no solution.
    pub proof fn lemma_resolved_unsolved_has_no_solution(self)
        requires
            self.all_resolved(),
            !self.spec_is_solved(),
        ensures
            !self.has_solution(),
    {
        if self.has_solution() {
            let s = choose|s: Sudoku<NumberSet>| #[trigger] s.is_solution_of(self);
            assert forall|r: int, c: int| 0 <= r < 9 && 0 <= c < 9 implies (#[trigger] self.at(
                r,
                c,
            ))@ =~= s.at(r, c)@ by {
                assert(self.at(r, c).is_singleton());
                s.lemma_solution_keeps_given(self, r, c);
            }
            self.lemma_same_digits_solved(s);
        }
    }

    /// Resolving one unresolved cell leaves one unresolved cell fewer.
    pub proof fn lemma_unresolved_after_update(
        self,
        before: Sudoku<NumberSet>,
        r: int,
        c: int,
        v: NumberSet,
        n: int,
    )
        requires
            self.is_update_of(before, r, c, v),
            0 <= r < 9,
            0 <= c < 9,
            0 <= n <= 81,
            v.is_singleton(),
            !before.at(r, c).is_singleton(),
        ensures
            self.unresolved(n) + (if 9 * r + c < n {
                1nat
            } else {
                0nat
            }) == before.unresolved(n),
        decreases n,
    {
        if n > 0 {
            self.lemma_unresolved_after_update(before, r, c, v, n - 1);
            let i = (n - 1) / 9;
            let j = (n - 1) % 9;
            assert(self.at(i, j) == if i == r && j == c {
                v
            } else {
                before.at(i, j)
            });
        }
    }

    /// A grid that keeps every resolved cell of another resolved has no more
    /// unresolved cells than the other.
    pub proof fn lemma_unresolved_monotone(self, before: Sudoku<NumberSet>, n: int)
        requires
            0 <= n <= 81,
            forall|r: int, c: int|
                0 <= r < 9 && 0 <= c < 9 && (#[trigger] before.at(r, c)).is_singleton() ==> self.at(
                    r,
                    c,
                ).is_singleton(),
        ensures
            self.unresolved(n) <= before.unresolved(n),
        decreases n,
    {
        if n > 0 {
            self.lemma_unresolved_monotone(before, n - 1);
            let i = (n - 1) / 9;
            let j = (n - 1) % 9;
            if before.at(i, j).is_singleton() {
                assert(self.at(i, j).is_singleton());
            }
        }
    }

    /// A solution of the puzzle that holds `v` in cell (`r`, `c`) is a solution of the
    /// puzzle with that cell set to `v`, and the other way round where `v` is among the
    /// candidates of the cell.
    pub proof fn lemma_solution_of_update(
        self,
        puzzle: Sudoku<NumberSet>,
        narrowed: Sudoku<NumberSet>,
        r: int,
        c: int,
        v: NumberSet,
    )
        requires
            narrowed.is_update_of(puzzle, r, c, v),
            0 <= r < 9,
            0 <= c < 9,
        ensures
            self.is_solution_of(puzzle) && self.at(r, c)@.subset_of(v@) ==> self.is_solution_of(
                narrowed,
            ),
            self.is_solution_of(narrowed) && v@.subset_of(puzzle.at(r, c)@) ==> self.is_solution_of(
                puzzle,
            ),
    {
        if self.is_solution_of(puzzle) && self.at(r, c)@.subset_of(v@) {
            assert forall|i: int, j: int| 0 <= i < 9 && 0 <= j < 9 implies (#[trigger] self.at(
                i,
                j,
            ))@.subset_of(narrowed.at(i, j)@) by {
                assert(narrowed.at(i, j) == if i == r && j == c {
                    v
                } else {
                    puzzle.at(i, j)
                });
            }
        }
        if self.is_solution_of(narrowed) && v@.subset_of(puzzle.at(r, c)@) {
            assert forall|i: int, j: int| 0 <= i < 9 && 0 <= j < 9 implies (#[trigger] self.at(
                i,
                j,
            ))@.subset_of(puzzle.at(i, j)@) by {
                assert(narrowed.at(i, j) == if i == r && j == c {
                    v
                } else {
                    puzzle.at(i, j)
                });
                assert(self.at(i, j)@.subset_of(narrowed.at(i, j)@));
            }
        }
    }

    /// The first solution of the puzzle narrowed to digit `d` in its first unresolved
    /// cell is the first solution of the puzzle, where no solution holds a smaller
    /// digit in that cell.
    pub proof fn lemma_first_solution_of_branch(
        self,
        puzzle: Sudoku<NumberSet>,
        narrowed: Sudoku<NumberSet>,
        r: int,
        c: int,
        v: NumberSet,
        d: int,
    )
        requires
            0 <= r < 9,
            0 <= c < 9,
            puzzle.resolved_before(r, c),
            narrowed.is_update_of(puzzle, r, c, v),
            v@ =~= set![d],
            puzzle.at(r, c)@.contains(d),
            self.is_first_solution_of(narrowed),
            forall|other: Sudoku<NumberSet>| #[trigger]
                other.is_solution_of(puzzle) ==> other.at(r, c).digit() >= d,
        ensures
            self.is_first_solution_of(puzzle),
    {
        self.lemma_solution_of_update(puzzle, narrowed, r, c, v);
        assert(narrowed.at(r, c) == v);
        v.lemma_digit_of(d);
        self.lemma_solution_keeps_given(narrowed, r, c);
        self.at(r, c).lemma_digit_of(d);
        assert forall|other: Sudoku<NumberSet>| #[trigger]
            other.is_solution_of(puzzle) implies self.same_digits(other) || self.precedes(
            other,
        ) by {
            other.lemma_solution_cell(puzzle, r, c);
            if other.at(r, c).digit() == d {
                other.lemma_solution_of_update(puzzle, narrowed, r, c, v);
                assert(other.is_solution_of(narrowed));
            } else {
                assert forall|i: int, j: int|
                    0 <= i < 9 && 0 <= j < 9 && comes_before(i, j, r, c) implies (
                #[trigger] self.at(i, j))@ =~= other.at(i, j)@ by {
                    assert(puzzle.at(i, j).is_singleton());
                    self.lemma_solution_keeps_given(puzzle, i, j);
                    other.lemma_solution_keeps_given(puzzle, i, j);
                }
                assert(self.precedes_at(other, r, c));
            }
        }
    }

    /// Puzzles with the same solutions have the same first solution.
    pub proof fn lemma_first_solution_transfers(
        self,
        puzzle: Sudoku<NumberSet>,
        other_puzzle: Sudoku<NumberSet>,
    )
        requires
            self.is_first_solution_of(puzzle),
            forall|s: Sudoku<NumberSet>| #[trigger]
                s.is_solution_of(other_puzzle) <==> s.is_solution_of(puzzle),
        ensures
            self.is_first_solution_of(other_puzzle),
    {
        assert(self.is_solution_of(puzzle));
        assert forall|other: Sudoku<NumberSet>| #[trigger]
            other.is_solution_of(other_puzzle) implies self.same_digits(other) || self.precedes(
            other,
        ) by {
            assert(other.is_solution_of(puzzle));
        }
    }

    /// No grid comes both before and after another, so a puzzle has at most one first
    /// solution: two first solutions hold the same digits in every cell.
    pub proof fn lemma_first_solution_unique(
        self,
        other: Sudoku<NumberSet>,
        puzzle: Sudoku<NumberSet>,
    )
        requires
            self.is_first_solution_of(puzzle),
            other.is_first_solution_of(puzzle),
        ensures
            self.same_digits(other),
    {
        if !self.same_digits(other) {
            assert(self.precedes(other));
            assert(other.same_digits(self) || other.precedes(self));
            if other.same_digits(self) {
                assert forall|r: int, c: int| 0 <= r < 9 && 0 <= c < 9 implies (
                #[trigger] self.at(r, c))@ =~= other.at(r, c)@ by {
                    assert(other.at(r, c)@ =~= self.at(r, c)@);
                }
            } else {
                let (r1, c1) = choose|r: int, c: int| #[trigger] self.precedes_at(other, r, c);
                let (r2, c2) = choose|r: int, c: int| #[trigger] other.precedes_at(self, r, c);
                if comes_before(r1, c1, r2, c2) {
                    assert(other.at(r1, c1)@ =~= self.at(r1, c1)@);
                } else if comes_before(r2, c2, r1, c1) {
                    assert(self.at(r2, c2)@ =~= other.at(r2, c2)@);
                }
                assert(false);
            }
        }
    }
}

} // verus!
