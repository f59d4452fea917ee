use crate::base::grid::{
    block_of, block_pos, is_peer, lemma_region_cells, region_col, region_row, Sudoku,
};
use crate::base::number_set::{all_digits, NumberSet};
use vstd::prelude::*;
use vstd::set_lib::*;

verus! {

impl Sudoku<NumberSet> {
    /// The digits that the cell at (`r`, `c`) may still hold.
    pub open spec fn candidates(self, r: int, c: int) -> Set<int> {
        self.at(r, c)@
    }

    /// Every cell is a valid candidate set: it holds digits from 1 to 9 and nothing else.
    /// This holds of every grid that a program can build.
    pub open spec fn cells_valid(self) -> bool {
        forall|r: int, c: int| 0 <= r < 9 && 0 <= c < 9 ==> (#[trigger] self.at(r, c)).wf()
    }

    /// Every cell holds exactly one digit.
    pub open spec fn all_resolved(self) -> bool {
        forall|r: int, c: int| 0 <= r < 9 && 0 <= c < 9 ==> (#[trigger] self.at(r, c)).is_singleton()
    }

    /// The digits that the first `n` cells of region `k` may hold between them.
    pub open spec fn region_union(self, k: int, n: int) -> Set<int>
        decreases n,
    {
        if n <= 0 {
            Set::empty()
        } else {
            self.region_union(k, n - 1).union(self.region_cell(k, n - 1)@)
        }
    }

    /// Between them the nine cells of region `k` may hold every digit.
    pub open spec fn region_covers_all(self, k: int) -> bool {
        self.region_union(k, 9) =~= all_digits()
    }

    /// The digits that those of the first `n` cells of region `k` hold which are resolved.
    pub open spec fn region_resolved_union(self, k: int, n: int) -> Set<int>
        decreases n,
    {
        if n <= 0 {
            Set::empty()
        } else if self.region_cell(k, n - 1).is_singleton() {
            self.region_resolved_union(k, n - 1).union(self.region_cell(k, n - 1)@)
        } else {
            self.region_resolved_union(k, n - 1)
        }
    }

    /// One of the first `n` cells of region `k` has no digit left.
    pub open spec fn region_has_empty(self, k: int, n: int) -> bool {
        exists|j: int| 0 <= j < n && (#[trigger] self.region_cell(k, j)).is_empty()
    }

    /// Two of the first `n` cells of region `k` are resolved to the same digit.
    pub open spec fn region_repeats(self, k: int, n: int) -> bool {
        exists|i: int, j: int|
            0 <= i < j < n && (#[trigger] self.region_cell(k, i)).is_singleton()
                && (#[trigger] self.region_cell(k, j))@ =~= self.region_cell(k, i)@
    }

    /// Region `k` has a cell without a digit or two cells resolved to the same digit.
    pub open spec fn region_faulty(self, k: int) -> bool {
        self.region_has_empty(k, 9) || self.region_repeats(k, 9)
    }

    /// Some cell has no digit left.
    pub open spec fn has_empty_cell(self) -> bool {
        exists|r: int, c: int| 0 <= r < 9 && 0 <= c < 9 && (#[trigger] self.at(r, c)).is_empty()
    }

    /// Some region holds the same digit in two resolved cells.
    pub open spec fn has_repeat(self) -> bool {
        exists|k: int| 0 <= k < 27 && #[trigger] self.region_repeats(k, 9)
    }

    /// Every cell is resolved and every row, column and block holds all nine digits.
    pub open spec fn spec_is_solved(&self) -> bool {
        self.all_resolved() && self.spec_all_numbers_possible()
    }

    /// A cell has no digit left, or a region holds the same digit in two resolved cells.
    pub open spec fn spec_is_invalid(&self) -> bool {
        self.has_empty_cell() || self.has_repeat()
    }

    /// In every row, column and block each digit is still possible in some cell.
    pub open spec fn spec_all_numbers_possible(&self) -> bool {
        forall|k: int| 0 <= k < 27 ==> #[trigger] self.region_covers_all(k)
    }

    /// `self` is a finished Sudoku that gives every cell one of the digits that
    /// `puzzle` leaves possible there.
    pub open spec fn is_solution_of(self, puzzle: Sudoku<NumberSet>) -> bool {
        &&& self.spec_is_solved()
        &&& forall|r: int, c: int|
            0 <= r < 9 && 0 <= c < 9 ==> (#[trigger] self.at(r, c))@.subset_of(puzzle.at(r, c)@)
    }

    /// Some finished Sudoku keeps to the candidates of this grid.
    pub open spec fn has_solution(self) -> bool {
        exists|solution: Sudoku<NumberSet>| #[trigger] solution.is_solution_of(self)
    }

    /// Neither invalid nor short of a digit in some region.
    pub open spec fn spec_has_no_contradiction(&self) -> bool {
        !self.spec_is_invalid() && self.spec_all_numbers_possible()
    }

    /// A digit is in the union of a region's first `n` cells exactly if one of them
    /// may hold it.
    pub proof fn lemma_region_union(self, k: int, n: int, d: int)
        requires
            0 <= n,
        ensures
            self.region_union(k, n).contains(d) <==> exists|j: int|
                0 <= j < n && (#[trigger] self.region_cell(k, j))@.contains(d),
        decreases n,
    {
        if n > 0 {
            self.lemma_region_union(k, n - 1, d);
            if self.region_union(k, n).contains(d) {
                if self.region_cell(k, n - 1)@.contains(d) {
                } else {
                    let j = choose|j: int|
                        0 <= j < n - 1 && (#[trigger] self.region_cell(k, j))@.contains(d);
                    assert(0 <= j < n && self.region_cell(k, j)@.contains(d));
                }
            }
        }
    }

    /// A digit is in the union of the resolved cells among a region's first `n` exactly
    /// if one of them is resolved to it.
    pub proof fn lemma_region_resolved_union(self, k: int, n: int, d: int)
        requires
            0 <= n,
        ensures
            self.region_resolved_union(k, n).contains(d) <==> exists|j: int|
                0 <= j < n && (#[trigger] self.region_cell(k, j)).is_singleton()
                    && self.region_cell(k, j)@.contains(d),
        decreases n,
    {
        if n > 0 {
            self.lemma_region_resolved_union(k, n - 1, d);
            if self.region_resolved_union(k, n).contains(d) {
                if self.region_cell(k, n - 1).is_singleton() && self.region_cell(k, n - 1)@.contains(
                    d,
                ) {
                } else {
                    let j = choose|j: int|
                        0 <= j < n - 1 && (#[trigger] self.region_cell(k, j)).is_singleton()
                            && self.region_cell(k, j)@.contains(d);
                    assert(0 <= j < n && self.region_cell(k, j).is_singleton() && self.region_cell(
                        k,
                        j,
                    )@.contains(d));
                }
            }
        }
    }

    /// The digits that the nine cells of region `k` may hold between them.
    fn region_seen(&self, k: usize) -> (seen: NumberSet)
        requires
            k < 27,
        ensures
            seen@ =~= self.region_union(k as int, 9),
            (seen == NumberSet::full()) == self.region_covers_all(k as int),
    {
        let mut seen = NumberSet::empty();
        let mut j: usize = 0;
        while j < 9
            invariant
                k < 27,
                j <= 9,
                seen@ =~= self.region_union(k as int, j as int),
            decreases 9 - j,
        {
            seen = seen.union(*self.region_at(k, j));
            j += 1;
        }
        let full = NumberSet::full();
        proof {
            use_type_invariant(seen);
            use_type_invariant(full);
            if seen@ =~= full@ {
                seen.lemma_view_injective(full);
            }
        }
        seen
    }

    /// Whether region `k` has a cell without a digit or two cells resolved to the
    /// same digit.
    fn region_clashes(&self, k: usize) -> (clash: bool)
        requires
            k < 27,
        ensures
            clash == self.region_faulty(k as int),
    {
        let mut seen = NumberSet::empty();
        let mut j: usize = 0;
        while j < 9
            invariant
                k < 27,
                j <= 9,
                seen@ =~= self.region_resolved_union(k as int, j as int),
                !self.region_has_empty(k as int, j as int),
                !self.region_repeats(k as int, j as int),
            decreases 9 - j,
        {
            let cell = *self.region_at(k, j);
            let ghost kk = k as int;
            let ghost jj = j as int;
            if cell.is_singleton() {
                if cell.intersects(seen) {
                    proof {
                        let d = choose|d: int| cell@.contains(d) && seen@.contains(d);
                        self.lemma_region_resolved_union(kk, jj, d);
                        let i = choose|i: int|
                            0 <= i < jj && (#[trigger] self.region_cell(kk, i)).is_singleton()
                                && self.region_cell(kk, i)@.contains(d);
                        cell.lemma_singleton_digit();
                        self.region_cell(kk, i).lemma_singleton_digit();
                        assert(0 <= i < jj < 9 && self.region_cell(kk, i).is_singleton()
                            && self.region_cell(kk, jj)@ =~= self.region_cell(kk, i)@);
                    }
                    return true;
                }
                seen = seen.union(cell);
                proof {
                    if self.region_repeats(kk, jj + 1) {
                        let (a, b) = choose|a: int, b: int|
                            0 <= a < b < jj + 1 && (#[trigger] self.region_cell(kk, a)).is_singleton()
                                && (#[trigger] self.region_cell(kk, b))@ =~= self.region_cell(
                                kk,
                                a,
                            )@;
                        if b < jj {
                            assert(0 <= a < b < jj && self.region_cell(kk, a).is_singleton()
                                && self.region_cell(kk, b)@ =~= self.region_cell(kk, a)@);
                        } else {
                            cell.lemma_singleton_digit();
                            let d = cell.digit();
                            assert(self.region_cell(kk, a)@.contains(d));
                            self.lemma_region_resolved_union(kk, jj, d);
                            assert(false);
                        }
                    }
                }
            } else if cell.is_empty() {
                proof {
                    assert(0 <= jj < 9 && self.region_cell(kk, jj).is_empty());
                }
                return true;
            } else {
                proof {
                    if self.region_repeats(kk, jj + 1) {
                        let (a, b) = choose|a: int, b: int|
                            0 <= a < b < jj + 1 && (#[trigger] self.region_cell(kk, a)).is_singleton()
                                && (#[trigger] self.region_cell(kk, b))@ =~= self.region_cell(
                                kk,
                                a,
                            )@;
                        if b < jj {
                            assert(0 <= a < b < jj && self.region_cell(kk, a).is_singleton()
                                && self.region_cell(kk, b)@ =~= self.region_cell(kk, a)@);
                        } else {
                            assert(false);
                        }
                    }
                }
            }
            proof {
                if self.region_has_empty(kk, jj + 1) {
                    let e = choose|e: int|
                        0 <= e < jj + 1 && (#[trigger] self.region_cell(kk, e)).is_empty();
                    if e < jj {
                        assert(0 <= e < jj && self.region_cell(kk, e).is_empty());
                    } else {
                        if cell.is_singleton() {
                            cell.lemma_singleton_digit();
                            assert(cell@.contains(cell.digit()));
                        }
                    }
                    assert(false);
                }
            }
            j += 1;
        }
        false
    }

    /// Whether every cell of row `r` is resolved.
    fn row_resolved(&self, r: usize) -> (resolved: bool)
        requires
            r < 9,
        ensures
            resolved == forall|c: int| 0 <= c < 9 ==> (#[trigger] self.at(r as int, c)).is_singleton(),
    {
        let mut c: usize = 0;
        while c < 9
            invariant
                r < 9,
                c <= 9,
                forall|j: int| 0 <= j < c ==> (#[trigger] self.at(r as int, j)).is_singleton(),
            decreases 9 - c,
        {
            if !self.cell(r, c).is_singleton() {
                return false;
            }
            c += 1;
        }
        true
    }

    /// Whether the grid is a finished Sudoku: every cell resolved, and every row,
    /// column and block holding all nine digits.
    #[verifier::when_used_as_spec(spec_is_solved)]
    pub fn is_solved(&self) -> (solved: bool)
        ensures
            solved == self.spec_is_solved(),
    {
        let full = NumberSet::full();
        let mut i: usize = 0;
        while i < 9
            invariant
                i <= 9,
                full == NumberSet::full(),
                forall|r: int, c: int|
                    0 <= r < i && 0 <= c < 9 ==> (#[trigger] self.at(r, c)).is_singleton(),
                forall|k: int| 0 <= k < i ==> #[trigger] self.region_covers_all(k),
                forall|k: int| 9 <= k < 9 + i ==> #[trigger] self.region_covers_all(k),
                forall|k: int| 18 <= k < 18 + i ==> #[trigger] self.region_covers_all(k),
            decreases 9 - i,
        {
            if !self.row_resolved(i) {
                return false;
            }
            if self.region_seen(i) != full {
                assert(!self.region_covers_all(i as int));
                return false;
            }
            if self.region_seen(9 + i) != full {
                assert(!self.region_covers_all(9 + i));
                return false;
            }
            if self.region_seen(18 + i) != full {
                assert(!self.region_covers_all(18 + i));
                return false;
            }
            i += 1;
        }
        true
    }

    /// The same question as `is_solved`, asked of all rows first, then of all columns,
    /// then of all blocks.
    pub fn is_valid(&self) -> (valid: bool)
        ensures
            valid == self.spec_is_solved(),
    {
        let full = NumberSet::full();
        let mut i: usize = 0;
        while i < 9
            invariant
                i <= 9,
                full == NumberSet::full(),
                forall|r: int, c: int|
                    0 <= r < i && 0 <= c < 9 ==> (#[trigger] self.at(r, c)).is_singleton(),
                forall|k: int| 0 <= k < i ==> #[trigger] self.region_covers_all(k),
            decreases 9 - i,
        {
            if !self.row_resolved(i) {
                return false;
            }
            if self.region_seen(i) != full {
                assert(!self.region_covers_all(i as int));
                return false;
            }
            i += 1;
        }
        let mut k: usize = 9;
        while k < 27
            invariant
                9 <= k <= 27,
                full == NumberSet::full(),
                self.all_resolved(),
                forall|n: int| 0 <= n < k ==> #[trigger] self.region_covers_all(n),
            decreases 27 - k,
        {
            if self.region_seen(k) != full {
                assert(!self.region_covers_all(k as int));
                return false;
            }
            k += 1;
        }
        true
    }

    /// Whether a cell has no digit left or a digit stands twice, resolved, in one
    /// row, column or block.
    ///
    /// A grid that is not invalid may still have no solution: a region in which some
    /// digit is left in no cell is not looked for here.
    #[verifier::when_used_as_spec(spec_is_invalid)]
    pub fn is_invalid(&self) -> (invalid: bool)
        ensures
            invalid == self.spec_is_invalid(),
    {
        let mut i: usize = 0;
        while i < 9
            invariant
                i <= 9,
                forall|k: int| 0 <= k < i ==> !#[trigger] self.region_faulty(k),
                forall|k: int| 9 <= k < 9 + i ==> !#[trigger] self.region_faulty(k),
                forall|k: int| 18 <= k < 18 + i ==> !#[trigger] self.region_faulty(k),
            decreases 9 - i,
        {
            if self.region_clashes(i) {
                proof {
                    self.lemma_clash_is_invalid(i as int);
                }
                return true;
            }
            if self.region_clashes(9 + i) {
                proof {
                    self.lemma_clash_is_invalid(9 + i);
                }
                return true;
            }
            if self.region_clashes(18 + i) {
                proof {
                    self.lemma_clash_is_invalid(18 + i);
                }
                return true;
            }
            i += 1;
        }
        proof {
            self.lemma_no_clash_is_not_invalid();
        }
        false
    }

    /// Whether every digit is still possible somewhere in each row, column and block.
    #[verifier::when_used_as_spec(spec_all_numbers_possible)]
    pub fn all_numbers_possible(&self) -> (possible: bool)
        ensures
            possible == self.spec_all_numbers_possible(),
    {
        let full = NumberSet::full();
        let mut i: usize = 0;
        while i < 9
            invariant
                i <= 9,
                full == NumberSet::full(),
                forall|k: int| 0 <= k < i ==> #[trigger] self.region_covers_all(k),
                forall|k: int| 9 <= k < 9 + i ==> #[trigger] self.region_covers_all(k),
                forall|k: int| 18 <= k < 18 + i ==> #[trigger] self.region_covers_all(k),
            decreases 9 - i,
        {
            if self.region_seen(i) != full {
                assert(!self.region_covers_all(i as int));
                return false;
            }
            if self.region_seen(9 + i) != full {
                assert(!self.region_covers_all(9 + i));
                return false;
            }
            if self.region_seen(18 + i) != full {
                assert(!self.region_covers_all(18 + i));
                return false;
            }
            i += 1;
        }
        true
    }

    /// Whether the grid is free of all three faults: a cell without a digit, a digit
    /// that stands twice in a region, and a region that lacks a digit.
    #[verifier::when_used_as_spec(spec_has_no_contradiction)]
    pub fn has_no_contradiction(&self) -> (sound: bool)
        ensures
            sound == self.spec_has_no_contradiction(),
    {
        let full = NumberSet::full();
        let mut i: usize = 0;
        while i < 9
            invariant
                i <= 9,
                full == NumberSet::full(),
                forall|k: int| 0 <= k < i ==> #[trigger] self.region_covers_all(k),
                forall|k: int| 9 <= k < 9 + i ==> #[trigger] self.region_covers_all(k),
                forall|k: int| 18 <= k < 18 + i ==> #[trigger] self.region_covers_all(k),
                forall|k: int| 0 <= k < i ==> !#[trigger] self.region_faulty(k),
                forall|k: int| 9 <= k < 9 + i ==> !#[trigger] self.region_faulty(k),
                forall|k: int| 18 <= k < 18 + i ==> !#[trigger] self.region_faulty(k),
            decreases 9 - i,
        {
            let mut kind: usize = 0;
            while kind < 3
                invariant
                    i < 9,
                    kind <= 3,
                    full == NumberSet::full(),
                    forall|t: int|
                        0 <= t < kind ==> #[trigger] self.region_covers_all(9 * t + i)
                            && !self.region_faulty(9 * t + i),
                decreases 3 - kind,
            {
                let k = 9 * kind + i;
                if self.region_clashes(k) {
                    proof {
                        self.lemma_clash_is_invalid(k as int);
                    }
                    return false;
                }
                if self.region_seen(k) != full {
                    assert(!self.region_covers_all(k as int));
                    return false;
                }
                kind += 1;
            }
            assert(self.region_covers_all(9 * 0 + i) && !self.region_faulty(9 * 0 + i));
            assert(self.region_covers_all(9 * 1 + i) && !self.region_faulty(9 * 1 + i));
            assert(self.region_covers_all(9 * 2 + i) && !self.region_faulty(9 * 2 + i));
            i += 1;
        }
        proof {
            self.lemma_no_clash_is_not_invalid();
        }
        true
    }

    /// A region with an empty cell or a repeated digit makes the grid invalid.
    proof fn lemma_clash_is_invalid(self, k: int)
        requires
            0 <= k < 27,
            self.region_faulty(k),
        ensures
            self.spec_is_invalid(),
    {
        if self.region_has_empty(k, 9) {
            let j = choose|j: int| 0 <= j < 9 && (#[trigger] self.region_cell(k, j)).is_empty();
            lemma_region_cells(k);
            assert(self.at(region_row(k, j), region_col(k, j)).is_empty());
        }
    }

    /// A grid none of whose regions has an empty cell or a repeated digit is not invalid.
    proof fn lemma_no_clash_is_not_invalid(self)
        requires
            forall|k: int| 0 <= k < 27 ==> !#[trigger] self.region_faulty(k),
        ensures
            !self.spec_is_invalid(),
    {
        if self.has_empty_cell() {
            let (r, c) = choose|r: int, c: int|
                0 <= r < 9 && 0 <= c < 9 && (#[trigger] self.at(r, c)).is_empty();
            assert(self.region_cell(r, c) == self.at(r, c));
            assert(!self.region_faulty(r));
            assert(self.region_has_empty(r, 9));
        }
        if self.has_repeat() {
            let k = choose|k: int| 0 <= k < 27 && #[trigger] self.region_repeats(k, 9);
            assert(self.region_faulty(k));
        }
    }

    /// Resolved cells of a region are cells of the grid, so in a grid whose cells are
    /// all resolved they hold one digit each.
    pub proof fn lemma_region_cell_resolved(self, k: int, j: int)
        requires
            self.all_resolved(),
            0 <= k < 27,
            0 <= j < 9,
        ensures
            self.region_cell(k, j).is_singleton(),
            self.region_cell(k, j)@ =~= set![self.region_cell(k, j).digit()],
            1 <= self.region_cell(k, j).digit() <= 9,
    {
        lemma_region_cells(k);
        assert(self.at(region_row(k, j), region_col(k, j)).is_singleton());
        self.region_cell(k, j).lemma_singleton_digit();
    }

    /// The digits that the first `n` cells of region `k` may hold between them, cell
    /// `skip` left out.
    pub open spec fn region_union_except(self, k: int, skip: int, n: int) -> Set<int>
        decreases n,
    {
        if n <= 0 {
            Set::empty()
        } else if n - 1 == skip {
            self.region_union_except(k, skip, n - 1)
        } else {
            self.region_union_except(k, skip, n - 1).union(self.region_cell(k, n - 1)@)
        }
    }

    /// Resolved cells give at most one digit each to the union that leaves one cell out.
    proof fn lemma_union_except_len(self, k: int, skip: int, n: int)
        requires
            self.all_resolved(),
            0 <= k < 27,
            0 <= n <= 9,
            0 <= skip < 9,
        ensures
            self.region_union_except(k, skip, n).finite(),
            self.region_union_except(k, skip, n).len() <= if skip < n {
                n - 1
            } else {
                n
            },
            forall|j: int, d: int|
                0 <= j < n && j != skip && (#[trigger] self.region_cell(k, j))@.contains(d)
                    ==> #[trigger] self.region_union_except(k, skip, n).contains(d),
        decreases n,
    {
        if n > 0 {
            self.lemma_union_except_len(k, skip, n - 1);
            if n - 1 != skip {
                let prev = self.region_union_except(k, skip, n - 1);
                let cell = self.region_cell(k, n - 1);
                self.lemma_region_cell_resolved(k, n - 1);
                cell.lemma_view_finite();
                lemma_len_union(prev, cell@);
            }
        }
    }

    /// Region `k` shows digit `d` in its cell `j` and in no other of its cells.
    pub open spec fn region_shows_once_at(self, k: int, d: int, j: int) -> bool {
        &&& 0 <= j < 9
        &&& self.region_cell(k, j)@ =~= set![d]
        &&& forall|i: int| 0 <= i < 9 && i != j ==> !(#[trigger] self.region_cell(k, i))@.contains(d)
    }

    /// Region `k` shows digit `d` in exactly one of its nine cells.
    pub open spec fn region_shows_once(self, k: int, d: int) -> bool {
        exists|j: int| #[trigger] self.region_shows_once_at(k, d, j)
    }

    /// Two different cells of one region of a solved grid do not hold the same digit.
    pub proof fn lemma_solved_region_distinct(self, k: int, i: int, j: int)
        requires
            self.spec_is_solved(),
            0 <= k < 27,
            0 <= i < 9,
            0 <= j < 9,
            i != j,
        ensures
            self.region_cell(k, i)@.disjoint(self.region_cell(k, j)@),
    {
        self.lemma_region_cell_resolved(k, i);
        self.lemma_region_cell_resolved(k, j);
        if !self.region_cell(k, i)@.disjoint(self.region_cell(k, j)@) {
            let d = self.region_cell(k, i).digit();
            assert(self.region_cell(k, j)@.contains(d));
            self.lemma_union_except_len(k, i, 9);
            let rest = self.region_union_except(k, i, 9);
            assert(self.region_covers_all(k));
            assert forall|e: int| all_digits().contains(e) implies rest.contains(e) by {
                assert(self.region_union(k, 9).contains(e));
                self.lemma_region_union(k, 9, e);
                let m = choose|m: int| 0 <= m < 9 && (#[trigger] self.region_cell(k, m))@.contains(e);
                if m == i {
                    assert(e == d);
                    assert(self.region_cell(k, j)@.contains(e));
                    assert(rest.contains(e));
                } else {
                    assert(rest.contains(e));
                }
            }
            lemma_int_range(1, 10);
            assert(all_digits() =~= set_int_range(1, 10));
            lemma_len_subset(all_digits(), rest);
            assert(false);
        }
    }

    /// In a solved grid every row, column and block shows each digit from 1 to 9 in
    /// exactly one of its nine cells.
    pub proof fn lemma_solved_shows_each_digit_once(self)
        requires
            self.spec_is_solved(),
        ensures
            forall|k: int, d: int|
                0 <= k < 27 && 1 <= d <= 9 ==> #[trigger] self.region_shows_once(k, d),
    {
        assert forall|k: int, d: int| 0 <= k < 27 && 1 <= d <= 9 implies #[trigger]
            self.region_shows_once(k, d) by {
            assert(self.region_covers_all(k));
            assert(all_digits().contains(d));
            assert(self.region_union(k, 9).contains(d));
            self.lemma_region_union(k, 9, d);
            let j = choose|j: int| 0 <= j < 9 && (#[trigger] self.region_cell(k, j))@.contains(d);
            self.lemma_region_cell_resolved(k, j);
            assert forall|i: int| 0 <= i < 9 && i != j implies !(#[trigger] self.region_cell(
                k,
                i,
            ))@.contains(d) by {
                self.lemma_solved_region_distinct(k, i, j);
            }
            assert(self.region_shows_once_at(k, d, j));
        }
    }
}


/// In a solved grid a cell and its peer hold different digits.
pub proof fn lemma_solved_peers_differ(solved: Sudoku<NumberSet>, i: int, j: int, r: int, c: int)
    requires
        solved.spec_is_solved(),
        0 <= i < 9,
        0 <= j < 9,
        0 <= r < 9,
        0 <= c < 9,
        is_peer(i, j, r, c),
    ensures
        solved.at(i, j)@.disjoint(solved.at(r, c)@),
{
    if r == i {
        assert(solved.region_cell(i, j) == solved.at(i, j));
        assert(solved.region_cell(i, c) == solved.at(r, c));
        solved.lemma_solved_region_distinct(i, j, c);
    } else if c == j {
        assert(solved.region_cell(9 + j, i) == solved.at(i, j));
        assert(solved.region_cell(9 + j, r) == solved.at(r, c));
        solved.lemma_solved_region_distinct(9 + j, i, r);
    } else {
        let b = block_of(i, j);
        let p = block_pos(i, j);
        let q = block_pos(r, c);
        assert(region_row(18 + b, p) == i && region_col(18 + b, p) == j);
        assert(region_row(18 + b, q) == r && region_col(18 + b, q) == c);
        assert(solved.region_cell(18 + b, p) == solved.at(i, j));
        assert(solved.region_cell(18 + b, q) == solved.at(r, c));
        solved.lemma_solved_region_distinct(18 + b, p, q);
    }
}

} // verus!
