use crate::base::exclude::compute_exclude;
use crate::base::grid::Sudoku;
use crate::base::index::Ix;
use crate::base::number_set::NumberSet;
use crate::solve::solutions::lemma_subset_of_resolved;
use vstd::prelude::*;

verus! {

/// How a search ended, with the grid it ended on.
pub enum SolverResult {
    /// The grid is a finished Sudoku.
    Solved(Sudoku<NumberSet>),
    /// No finished Sudoku keeps to the candidates of the grid.
    Contradiction(Sudoku<NumberSet>),
}

impl Sudoku<NumberSet> {
    /// The first cell in row-major order that is not resolved, if there is one.
    pub fn first_unresolved(&self) -> (found: Option<(Ix, Ix)>)
        ensures
            match found {
                Some((r, c)) => !self.at(r.index(), c.index()).is_singleton()
                    && self.resolved_before(r.index(), c.index()),
                None => self.all_resolved(),
            },
    {
        let cells = self.iter_with_index();
        let mut k: usize = 0;
        while k < 81
            invariant
                k <= 81,
                cells@.len() == 81,
                forall|r: int, c: int|
                    0 <= r < 9 && 0 <= c < 9 ==> {
                        let item = #[trigger] cells@[9 * r + c];
                        item.0.index() == r && item.1.index() == c && *item.2 == self.at(r, c)
                    },
                forall|r: int, c: int|
                    0 <= r < 9 && 0 <= c < 9 && 9 * r + c < k ==> (#[trigger] self.at(
                        r,
                        c,
                    )).is_singleton(),
            decreases 81 - k,
        {
            let (r, c, cell) = cells[k];
            proof {
                let item = cells@[9 * (k as int / 9) + k as int % 9];
                assert(item.0.index() == k as int / 9 && item.1.index() == k as int % 9 && *item.2
                    == self.at(k as int / 9, k as int % 9));
            }
            if !cell.is_singleton() {
                return Some((r, c));
            }
            k += 1;
        }
        None
    }
}


/// `result` is what the plain search owes for `puzzle`: the first solution where
/// there is one, and else the puzzle itself, unchanged, as a contradiction.
pub open spec fn is_brute_force_result(puzzle: Sudoku<NumberSet>, result: SolverResult) -> bool {
    match result {
        SolverResult::Solved(solution) => solution.is_first_solution_of(puzzle),
        SolverResult::Contradiction(left) => !puzzle.has_solution() && left == puzzle,
    }
}

/// `result` is what the search with propagation owes for `puzzle`: the first solution
/// where there is one, and else the puzzle after one propagation pass as a
/// contradiction.
pub open spec fn is_brute_force_with_exclude_result(
    puzzle: Sudoku<NumberSet>,
    result: SolverResult,
) -> bool {
    match result {
        SolverResult::Solved(solution) => solution.is_first_solution_of(puzzle),
        SolverResult::Contradiction(left) => !puzzle.has_solution() && left.is_propagation_of(
            puzzle,
        ),
    }
}

/// Depth-first search with undo.
///
/// A solved grid is returned as it is, an invalid one as a contradiction. Otherwise
/// the first unresolved cell in row-major order is set to each of its candidates in
/// ascending order and the search goes on from there; the first solution found is
/// returned at once. After a failed trial the cell gets its candidates back, so a
/// contradiction hands the grid back as it came.
pub fn brute_force(sudoku: Sudoku<NumberSet>) -> (result: SolverResult)
    ensures
        is_brute_force_result(sudoku, result),
        result is Solved <==> sudoku.has_solution(),
        result matches SolverResult::Solved(solution) ==> solution.spec_is_solved(),
    decreases sudoku.unresolved(81),
{
    let mut grid = sudoku;
    if grid.is_solved() {
        proof {
            sudoku.lemma_solved_is_first_solution();
        }
        return SolverResult::Solved(grid);
    }
    if grid.is_invalid() {
        proof {
            sudoku.lemma_invalid_has_no_solution();
        }
        return SolverResult::Contradiction(grid);
    }
    let (r, c) = match grid.first_unresolved() {
        None => {
            proof {
                sudoku.lemma_resolved_unsolved_has_no_solution();
            }
            return SolverResult::Contradiction(grid);
        },
        Some(x) => x,
    };
    let cell = *grid.get(r, c);
    let values = NumberSet::values();
    proof {
        assert forall|other: Sudoku<NumberSet>| #[trigger]
            other.is_solution_of(sudoku) implies other.at(r.index(), c.index()).digit() > 0 by {
            other.lemma_solution_cell(sudoku, r.index(), c.index());
        }
    }
    let mut k: usize = 0;
    while k < 9
        invariant
            k <= 9,
            grid == sudoku,
            cell == sudoku.at(r.index(), c.index()),
            !cell.is_singleton(),
            sudoku.resolved_before(r.index(), c.index()),
            forall|n: int| 0 <= n < 9 ==> (#[trigger] values[n])@ =~= set![n + 1],
            forall|other: Sudoku<NumberSet>| #[trigger]
                other.is_solution_of(sudoku) ==> other.at(r.index(), c.index()).digit() > k,
        decreases 9 - k,
    {
        let val = values[k];
        let ghost d = k as int + 1;
        proof {
            val.lemma_digit_of(d);
            if !cell@.disjoint(val@) {
                let e = choose|e: int| cell@.contains(e) && val@.contains(e);
                assert(e == d);
            }
        }
        if cell.intersects(val) {
            *grid.get_mut(r, c) = val;
            let ghost narrowed = grid;
            proof {
                narrowed.lemma_unresolved_after_update(sudoku, r.index(), c.index(), val, 81);
            }
            grid = match brute_force(grid) {
                SolverResult::Solved(s) => {
                    proof {
                        s.lemma_first_solution_of_branch(
                            sudoku,
                            narrowed,
                            r.index(),
                            c.index(),
                            val,
                            d,
                        );
                    }
                    return SolverResult::Solved(s);
                },
                SolverResult::Contradiction(s) => s,
            };
            *grid.get_mut(r, c) = cell;
            proof {
                grid.lemma_ext_equal(sudoku);
                assert forall|other: Sudoku<NumberSet>| #[trigger]
                    other.is_solution_of(sudoku) implies other.at(r.index(), c.index()).digit()
                    > k + 1 by {
                    other.lemma_solution_cell(sudoku, r.index(), c.index());
                    if other.at(r.index(), c.index()).digit() == d {
                        other.lemma_solution_of_update(sudoku, narrowed, r.index(), c.index(), val);
                        assert(other.is_solution_of(narrowed));
                    }
                }
            }
        } else {
            proof {
                assert forall|other: Sudoku<NumberSet>| #[trigger]
                    other.is_solution_of(sudoku) implies other.at(r.index(), c.index()).digit()
                    > k + 1 by {
                    other.lemma_solution_cell(sudoku, r.index(), c.index());
                    assert(val@.contains(d));
                }
            }
        }
        k += 1;
    }
    proof {
        if sudoku.has_solution() {
            let s = choose|s: Sudoku<NumberSet>| #[trigger] s.is_solution_of(sudoku);
            s.lemma_solution_cell(sudoku, r.index(), c.index());
        }
    }
    // If all of the previous attempts returned Contradiction, that's what we return too
    SolverResult::Contradiction(grid)
}

/// Depth-first search that runs one propagation pass before each step.
///
/// The pass is made on the grid that the call was given, so what it takes away is
/// not seen by the caller. Each trial works on a copy of the propagated grid with the
/// first unresolved cell set to one candidate; a failed copy is dropped and the next
/// candidate tried. The result is that of `brute_force`, but for the grid that comes
/// back with a contradiction: it is the propagated one.
pub fn brute_force_with_exclude(sudoku: Sudoku<NumberSet>) -> (result: SolverResult)
    ensures
        is_brute_force_with_exclude_result(sudoku, result),
        result is Solved <==> sudoku.has_solution(),
        result matches SolverResult::Solved(solution) ==> solution.spec_is_solved(),
    decreases sudoku.unresolved(81),
{
    let mut grid = sudoku;
    compute_exclude(&mut grid);
    let ghost pruned = grid;
    proof {
        pruned.lemma_propagation_sound(sudoku);
    }
    if grid.is_solved() {
        proof {
            pruned.lemma_solved_is_first_solution();
            pruned.lemma_first_solution_transfers(pruned, sudoku);
        }
        return SolverResult::Solved(grid);
    }
    if grid.is_invalid() {
        proof {
            pruned.lemma_invalid_has_no_solution();
            if sudoku.has_solution() {
                let s = choose|s: Sudoku<NumberSet>| #[trigger] s.is_solution_of(sudoku);
                assert(s.is_solution_of(pruned));
            }
        }
        return SolverResult::Contradiction(grid);
    }
    let (r, c) = match grid.first_unresolved() {
        None => {
            proof {
                pruned.lemma_resolved_unsolved_has_no_solution();
                if sudoku.has_solution() {
                    let s = choose|s: Sudoku<NumberSet>| #[trigger] s.is_solution_of(sudoku);
                    assert(s.is_solution_of(pruned));
                }
            }
            return SolverResult::Contradiction(grid);
        },
        Some(x) => x,
    };
    let cell = *grid.get(r, c);
    proof {
        assert forall|i: int, j: int|
            0 <= i < 9 && 0 <= j < 9 && (#[trigger] sudoku.at(i, j)).is_singleton() implies pruned.at(
            i,
            j,
        ).is_singleton() by {
            assert(!pruned.at(i, j).is_empty());
            assert(pruned.at(i, j)@.subset_of(sudoku.at(i, j)@));
            lemma_subset_of_resolved(pruned.at(i, j), sudoku.at(i, j));
        }
        pruned.lemma_unresolved_monotone(sudoku, 81);
    }
    let values = NumberSet::values();
    proof {
        assert forall|other: Sudoku<NumberSet>| #[trigger]
            other.is_solution_of(pruned) implies other.at(r.index(), c.index()).digit() > 0 by {
            other.lemma_solution_cell(pruned, r.index(), c.index());
        }
    }
    let mut k: usize = 0;
    while k < 9
        invariant
            k <= 9,
            grid == pruned,
            cell == pruned.at(r.index(), c.index()),
            !cell.is_singleton(),
            pruned.resolved_before(r.index(), c.index()),
            pruned.unresolved(81) <= sudoku.unresolved(81),
            pruned.is_propagation_of(sudoku),
            forall|s: Sudoku<NumberSet>| #[trigger]
                s.is_solution_of(sudoku) <==> s.is_solution_of(pruned),
            forall|n: int| 0 <= n < 9 ==> (#[trigger] values[n])@ =~= set![n + 1],
            forall|other: Sudoku<NumberSet>| #[trigger]
                other.is_solution_of(pruned) ==> other.at(r.index(), c.index()).digit() > k,
        decreases 9 - k,
    {
        let val = values[k];
        let ghost d = k as int + 1;
        proof {
            val.lemma_digit_of(d);
            if !cell@.disjoint(val@) {
                let e = choose|e: int| cell@.contains(e) && val@.contains(e);
                assert(e == d);
            }
        }
        if cell.intersects(val) {
            let mut sudoku_down = grid.clone();
            proof {
                sudoku_down.lemma_ext_equal(pruned);
            }
            *sudoku_down.get_mut(r, c) = val;
            let ghost narrowed = sudoku_down;
            proof {
                narrowed.lemma_unresolved_after_update(pruned, r.index(), c.index(), val, 81);
            }
            match brute_force_with_exclude(sudoku_down) {
                SolverResult::Solved(s) => {
                    proof {
                        s.lemma_first_solution_of_branch(
                            pruned,
                            narrowed,
                            r.index(),
                            c.index(),
                            val,
                            d,
                        );
                        s.lemma_first_solution_transfers(pruned, sudoku);
                    }
                    return SolverResult::Solved(s);
                },
                SolverResult::Contradiction(_) => (),
            };
            proof {
                assert forall|other: Sudoku<NumberSet>| #[trigger]
                    other.is_solution_of(pruned) implies other.at(r.index(), c.index()).digit()
                    > k + 1 by {
                    other.lemma_solution_cell(pruned, r.index(), c.index());
                    if other.at(r.index(), c.index()).digit() == d {
                        other.lemma_solution_of_update(pruned, narrowed, r.index(), c.index(), val);
                        assert(other.is_solution_of(narrowed));
                    }
                }
            }
        } else {
            proof {
                assert forall|other: Sudoku<NumberSet>| #[trigger]
                    other.is_solution_of(pruned) implies other.at(r.index(), c.index()).digit()
                    > k + 1 by {
                    other.lemma_solution_cell(pruned, r.index(), c.index());
                    assert(val@.contains(d));
                }
            }
        }
        k += 1;
    }
    proof {
        if sudoku.has_solution() {
            let s = choose|s: Sudoku<NumberSet>| #[trigger] s.is_solution_of(sudoku);
            assert(s.is_solution_of(pruned));
            s.lemma_solution_cell(pruned, r.index(), c.index());
        }
    }
    // If all of the previous attempts returned Contradiction, that's what we return too
    SolverResult::Contradiction(grid)
}

/// The two searches agree: for one puzzle both end solved or both end in a
/// contradiction, and where they end solved their grids hold the same digits in
/// every cell; grids of valid cells are then the same grid.
pub proof fn lemma_variants_agree(
    puzzle: Sudoku<NumberSet>,
    plain: SolverResult,
    with_exclude: SolverResult,
)
    requires
        is_brute_force_result(puzzle, plain),
        is_brute_force_with_exclude_result(puzzle, with_exclude),
    ensures
        plain is Solved <==> with_exclude is Solved,
        plain matches SolverResult::Solved(a) ==> with_exclude matches SolverResult::Solved(b)
            ==> a.same_digits(b) && (a.cells_valid() && b.cells_valid() ==> a == b),
{
    match (plain, with_exclude) {
        (SolverResult::Solved(a), SolverResult::Solved(b)) => {
            a.lemma_first_solution_unique(b, puzzle);
            if a.cells_valid() && b.cells_valid() {
                a.lemma_same_digits_equal(b);
            }
        },
        (SolverResult::Solved(a), SolverResult::Contradiction(_)) => {
            assert(a.is_solution_of(puzzle));
        },
        (SolverResult::Contradiction(_), SolverResult::Solved(b)) => {
            assert(b.is_solution_of(puzzle));
        },
        _ => {},
    }
}

} // verus!
