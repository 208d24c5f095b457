//! Whole-puzzle solving: dimensions come from the hint counts, the search
//! starts from an all-`Unknown` grid, and at most two solutions are sought —
//! enough to tell "unique" from "multiple" without enumerating the rest.

use vstd::prelude::*;
use crate::backtrack::{backtrack_solve, solution_views};
use crate::clock::deadline_in_secs;
use crate::hint_generator::{bits_of_line, byte_rows};
use crate::logical_solver::{grid_satisfies, hints_views};
use crate::types::{grid_view, is_rect, CellState, Grid, SolveResult};

verus! {

/// A grid of cells as rows of 0/1 bytes.
pub open spec fn bits_of_grid(g: Seq<Seq<CellState>>) -> Seq<Seq<u8>> {
    g.map_values(|row: Seq<CellState>| bits_of_line(row))
}

/// The timeout that applies: the caller's, or 60 seconds.
pub open spec fn effective_timeout(t: Option<u64>) -> u64 {
    match t {
        Some(s) => s,
        None => 60u64,
    }
}

/// The grid as rows of bytes: 1 for `Filled`, 0 for anything else.
pub fn grid_to_u8(grid: &Grid) -> (r: Vec<Vec<u8>>)
    ensures
        byte_rows(r@) == bits_of_grid(grid_view(*grid)),
{
    let mut r: Vec<Vec<u8>> = Vec::new();
    let mut i: usize = 0;
    while i < grid.len()
        invariant
            i <= grid@.len(),
            r@.len() == i,
            forall|m: int| 0 <= m < i ==> (#[trigger] r@[m])@ == bits_of_line(grid@[m]@),
        decreases grid@.len() - i,
    {
        let row = &grid[i];
        let mut bits: Vec<u8> = Vec::new();
        let mut j: usize = 0;
        while j < row.len()
            invariant
                j <= row@.len(),
                bits@.len() == j,
                forall|m: int|
                    0 <= m < j ==> bits@[m] == (if row@[m] == CellState::Filled {
                        1u8
                    } else {
                        0u8
                    }),
            decreases row@.len() - j,
        {
            if row[j] == CellState::Filled {
                bits.push(1);
            } else {
                bits.push(0);
            }
            j += 1;
        }
        proof {
            assert(bits@ =~= bits_of_line(row@));
        }
        r.push(bits);
        i += 1;
    }
    proof {
        assert(byte_rows(r@) =~= bits_of_grid(grid_view(*grid)));
    }
    r
}

/// Turn a search outcome into the reported result.
///
/// The dispatch is exact, for every value of the outcome: with no solution
/// found, the timeout flag decides between `Timeout` — carrying the timeout
/// that was in force — and `NoSolution`; exactly one solution found is
/// reported as that unique solution in 0/1 form, whether or not the clock
/// ran out; two or more found are reported as `MultipleSolutions`.  In
/// particular `Timeout` comes only with zero solutions found: a solution
/// found before the deadline fired is never discarded.
pub fn classify_search(solutions: &Vec<Grid>, timed_out: bool, timeout: u64) -> (r: SolveResult)
    ensures
        solutions@.len() == 0 && timed_out ==> r == (SolveResult::Timeout {
            elapsed_seconds: timeout,
        }),
        solutions@.len() == 0 && !timed_out ==> r == SolveResult::NoSolution,
        solutions@.len() == 1 ==> (r matches SolveResult::UniqueSolution { grid } && byte_rows(
            grid@,
        ) == bits_of_grid(grid_view(solutions@[0]))),
        solutions@.len() >= 2 ==> r == SolveResult::MultipleSolutions,
{
    if timed_out && solutions.len() == 0 {
        return SolveResult::Timeout { elapsed_seconds: timeout };
    }
    if solutions.len() == 0 {
        SolveResult::NoSolution
    } else if solutions.len() == 1 {
        let bits = grid_to_u8(&solutions[0]);
        SolveResult::UniqueSolution { grid: bits }
    } else {
        SolveResult::MultipleSolutions
    }
}

/// Solve the puzzle given by the hint sets alone.
///
/// The grid is `row_hints.len()` rows by `col_hints.len()` columns, starting
/// all `Unknown`; the search is capped at two solutions.  A reported unique
/// solution really is a solution of the hints; "multiple" is only reported
/// when two distinct solutions exist; a timeout reports the timeout that was
/// in force.  Which variant answers which search outcome is fixed exactly by
/// the contract of [`classify_search`], which performs the dispatch; in
/// particular, when the deadline interrupts the search, whatever solutions
/// were found by then are still reported as such.
pub fn solve_puzzle(
    row_hints: Vec<Vec<u32>>,
    col_hints: Vec<Vec<u32>>,
    timeout_seconds: Option<u64>,
) -> (r: SolveResult)
    requires
        row_hints@.len() < usize::MAX,
        col_hints@.len() < usize::MAX,
    ensures
        r matches SolveResult::Timeout { elapsed_seconds } ==> elapsed_seconds
            == effective_timeout(timeout_seconds),
        r matches SolveResult::UniqueSolution { grid } ==> ((row_hints@.len() == 0 && grid@.len()
            == 0) || exists|s: Seq<Seq<CellState>>|
            #[trigger] grid_satisfies(s, hints_views(row_hints@), hints_views(col_hints@))
                && byte_rows(grid@) == bits_of_grid(s)),
        (r matches SolveResult::MultipleSolutions) && row_hints@.len() > 0 ==> exists|
            s1: Seq<Seq<CellState>>,
            s2: Seq<Seq<CellState>>,
        |
            #[trigger] grid_satisfies(s1, hints_views(row_hints@), hints_views(col_hints@))
                && #[trigger] grid_satisfies(s2, hints_views(row_hints@), hints_views(col_hints@))
                && s1 != s2,
{
    let timeout = match timeout_seconds {
        Some(t) => t,
        None => 60,
    };
    let deadline = deadline_in_secs(timeout);

    let height = row_hints.len();
    let width = col_hints.len();
    let mut grid: Grid = Vec::new();
    let mut i: usize = 0;
    while i < height
        invariant
            i <= height,
            width == col_hints@.len(),
            grid@.len() == i,
            forall|m: int|
                0 <= m < i ==> (#[trigger] grid@[m])@.len() == width && grid@[m]@ =~= Seq::new(
                    width as nat,
                    |j: int| CellState::Unknown,
                ),
        decreases height - i,
    {
        let row = crate::pattern::uniform_line(width, CellState::Unknown);
        proof {
            assert(row@ =~= Seq::new(width as nat, |j: int| CellState::Unknown));
        }
        grid.push(row);
        i += 1;
    }
    proof {
        assert(is_rect(grid_view(grid), height as int, width as int));
    }

    let (solutions, timed_out) = backtrack_solve(&grid, &row_hints, &col_hints, 2, deadline);
    let r = classify_search(&solutions, timed_out, timeout);
    proof {
        if solutions@.len() == 1 {
            assert(solution_views(solutions@)[0] == grid_view(solutions@[0]));
            if row_hints@.len() > 0 {
                assert(grid_satisfies(
                    grid_view(solutions@[0]),
                    hints_views(row_hints@),
                    hints_views(col_hints@),
                ));
            } else {
                assert(grid_view(solutions@[0]).len() == 0);
                assert(bits_of_grid(grid_view(solutions@[0])).len() == 0);
            }
        }
        if solutions@.len() >= 2 && row_hints@.len() > 0 {
            let s1 = solution_views(solutions@)[0];
            let s2 = solution_views(solutions@)[1];
            assert(grid_satisfies(s1, hints_views(row_hints@), hints_views(col_hints@)));
            assert(grid_satisfies(s2, hints_views(row_hints@), hints_views(col_hints@)));
            assert(s1 != s2);
        }
    }
    r
}

} // verus!
