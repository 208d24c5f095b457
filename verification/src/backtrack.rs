//! Exhaustive search with propagation, a solution cap, and a deadline.
//!
//! Propagation runs first; if it stalls, the first still-`Unknown` cell in
//! row-major order is branched on, `Filled` before `Empty`.  Grids are
//! cloned before every branch, so sibling branches never share state.

use vstd::prelude::*;
use crate::clock::deadline_reached;
use crate::logical_solver::{grid_satisfies, hints_views, logical_solve, set_cell};
use crate::pattern::lemma_matches_all_known;
use crate::types::{
    column_of, grid_all_known, grid_refines, grid_view, is_rect, lemma_grid_known_iff_no_unknowns,
    lemma_grid_refines_lt, lemma_grid_refines_trans, line_all_known, line_refines,
    unknowns_in_grid, CellState, Grid,
};

verus! {

/// The mathematical values of a list of solution grids.
pub open spec fn solution_views(sols: Seq<Grid>) -> Seq<Seq<Seq<CellState>>> {
    sols.map_values(|g: Grid| grid_view(g))
}

/// No two recorded solutions hold the same cells.
pub open spec fn solutions_distinct(sols: Seq<Grid>) -> bool {
    forall|k1: int, k2: int|
        0 <= k1 < k2 < sols.len() ==> solution_views(sols)[k1] != solution_views(sols)[k2]
}

/// Some recorded solution holds exactly the cells of `s`.
pub open spec fn solutions_contain(sols: Seq<Grid>, s: Seq<Seq<CellState>>) -> bool {
    exists|k: int| 0 <= k < sols.len() && solution_views(sols)[k] == s
}

/// `a` is found before `b` by the `Filled`-first search: at the first cell,
/// in row-major order, where the two grids differ, `a` is `Filled` and `b`
/// is `Empty`.
pub open spec fn dfs_precedes(a: Seq<Seq<CellState>>, b: Seq<Seq<CellState>>) -> bool {
    exists|r: int, c: int|
        0 <= r < a.len() && 0 <= c < a[r].len() && (#[trigger] a[r][c]) == CellState::Filled
            && b[r][c] == CellState::Empty && (forall|rr: int, cc: int|
            0 <= rr < a.len() && 0 <= cc < a[rr].len() && (rr < r || (rr == r && cc < c))
                ==> (#[trigger] a[rr][cc]) == b[rr][cc])
}

/// The solutions from index `from` on appear in `Filled`-first, row-major
/// search order.
pub open spec fn dfs_ordered(sols: Seq<Grid>, from: int) -> bool {
    forall|k1: int, k2: int|
        from <= k1 < k2 < sols.len() ==> dfs_precedes(
            #[trigger] solution_views(sols)[k1],
            #[trigger] solution_views(sols)[k2],
        )
}

/// Every solution recorded from index `from` on comes before `s` in
/// `Filled`-first, row-major search order.
pub open spec fn recorded_precede(sols: Seq<Grid>, from: int, s: Seq<Seq<CellState>>) -> bool {
    forall|k: int| from <= k < sols.len() ==> dfs_precedes(#[trigger] solution_views(sols)[k], s)
}

/// A complete solution grid is fully determined.
proof fn lemma_solution_all_known(
    s: Seq<Seq<CellState>>,
    rh: Seq<Seq<u32>>,
    ch: Seq<Seq<u32>>,
)
    requires
        grid_satisfies(s, rh, ch),
    ensures
        grid_all_known(s),
{
    assert forall|r: int| 0 <= r < s.len() implies line_all_known(#[trigger] s[r]) by {
        lemma_matches_all_known(
            s[r],
            0,
            crate::line_solver::normalize_spec(rh[r]),
            0,
        );
    }
}

/// An element-wise copy of a grid.
fn copy_grid(src: &Grid) -> (r: Grid)
    ensures
        grid_view(r) == grid_view(*src),
        r@.len() == src@.len(),
{
    let mut r: Grid = Vec::new();
    let mut i: usize = 0;
    while i < src.len()
        invariant
            i <= src@.len(),
            r@.len() == i,
            forall|j: int| 0 <= j < i ==> (#[trigger] r@[j])@ == src@[j]@,
        decreases src@.len() - i,
    {
        let row = crate::pattern::copy_line(&src[i]);
        r.push(row);
        i += 1;
    }
    proof {
        assert(grid_view(r) =~= grid_view(*src));
    }
    r
}

/// The first `Unknown` cell in row-major order, if any.
pub fn find_unknown_cell(grid: &Grid) -> (r: Option<(usize, usize)>)
    ensures
        match r {
            Some(rc) => rc.0 < grid@.len() && rc.1 < grid@[rc.0 as int]@.len() && grid_view(
                *grid,
            )[rc.0 as int][rc.1 as int] == CellState::Unknown && (forall|rr: int|
                0 <= rr < rc.0 ==> line_all_known(#[trigger] grid_view(*grid)[rr])) && (forall|
                cc: int,
            |
                0 <= cc < rc.1 ==> grid_view(*grid)[rc.0 as int][cc] != CellState::Unknown),
            None => grid_all_known(grid_view(*grid)),
        },
{
    let mut r: usize = 0;
    while r < grid.len()
        invariant
            r <= grid@.len(),
            forall|rr: int| 0 <= rr < r ==> line_all_known(#[trigger] grid_view(*grid)[rr]),
        decreases grid@.len() - r,
    {
        let row = &grid[r];
        let mut c: usize = 0;
        while c < row.len()
            invariant
                c <= row@.len(),
                row@ == grid@[r as int]@,
                r < grid@.len(),
                forall|rr: int| 0 <= rr < r ==> line_all_known(#[trigger] grid_view(*grid)[rr]),
                forall|cc: int| 0 <= cc < c ==> row@[cc] != CellState::Unknown,
            decreases row@.len() - c,
        {
            if row[c] == CellState::Unknown {
                proof {
                    assert(grid_view(*grid)[r as int][c as int] == CellState::Unknown);
                    assert forall|cc: int| 0 <= cc < c implies grid_view(*grid)[r as int][cc]
                        != CellState::Unknown by {
                        assert(row@[cc] != CellState::Unknown);
                    }
                }
                return Some((r, c));
            }
            c += 1;
        }
        proof {
            assert(line_all_known(grid_view(*grid)[r as int]));
        }
        r += 1;
    }
    None
}

/// One branch of the search.  Solutions already recorded are pairwise
/// distinct and none of them refines the grid under consideration; every
/// solution this call records does.
fn backtrack_recursive(
    grid: Grid,
    row_hints: &Vec<Vec<u32>>,
    col_hints: &Vec<Vec<u32>>,
    max_solutions: usize,
    deadline: &Option<std::time::Instant>,
    solutions: &mut Vec<Grid>,
    timed_out: &mut bool,
)
    requires
        is_rect(grid_view(grid), row_hints@.len() as int, col_hints@.len() as int),
        row_hints@.len() < usize::MAX,
        col_hints@.len() < usize::MAX,
        solutions_distinct(old(solutions)@),
        forall|k: int|
            0 <= k < old(solutions)@.len() ==> !grid_refines(
                grid_view(grid),
                #[trigger] solution_views(old(solutions)@)[k],
            ),
    ensures
        final(solutions)@.len() >= old(solutions)@.len(),
        forall|k: int|
            0 <= k < old(solutions)@.len() ==> (#[trigger] final(solutions)@[k]) == old(
                solutions,
            )@[k],
        forall|k: int|
            old(solutions)@.len() <= k < final(solutions)@.len() ==> grid_refines(
                grid_view(grid),
                #[trigger] solution_views(final(solutions)@)[k],
            ) && (row_hints@.len() == 0 || grid_satisfies(
                solution_views(final(solutions)@)[k],
                hints_views(row_hints@),
                hints_views(col_hints@),
            )),
        solutions_distinct(final(solutions)@),
        dfs_ordered(final(solutions)@, old(solutions)@.len() as int),
        old(solutions)@.len() >= max_solutions ==> final(solutions)@ == old(solutions)@,
        old(solutions)@.len() < max_solutions ==> final(solutions)@.len() <= max_solutions,
        *old(timed_out) ==> *final(timed_out),
        deadline.is_none() ==> *final(timed_out) == *old(timed_out),
        deadline.is_none() && !*final(timed_out) && final(solutions)@.len() < max_solutions
            ==> forall|s: Seq<Seq<CellState>>|
            #[trigger] grid_satisfies(s, hints_views(row_hints@), hints_views(col_hints@))
                && grid_refines(grid_view(grid), s) ==> solutions_contain(final(solutions)@, s),
        deadline.is_none() && !*final(timed_out) ==> forall|s: Seq<Seq<CellState>>|
            #[trigger] grid_satisfies(s, hints_views(row_hints@), hints_views(col_hints@))
                && grid_refines(grid_view(grid), s) && !solutions_contain(final(solutions)@, s)
                ==> recorded_precede(final(solutions)@, old(solutions)@.len() as int, s),
    decreases unknowns_in_grid(grid_view(grid)),
{
    let ghost g_in = grid_view(grid);
    let ghost rh = hints_views(row_hints@);
    let ghost ch = hints_views(col_hints@);

    if deadline_reached(deadline) {
        *timed_out = true;
        return;
    }
    if solutions.len() >= max_solutions {
        return;
    }

    let mut grid = grid;
    let result = logical_solve(&mut grid, row_hints, col_hints, *deadline);
    let ghost g_prop = grid_view(grid);
    match result {
        Err(()) => {
            proof {
                assert forall|s: Seq<Seq<CellState>>|
                    #[trigger] grid_satisfies(s, rh, ch) && grid_refines(g_in, s)
                    implies solutions_contain(solutions@, s) by {
                    assert(grid_satisfies(s, hints_views(row_hints@), hints_views(col_hints@)));
                    assert(!grid_refines(g_in, s));
                }
            }
            return;
        },
        Ok(true) => {
            proof {
                // Any reachable solution equals the propagated grid, which is
                // exactly what is recorded.
                assert forall|s: Seq<Seq<CellState>>|
                    #[trigger] grid_satisfies(s, rh, ch) && grid_refines(g_in, s) implies s
                    == g_prop by {
                    assert(grid_refines(g_prop, s));
                    assert forall|m: int| 0 <= m < s.len() implies s[m] == g_prop[m] by {
                        assert(line_refines(g_prop[m], s[m]));
                        assert(line_all_known(g_prop[m]));
                        assert forall|i: int| 0 <= i < g_prop[m].len() implies s[m][i]
                            == g_prop[m][i] by {
                            assert(g_prop[m][i] != CellState::Unknown);
                        }
                        assert(s[m] =~= g_prop[m]);
                    }
                    assert(s =~= g_prop);
                }
            }
            let ghost sols_before = solutions@;
            solutions.push(grid);
            proof {
                assert(solution_views(solutions@)[sols_before.len() as int] == g_prop);
                assert(grid_refines(g_in, g_prop));
                assert(solutions_distinct(solutions@)) by {
                    assert forall|k1: int, k2: int|
                        0 <= k1 < k2 < solutions@.len() implies solution_views(solutions@)[k1]
                        != solution_views(solutions@)[k2] by {
                        if k2 == sols_before.len() {
                            assert(solution_views(sols_before)[k1] == solution_views(
                                solutions@,
                            )[k1]);
                            assert(!grid_refines(g_in, solution_views(sols_before)[k1]));
                        } else {
                            assert(solution_views(solutions@)[k1] == solution_views(
                                sols_before,
                            )[k1]);
                            assert(solution_views(solutions@)[k2] == solution_views(
                                sols_before,
                            )[k2]);
                        }
                    }
                }
                assert forall|s: Seq<Seq<CellState>>|
                    #[trigger] grid_satisfies(s, rh, ch) && grid_refines(g_in, s)
                    implies solutions_contain(solutions@, s) by {
                    assert(s == g_prop);
                    assert(solution_views(solutions@)[sols_before.len() as int] == s);
                }
                // Every reachable solution is recorded, so no absent one
                // exists for the search-order clause to speak of.
                assert forall|s: Seq<Seq<CellState>>|
                    #[trigger] grid_satisfies(s, rh, ch) && grid_refines(g_in, s)
                        && !solutions_contain(solutions@, s)
                    implies recorded_precede(solutions@, sols_before.len() as int, s) by {
                    assert(solutions_contain(solutions@, s));
                }
            }
            return;
        },
        Ok(false) => {
            if deadline_reached(deadline) {
                *timed_out = true;
                return;
            }
            let found = find_unknown_cell(&grid);
            match found {
                None => {
                    proof {
                        // With no deadline a stalled grid still has an
                        // `Unknown` cell, so this arm is unreachable then.
                        if deadline.is_none() {
                            lemma_grid_known_iff_no_unknowns(g_prop);
                        }
                    }
                    return;
                },
                Some(rc) => {
                    let (row, col) = rc;
                    let ghost sols_entry = solutions@;
                    let mut grid_filled = copy_grid(&grid);
                    set_cell(&mut grid_filled, row, col, CellState::Filled);
                    let ghost g_filled = grid_view(grid_filled);
                    proof {
                        assert(g_filled =~= g_prop.update(
                            row as int,
                            g_prop[row as int].update(col as int, CellState::Filled),
                        ));
                        assert(grid_refines(g_prop, g_filled)) by {
                            assert forall|m: int| 0 <= m < g_prop.len() implies line_refines(
                                #[trigger] g_prop[m],
                                g_filled[m],
                            ) by {}
                        }
                        lemma_grid_refines_trans(g_in, g_prop, g_filled);
                        lemma_grid_refines_lt(g_prop, g_filled, row as int, col as int);
                        assert(is_rect(g_filled, row_hints@.len() as int, col_hints@.len() as int))
                            by {
                            assert forall|m: int| 0 <= m < g_filled.len() implies (
                            #[trigger] g_filled[m]).len() == col_hints@.len() by {
                                assert(g_prop[m].len() == col_hints@.len());
                            }
                        }
                        assert forall|k: int|
                            0 <= k < solutions@.len() implies !grid_refines(
                            g_filled,
                            #[trigger] solution_views(solutions@)[k],
                        ) by {
                            if grid_refines(g_filled, solution_views(solutions@)[k]) {
                                lemma_grid_refines_trans(
                                    g_in,
                                    g_filled,
                                    solution_views(solutions@)[k],
                                );
                            }
                        }
                    }
                    backtrack_recursive(
                        grid_filled,
                        row_hints,
                        col_hints,
                        max_solutions,
                        deadline,
                        solutions,
                        timed_out,
                    );
                    let ghost sols_mid = solutions@;
                    proof {
                        // Solutions found in the `Filled` branch extend the
                        // grid this call was given.
                        assert forall|k: int|
                            sols_entry.len() <= k < sols_mid.len() implies grid_refines(
                            g_in,
                            #[trigger] solution_views(sols_mid)[k],
                        ) by {
                            assert(grid_refines(g_filled, solution_views(sols_mid)[k]));
                            lemma_grid_refines_trans(
                                g_in,
                                g_filled,
                                solution_views(sols_mid)[k],
                            );
                        }
                    }
                    if solutions.len() >= max_solutions || *timed_out {
                        proof {
                            // Returning at the solution cap: everything just
                            // recorded came from the `Filled` branch, and
                            // precedes every absent satisfying grid — one
                            // with `Filled` at the branch cell by the
                            // branch's own ordering, one with `Empty` there
                            // because the branch cell is the first row-major
                            // cell where they can differ.
                            if deadline.is_none() && !*timed_out {
                                assert forall|s: Seq<Seq<CellState>>|
                                    #[trigger] grid_satisfies(s, rh, ch) && grid_refines(g_in, s)
                                        && !solutions_contain(solutions@, s)
                                    implies recorded_precede(
                                    solutions@,
                                    sols_entry.len() as int,
                                    s,
                                ) by {
                                    lemma_solution_all_known(s, rh, ch);
                                    assert(grid_refines(g_prop, s));
                                    assert(s[row as int][col as int] != CellState::Unknown) by {
                                        assert(line_all_known(s[row as int]));
                                    }
                                    if s[row as int][col as int] == CellState::Filled {
                                        assert(grid_refines(g_filled, s)) by {
                                            assert forall|m: int|
                                                0 <= m < g_filled.len() implies line_refines(
                                                #[trigger] g_filled[m],
                                                s[m],
                                            ) by {
                                                assert(line_refines(g_prop[m], s[m]));
                                            }
                                        }
                                        assert(recorded_precede(
                                            solutions@,
                                            sols_entry.len() as int,
                                            s,
                                        ));
                                    } else {
                                        assert forall|k: int|
                                            sols_entry.len() <= k < solutions@.len()
                                            implies dfs_precedes(
                                            #[trigger] solution_views(solutions@)[k],
                                            s,
                                        ) by {
                                            let t = solution_views(solutions@)[k];
                                            assert(grid_refines(g_filled, t));
                                            assert(line_refines(
                                                g_filled[row as int],
                                                t[row as int],
                                            ));
                                            assert(g_filled[row as int][col as int]
                                                == CellState::Filled);
                                            assert(t[row as int][col as int]
                                                == CellState::Filled);
                                            assert(s[row as int][col as int]
                                                == CellState::Empty);
                                            assert forall|rr: int, cc: int|
                                                0 <= rr < t.len() && 0 <= cc < t[rr].len() && (rr
                                                < row || (rr == row && cc < col)) implies (
                                            #[trigger] t[rr][cc]) == s[rr][cc] by {
                                                assert(line_refines(g_prop[rr], t[rr])) by {
                                                    assert(line_refines(g_filled[rr], t[rr]));
                                                    assert(line_refines(g_prop[rr], g_filled[rr]));
                                                }
                                                assert(line_refines(g_prop[rr], s[rr]));
                                                if rr < row {
                                                    assert(line_all_known(g_prop[rr]));
                                                }
                                                assert(g_prop[rr][cc] != CellState::Unknown);
                                                assert(t[rr][cc] == g_prop[rr][cc]);
                                                assert(s[rr][cc] == g_prop[rr][cc]);
                                            }
                                            assert(dfs_precedes(t, s));
                                        }
                                    }
                                }
                            }
                        }
                        return;
                    }
                    set_cell(&mut grid, row, col, CellState::Empty);
                    let ghost g_empty = grid_view(grid);
                    proof {
                        assert(g_empty =~= g_prop.update(
                            row as int,
                            g_prop[row as int].update(col as int, CellState::Empty),
                        ));
                        assert(grid_refines(g_prop, g_empty)) by {
                            assert forall|m: int| 0 <= m < g_prop.len() implies line_refines(
                                #[trigger] g_prop[m],
                                g_empty[m],
                            ) by {}
                        }
                        lemma_grid_refines_trans(g_in, g_prop, g_empty);
                        lemma_grid_refines_lt(g_prop, g_empty, row as int, col as int);
                        assert(is_rect(g_empty, row_hints@.len() as int, col_hints@.len() as int))
                            by {
                            assert forall|m: int| 0 <= m < g_empty.len() implies (
                            #[trigger] g_empty[m]).len() == col_hints@.len() by {
                                assert(g_prop[m].len() == col_hints@.len());
                            }
                        }
                        // Nothing recorded so far refines the Empty branch:
                        // solutions from the Filled branch differ at the
                        // branch cell, and older ones do not even reach here.
                        assert forall|k: int|
                            0 <= k < sols_mid.len() implies !grid_refines(
                            g_empty,
                            #[trigger] solution_views(sols_mid)[k],
                        ) by {
                            let sv = solution_views(sols_mid)[k];
                            if grid_refines(g_empty, sv) {
                                if k < sols_entry.len() {
                                    lemma_grid_refines_trans(g_in, g_empty, sv);
                                    assert(solution_views(sols_entry)[k] == sv);
                                } else {
                                    assert(grid_refines(g_filled, sv));
                                    assert(line_refines(g_filled[row as int], sv[row as int]));
                                    assert(g_filled[row as int][col as int] == CellState::Filled);
                                    assert(sv[row as int][col as int] == CellState::Filled);
                                    assert(line_refines(g_empty[row as int], sv[row as int]));
                                    assert(g_empty[row as int][col as int] == CellState::Empty);
                                    assert(sv[row as int][col as int] == CellState::Empty);
                                }
                            }
                        }
                    }
                    backtrack_recursive(
                        grid,
                        row_hints,
                        col_hints,
                        max_solutions,
                        deadline,
                        solutions,
                        timed_out,
                    );
                    proof {
                        // Everything recorded by either branch extends the
                        // grid this call was given.
                        assert forall|k: int|
                            sols_entry.len() <= k < solutions@.len() implies grid_refines(
                            g_in,
                            #[trigger] solution_views(solutions@)[k],
                        ) && (row_hints@.len() == 0 || grid_satisfies(
                            solution_views(solutions@)[k],
                            rh,
                            ch,
                        )) by {
                            if k < sols_mid.len() {
                                assert(solutions@[k] == sols_mid[k]);
                                assert(solution_views(solutions@)[k] == solution_views(
                                    sols_mid,
                                )[k]);
                            } else {
                                assert(grid_refines(g_empty, solution_views(solutions@)[k]));
                                lemma_grid_refines_trans(
                                    g_in,
                                    g_empty,
                                    solution_views(solutions@)[k],
                                );
                            }
                        }
                        // Solutions come out in search order: within each
                        // branch by the recursive calls; across the two
                        // branches, the branch cell is the first (row-major)
                        // cell where they can differ, and there the `Filled`
                        // branch's solutions carry `Filled`.
                        assert forall|k1: int, k2: int|
                            sols_entry.len() <= k1 < k2 < solutions@.len() implies dfs_precedes(
                            #[trigger] solution_views(solutions@)[k1],
                            #[trigger] solution_views(solutions@)[k2],
                        ) by {
                            let s = solution_views(solutions@)[k1];
                            let t = solution_views(solutions@)[k2];
                            if k2 < sols_mid.len() {
                                assert(solutions@[k1] == sols_mid[k1]);
                                assert(solutions@[k2] == sols_mid[k2]);
                                assert(dfs_precedes(
                                    solution_views(sols_mid)[k1],
                                    solution_views(sols_mid)[k2],
                                ));
                            } else if k1 >= sols_mid.len() {
                                assert(dfs_precedes(s, t));
                            } else {
                                assert(solutions@[k1] == sols_mid[k1]);
                                assert(s == solution_views(sols_mid)[k1]);
                                assert(grid_refines(g_filled, solution_views(sols_mid)[k1]));
                                assert(grid_refines(g_filled, s));
                                assert(grid_refines(g_empty, t));
                                assert(line_refines(g_filled[row as int], s[row as int]));
                                assert(g_filled[row as int][col as int] == CellState::Filled);
                                assert(s[row as int][col as int] == CellState::Filled);
                                assert(line_refines(g_empty[row as int], t[row as int]));
                                assert(g_empty[row as int][col as int] == CellState::Empty);
                                assert(t[row as int][col as int] == CellState::Empty);
                                assert forall|rr: int, cc: int|
                                    0 <= rr < s.len() && 0 <= cc < s[rr].len() && (rr < row || (
                                    rr == row && cc < col)) implies (#[trigger] s[rr][cc])
                                    == t[rr][cc] by {
                                    assert(line_refines(g_prop[rr], s[rr]));
                                    assert(line_refines(g_prop[rr], t[rr])) by {
                                        assert(line_refines(g_empty[rr], t[rr]));
                                        assert(line_refines(g_prop[rr], g_empty[rr]));
                                    }
                                    if rr < row {
                                        assert(line_all_known(g_prop[rr]));
                                        assert(g_prop[rr][cc] != CellState::Unknown);
                                    } else {
                                        assert(g_prop[rr][cc] != CellState::Unknown);
                                    }
                                    assert(s[rr][cc] == g_prop[rr][cc]);
                                    assert(t[rr][cc] == g_prop[rr][cc]);
                                }
                                assert(dfs_precedes(s, t));
                            }
                        }
                        // Assemble completeness: a reachable solution is fully
                        // determined, so at the branch cell it is either
                        // `Filled` or `Empty`, and the matching branch found it.
                        if deadline.is_none() && !*timed_out && solutions@.len() < max_solutions {
                            assert forall|s: Seq<Seq<CellState>>|
                                #[trigger] grid_satisfies(s, rh, ch) && grid_refines(g_in, s)
                                implies solutions_contain(solutions@, s) by {
                                assert(grid_refines(g_prop, s));
                                lemma_solution_all_known(s, rh, ch);
                                assert(s[row as int][col as int] != CellState::Unknown) by {
                                    assert(line_all_known(s[row as int]));
                                }
                                if s[row as int][col as int] == CellState::Filled {
                                    assert(grid_refines(g_filled, s)) by {
                                        assert forall|m: int|
                                            0 <= m < g_filled.len() implies line_refines(
                                            #[trigger] g_filled[m],
                                            s[m],
                                        ) by {
                                            assert(line_refines(g_prop[m], s[m]));
                                        }
                                    }
                                    assert(sols_mid.len() < max_solutions);
                                    assert(solutions_contain(sols_mid, s));
                                    let k = choose|k: int|
                                        0 <= k < sols_mid.len() && solution_views(sols_mid)[k]
                                            == s;
                                    assert(solution_views(solutions@)[k] == s);
                                } else {
                                    assert(grid_refines(g_empty, s)) by {
                                        assert forall|m: int|
                                            0 <= m < g_empty.len() implies line_refines(
                                            #[trigger] g_empty[m],
                                            s[m],
                                        ) by {
                                            assert(line_refines(g_prop[m], s[m]));
                                        }
                                    }
                                    assert(solutions_contain(solutions@, s));
                                }
                            }
                        }
                        // Search order against absent grids: an absent
                        // satisfying grid with `Filled` at the branch cell
                        // cannot exist — the `Filled` branch ran to
                        // completion below the cap, so it was recorded; one
                        // with `Empty` there comes after the `Filled`
                        // branch's solutions at the branch cell itself, and
                        // after the `Empty` branch's by that call's own
                        // ordering.
                        if deadline.is_none() && !*timed_out {
                            assert forall|s: Seq<Seq<CellState>>|
                                #[trigger] grid_satisfies(s, rh, ch) && grid_refines(g_in, s)
                                    && !solutions_contain(solutions@, s)
                                implies recorded_precede(solutions@, sols_entry.len() as int, s) by {
                                lemma_solution_all_known(s, rh, ch);
                                assert(grid_refines(g_prop, s));
                                assert(s[row as int][col as int] != CellState::Unknown) by {
                                    assert(line_all_known(s[row as int]));
                                }
                                if s[row as int][col as int] == CellState::Filled {
                                    assert(grid_refines(g_filled, s)) by {
                                        assert forall|m: int|
                                            0 <= m < g_filled.len() implies line_refines(
                                            #[trigger] g_filled[m],
                                            s[m],
                                        ) by {
                                            assert(line_refines(g_prop[m], s[m]));
                                        }
                                    }
                                    assert(sols_mid.len() < max_solutions);
                                    assert(solutions_contain(sols_mid, s));
                                    let k0 = choose|k0: int|
                                        0 <= k0 < sols_mid.len() && solution_views(sols_mid)[k0]
                                            == s;
                                    assert(solutions@[k0] == sols_mid[k0]);
                                    assert(solution_views(solutions@)[k0] == s);
                                    assert(solutions_contain(solutions@, s));
                                } else {
                                    assert(s[row as int][col as int] == CellState::Empty);
                                    assert(grid_refines(g_empty, s)) by {
                                        assert forall|m: int|
                                            0 <= m < g_empty.len() implies line_refines(
                                            #[trigger] g_empty[m],
                                            s[m],
                                        ) by {
                                            assert(line_refines(g_prop[m], s[m]));
                                        }
                                    }
                                    assert forall|k: int|
                                        sols_entry.len() <= k < solutions@.len()
                                        implies dfs_precedes(
                                        #[trigger] solution_views(solutions@)[k],
                                        s,
                                    ) by {
                                        let t = solution_views(solutions@)[k];
                                        if k < sols_mid.len() {
                                            assert(solutions@[k] == sols_mid[k]);
                                            assert(t == solution_views(sols_mid)[k]);
                                            assert(grid_refines(g_filled, t));
                                            assert(line_refines(
                                                g_filled[row as int],
                                                t[row as int],
                                            ));
                                            assert(g_filled[row as int][col as int]
                                                == CellState::Filled);
                                            assert(t[row as int][col as int]
                                                == CellState::Filled);
                                            assert forall|rr: int, cc: int|
                                                0 <= rr < t.len() && 0 <= cc < t[rr].len() && (rr
                                                < row || (rr == row && cc < col)) implies (
                                            #[trigger] t[rr][cc]) == s[rr][cc] by {
                                                assert(line_refines(g_prop[rr], t[rr])) by {
                                                    assert(line_refines(g_filled[rr], t[rr]));
                                                    assert(line_refines(g_prop[rr], g_filled[rr]));
                                                }
                                                assert(line_refines(g_prop[rr], s[rr]));
                                                if rr < row {
                                                    assert(line_all_known(g_prop[rr]));
                                                }
                                                assert(g_prop[rr][cc] != CellState::Unknown);
                                                assert(t[rr][cc] == g_prop[rr][cc]);
                                                assert(s[rr][cc] == g_prop[rr][cc]);
                                            }
                                            assert(dfs_precedes(t, s));
                                        } else {
                                            assert(recorded_precede(
                                                solutions@,
                                                sols_mid.len() as int,
                                                s,
                                            ));
                                        }
                                    }
                                }
                            }
                        }
                    }
                },
            }
        },
    }
}

/// Search for solutions, `Filled` branch first, stopping at
/// `max_solutions` found or at the deadline.
///
/// Every returned grid is a genuine, fully determined solution extending
/// the starting grid; no two returned grids are equal, and they come out
/// in search order — at the first row-major cell where two of them differ,
/// the earlier one is `Filled`.  With no deadline the search is
/// exhaustive: the timeout flag stays `false`, and when fewer than
/// `max_solutions` grids come back they are exactly the solutions that
/// exist.  With no deadline the returned grids are also the first in
/// search order: every satisfying grid that is not returned comes after
/// each returned one.
pub fn backtrack_solve(
    grid: &Grid,
    row_hints: &Vec<Vec<u32>>,
    col_hints: &Vec<Vec<u32>>,
    max_solutions: usize,
    deadline: Option<std::time::Instant>,
) -> (r: (Vec<Grid>, bool))
    requires
        is_rect(grid_view(*grid), row_hints@.len() as int, col_hints@.len() as int),
        row_hints@.len() < usize::MAX,
        col_hints@.len() < usize::MAX,
    ensures
        r.0@.len() <= max_solutions,
        forall|k: int|
            0 <= k < r.0@.len() ==> grid_refines(
                grid_view(*grid),
                #[trigger] solution_views(r.0@)[k],
            ) && (row_hints@.len() == 0 || grid_satisfies(
                solution_views(r.0@)[k],
                hints_views(row_hints@),
                hints_views(col_hints@),
            )),
        solutions_distinct(r.0@),
        dfs_ordered(r.0@, 0),
        deadline.is_none() ==> !r.1,
        deadline.is_none() && r.0@.len() < max_solutions ==> forall|s: Seq<Seq<CellState>>|
            #[trigger] grid_satisfies(s, hints_views(row_hints@), hints_views(col_hints@))
                && grid_refines(grid_view(*grid), s) ==> solutions_contain(r.0@, s),
        deadline.is_none() ==> forall|s: Seq<Seq<CellState>>|
            #[trigger] grid_satisfies(s, hints_views(row_hints@), hints_views(col_hints@))
                && grid_refines(grid_view(*grid), s) && !solutions_contain(r.0@, s)
                ==> recorded_precede(r.0@, 0, s),
{
    let mut solutions: Vec<Grid> = Vec::new();
    let mut timed_out = false;
    let start = copy_grid(grid);
    backtrack_recursive(
        start,
        row_hints,
        col_hints,
        max_solutions,
        &deadline,
        &mut solutions,
        &mut timed_out,
    );
    proof {
        if deadline.is_none() {
            assert(!timed_out);
            assert forall|s: Seq<Seq<CellState>>|
                #[trigger] grid_satisfies(s, hints_views(row_hints@), hints_views(col_hints@))
                    && grid_refines(grid_view(*grid), s) && !solutions_contain(solutions@, s)
                implies recorded_precede(solutions@, 0, s) by {
                assert(grid_refines(grid_view(start), s));
            }
        }
    }
    (solutions, timed_out)
}

} // verus!
