//! Iterative constraint propagation over the whole grid.
//!
//! Line deduction is applied to every row and every column, round after
//! round, until a fixpoint is reached or a line turns out contradictory.
//! Deduction only ever resolves `Unknown` cells, never flips a determined
//! one, and it never discards a solution that was still reachable.

use vstd::prelude::*;
use crate::clock::deadline_reached;
use crate::line_solver::{
    deduced_cell, deduced_line, forced, has_candidate, is_candidate, normalize_spec, solve_line,
};
use crate::pattern::line_matches;
use crate::types::{
    column_of, grid_all_known, grid_refines, grid_view, is_rect, lemma_grid_known_iff_no_unknowns,
    lemma_grid_refines_le, lemma_grid_refines_lt, lemma_grid_refines_trans, line_all_known,
    line_refines, unknowns_in_grid, CellState, Grid,
};

verus! {

/// The mathematical values of a list of hint sequences.
pub open spec fn hints_views(hs: Seq<Vec<u32>>) -> Seq<Seq<u32>> {
    hs.map_values(|v: Vec<u32>| v@)
}

/// `s` is a complete solution: fully determined, rectangular, and every row
/// and column spells out its (normalized) hints.
pub open spec fn grid_satisfies(
    s: Seq<Seq<CellState>>,
    rh: Seq<Seq<u32>>,
    ch: Seq<Seq<u32>>,
) -> bool {
    is_rect(s, rh.len() as int, ch.len() as int) && (forall|r: int|
        0 <= r < rh.len() ==> line_matches(#[trigger] s[r], normalize_spec(rh[r]))) && (forall|
        c: int,
    |
        0 <= c < ch.len() ==> line_matches(column_of(s, c), normalize_spec(#[trigger] ch[c])))
}

/// Deduction on this line keeps it exactly as it is.
pub open spec fn line_fixed(line: Seq<CellState>, hints: Seq<u32>) -> bool {
    has_candidate(line, normalize_spec(hints)) && deduced_line(line, normalize_spec(hints)) == line
}

/// Every row is at a deduction fixpoint.
pub open spec fn rows_fixed(g: Seq<Seq<CellState>>, rh: Seq<Seq<u32>>) -> bool {
    forall|r: int| 0 <= r < rh.len() ==> #[trigger] line_fixed(g[r], rh[r])
}

/// Every column is at a deduction fixpoint.
pub open spec fn cols_fixed(g: Seq<Seq<CellState>>, ch: Seq<Seq<u32>>) -> bool {
    forall|c: int| 0 <= c < ch.len() ==> #[trigger] line_fixed(column_of(g, c), ch[c])
}

/// A solution's row is a candidate pattern for the corresponding row of any
/// grid the solution refines.
proof fn lemma_solution_row_candidate(
    g: Seq<Seq<CellState>>,
    s: Seq<Seq<CellState>>,
    rh: Seq<Seq<u32>>,
    ch: Seq<Seq<u32>>,
    row: int,
)
    requires
        is_rect(g, rh.len() as int, ch.len() as int),
        grid_satisfies(s, rh, ch),
        grid_refines(g, s),
        0 <= row < rh.len(),
    ensures
        is_candidate(s[row], g[row], normalize_spec(rh[row])),
{
    assert(line_refines(g[row], s[row]));
    assert(s[row].len() == g[row].len());
    assert(line_matches(s[row], normalize_spec(rh[row])));
}

/// Writing a deduced row back never loses a reachable solution.
proof fn lemma_row_update_keeps_solution(
    g_before: Seq<Seq<CellState>>,
    g_after: Seq<Seq<CellState>>,
    s: Seq<Seq<CellState>>,
    rh: Seq<Seq<u32>>,
    ch: Seq<Seq<u32>>,
    row: int,
)
    requires
        is_rect(g_before, rh.len() as int, ch.len() as int),
        grid_satisfies(s, rh, ch),
        grid_refines(g_before, s),
        0 <= row < rh.len(),
        g_after == g_before.update(row, deduced_line(g_before[row], normalize_spec(rh[row]))),
    ensures
        grid_refines(g_after, s),
{
    let norm = normalize_spec(rh[row]);
    let ded = deduced_line(g_before[row], norm);
    let width = ch.len() as int;
    lemma_solution_row_candidate(g_before, s, rh, ch, row);
    assert(line_refines(ded, s[row])) by {
        assert forall|i: int|
            0 <= i < width && (#[trigger] ded[i]) != CellState::Unknown implies s[row][i]
            == ded[i] by {
            assert(ded[i] == deduced_cell(g_before[row], norm, i));
            if g_before[row][i] != CellState::Unknown {
                assert(line_refines(g_before[row], s[row]));
                assert(s[row][i] == g_before[row][i]);
            } else if forced(g_before[row], norm, i, CellState::Filled) {
                assert(s[row][i] == CellState::Filled);
            } else {
                assert(forced(g_before[row], norm, i, CellState::Empty));
                assert(s[row][i] == CellState::Empty);
            }
        }
    }
    assert forall|m: int| 0 <= m < g_after.len() implies line_refines(
        #[trigger] g_after[m],
        s[m],
    ) by {
        if m != row {
            assert(g_after[m] == g_before[m]);
            assert(line_refines(g_before[m], s[m]));
        }
    }
}

/// Whether two lines hold the same cells.
fn lines_equal(a: &Vec<CellState>, b: &Vec<CellState>) -> (r: bool)
    ensures
        r <==> a@ == b@,
{
    if a.len() != b.len() {
        proof {
            assert(a@ != b@);
        }
        return false;
    }
    let mut i: usize = 0;
    while i < a.len()
        invariant
            i <= a@.len(),
            a@.len() == b@.len(),
            forall|j: int| 0 <= j < i ==> a@[j] == b@[j],
        decreases a@.len() - i,
    {
        if !(a[i] == b[i]) {
            proof {
                assert(a@[i as int] != b@[i as int]);
            }
            return false;
        }
        i += 1;
    }
    proof {
        assert(a@ =~= b@);
    }
    true
}

/// Column `col` of the grid, read into a fresh line.
fn extract_column(grid: &Grid, col: usize) -> (r: Vec<CellState>)
    requires
        forall|rr: int| 0 <= rr < grid@.len() ==> col < (#[trigger] grid@[rr])@.len(),
    ensures
        r@ == column_of(grid_view(*grid), col as int),
{
    let mut r: Vec<CellState> = Vec::new();
    let mut rr: usize = 0;
    while rr < grid.len()
        invariant
            rr <= grid@.len(),
            r@.len() == rr,
            forall|m: int| 0 <= m < grid@.len() ==> col < (#[trigger] grid@[m])@.len(),
            forall|j: int| 0 <= j < rr ==> r@[j] == grid@[j]@[col as int],
        decreases grid@.len() - rr,
    {
        let row = &grid[rr];
        r.push(row[col]);
        rr += 1;
    }
    proof {
        assert(r@ =~= column_of(grid_view(*grid), col as int));
    }
    r
}

/// Replace cell `(r, c)` of the grid.
pub(crate) fn set_cell(grid: &mut Grid, r: usize, c: usize, v: CellState)
    requires
        r < old(grid)@.len(),
        c < old(grid)@[r as int]@.len(),
    ensures
        final(grid)@.len() == old(grid)@.len(),
        forall|rr: int|
            0 <= rr < old(grid)@.len() && rr != r ==> (#[trigger] final(grid)@[rr])@ == old(
                grid,
            )@[rr]@,
        final(grid)@[r as int]@ == old(grid)@[r as int]@.update(c as int, v),
{
    let mut row = crate::pattern::copy_line(&grid[r]);
    vstd::pervasive::VecAdditionalExecFns::set(&mut row, c, v);
    grid.set(r, row);
}

/// Whether no cell of the line is `Unknown`.
fn line_all_known_exec(line: &Vec<CellState>) -> (r: bool)
    ensures
        r == line_all_known(line@),
{
    let mut i: usize = 0;
    while i < line.len()
        invariant
            i <= line@.len(),
            forall|j: int| 0 <= j < i ==> (#[trigger] line@[j]) != CellState::Unknown,
        decreases line@.len() - i,
    {
        if line[i] == CellState::Unknown {
            return false;
        }
        i += 1;
    }
    true
}

/// Whether no cell of the grid is `Unknown`.
fn grid_all_known_exec(grid: &Grid) -> (r: bool)
    ensures
        r == grid_all_known(grid_view(*grid)),
{
    let mut rr: usize = 0;
    while rr < grid.len()
        invariant
            rr <= grid@.len(),
            forall|m: int| 0 <= m < rr ==> line_all_known(#[trigger] grid_view(*grid)[m]),
        decreases grid@.len() - rr,
    {
        let row = &grid[rr];
        if !line_all_known_exec(row) {
            proof {
                assert(!line_all_known(grid_view(*grid)[rr as int]));
            }
            return false;
        }
        rr += 1;
    }
    true
}

/// Apply line deduction to every row and every column, round after round,
/// to a fixpoint.
///
/// `Ok(true)` means the grid came out fully determined — and then it is a
/// solution (except for the degenerate grid with no rows, which is trivially
/// complete).  `Ok(false)` means undetermined cells remain, either because
/// deduction alone cannot resolve them — with no deadline in force, every
/// row and column is then at a deduction fixpoint — or because the deadline
/// cut the rounds short.  `Err(())` means some line admits no candidate
/// pattern, so
/// no solution refines the grid that was passed in.  Determined cells are
/// never flipped, and every solution still reachable from the old grid is
/// still reachable from the new one.
#[verifier::rlimit(60)]
pub fn logical_solve(
    grid: &mut Grid,
    row_hints: &Vec<Vec<u32>>,
    col_hints: &Vec<Vec<u32>>,
    deadline: Option<std::time::Instant>,
) -> (r: Result<bool, ()>)
    requires
        is_rect(grid_view(*old(grid)), row_hints@.len() as int, col_hints@.len() as int),
        row_hints@.len() < usize::MAX,
        col_hints@.len() < usize::MAX,
    ensures
        is_rect(grid_view(*final(grid)), row_hints@.len() as int, col_hints@.len() as int),
        grid_refines(grid_view(*old(grid)), grid_view(*final(grid))),
        unknowns_in_grid(grid_view(*final(grid))) <= unknowns_in_grid(grid_view(*old(grid))),
        forall|s: Seq<Seq<CellState>>|
            #[trigger] grid_satisfies(s, hints_views(row_hints@), hints_views(col_hints@))
                && grid_refines(grid_view(*old(grid)), s) ==> grid_refines(
                grid_view(*final(grid)),
                s,
            ),
        r is Err ==> forall|s: Seq<Seq<CellState>>|
            #[trigger] grid_satisfies(s, hints_views(row_hints@), hints_views(col_hints@))
                ==> !grid_refines(grid_view(*old(grid)), s),
        (r matches Ok(true)) ==> grid_all_known(grid_view(*final(grid))) && (row_hints@.len()
            == 0 || grid_satisfies(
            grid_view(*final(grid)),
            hints_views(row_hints@),
            hints_views(col_hints@),
        )),
        (r matches Ok(false)) && deadline.is_none() ==> unknowns_in_grid(
            grid_view(*final(grid)),
        ) > 0,
        (r matches Ok(false)) && deadline.is_none() ==> rows_fixed(
            grid_view(*final(grid)),
            hints_views(row_hints@),
        ) && cols_fixed(grid_view(*final(grid)), hints_views(col_hints@)),
        old(grid)@.len() == 0 ==> (r matches Ok(true)) && final(grid)@ == old(grid)@,
{
    let ghost g0 = grid_view(*grid);
    let ghost rh = hints_views(row_hints@);
    let ghost ch = hints_views(col_hints@);
    let height = grid.len();
    if height == 0 {
        return Ok(true);
    }
    let first_row = &grid[0];
    let width = first_row.len();
    proof {
        assert(grid_view(*grid)[0].len() == width);
        assert(width == col_hints@.len());
    }

    let mut changed = true;
    while changed
        invariant
            height == row_hints@.len() < usize::MAX,
            width == col_hints@.len() < usize::MAX,
            g0 == grid_view(*old(grid)),
            g0.len() == height > 0,
            rh == hints_views(row_hints@),
            ch == hints_views(col_hints@),
            grid@.len() == height,
            is_rect(grid_view(*grid), height as int, width as int),
            grid_refines(g0, grid_view(*grid)),
            unknowns_in_grid(grid_view(*grid)) <= unknowns_in_grid(g0),
            forall|s: Seq<Seq<CellState>>|
                #[trigger] grid_satisfies(s, rh, ch) && grid_refines(g0, s) ==> grid_refines(
                    grid_view(*grid),
                    s,
                ),
            !changed ==> rows_fixed(grid_view(*grid), rh) && cols_fixed(grid_view(*grid), ch),
        decreases unknowns_in_grid(grid_view(*grid)) + if changed {
            1int
        } else {
            0int
        },
    {
        changed = false;
        let ghost g_round = grid_view(*grid);

        if deadline_reached(&deadline) {
            return Ok(false);
        }

        // Deduce every row.
        let mut row: usize = 0;
        while row < height
            invariant
                row <= height,
                height == row_hints@.len() < usize::MAX,
                width == col_hints@.len() < usize::MAX,
                g0 == grid_view(*old(grid)),
                g0.len() == height > 0,
            g0.len() == height > 0,
                rh == hints_views(row_hints@),
                ch == hints_views(col_hints@),
                grid@.len() == height,
                is_rect(grid_view(*grid), height as int, width as int),
                grid_refines(g0, grid_view(*grid)),
                forall|s: Seq<Seq<CellState>>|
                    #[trigger] grid_satisfies(s, rh, ch) && grid_refines(g0, s) ==> grid_refines(
                        grid_view(*grid),
                        s,
                    ),
                !changed ==> grid_view(*grid) == g_round,
                changed ==> unknowns_in_grid(grid_view(*grid)) < unknowns_in_grid(g_round),
                unknowns_in_grid(g_round) <= unknowns_in_grid(g0),
                !changed ==> forall|m: int|
                    0 <= m < row ==> #[trigger] line_fixed(grid_view(*grid)[m], rh[m]),
            decreases height - row,
        {
            let ghost g_before = grid_view(*grid);
            let current_row = &grid[row];
            let hints_row = &row_hints[row];
            proof {
                assert(current_row@ == g_before[row as int]);
                assert(hints_row@ == rh[row as int]);
            }
            let ghost norm = normalize_spec(rh[row as int]);
            let new_row_opt = solve_line(current_row, hints_row);
            match new_row_opt {
                None => {
                    proof {
                        assert forall|s: Seq<Seq<CellState>>|
                            #[trigger] grid_satisfies(s, rh, ch) implies !grid_refines(g0, s) by {
                            if grid_refines(g0, s) {
                                assert(grid_refines(g_before, s));
                                lemma_solution_row_candidate(g_before, s, rh, ch, row as int);
                                assert(has_candidate(g_before[row as int], norm));
                            }
                        }
                        lemma_grid_refines_le(g0, g_before);
                    }
                    return Err(());
                },
                Some(new_row) => {
                    proof {
                        assert(new_row@ == deduced_line(g_before[row as int], norm));
                        assert(new_row@.len() == width);
                        assert(line_refines(g_before[row as int], new_row@)) by {
                            assert forall|i: int|
                                0 <= i < width && (#[trigger] g_before[row as int][i])
                                    != CellState::Unknown implies new_row@[i] == g_before[row as int][i] by {
                                assert(new_row@[i] == deduced_cell(
                                    g_before[row as int],
                                    norm,
                                    i,
                                ));
                            }
                        }
                    }
                    let same = lines_equal(&new_row, &grid[row]);
                    if !same {
                        proof {
                            assert(new_row@ != g_before[row as int]);
                        }
                        grid.set(row, new_row);
                        changed = true;
                        proof {
                            let g_after = grid_view(*grid);
                            assert(g_after =~= g_before.update(row as int, new_row@));
                            assert(grid_refines(g_before, g_after)) by {
                                assert forall|m: int|
                                    0 <= m < height implies line_refines(
                                    #[trigger] g_before[m],
                                    g_after[m],
                                ) by {
                                    if m != row {
                                        assert(g_after[m] == g_before[m]);
                                    }
                                }
                            }
                            lemma_grid_refines_trans(g0, g_before, g_after);
                            // The row really changed, so some cell was resolved.
                            assert(exists|i: int|
                                0 <= i < width && new_row@[i] != g_before[row as int][i]) by {
                                if forall|i: int|
                                    0 <= i < width ==> new_row@[i] == g_before[row as int][i] {
                                    assert(new_row@ =~= g_before[row as int]);
                                }
                            }
                            let iw = choose|i: int|
                                0 <= i < width && new_row@[i] != g_before[row as int][i];
                            assert(g_before[row as int][iw] == CellState::Unknown);
                            assert(new_row@[iw] != CellState::Unknown) by {
                                assert(new_row@[iw] == deduced_cell(
                                    g_before[row as int],
                                    norm,
                                    iw,
                                ));
                            }
                            lemma_grid_refines_lt(g_before, g_after, row as int, iw);
                            // Solutions reachable before are still reachable.
                            assert forall|s: Seq<Seq<CellState>>|
                                #[trigger] grid_satisfies(s, rh, ch) && grid_refines(g0, s)
                                    implies grid_refines(g_after, s) by {
                                assert(grid_refines(g_before, s));
                                lemma_row_update_keeps_solution(
                                    g_before,
                                    g_after,
                                    s,
                                    rh,
                                    ch,
                                    row as int,
                                );
                            }
                        }
                    } else {
                        proof {
                            assert(new_row@ == g_before[row as int]);
                            assert(line_fixed(g_before[row as int], rh[row as int]));
                        }
                    }
                },
            }
            row += 1;
        }

        // Deduce every column.
        let mut col: usize = 0;
        while col < width
            invariant
                col <= width,
                height == row_hints@.len() < usize::MAX,
                width == col_hints@.len() < usize::MAX,
                g0 == grid_view(*old(grid)),
                g0.len() == height > 0,
            g0.len() == height > 0,
                rh == hints_views(row_hints@),
                ch == hints_views(col_hints@),
                grid@.len() == height,
                is_rect(grid_view(*grid), height as int, width as int),
                grid_refines(g0, grid_view(*grid)),
                forall|s: Seq<Seq<CellState>>|
                    #[trigger] grid_satisfies(s, rh, ch) && grid_refines(g0, s) ==> grid_refines(
                        grid_view(*grid),
                        s,
                    ),
                !changed ==> grid_view(*grid) == g_round,
                changed ==> unknowns_in_grid(grid_view(*grid)) < unknowns_in_grid(g_round),
                unknowns_in_grid(g_round) <= unknowns_in_grid(g0),
                !changed ==> rows_fixed(grid_view(*grid), rh),
                !changed ==> forall|m: int|
                    0 <= m < col ==> #[trigger] line_fixed(column_of(grid_view(*grid), m), ch[m]),
            decreases width - col,
        {
            let ghost g_before = grid_view(*grid);
            proof {
                assert forall|rr: int| 0 <= rr < grid@.len() implies col < (
                #[trigger] grid@[rr])@.len() by {
                    assert(grid_view(*grid)[rr].len() == width);
                }
            }
            let col_data = extract_column(grid, col);
            let hints_col = &col_hints[col];
            proof {
                assert(col_data@ == column_of(g_before, col as int));
                assert(col_data@.len() == height);
                assert(hints_col@ == ch[col as int]);
            }
            let ghost norm = normalize_spec(ch[col as int]);
            let new_col_opt = solve_line(&col_data, hints_col);
            match new_col_opt {
                None => {
                    proof {
                        assert forall|s: Seq<Seq<CellState>>|
                            #[trigger] grid_satisfies(s, rh, ch) implies !grid_refines(g0, s) by {
                            if grid_refines(g0, s) {
                                assert(grid_refines(g_before, s));
                                assert(is_candidate(column_of(s, col as int), col_data@, norm)) by {
                                    assert(line_matches(column_of(s, col as int), norm));
                                    assert(column_of(s, col as int).len() == height);
                                    assert forall|i: int|
                                        0 <= i < height && (#[trigger] col_data@[i])
                                            != CellState::Unknown implies column_of(
                                        s,
                                        col as int,
                                    )[i] == col_data@[i] by {
                                        assert(line_refines(g_before[i], s[i]));
                                        assert(g_before[i][col as int] == col_data@[i]);
                                    }
                                }
                                assert(has_candidate(col_data@, norm));
                            }
                        }
                        lemma_grid_refines_le(g0, g_before);
                    }
                    return Err(());
                },
                Some(new_col) => {
                    proof {
                        assert(new_col@ == deduced_line(col_data@, norm));
                        assert(new_col@.len() == height);
                        assert(line_refines(col_data@, new_col@)) by {
                            assert forall|i: int|
                                0 <= i < height && (#[trigger] col_data@[i]) != CellState::Unknown
                                    implies new_col@[i] == col_data@[i] by {
                                assert(new_col@[i] == deduced_cell(col_data@, norm, i));
                            }
                        }
                    }
                    let same = lines_equal(&new_col, &col_data);
                    if !same {
                        // Write the deduced column back, cell by cell.
                        let mut r2: usize = 0;
                        while r2 < height
                            invariant
                                r2 <= height,
                                grid@.len() == height,
                                height == new_col@.len(),
                                col < width,
                                is_rect(g_before, height as int, width as int),
                                forall|m: int|
                                    0 <= m < r2 ==> (#[trigger] grid_view(*grid)[m]) == g_before[m].update(
                                        col as int,
                                        new_col@[m],
                                    ),
                                forall|m: int|
                                    r2 <= m < height ==> (#[trigger] grid_view(*grid)[m])
                                        == g_before[m],
                            decreases height - r2,
                        {
                            proof {
                                assert(grid_view(*grid)[r2 as int] == g_before[r2 as int]);
                                assert(grid@[r2 as int]@.len() == width);
                            }
                            let ghost gv_prev = grid_view(*grid);
                            set_cell(grid, r2, col, new_col[r2]);
                            proof {
                                assert forall|m: int| 0 <= m < r2 + 1 implies (
                                #[trigger] grid_view(*grid)[m]) == g_before[m].update(
                                    col as int,
                                    new_col@[m],
                                ) by {
                                    if m < r2 {
                                        assert(grid_view(*grid)[m] == grid@[m]@);
                                        assert(grid@[m]@ == gv_prev[m]);
                                    } else {
                                        assert(gv_prev[m] == g_before[m]);
                                        assert(grid_view(*grid)[m] == grid@[m]@);
                                        assert(grid@[m]@ == gv_prev[m].update(
                                            col as int,
                                            new_col@[m],
                                        ));
                                    }
                                }
                                assert forall|m: int| r2 + 1 <= m < height implies (
                                #[trigger] grid_view(*grid)[m]) == g_before[m] by {
                                    assert(grid_view(*grid)[m] == grid@[m]@);
                                    assert(grid@[m]@ == gv_prev[m]);
                                }
                            }
                            r2 += 1;
                        }
                        changed = true;
                        proof {
                            let g_after = grid_view(*grid);
                            assert(g_after.len() == height);
                            // Shape and per-cell description of the write-back.
                            assert forall|m: int| 0 <= m < height implies (#[trigger] g_after[m])
                                == g_before[m].update(col as int, new_col@[m]) by {}
                            assert(is_rect(g_after, height as int, width as int)) by {
                                assert forall|m: int| 0 <= m < height implies (
                                #[trigger] g_after[m]).len() == width by {
                                    assert(g_before[m].len() == width);
                                }
                            }
                            assert(column_of(g_after, col as int) =~= new_col@);
                            assert(grid_refines(g_before, g_after)) by {
                                assert forall|m: int|
                                    0 <= m < height implies line_refines(
                                    #[trigger] g_before[m],
                                    g_after[m],
                                ) by {
                                    assert forall|i: int|
                                        0 <= i < width && (#[trigger] g_before[m][i])
                                            != CellState::Unknown implies g_after[m][i]
                                        == g_before[m][i] by {
                                        if i == col {
                                            assert(col_data@[m] == g_before[m][col as int]);
                                            assert(new_col@[m] == deduced_cell(
                                                col_data@,
                                                norm,
                                                m,
                                            ));
                                        }
                                    }
                                }
                            }
                            lemma_grid_refines_trans(g0, g_before, g_after);
                            // The column really changed, so some cell was resolved.
                            assert(exists|i: int|
                                0 <= i < height && new_col@[i] != col_data@[i]) by {
                                if forall|i: int|
                                    0 <= i < height ==> new_col@[i] == col_data@[i] {
                                    assert(new_col@ =~= col_data@);
                                }
                            }
                            let iw = choose|i: int|
                                0 <= i < height && new_col@[i] != col_data@[i];
                            assert(col_data@[iw] == CellState::Unknown);
                            assert(new_col@[iw] != CellState::Unknown) by {
                                assert(new_col@[iw] == deduced_cell(col_data@, norm, iw));
                            }
                            assert(g_before[iw][col as int] == CellState::Unknown);
                            assert(g_after[iw][col as int] == new_col@[iw]);
                            lemma_grid_refines_lt(g_before, g_after, iw, col as int);
                            // Solutions reachable before are still reachable.
                            assert forall|s: Seq<Seq<CellState>>|
                                #[trigger] grid_satisfies(s, rh, ch) && grid_refines(g0, s)
                                    implies grid_refines(g_after, s) by {
                                assert(grid_refines(g_before, s));
                                assert(is_candidate(column_of(s, col as int), col_data@, norm)) by {
                                    assert(line_matches(column_of(s, col as int), norm));
                                    assert(column_of(s, col as int).len() == height);
                                    assert forall|i: int|
                                        0 <= i < height && (#[trigger] col_data@[i])
                                            != CellState::Unknown implies column_of(
                                        s,
                                        col as int,
                                    )[i] == col_data@[i] by {
                                        assert(line_refines(g_before[i], s[i]));
                                        assert(g_before[i][col as int] == col_data@[i]);
                                    }
                                }
                                assert forall|m: int|
                                    0 <= m < height implies line_refines(
                                    #[trigger] g_after[m],
                                    s[m],
                                ) by {
                                    assert(line_refines(g_before[m], s[m]));
                                    assert forall|i: int|
                                        0 <= i < width && (#[trigger] g_after[m][i])
                                            != CellState::Unknown implies s[m][i] == g_after[m][i] by {
                                        if i == col {
                                            assert(g_after[m][i] == new_col@[m]);
                                            assert(new_col@[m] == deduced_cell(
                                                col_data@,
                                                norm,
                                                m,
                                            ));
                                            if col_data@[m] != CellState::Unknown {
                                                assert(g_before[m][col as int]
                                                    == col_data@[m]);
                                                assert(s[m][i] == col_data@[m]);
                                            } else if forced(
                                                col_data@,
                                                norm,
                                                m,
                                                CellState::Filled,
                                            ) {
                                                assert(column_of(s, col as int)[m]
                                                    == CellState::Filled);
                                            } else {
                                                assert(forced(
                                                    col_data@,
                                                    norm,
                                                    m,
                                                    CellState::Empty,
                                                ));
                                                assert(column_of(s, col as int)[m]
                                                    == CellState::Empty);
                                            }
                                        } else {
                                            assert(g_after[m][i] == g_before[m][i]);
                                        }
                                    }
                                }
                            }
                        }
                    } else {
                        proof {
                            assert(new_col@ == col_data@);
                            assert(line_fixed(column_of(g_before, col as int), ch[col as int]));
                        }
                    }
                },
            }
            col += 1;
        }
        proof {
            if !changed {
                assert(grid_view(*grid) == g_round);
            }
        }
    }

    let solved = grid_all_known_exec(grid);
    proof {
        lemma_grid_known_iff_no_unknowns(grid_view(*grid));
        if solved {
            let g = grid_view(*grid);
            assert(grid_satisfies(g, rh, ch)) by {
                assert forall|r: int| 0 <= r < rh.len() implies line_matches(
                    #[trigger] g[r],
                    normalize_spec(rh[r]),
                ) by {
                    assert(line_fixed(g[r], rh[r]));
                    let p = choose|p: Seq<CellState>|
                        #[trigger] is_candidate(p, g[r], normalize_spec(rh[r]));
                    assert forall|i: int| 0 <= i < width implies p[i] == g[r][i] by {
                        assert(g[r][i] != CellState::Unknown);
                    }
                    assert(p =~= g[r]);
                }
                assert forall|c: int| 0 <= c < ch.len() implies line_matches(
                    column_of(g, c),
                    normalize_spec(#[trigger] ch[c]),
                ) by {
                    assert(line_fixed(column_of(g, c), ch[c]));
                    let p = choose|p: Seq<CellState>|
                        #[trigger] is_candidate(p, column_of(g, c), normalize_spec(ch[c]));
                    assert forall|i: int| 0 <= i < height implies p[i] == column_of(g, c)[i] by {
                        assert(g[i][c] != CellState::Unknown);
                        assert(column_of(g, c)[i] == g[i][c]);
                    }
                    assert(p =~= column_of(g, c));
                }
            }
        }
    }
    Ok(solved)
}

} // verus!
