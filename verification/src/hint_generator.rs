//! Deriving hints from a filled grid: the inverse of solving.
//!
//! Each row and column of a 0/1 grid is run-length encoded: one hint per
//! maximal run of 1s, in order, and no hint at all for an empty line.

use vstd::prelude::*;
use crate::pattern::{block_shape, line_matches, next_pos_of, suffix_matches};
use crate::types::{column_of, CellState};

verus! {

/// Run-length encoding of `line` from index `i` on, with `count` consecutive
/// 1s already pending.
pub open spec fn runs_from(line: Seq<u8>, i: int, count: int) -> Seq<int>
    decreases line.len() - i,
{
    if i < 0 || i >= line.len() {
        if count > 0 {
            seq![count]
        } else {
            Seq::empty()
        }
    } else if line[i] == 1 {
        runs_from(line, i + 1, count + 1)
    } else if count > 0 {
        seq![count] + runs_from(line, i + 1, 0)
    } else {
        runs_from(line, i + 1, 0)
    }
}

/// The lengths of the maximal runs of 1s in `line`, in order.
pub open spec fn line_runs(line: Seq<u8>) -> Seq<int> {
    runs_from(line, 0, 0)
}

/// A hint sequence as mathematical integers.
pub open spec fn hints_as_ints(h: Seq<u32>) -> Seq<int> {
    h.map_values(|x: u32| x as int)
}

/// A line of cells as 0/1 bytes: 1 for `Filled`, 0 otherwise.
pub open spec fn bits_of_line(p: Seq<CellState>) -> Seq<u8> {
    p.map_values(
        |c: CellState|
            if c == CellState::Filled {
                1u8
            } else {
                0u8
            },
    )
}

/// Column `c` of a 0/1 grid.
pub open spec fn byte_column(g: Seq<Seq<u8>>, c: int) -> Seq<u8> {
    Seq::new(g.len(), |r: int| g[r][c])
}

/// The mathematical values of the rows of a 0/1 grid.
pub open spec fn byte_rows(g: Seq<Vec<u8>>) -> Seq<Seq<u8>> {
    g.map_values(|v: Vec<u8>| v@)
}

/// Hints for one line: the lengths of its maximal runs of 1s.
pub fn line_hint(line: &Vec<u8>) -> (r: Vec<u32>)
    requires
        line@.len() <= u32::MAX,
    ensures
        hints_as_ints(r@) == line_runs(line@),
{
    let mut hints: Vec<u32> = Vec::new();
    let mut count: u32 = 0;
    let mut i: usize = 0;
    while i < line.len()
        invariant
            i <= line@.len(),
            line@.len() <= u32::MAX,
            count <= i,
            hints_as_ints(hints@) + runs_from(line@, i as int, count as int) == line_runs(line@),
        decreases line@.len() - i,
    {
        let ghost hints_old = hints@;
        if line[i] == 1 {
            count += 1;
        } else {
            if count > 0 {
                hints.push(count);
                proof {
                    assert(hints_as_ints(hints@) =~= hints_as_ints(hints_old) + seq![
                        count as int,
                    ]);
                    assert(runs_from(line@, i as int, count as int) == seq![count as int]
                        + runs_from(line@, i as int + 1, 0));
                    assert((hints_as_ints(hints_old) + seq![count as int]) + runs_from(
                        line@,
                        i as int + 1,
                        0,
                    ) =~= hints_as_ints(hints_old) + (seq![count as int] + runs_from(
                        line@,
                        i as int + 1,
                        0,
                    )));
                }
                count = 0;
            }
        }
        i += 1;
    }
    let ghost hints_old = hints@;
    if count > 0 {
        hints.push(count);
        proof {
            assert(hints_as_ints(hints@) =~= hints_as_ints(hints_old) + seq![count as int]);
            assert(runs_from(line@, line@.len() as int, count as int) == seq![count as int]);
        }
    } else {
        proof {
            assert(runs_from(line@, line@.len() as int, 0) == Seq::<int>::empty());
            assert(hints_as_ints(hints@) + Seq::<int>::empty() =~= hints_as_ints(hints@));
        }
    }
    hints
}

/// Row and column hints derived from a 0/1 grid.
pub fn generate_hints(grid: &Vec<Vec<u8>>) -> (r: (Vec<Vec<u32>>, Vec<Vec<u32>>))
    requires
        forall|i: int|
            0 <= i < grid@.len() ==> (#[trigger] grid@[i])@.len() == grid@[0]@.len(),
        grid@.len() <= u32::MAX,
        forall|i: int| 0 <= i < grid@.len() ==> (#[trigger] grid@[i])@.len() <= u32::MAX,
    ensures
        r.0@.len() == grid@.len(),
        forall|i: int|
            0 <= i < grid@.len() ==> hints_as_ints((#[trigger] r.0@[i])@) == line_runs(grid@[i]@),
        r.1@.len() == (if grid@.len() > 0 {
            grid@[0]@.len()
        } else {
            0
        }),
        forall|c: int|
            0 <= c < r.1@.len() ==> hints_as_ints((#[trigger] r.1@[c])@) == line_runs(
                byte_column(byte_rows(grid@), c),
            ),
{
    let height = grid.len();
    let width = if height > 0 {
        let first = &grid[0];
        first.len()
    } else {
        0
    };

    let mut row_hints: Vec<Vec<u32>> = Vec::new();
    let mut i: usize = 0;
    while i < height
        invariant
            i <= height,
            height == grid@.len() <= u32::MAX,
            forall|m: int| 0 <= m < height ==> (#[trigger] grid@[m])@.len() <= u32::MAX,
            row_hints@.len() == i,
            forall|m: int|
                0 <= m < i ==> hints_as_ints((#[trigger] row_hints@[m])@) == line_runs(grid@[m]@),
        decreases height - i,
    {
        let row = &grid[i];
        let h = line_hint(row);
        row_hints.push(h);
        i += 1;
    }

    let mut col_hints: Vec<Vec<u32>> = Vec::new();
    let mut c: usize = 0;
    while c < width
        invariant
            c <= width,
            height == grid@.len() <= u32::MAX,
            height > 0 ==> width == grid@[0]@.len(),
            height == 0 ==> width == 0,
            forall|m: int| 0 <= m < height ==> (#[trigger] grid@[m])@.len() == width,
            col_hints@.len() == c,
            forall|m: int|
                0 <= m < c ==> hints_as_ints((#[trigger] col_hints@[m])@) == line_runs(
                    byte_column(byte_rows(grid@), m),
                ),
        decreases width - c,
    {
        let mut col: Vec<u8> = Vec::new();
        let mut rr: usize = 0;
        while rr < height
            invariant
                rr <= height,
                height == grid@.len(),
                c < width,
                forall|m: int| 0 <= m < height ==> (#[trigger] grid@[m])@.len() == width,
                col@.len() == rr,
                forall|j: int| 0 <= j < rr ==> col@[j] == grid@[j]@[c as int],
            decreases height - rr,
        {
            let row = &grid[rr];
            col.push(row[c]);
            rr += 1;
        }
        proof {
            assert(col@ =~= byte_column(byte_rows(grid@), c as int));
            assert(col@.len() <= u32::MAX);
        }
        let h = line_hint(&col);
        col_hints.push(h);
        c += 1;
    }

    (row_hints, col_hints)
}

/// Zeros in the bytes contribute nothing to the encoding.
proof fn lemma_runs_skip_zeros(b: Seq<u8>, i: int, j: int)
    requires
        0 <= i <= j <= b.len(),
        forall|m: int| i <= m < j ==> b[m] != 1,
    ensures
        runs_from(b, i, 0) == runs_from(b, j, 0),
    decreases j - i,
{
    if i < j {
        lemma_runs_skip_zeros(b, i + 1, j);
    }
}

/// A stretch of 1s only grows the pending count.
proof fn lemma_runs_count_ones(b: Seq<u8>, i: int, h: int, c: int)
    requires
        0 <= i,
        0 <= h,
        i + h <= b.len(),
        0 <= c,
        forall|m: int| i <= m < i + h ==> b[m] == 1,
    ensures
        runs_from(b, i, c) == runs_from(b, i + h, c + h),
    decreases h,
{
    if h > 0 {
        lemma_runs_count_ones(b, i + 1, h - 1, c + 1);
    }
}

/// After the final run the rest of the line is all 0, so exactly the pending
/// count is emitted.
proof fn lemma_runs_tail(b: Seq<u8>, i: int, c: int)
    requires
        0 <= i <= b.len(),
        c > 0,
        forall|m: int| i <= m < b.len() ==> b[m] != 1,
    ensures
        runs_from(b, i, c) == seq![c],
    decreases b.len() - i,
{
    if i < b.len() {
        lemma_runs_skip_zeros(b, i + 1, b.len() as int);
        assert(runs_from(b, b.len() as int, 0) == Seq::<int>::empty());
        assert(seq![c] + Seq::<int>::empty() =~= seq![c]);
    }
}

/// The blocks spelled out by a matching line encode back to exactly the
/// hints from `k` on.
proof fn lemma_runs_of_suffix(p: Seq<CellState>, pos: int, hints: Seq<u32>, k: int)
    requires
        0 <= pos <= p.len(),
        0 <= k <= hints.len(),
        suffix_matches(p, pos, hints, k),
        forall|m: int| k <= m < hints.len() ==> hints[m] > 0,
    ensures
        runs_from(bits_of_line(p), pos, 0) == hints_as_ints(hints).subrange(
            k,
            hints.len() as int,
        ),
    decreases hints.len() - k,
{
    let b = bits_of_line(p);
    assert(b.len() == p.len());
    if k >= hints.len() {
        assert forall|m: int| pos <= m < b.len() implies b[m] != 1 by {
            assert(p[m] == CellState::Empty);
        }
        lemma_runs_skip_zeros(b, pos, b.len() as int);
        assert(hints_as_ints(hints).subrange(k, hints.len() as int) =~= Seq::<int>::empty());
    } else {
        let start = choose|start: int|
            #[trigger] block_shape(p, pos, hints, k, start) && suffix_matches(
                p,
                next_pos_of(hints, k, start),
                hints,
                k + 1,
            );
        let h = hints[k] as int;
        assert forall|m: int| pos <= m < start implies b[m] != 1 by {
            assert(p[m] == CellState::Empty);
        }
        lemma_runs_skip_zeros(b, pos, start);
        assert forall|m: int| start <= m < start + h implies b[m] == 1 by {
            assert(p[m] == CellState::Filled);
        }
        lemma_runs_count_ones(b, start, h, 0);
        if k == hints.len() - 1 {
            // Last block: everything after it is `Empty`.
            assert(suffix_matches(p, start + h, hints, k + 1));
            assert forall|m: int| start + h <= m < b.len() implies b[m] != 1 by {
                assert(p[m] == CellState::Empty);
            }
            if start + h == b.len() {
                assert(runs_from(b, start + h, h) == seq![h]);
            } else {
                lemma_runs_tail(b, start + h, h);
            }
            assert(hints_as_ints(hints).subrange(k, hints.len() as int) =~= seq![h]);
        } else {
            assert(start + h < p.len() && p[start + h] == CellState::Empty);
            assert(b[start + h] != 1);
            assert(runs_from(b, start + h, h) == seq![h] + runs_from(b, start + h + 1, 0));
            lemma_runs_of_suffix(p, start + h + 1, hints, k + 1);
            assert(hints_as_ints(hints).subrange(k, hints.len() as int) =~= seq![h]
                + hints_as_ints(hints).subrange(k + 1, hints.len() as int));
        }
    }
}

/// Law: hint generation inverts solving.  A line that spells out a hint
/// sequence with no zero entries encodes back to exactly that sequence, so
/// for a solved grid the derived row and column hints reproduce the hints
/// that were solved for.
pub proof fn lemma_pattern_runs_round_trip(p: Seq<CellState>, hints: Seq<u32>)
    requires
        line_matches(p, hints),
        crate::pattern::hints_positive(hints),
    ensures
        line_runs(bits_of_line(p)) == hints_as_ints(hints),
{
    lemma_runs_of_suffix(p, 0, hints, 0);
    assert(hints_as_ints(hints).subrange(0, hints.len() as int) =~= hints_as_ints(hints));
}

/// `h` carries no zero entry alongside others: all blocks positive, or the
/// lone `[0]` shorthand for an empty line.
pub open spec fn no_embedded_zero(h: Seq<u32>) -> bool {
    crate::pattern::hints_positive(h) || (h.len() == 1 && h[0] == 0)
}

/// Law: round trip over a whole solved grid.  Every row and every column of
/// a solution encodes back to the hint sequence it was solved against, up
/// to normalization: a sequence written as the `[0]` shorthand comes back
/// as the empty sequence it stands for.  (A zero entry embedded alongside
/// other entries is excluded: regeneration drops it, so the law cannot hold
/// there — the validator rejects such sequences.)
pub proof fn lemma_generate_hints_round_trip(
    s: Seq<Seq<CellState>>,
    rh: Seq<Seq<u32>>,
    ch: Seq<Seq<u32>>,
)
    requires
        crate::logical_solver::grid_satisfies(s, rh, ch),
        forall|r: int| 0 <= r < rh.len() ==> no_embedded_zero(#[trigger] rh[r]),
        forall|c: int| 0 <= c < ch.len() ==> no_embedded_zero(#[trigger] ch[c]),
    ensures
        forall|r: int|
            0 <= r < rh.len() ==> line_runs(bits_of_line(#[trigger] s[r])) == hints_as_ints(
                crate::line_solver::normalize_spec(rh[r]),
            ),
        forall|c: int|
            0 <= c < ch.len() ==> line_runs(bits_of_line(column_of(s, c))) == hints_as_ints(
                crate::line_solver::normalize_spec(#[trigger] ch[c]),
            ),
{
    assert forall|r: int| 0 <= r < rh.len() implies line_runs(bits_of_line(#[trigger] s[r]))
        == hints_as_ints(crate::line_solver::normalize_spec(rh[r])) by {
        let norm = crate::line_solver::normalize_spec(rh[r]);
        assert(crate::pattern::hints_positive(norm));
        assert(line_matches(s[r], norm));
        lemma_pattern_runs_round_trip(s[r], norm);
    }
    assert forall|c: int| 0 <= c < ch.len() implies line_runs(bits_of_line(column_of(s, c)))
        == hints_as_ints(crate::line_solver::normalize_spec(#[trigger] ch[c])) by {
        let norm = crate::line_solver::normalize_spec(ch[c]);
        assert(crate::pattern::hints_positive(norm));
        assert(line_matches(column_of(s, c), norm));
        lemma_pattern_runs_round_trip(column_of(s, c), norm);
    }
}

} // verus!
