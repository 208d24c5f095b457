//! Candidate-pattern enumeration for one line.
//!
//! A pattern for a hint sequence `H` on a line of length `L` is a fully
//! determined line (no `Unknown` cell) whose `Filled` cells form blocks of
//! lengths `H[0], H[1], ...` in that order, separated by at least one `Empty`
//! cell, with `Empty` everywhere else.

use vstd::prelude::*;
use vstd::pervasive::VecAdditionalExecFns;
use crate::types::CellState;

verus! {

/// Every cell of `p` with index in `[lo, hi)` is `Empty`.
pub open spec fn all_empty(p: Seq<CellState>, lo: int, hi: int) -> bool {
    forall|j: int| lo <= j < hi ==> p[j] == CellState::Empty
}

/// Every cell of `p` with index in `[lo, hi)` is `Filled`.
pub open spec fn all_filled(p: Seq<CellState>, lo: int, hi: int) -> bool {
    forall|j: int| lo <= j < hi ==> p[j] == CellState::Filled
}

/// `a` and `b` hold the same cells below index `pos`.
pub open spec fn agrees_below(a: Seq<CellState>, b: Seq<CellState>, pos: int) -> bool {
    forall|j: int| 0 <= j < pos ==> (#[trigger] a[j]) == b[j]
}

/// Fewest cells that can carry the blocks of `hints[k..]`: their lengths
/// plus one mandatory gap cell between consecutive blocks.
pub open spec fn suffix_min_len(hints: Seq<u32>, k: int) -> int
    decreases hints.len() - k,
{
    if k < 0 || k >= hints.len() {
        0
    } else if k == hints.len() - 1 {
        hints[k] as int
    } else {
        hints[k] + 1 + suffix_min_len(hints, k + 1)
    }
}

/// Fewest cells that can carry all blocks of `hints`.
pub open spec fn min_line_len(hints: Seq<u32>) -> int {
    suffix_min_len(hints, 0)
}

pub proof fn lemma_suffix_min_len_nonneg(hints: Seq<u32>, k: int)
    ensures
        0 <= suffix_min_len(hints, k),
    decreases hints.len() - k,
{
    if 0 <= k && k < hints.len() - 1 {
        lemma_suffix_min_len_nonneg(hints, k + 1);
    }
}

/// Block `k` of `hints` starts exactly at `start`: `Empty` cells run from
/// `pos` up to `start`, the block itself is `Filled`, and — unless it is the
/// last block — the cell just after it is the mandatory `Empty` gap.
pub open spec fn block_shape(
    p: Seq<CellState>,
    pos: int,
    hints: Seq<u32>,
    k: int,
    start: int,
) -> bool {
    k < hints.len() && pos <= start && start + hints[k] <= p.len() && all_empty(p, pos, start)
        && all_filled(p, start, start + hints[k]) && (k == hints.len() - 1 || (start + hints[k]
        < p.len() && p[start + hints[k]] == CellState::Empty))
}

/// First index not committed once block `k` is placed at `start`: just past
/// the block, or past its gap cell when more blocks follow.
pub open spec fn next_pos_of(hints: Seq<u32>, k: int, start: int) -> int {
    if k == hints.len() - 1 {
        start + hints[k]
    } else {
        start + hints[k] + 1
    }
}

/// From index `pos` on, `p` spells out the blocks of `hints[k..]`: zero or
/// more `Empty` cells, then block `k` `Filled`, then — unless block `k` is
/// the last — one mandatory `Empty` gap cell, and so on; after the last
/// block every remaining cell is `Empty`.
pub open spec fn suffix_matches(p: Seq<CellState>, pos: int, hints: Seq<u32>, k: int) -> bool
    decreases hints.len() - k,
{
    if k >= hints.len() {
        all_empty(p, pos, p.len() as int)
    } else {
        exists|start: int|
            #[trigger] block_shape(p, pos, hints, k, start) && suffix_matches(
                p,
                next_pos_of(hints, k, start),
                hints,
                k + 1,
            )
    }
}

/// Block `k` stands at `start` and the rest of the line matches on from
/// there.
pub open spec fn places_block_at(
    p: Seq<CellState>,
    pos: int,
    hints: Seq<u32>,
    k: int,
    start: int,
) -> bool {
    block_shape(p, pos, hints, k, start) && suffix_matches(p, next_pos_of(hints, k, start), hints, k + 1)
}

/// `p` is a full candidate line for `hints`.
pub open spec fn line_matches(p: Seq<CellState>, hints: Seq<u32>) -> bool {
    suffix_matches(p, 0, hints, 0)
}

/// Every entry of `hints` is a positive block length.
pub open spec fn hints_positive(hints: Seq<u32>) -> bool {
    forall|m: int| 0 <= m < hints.len() ==> (#[trigger] hints[m]) > 0
}

/// Some cell of `p` with index in `[lo, hi)` is `Filled`.
spec fn has_filled_within(p: Seq<CellState>, lo: int, hi: int) -> bool {
    exists|jj: int| lo <= jj < hi && p[jj] == CellState::Filled
}

/// `p` agrees with `known` on every index both share where `known` is
/// already determined.
pub open spec fn compat_with(p: Seq<CellState>, known: Seq<CellState>) -> bool {
    forall|i: int|
        0 <= i < p.len() && i < known.len() ==> known[i] == CellState::Unknown || p[i] == known[i]
}

/// The mathematical values of a list of lines.
pub open spec fn line_views(lines: Seq<Vec<CellState>>) -> Seq<Seq<CellState>> {
    lines.map_values(|v: Vec<CellState>| v@)
}

/// A line matching from `pos` needs room for all its remaining blocks.
pub proof fn lemma_matches_needs_space(p: Seq<CellState>, pos: int, hints: Seq<u32>, k: int)
    requires
        0 <= k < hints.len(),
        suffix_matches(p, pos, hints, k),
    ensures
        pos + suffix_min_len(hints, k) <= p.len(),
    decreases hints.len() - k,
{
    let start = choose|start: int|
        #[trigger] block_shape(p, pos, hints, k, start) && suffix_matches(
            p,
            next_pos_of(hints, k, start),
            hints,
            k + 1,
        );
    if k == hints.len() - 1 {
        assert(start + hints[k] <= p.len());
    } else {
        lemma_matches_needs_space(p, start + hints[k] + 1, hints, k + 1);
    }
}

/// A line that matches from `pos` on has no `Unknown` cell there.
pub proof fn lemma_matches_all_known(p: Seq<CellState>, pos: int, hints: Seq<u32>, k: int)
    requires
        suffix_matches(p, pos, hints, k),
    ensures
        forall|j: int| pos <= j < p.len() ==> (#[trigger] p[j]) != CellState::Unknown,
    decreases hints.len() - k,
{
    if k >= hints.len() {
        assert(all_empty(p, pos, p.len() as int));
    } else {
        let start = choose|start: int|
            #[trigger] block_shape(p, pos, hints, k, start) && suffix_matches(
                p,
                next_pos_of(hints, k, start),
                hints,
                k + 1,
            );
        lemma_matches_all_known(p, next_pos_of(hints, k, start), hints, k + 1);
        assert forall|j: int| pos <= j < p.len() implies (#[trigger] p[j]) != CellState::Unknown by {
            if j < start {
                assert(p[j] == CellState::Empty);
            } else if j < start + hints[k] {
                assert(p[j] == CellState::Filled);
            } else if j < next_pos_of(hints, k, start) {
                assert(p[j] == CellState::Empty);
            }
        }
    }
}

/// A fresh line of `width` copies of `cell`.
pub(crate) fn uniform_line(width: usize, cell: CellState) -> (r: Vec<CellState>)
    ensures
        r@.len() == width,
        forall|j: int| 0 <= j < width ==> r@[j] == cell,
{
    let mut r: Vec<CellState> = Vec::new();
    let mut i: usize = 0;
    while i < width
        invariant
            i <= width,
            r@.len() == i,
            forall|j: int| 0 <= j < i ==> r@[j] == cell,
        decreases width - i,
    {
        r.push(cell);
        i += 1;
    }
    r
}

/// An element-wise copy of a line.
pub(crate) fn copy_line(src: &Vec<CellState>) -> (r: Vec<CellState>)
    ensures
        r@ == src@,
{
    let mut r: Vec<CellState> = Vec::new();
    let mut i: usize = 0;
    while i < src.len()
        invariant
            i <= src@.len(),
            r@.len() == i,
            forall|j: int| 0 <= j < i ==> r@[j] == src@[j],
        decreases src@.len() - i,
    {
        r.push(src[i]);
        i += 1;
    }
    proof {
        assert(r@ =~= src@);
    }
    r
}

/// `suffix_min_len(hints, k)`, computed without overflow.
fn suffix_min_space(hints: &Vec<u32>, k: usize) -> (r: u128)
    requires
        k <= hints@.len(),
    ensures
        r == suffix_min_len(hints@, k as int),
        r <= (hints@.len() - k) * 0x1_0000_0000,
{
    let n = hints.len();
    let mut j: usize = n;
    let mut val: u128 = 0;
    while j > k
        invariant
            k <= j <= n,
            n == hints@.len(),
            val == suffix_min_len(hints@, j as int),
            val <= (n - j) * 0x1_0000_0000,
        decreases j,
    {
        j -= 1;
        if j == n - 1 {
            val = hints[j] as u128;
        } else {
            val = hints[j] as u128 + 1 + val;
        }
    }
    val
}

/// All candidate patterns for a line of length `width` with hint sequence
/// `hints`: exactly the lines of that length that `line_matches` accepts,
/// at least one of them whenever the blocks fit at all, and — for hints
/// with only positive block lengths — each exactly once.
pub fn generate_patterns(width: usize, hints: &Vec<u32>) -> (r: Vec<Vec<CellState>>)
    requires
        width < usize::MAX,
    ensures
        forall|i: int|
            0 <= i < r@.len() ==> (#[trigger] r@[i])@.len() == width && line_matches(
                r@[i]@,
                hints@,
            ),
        forall|p: Seq<CellState>|
            p.len() == width && #[trigger] line_matches(p, hints@) ==> line_views(r@).contains(p),
        min_line_len(hints@) <= width ==> r@.len() > 0,
        hints_positive(hints@) ==> forall|i: int, j: int|
            0 <= i < j < r@.len() ==> (#[trigger] r@[i])@ != (#[trigger] r@[j])@,
{
    if hints.len() == 0 {
        let only = uniform_line(width, CellState::Empty);
        let mut results: Vec<Vec<CellState>> = Vec::new();
        results.push(only);
        proof {
            assert(line_matches(results@[0]@, hints@));
            assert forall|p: Seq<CellState>|
                p.len() == width && #[trigger] line_matches(p, hints@) implies line_views(
                results@,
            ).contains(p) by {
                assert(p =~= results@[0]@);
                assert(line_views(results@)[0] == p);
            }
        }
        return results;
    }
    let mut current = uniform_line(width, CellState::Empty);
    let mut results: Vec<Vec<CellState>> = Vec::new();
    generate_recursive(width, hints, 0, 0, &mut current, &mut results);
    results
}

/// Recursive placement: commit block `hint_index` to every feasible start
/// position at or right of `pos`, recording one finished pattern per complete
/// placement.  `current[..pos]` is the part already committed.
fn generate_recursive(
    width: usize,
    hints: &Vec<u32>,
    hint_index: usize,
    pos: usize,
    current: &mut Vec<CellState>,
    results: &mut Vec<Vec<CellState>>,
)
    requires
        width < usize::MAX,
        old(current)@.len() == width,
        hint_index <= hints@.len(),
        pos <= width,
    ensures
        final(current)@.len() == width,
        agrees_below(final(current)@, old(current)@, pos as int),
        final(results)@.len() >= old(results)@.len(),
        forall|i: int|
            0 <= i < old(results)@.len() ==> (#[trigger] final(results)@[i])@ == old(results)@[i]@,
        forall|i: int|
            old(results)@.len() <= i < final(results)@.len() ==> (#[trigger] final(results)@[i])@.len() == width
                && agrees_below(final(results)@[i]@, old(current)@, pos as int)
                && suffix_matches(final(results)@[i]@, pos as int, hints@, hint_index as int),
        forall|p: Seq<CellState>|
            p.len() == width && agrees_below(p, old(current)@, pos as int)
                && #[trigger] suffix_matches(p, pos as int, hints@, hint_index as int)
                ==> line_views(final(results)@).contains(p),
        pos + suffix_min_len(hints@, hint_index as int) <= width ==> final(results)@.len() > old(
            results,
        )@.len(),
        hints_positive(hints@) ==> forall|i: int, j: int|
            old(results)@.len() <= i < j < final(results)@.len()
                ==> (#[trigger] final(results)@[i])@ != (#[trigger] final(results)@[j])@,
    decreases hints@.len() - hint_index,
{
    let ghost old_results = results@;
    let ghost base = old(current)@;
    let n = hints.len();
    if hint_index == n {
        let mut i: usize = pos;
        while i < width
            invariant
                pos <= i <= width,
                current@.len() == width,
                agrees_below(current@, base, pos as int),
                all_empty(current@, pos as int, i as int),
            decreases width - i,
        {
            current.set(i, CellState::Empty);
            i += 1;
        }
        let finished = copy_line(current);
        results.push(finished);
        proof {
            assert(suffix_matches(current@, pos as int, hints@, n as int));
            assert(line_views(results@)[old_results.len() as int] == current@);
            assert forall|p: Seq<CellState>|
                p.len() == width && agrees_below(p, base, pos as int)
                    && #[trigger] suffix_matches(p, pos as int, hints@, hint_index as int)
                    implies line_views(results@).contains(p) by {
                assert(all_empty(p, pos as int, p.len() as int));
                assert forall|j: int| 0 <= j < width implies p[j] == current@[j] by {
                    if j < pos {
                        assert(p[j] == base[j]);
                        assert(current@[j] == base[j]);
                    } else {
                        assert(p[j] == CellState::Empty);
                        assert(current@[j] == CellState::Empty);
                    }
                }
                assert(p =~= current@);
                assert(line_views(results@)[old_results.len() as int] == p);
            }
        }
        return;
    }

    let h = hints[hint_index] as usize;
    let needed = suffix_min_space(hints, hint_index);
    if pos as u128 + needed > width as u128 {
        proof {
            lemma_suffix_min_len_nonneg(hints@, hint_index as int);
            assert forall|p: Seq<CellState>|
                p.len() == width && agrees_below(p, base, pos as int)
                    && #[trigger] suffix_matches(p, pos as int, hints@, hint_index as int)
                    implies line_views(results@).contains(p) by {
                lemma_matches_needs_space(p, pos as int, hints@, hint_index as int);
            }
        }
        return;
    }
    proof {
        lemma_suffix_min_len_nonneg(hints@, hint_index as int);
        if hint_index < n - 1 {
            lemma_suffix_min_len_nonneg(hints@, hint_index as int + 1);
        }
    }
    let needed_cells = needed as usize;
    let max_start = width - needed_cells;

    let mut start = pos;
    while start <= max_start
        invariant
            width < usize::MAX,
            hint_index < n == hints@.len(),
            h == hints@[hint_index as int],
            needed_cells == suffix_min_len(hints@, hint_index as int),
            hint_index == n - 1 ==> needed_cells == h,
            hint_index < n - 1 ==> needed_cells == h + 1 + suffix_min_len(
                hints@,
                hint_index as int + 1,
            ) && suffix_min_len(hints@, hint_index as int + 1) >= 0,
            pos <= start <= max_start + 1,
            max_start == width - needed_cells,
            pos + needed_cells <= width,
            h <= needed_cells <= width,
            current@.len() == width,
            agrees_below(current@, base, pos as int),
            results@.len() >= old_results.len(),
            forall|i: int|
                0 <= i < old_results.len() ==> (#[trigger] results@[i])@ == old_results[i]@,
            forall|i: int|
                old_results.len() <= i < results@.len() ==> (#[trigger] results@[i])@.len()
                    == width && agrees_below(results@[i]@, base, pos as int) && suffix_matches(
                    results@[i]@,
                    pos as int,
                    hints@,
                    hint_index as int,
                ),
            forall|p: Seq<CellState>, s: int|
                p.len() == width && agrees_below(p, base, pos as int) && pos <= s < start
                    && #[trigger] places_block_at(p, pos as int, hints@, hint_index as int, s)
                    ==> line_views(results@).contains(p),
            start > pos ==> results@.len() > old_results.len(),
            hints_positive(hints@) ==> forall|i1: int, j1: int|
                old_results.len() <= i1 < j1 < results@.len() ==> (#[trigger] results@[i1])@ != (
                #[trigger] results@[j1])@,
            hints_positive(hints@) ==> forall|i1: int|
                old_results.len() <= i1 < results@.len() ==> has_filled_within(
                    (#[trigger] results@[i1])@,
                    pos as int,
                    start as int,
                ),
        decreases max_start + 1 - start,
    {
        let ghost results_before = results@;
        // Empty cells left of the block.
        let mut i: usize = pos;
        while i < start
            invariant
                pos <= i <= start,
                start <= width,
                current@.len() == width,
                agrees_below(current@, base, pos as int),
                all_empty(current@, pos as int, i as int),
            decreases start - i,
        {
            current.set(i, CellState::Empty);
            i += 1;
        }
        // The block itself.
        let mut i2: usize = start;
        while i2 < start + h
            invariant
                pos <= start,
                start <= i2 <= start + h,
                start + h <= width,
                current@.len() == width,
                agrees_below(current@, base, pos as int),
                all_empty(current@, pos as int, start as int),
                all_filled(current@, start as int, i2 as int),
            decreases start + h - i2,
        {
            current.set(i2, CellState::Filled);
            i2 += 1;
        }
        // The mandatory gap, unless this is the last block.
        let next_pos = if hint_index < n - 1 {
            if start + h < width {
                current.set(start + h, CellState::Empty);
            }
            start + h + 1
        } else {
            start + h
        };
        let ghost committed = current@;
        proof {
            assert(next_pos <= width);
        }
        generate_recursive(width, hints, hint_index + 1, next_pos, current, results);
        proof {
            assert(agrees_below(current@, base, pos as int)) by {
                assert forall|j: int| 0 <= j < pos implies current@[j] == base[j] by {
                    assert(current@[j] == committed[j]);
                }
            }
            // Every pattern the recursive call added places block `hint_index`
            // at `start`.
            assert forall|i: int|
                results_before.len() <= i < results@.len() implies (#[trigger] results@[i])@.len()
                    == width && agrees_below(results@[i]@, base, pos as int) && suffix_matches(
                    results@[i]@,
                    pos as int,
                    hints@,
                    hint_index as int,
                ) by {
                let q = results@[i]@;
                assert(agrees_below(q, committed, next_pos as int));
                assert(agrees_below(q, base, pos as int)) by {
                    assert forall|j: int| 0 <= j < pos implies q[j] == base[j] by {
                        assert(q[j] == committed[j]);
                    }
                }
                assert(all_empty(q, pos as int, start as int));
                assert(all_filled(q, start as int, start as int + h));
                assert(places_block_at(q, pos as int, hints@, hint_index as int, start as int));
            }
            // Conversely, every pattern that places the block at `start` was
            // added by the recursive call.
            assert forall|p: Seq<CellState>, s: int|
                p.len() == width && agrees_below(p, base, pos as int) && pos <= s < start + 1
                    && #[trigger] places_block_at(p, pos as int, hints@, hint_index as int, s)
                    implies line_views(results@).contains(p) by {
                if s < start {
                    assert(line_views(results_before).contains(p));
                    let idx = choose|idx: int|
                        0 <= idx < results_before.len() && line_views(results_before)[idx] == p;
                    assert(line_views(results@)[idx] == p);
                } else {
                    assert(agrees_below(p, committed, next_pos as int)) by {
                        assert forall|j: int| 0 <= j < next_pos implies p[j] == committed[j] by {
                            if j < pos {
                                assert(p[j] == base[j]);
                                assert(committed[j] == base[j]);
                            } else if j < start {
                                assert(p[j] == CellState::Empty);
                            } else if j < start + h {
                                assert(p[j] == CellState::Filled);
                            } else {
                                assert(j == start + h && hint_index < n - 1);
                                assert(p[j] == CellState::Empty);
                            }
                        }
                    }
                    assert(suffix_matches(p, next_pos as int, hints@, hint_index as int + 1));
                    assert(line_views(results@).contains(p));
                }
            }
            // The recursive call was feasible, so it recorded something.
            assert(next_pos + suffix_min_len(hints@, hint_index as int + 1) <= width);
            assert(results@.len() > results_before.len());
            if hints_positive(hints@) {
                // Patterns of this batch show their block at `start`; earlier
                // ones have a `Filled` cell left of it, where these are
                // `Empty`, so no pattern is recorded twice.
                assert(h >= 1);
                assert forall|i1: int|
                    results_before.len() <= i1 < results@.len() implies (
                #[trigger] results@[i1])@[start as int] == CellState::Filled by {
                    assert(agrees_below(results@[i1]@, committed, next_pos as int));
                    assert(committed[start as int] == CellState::Filled);
                }
                assert forall|i1: int, j1: int|
                    old_results.len() <= i1 < j1 < results@.len() implies (
                #[trigger] results@[i1])@ != (#[trigger] results@[j1])@ by {
                    if j1 < results_before.len() {
                        assert(results@[i1]@ == results_before[i1]@);
                        assert(results@[j1]@ == results_before[j1]@);
                    } else if i1 >= results_before.len() {
                    } else {
                        assert(results@[i1]@ == results_before[i1]@);
                        assert(has_filled_within(results@[i1]@, pos as int, start as int));
                        let jj = choose|jj: int|
                            pos <= jj < start && results@[i1]@[jj] == CellState::Filled;
                        assert(results@[i1]@[jj] == CellState::Filled);
                        assert(agrees_below(results@[j1]@, committed, next_pos as int));
                        assert(committed[jj] == CellState::Empty);
                        assert(results@[j1]@[jj] == CellState::Empty);
                    }
                }
                assert forall|i1: int|
                    old_results.len() <= i1 < results@.len() implies has_filled_within(
                    (#[trigger] results@[i1])@,
                    pos as int,
                    start as int + 1,
                ) by {
                    if i1 < results_before.len() {
                        assert(results@[i1]@ == results_before[i1]@);
                        assert(has_filled_within(results@[i1]@, pos as int, start as int));
                        let jj = choose|jj: int|
                            pos <= jj < start && results@[i1]@[jj] == CellState::Filled;
                        assert(pos <= jj < start + 1 && results@[i1]@[jj] == CellState::Filled);
                    } else {
                        assert(pos <= start && results@[i1]@[start as int]
                            == CellState::Filled);
                    }
                }
            }
        }
        start += 1;
    }
    proof {
        // Any pattern matching from `pos` places its next block no further
        // right than `max_start`, so the loop covered every placement.
        assert forall|p: Seq<CellState>|
            p.len() == width && agrees_below(p, base, pos as int)
                && #[trigger] suffix_matches(p, pos as int, hints@, hint_index as int)
                implies line_views(results@).contains(p) by {
            let s = choose|s: int|
                #[trigger] block_shape(p, pos as int, hints@, hint_index as int, s)
                    && suffix_matches(
                    p,
                    next_pos_of(hints@, hint_index as int, s),
                    hints@,
                    hint_index as int + 1,
                );
            assert(places_block_at(p, pos as int, hints@, hint_index as int, s));
            if hint_index == n - 1 {
                assert(s + h <= width);
            } else {
                lemma_matches_needs_space(p, s + h + 1, hints@, hint_index as int + 1);
            }
            assert(s <= max_start);
        }
    }
}

/// The lines among `candidates` that agree with the already-determined
/// cells of `known`, in their original order.
pub open spec fn compatible_views(
    candidates: Seq<Seq<CellState>>,
    known: Seq<CellState>,
) -> Seq<Seq<CellState>> {
    candidates.filter(|p: Seq<CellState>| compat_with(p, known))
}

/// The sublist of `patterns` that agree with the already-determined cells of
/// `known`: exactly the compatible ones, in their original order and
/// multiplicity.
pub fn filter_patterns(patterns: &Vec<Vec<CellState>>, known: &Vec<CellState>) -> (r: Vec<
    Vec<CellState>,
>)
    ensures
        line_views(r@) == compatible_views(line_views(patterns@), known@),
        forall|i: int|
            0 <= i < r@.len() ==> compat_with((#[trigger] r@[i])@, known@) && line_views(
                patterns@,
            ).contains(r@[i]@),
        forall|i: int|
            0 <= i < patterns@.len() && compat_with((#[trigger] patterns@[i])@, known@)
                ==> line_views(r@).contains(patterns@[i]@),
{
    let ghost pv = line_views(patterns@);
    let mut r: Vec<Vec<CellState>> = Vec::new();
    proof {
        reveal(Seq::filter);
        assert(line_views(r@) =~= compatible_views(pv.subrange(0, 0), known@));
    }
    let mut i: usize = 0;
    while i < patterns.len()
        invariant
            i <= patterns@.len(),
            pv == line_views(patterns@),
            line_views(r@) == compatible_views(pv.subrange(0, i as int), known@),
            forall|j: int|
                0 <= j < r@.len() ==> compat_with((#[trigger] r@[j])@, known@) && line_views(
                    patterns@,
                ).contains(r@[j]@),
            forall|j: int|
                0 <= j < i && compat_with((#[trigger] patterns@[j])@, known@) ==> line_views(
                    r@,
                ).contains(patterns@[j]@),
        decreases patterns@.len() - i,
    {
        let ghost sub = pv.subrange(0, i as int);
        let ghost sub1 = pv.subrange(0, i as int + 1);
        proof {
            reveal(Seq::filter);
            assert(sub1.drop_last() =~= sub);
            assert(sub1.last() == patterns@[i as int]@);
        }
        let p = &patterns[i];
        if line_compatible(p, known) {
            let ghost r_before = r@;
            let kept = copy_line(p);
            r.push(kept);
            proof {
                assert(line_views(patterns@)[i as int] == patterns@[i as int]@);
                assert(line_views(r@)[r_before.len() as int] == patterns@[i as int]@);
                assert(line_views(r@) =~= line_views(r_before).push(patterns@[i as int]@));
                reveal(Seq::filter);
                assert(compatible_views(sub1, known@) == compatible_views(sub, known@).push(
                    patterns@[i as int]@,
                ));
                assert forall|j: int|
                    0 <= j < i + 1 && compat_with((#[trigger] patterns@[j])@, known@)
                        implies line_views(r@).contains(patterns@[j]@) by {
                    if j < i {
                        let idx = choose|idx: int|
                            0 <= idx < r_before.len() && line_views(r_before)[idx]
                                == patterns@[j]@;
                        assert(line_views(r@)[idx] == patterns@[j]@);
                    }
                }
            }
        } else {
            proof {
                assert(!compat_with(patterns@[i as int]@, known@));
                reveal(Seq::filter);
                assert(compatible_views(sub1, known@) == compatible_views(sub, known@));
            }
        }
        i += 1;
    }
    proof {
        assert(pv.subrange(0, pv.len() as int) =~= pv);
    }
    r
}

/// Whether `p` agrees with every already-determined cell of `known`.
fn line_compatible(p: &Vec<CellState>, known: &Vec<CellState>) -> (r: bool)
    ensures
        r == compat_with(p@, known@),
{
    let mut i: usize = 0;
    let limit = if p.len() < known.len() {
        p.len()
    } else {
        known.len()
    };
    while i < limit
        invariant
            i <= limit,
            limit == if p@.len() < known@.len() {
                p@.len()
            } else {
                known@.len()
            },
            forall|j: int| 0 <= j < i ==> known@[j] == CellState::Unknown || p@[j] == known@[j],
        decreases limit - i,
    {
        if !(known[i] == CellState::Unknown || p[i] == known[i]) {
            return false;
        }
        i += 1;
    }
    true
}

} // verus!
