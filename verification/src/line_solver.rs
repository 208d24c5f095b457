//! Deduction over a single line.
//!
//! Given the line's current cells and its hints, every candidate pattern
//! consistent with the already-determined cells is considered; a cell is
//! forced exactly when all those candidates agree on it.

use vstd::prelude::*;
use vstd::pervasive::VecAdditionalExecFns;
use crate::pattern::{
    compat_with, filter_patterns, generate_patterns, line_matches, line_views,
};
use crate::types::CellState;

verus! {

/// A lone `[0]` hint is shorthand for "no blocks" and is treated like an
/// empty hint sequence.
pub open spec fn normalize_spec(hints: Seq<u32>) -> Seq<u32> {
    if hints.len() == 1 && hints[0] == 0 {
        Seq::empty()
    } else {
        hints
    }
}

/// `p` is a candidate for the line: a full pattern for the hints that agrees
/// with every already-determined cell.
pub open spec fn is_candidate(p: Seq<CellState>, line: Seq<CellState>, hints: Seq<u32>) -> bool {
    p.len() == line.len() && line_matches(p, hints) && compat_with(p, line)
}

/// At least one candidate pattern survives the already-determined cells.
pub open spec fn has_candidate(line: Seq<CellState>, hints: Seq<u32>) -> bool {
    exists|p: Seq<CellState>| #[trigger] is_candidate(p, line, hints)
}

/// Every candidate pattern has value `v` at index `i`.
pub open spec fn forced(line: Seq<CellState>, hints: Seq<u32>, i: int, v: CellState) -> bool {
    forall|p: Seq<CellState>| #[trigger] is_candidate(p, line, hints) ==> p[i] == v
}

/// Cell `i` after one deduction pass: already-determined cells are kept; an
/// `Unknown` cell becomes `Filled` or `Empty` exactly when all candidates
/// agree on it there.
pub open spec fn deduced_cell(line: Seq<CellState>, hints: Seq<u32>, i: int) -> CellState {
    if line[i] != CellState::Unknown {
        line[i]
    } else if forced(line, hints, i, CellState::Filled) {
        CellState::Filled
    } else if forced(line, hints, i, CellState::Empty) {
        CellState::Empty
    } else {
        CellState::Unknown
    }
}

/// The whole line after one deduction pass.
pub open spec fn deduced_line(line: Seq<CellState>, hints: Seq<u32>) -> Seq<CellState> {
    Seq::new(line.len(), |i: int| deduced_cell(line, hints, i))
}

/// Normalized copy of a hint sequence: `[0]` becomes `[]`, everything else
/// is kept as it is.
pub fn normalize_hints(hints: &Vec<u32>) -> (r: Vec<u32>)
    ensures
        r@ == normalize_spec(hints@),
{
    if hints.len() == 1 && hints[0] == 0 {
        let r: Vec<u32> = Vec::new();
        proof {
            assert(r@ =~= normalize_spec(hints@));
        }
        r
    } else {
        let mut r: Vec<u32> = Vec::new();
        let mut i: usize = 0;
        while i < hints.len()
            invariant
                i <= hints@.len(),
                r@.len() == i,
                forall|j: int| 0 <= j < i ==> r@[j] == hints@[j],
            decreases hints@.len() - i,
        {
            r.push(hints[i]);
            i += 1;
        }
        proof {
            assert(r@ =~= hints@);
        }
        r
    }
}

/// Whether every pattern in `patterns` carries `v` at index `i`.
fn all_agree_at(patterns: &Vec<Vec<CellState>>, i: usize, v: CellState) -> (r: bool)
    requires
        forall|k: int| 0 <= k < patterns@.len() ==> i < (#[trigger] patterns@[k])@.len(),
    ensures
        r == forall|k: int| 0 <= k < patterns@.len() ==> (#[trigger] patterns@[k])@[i as int] == v,
{
    let mut k: usize = 0;
    while k < patterns.len()
        invariant
            k <= patterns@.len(),
            forall|m: int| 0 <= m < patterns@.len() ==> i < (#[trigger] patterns@[m])@.len(),
            forall|m: int| 0 <= m < k ==> (#[trigger] patterns@[m])@[i as int] == v,
        decreases patterns@.len() - k,
    {
        let row = &patterns[k];
        if !(row[i] == v) {
            return false;
        }
        k += 1;
    }
    true
}

/// One deduction pass over a line.
///
/// Returns `None` exactly when no candidate pattern is consistent with the
/// already-determined cells; otherwise returns the line with every cell the
/// candidates agree on resolved, and every other cell unchanged.
pub fn solve_line(line: &Vec<CellState>, hints: &Vec<u32>) -> (r: Option<Vec<CellState>>)
    requires
        line@.len() < usize::MAX,
    ensures
        match r {
            None => !has_candidate(line@, normalize_spec(hints@)),
            Some(res) => has_candidate(line@, normalize_spec(hints@)) && res@ == deduced_line(
                line@,
                normalize_spec(hints@),
            ),
        },
{
    let ghost norm = normalize_spec(hints@);
    let effective_hints = normalize_hints(hints);
    let all_patterns = generate_patterns(line.len(), &effective_hints);
    let valid = filter_patterns(&all_patterns, line);

    proof {
        // Every candidate is among the filtered patterns, and every filtered
        // pattern is a candidate.
        assert forall|p: Seq<CellState>| #[trigger] is_candidate(p, line@, norm) implies line_views(
            valid@,
        ).contains(p) by {
            assert(line_views(all_patterns@).contains(p));
            let idx = choose|idx: int|
                0 <= idx < all_patterns@.len() && line_views(all_patterns@)[idx] == p;
            assert(compat_with((all_patterns@[idx])@, line@));
            assert(line_views(valid@).contains(all_patterns@[idx]@));
        }
        assert forall|k: int| 0 <= k < valid@.len() implies is_candidate(
            (#[trigger] valid@[k])@,
            line@,
            norm,
        ) by {
            assert(line_views(all_patterns@).contains(valid@[k]@));
            let idx = choose|idx: int|
                0 <= idx < all_patterns@.len() && line_views(all_patterns@)[idx] == valid@[k]@;
            assert(valid@[k]@.len() == line@.len());
            assert(line_matches(valid@[k]@, norm));
        }
    }

    if valid.len() == 0 {
        proof {
            assert(!has_candidate(line@, norm)) by {
                if has_candidate(line@, norm) {
                    let p = choose|p: Seq<CellState>| #[trigger] is_candidate(p, line@, norm);
                    assert(line_views(valid@).contains(p));
                }
            }
        }
        return None;
    }

    proof {
        assert(is_candidate(valid@[0]@, line@, norm));
        assert(has_candidate(line@, norm));
    }

    let mut result = crate::pattern::copy_line(line);
    let mut i: usize = 0;
    while i < line.len()
        invariant
            i <= line@.len(),
            line@.len() < usize::MAX,
            result@.len() == line@.len(),
            valid@.len() > 0,
            forall|k: int| 0 <= k < valid@.len() ==> is_candidate(
                (#[trigger] valid@[k])@,
                line@,
                norm,
            ),
            forall|p: Seq<CellState>| #[trigger] is_candidate(p, line@, norm) ==> line_views(
                valid@,
            ).contains(p),
            forall|j: int| i <= j < line@.len() ==> result@[j] == line@[j],
            forall|j: int| 0 <= j < i ==> result@[j] == deduced_cell(line@, norm, j),
        decreases line@.len() - i,
    {
        let cur = result[i];
        if cur == CellState::Unknown {
            proof {
                assert forall|k: int| 0 <= k < valid@.len() implies i < (
                #[trigger] valid@[k])@.len() by {
                    assert(is_candidate(valid@[k]@, line@, norm));
                }
            }
            let all_filled_here = all_agree_at(&valid, i, CellState::Filled);
            let all_empty_here = all_agree_at(&valid, i, CellState::Empty);
            if all_filled_here {
                result.set(i, CellState::Filled);
                proof {
                    assert forall|p: Seq<CellState>| #[trigger] is_candidate(p, line@, norm)
                        implies p[i as int] == CellState::Filled by {
                        let idx = choose|idx: int|
                            0 <= idx < valid@.len() && line_views(valid@)[idx] == p;
                        assert(valid@[idx]@[i as int] == CellState::Filled);
                    }
                    assert(forced(line@, norm, i as int, CellState::Filled));
                }
            } else if all_empty_here {
                result.set(i, CellState::Empty);
                proof {
                    assert forall|p: Seq<CellState>| #[trigger] is_candidate(p, line@, norm)
                        implies p[i as int] == CellState::Empty by {
                        let idx = choose|idx: int|
                            0 <= idx < valid@.len() && line_views(valid@)[idx] == p;
                        assert(valid@[idx]@[i as int] == CellState::Empty);
                    }
                    assert(!forced(line@, norm, i as int, CellState::Filled)) by {
                        let k = choose|k: int|
                            0 <= k < valid@.len() && (#[trigger] valid@[k])@[i as int]
                                != CellState::Filled;
                        assert(is_candidate(valid@[k]@, line@, norm));
                    }
                    assert(forced(line@, norm, i as int, CellState::Empty));
                }
            } else {
                proof {
                    assert(!forced(line@, norm, i as int, CellState::Filled)) by {
                        let k = choose|k: int|
                            0 <= k < valid@.len() && (#[trigger] valid@[k])@[i as int]
                                != CellState::Filled;
                        assert(is_candidate(valid@[k]@, line@, norm));
                    }
                    assert(!forced(line@, norm, i as int, CellState::Empty)) by {
                        let k = choose|k: int|
                            0 <= k < valid@.len() && (#[trigger] valid@[k])@[i as int]
                                != CellState::Empty;
                        assert(is_candidate(valid@[k]@, line@, norm));
                    }
                    assert(result@[i as int] == deduced_cell(line@, norm, i as int));
                }
            }
        } else {
            proof {
                assert(result@[i as int] == deduced_cell(line@, norm, i as int));
            }
        }
        i += 1;
    }
    proof {
        assert(result@ =~= deduced_line(line@, norm));
    }
    Some(result)
}

/// Law: line deduction is idempotent.  Deducing from a line that is itself
/// the outcome of a deduction pass forces nothing further: the candidate
/// set is unchanged, so the second pass returns its input.
pub proof fn lemma_deduce_idempotent(line: Seq<CellState>, hints: Seq<u32>)
    requires
        has_candidate(line, hints),
    ensures
        has_candidate(deduced_line(line, hints), hints),
        deduced_line(deduced_line(line, hints), hints) == deduced_line(line, hints),
{
    let d = deduced_line(line, hints);
    assert(d.len() == line.len());
    // The two lines admit exactly the same candidates.
    assert forall|p: Seq<CellState>| #[trigger] is_candidate(p, line, hints) implies is_candidate(
        p,
        d,
        hints,
    ) by {
        assert forall|i: int| 0 <= i < p.len() && i < d.len() implies d[i] == CellState::Unknown
            || p[i] == d[i] by {
            assert(d[i] == deduced_cell(line, hints, i));
        }
    }
    assert forall|p: Seq<CellState>| #[trigger] is_candidate(p, d, hints) implies is_candidate(
        p,
        line,
        hints,
    ) by {
        assert forall|i: int| 0 <= i < p.len() && i < line.len() implies line[i]
            == CellState::Unknown || p[i] == line[i] by {
            assert(d[i] == deduced_cell(line, hints, i));
            if line[i] != CellState::Unknown {
                assert(d[i] == line[i]);
                assert(p[i] == d[i]);
            }
        }
    }
    let w = choose|p: Seq<CellState>| #[trigger] is_candidate(p, line, hints);
    assert(is_candidate(w, d, hints));
    // A cell the first pass left open stays open: some candidate disagrees,
    // and that candidate is still a candidate of the deduced line.
    assert forall|i: int| 0 <= i < d.len() implies deduced_cell(d, hints, i) == d[i] by {
        assert(d[i] == deduced_cell(line, hints, i));
        if d[i] == CellState::Unknown {
            assert(!forced(line, hints, i, CellState::Filled));
            assert(!forced(line, hints, i, CellState::Empty));
            assert(!forced(d, hints, i, CellState::Filled)) by {
                let q = choose|q: Seq<CellState>|
                    #[trigger] is_candidate(q, line, hints) && q[i] != CellState::Filled;
                assert(is_candidate(q, d, hints));
            }
            assert(!forced(d, hints, i, CellState::Empty)) by {
                let q = choose|q: Seq<CellState>|
                    #[trigger] is_candidate(q, line, hints) && q[i] != CellState::Empty;
                assert(is_candidate(q, d, hints));
            }
        }
    }
    assert(deduced_line(d, hints) =~= d);
}

} // verus!
