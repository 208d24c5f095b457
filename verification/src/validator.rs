//! Static validation of a hint set against declared dimensions.
//!
//! Every check is independent and all of them always run, so the error list
//! carries one entry per violation; validity is exactly "no errors".  This
//! module does not depend on the solving components.

use vstd::prelude::*;
use crate::logical_solver::hints_views;
use crate::types::ValidationResult;

verus! {

broadcast use vstd::string::to_string_from_display_ensures_for_str;

/// Report text: the width is out of range.
pub open spec fn width_range_msg() -> Seq<char> {
    "幅は1以上100以下である必要があります"@
}

/// Report text: the height is out of range.
pub open spec fn height_range_msg() -> Seq<char> {
    "高さは1以上100以下である必要があります"@
}

/// Report text: the number of row hint sequences differs from the height.
pub open spec fn row_count_msg() -> Seq<char> {
    "行ヒントの数が高さと一致しません"@
}

/// Report text: the number of column hint sequences differs from the width.
pub open spec fn col_count_msg() -> Seq<char> {
    "列ヒントの数が幅と一致しません"@
}

/// Report text: a row's blocks cannot fit in the width.
pub open spec fn row_fit_msg() -> Seq<char> {
    "行のヒントは最低必要マス数が幅を超えています"@
}

/// Report text: a row hint sequence embeds a zero.
pub open spec fn row_zero_msg() -> Seq<char> {
    "行のヒントに0が含まれています"@
}

/// Report text: a column's blocks cannot fit in the height.
pub open spec fn col_fit_msg() -> Seq<char> {
    "列のヒントは最低必要マス数が高さを超えています"@
}

/// Report text: a column hint sequence embeds a zero.
pub open spec fn col_zero_msg() -> Seq<char> {
    "列のヒントに0が含まれています"@
}

/// Report text: row blocks and column blocks cover different totals.
pub open spec fn total_mismatch_msg() -> Seq<char> {
    "行ヒントの合計と列ヒントの合計が一致しません"@
}

/// The fixed report texts the validator can emit.
pub open spec fn is_validator_message(s: Seq<char>) -> bool {
    s == width_range_msg() || s == height_range_msg() || s == row_count_msg() || s
        == col_count_msg() || s == row_fit_msg() || s == row_zero_msg() || s == col_fit_msg() || s
        == col_zero_msg() || s == total_mismatch_msg()
}

/// The texts of a report list.
pub open spec fn msg_views(es: Seq<String>) -> Seq<Seq<char>> {
    es.map_values(|s: String| s@)
}

/// One report line when the condition holds, none otherwise.
pub open spec fn msgs_if(c: bool, m: Seq<char>) -> Seq<Seq<char>> {
    if c {
        seq![m]
    } else {
        Seq::<Seq<char>>::empty()
    }
}

/// One report line per zero entry of the hint sequence, in order.
pub open spec fn zero_msgs(h: Seq<u32>, m: Seq<char>) -> Seq<Seq<char>>
    decreases h.len(),
{
    if h.len() == 0 {
        Seq::<Seq<char>>::empty()
    } else {
        zero_msgs(h.drop_last(), m) + msgs_if(h.last() == 0, m)
    }
}

/// The report lines one hint sequence contributes: its fit violation, then
/// its embedded zeros (a lone `[0]` is valid shorthand for an empty line).
pub open spec fn line_msgs(h: Seq<u32>, len: int, fit_m: Seq<char>, zero_m: Seq<char>) -> Seq<
    Seq<char>,
> {
    msgs_if(!line_fit_ok(h, len), fit_m) + if h.len() > 1 {
        zero_msgs(h, zero_m)
    } else {
        Seq::<Seq<char>>::empty()
    }
}

/// The report lines a whole hint set contributes, line by line.
pub open spec fn hintset_msgs(hs: Seq<Seq<u32>>, len: int, fit_m: Seq<char>, zero_m: Seq<char>) -> Seq<
    Seq<char>,
>
    decreases hs.len(),
{
    if hs.len() == 0 {
        Seq::<Seq<char>>::empty()
    } else {
        hintset_msgs(hs.drop_last(), len, fit_m, zero_m) + line_msgs(hs.last(), len, fit_m, zero_m)
    }
}

/// The report lines of the four leading checks, in emission order.
pub open spec fn head_msgs(w: int, h: int, nrh: int, nch: int) -> Seq<Seq<char>> {
    msgs_if(!dim_ok(w), width_range_msg()) + msgs_if(!dim_ok(h), height_range_msg()) + msgs_if(
        nrh != h,
        row_count_msg(),
    ) + msgs_if(nch != w, col_count_msg())
}

/// The whole report, check by check in emission order: each violated check
/// contributes exactly its own text, at its own place.
pub open spec fn expected_errors(w: int, h: int, rh: Seq<Seq<u32>>, ch: Seq<Seq<u32>>) -> Seq<
    Seq<char>,
> {
    head_msgs(w, h, rh.len() as int, ch.len() as int) + hintset_msgs(
        rh,
        w,
        row_fit_msg(),
        row_zero_msg(),
    ) + hintset_msgs(ch, h, col_fit_msg(), col_zero_msg()) + msgs_if(
        total_sum(rh) != total_sum(ch),
        total_mismatch_msg(),
    )
}

/// Append one report line.
fn push_message(errors: &mut Vec<String>, m: &str)
    requires
        forall|k: int|
            0 <= k < old(errors)@.len() ==> is_validator_message((#[trigger] old(errors)@[k])@),
        is_validator_message(m@),
    ensures
        final(errors)@.len() == old(errors)@.len() + 1,
        final(errors)@.last()@ == m@,
        forall|k: int| 0 <= k < old(errors)@.len() ==> final(errors)@[k] == old(errors)@[k],
        forall|k: int|
            0 <= k < final(errors)@.len() ==> is_validator_message((#[trigger] final(errors)@[k])@),
        msg_views(final(errors)@) == msg_views(old(errors)@).push(m@),
{
    errors.push(m.to_string());
    proof {
        assert forall|k: int|
            0 <= k < errors@.len() implies is_validator_message((#[trigger] errors@[k])@) by {
            if k < errors@.len() - 1 {
                assert(is_validator_message(old(errors)@[k]@));
            } else {
                assert(errors@[k]@ == m@);
            }
        }
        assert(msg_views(errors@) =~= msg_views(old(errors)@).push(m@));
    }
}

/// A declared dimension must lie in `[1, 100]`.
pub open spec fn dim_ok(d: int) -> bool {
    1 <= d <= 100
}

/// Sum of the block lengths of one hint sequence.
pub open spec fn hint_sum(h: Seq<u32>) -> int
    decreases h.len(),
{
    if h.len() == 0 {
        0
    } else {
        hint_sum(h.drop_last()) + h.last()
    }
}

/// A non-empty hint sequence needs its blocks plus one gap between each
/// consecutive pair; an empty one always fits.
pub open spec fn line_fit_ok(h: Seq<u32>, len: int) -> bool {
    h.len() == 0 || hint_sum(h) + h.len() - 1 <= len
}

/// Number of zero entries in a hint sequence.
pub open spec fn zeros_in(h: Seq<u32>) -> int
    decreases h.len(),
{
    if h.len() == 0 {
        0
    } else {
        zeros_in(h.drop_last()) + if h.last() == 0 {
            1int
        } else {
            0int
        }
    }
}

/// Violations contributed by one hint sequence: one if its blocks cannot
/// fit, plus one per zero entry embedded alongside other entries (a lone
/// `[0]` is valid shorthand for an empty line).
pub open spec fn line_violations(h: Seq<u32>, len: int) -> int {
    (if line_fit_ok(h, len) {
        0int
    } else {
        1int
    }) + if h.len() > 1 {
        zeros_in(h)
    } else {
        0int
    }
}

/// Violations contributed by a whole hint set.
pub open spec fn hintset_violations(hs: Seq<Seq<u32>>, len: int) -> int
    decreases hs.len(),
{
    if hs.len() == 0 {
        0
    } else {
        hintset_violations(hs.drop_last(), len) + line_violations(hs.last(), len)
    }
}

/// Grand total of all block lengths in a hint set.
pub open spec fn total_sum(hs: Seq<Seq<u32>>) -> int
    decreases hs.len(),
{
    if hs.len() == 0 {
        0
    } else {
        total_sum(hs.drop_last()) + hint_sum(hs.last())
    }
}

/// Every violation except the grand-total comparison.
pub open spec fn base_violations(w: int, h: int, rh: Seq<Seq<u32>>, ch: Seq<Seq<u32>>) -> int {
    (if dim_ok(w) {
        0int
    } else {
        1int
    }) + (if dim_ok(h) {
        0int
    } else {
        1int
    }) + (if rh.len() == h {
        0int
    } else {
        1int
    }) + (if ch.len() == w {
        0int
    } else {
        1int
    }) + hintset_violations(rh, w) + hintset_violations(ch, h)
}

/// All violations: the independent checks plus the necessary condition that
/// row blocks and column blocks cover the same number of cells.
pub open spec fn violation_count(w: int, h: int, rh: Seq<Seq<u32>>, ch: Seq<Seq<u32>>) -> int {
    base_violations(w, h, rh, ch) + if total_sum(rh) == total_sum(ch) {
        0int
    } else {
        1int
    }
}

/// What a puzzle definition must satisfy to pass every check: dimensions in
/// range, one hint sequence per line, every sequence fitting its line with
/// no embedded zero, and row and column blocks covering the same number of
/// cells.
pub open spec fn puzzle_well_formed(w: int, h: int, rh: Seq<Seq<u32>>, ch: Seq<Seq<u32>>) -> bool {
    dim_ok(w) && dim_ok(h) && rh.len() == h && ch.len() == w && (forall|r: int|
        0 <= r < rh.len() ==> line_fit_ok(#[trigger] rh[r], w)) && (forall|r: int|
        0 <= r < rh.len() && rh[r].len() > 1 ==> zeros_in(#[trigger] rh[r]) == 0) && (forall|
        c: int,
    |
        0 <= c < ch.len() ==> line_fit_ok(#[trigger] ch[c], h)) && (forall|c: int|
        0 <= c < ch.len() && ch[c].len() > 1 ==> zeros_in(#[trigger] ch[c]) == 0) && total_sum(rh)
        == total_sum(ch)
}

proof fn lemma_zeros_in_nonneg(h: Seq<u32>)
    ensures
        zeros_in(h) >= 0,
    decreases h.len(),
{
    if h.len() > 0 {
        lemma_zeros_in_nonneg(h.drop_last());
    }
}

proof fn lemma_line_violations_nonneg(h: Seq<u32>, len: int)
    ensures
        line_violations(h, len) >= 0,
{
    lemma_zeros_in_nonneg(h);
}

proof fn lemma_hintset_violations_zero(hs: Seq<Seq<u32>>, len: int)
    ensures
        hintset_violations(hs, len) >= 0,
        hintset_violations(hs, len) == 0 <==> forall|i: int|
            0 <= i < hs.len() ==> line_violations(#[trigger] hs[i], len) == 0,
    decreases hs.len(),
{
    if hs.len() > 0 {
        lemma_hintset_violations_zero(hs.drop_last(), len);
        lemma_line_violations_nonneg(hs.last(), len);
        if hintset_violations(hs, len) == 0 {
            assert forall|i: int| 0 <= i < hs.len() implies line_violations(
                #[trigger] hs[i],
                len,
            ) == 0 by {
                if i < hs.len() - 1 {
                    assert(line_violations(hs.drop_last()[i], len) == 0);
                }
            }
        }
        if forall|i: int| 0 <= i < hs.len() ==> line_violations(#[trigger] hs[i], len) == 0 {
            assert forall|i: int|
                0 <= i < hs.drop_last().len() implies line_violations(
                #[trigger] hs.drop_last()[i],
                len,
            ) == 0 by {
                assert(hs.drop_last()[i] == hs[i]);
            }
        }
    }
}

/// Law: the validator accepts exactly the well-formed puzzle definitions —
/// the error count is zero precisely when every independent check passes.
pub proof fn lemma_no_violations_iff_well_formed(
    w: int,
    h: int,
    rh: Seq<Seq<u32>>,
    ch: Seq<Seq<u32>>,
)
    ensures
        violation_count(w, h, rh, ch) == 0 <==> puzzle_well_formed(w, h, rh, ch),
{
    lemma_hintset_violations_zero(rh, w);
    lemma_hintset_violations_zero(ch, h);
    assert forall|i: int| 0 <= i < rh.len() implies (line_violations(#[trigger] rh[i], w) == 0
        <==> (line_fit_ok(rh[i], w) && (rh[i].len() > 1 ==> zeros_in(rh[i]) == 0))) by {
        lemma_zeros_in_nonneg(rh[i]);
    }
    assert forall|i: int| 0 <= i < ch.len() implies (line_violations(#[trigger] ch[i], h) == 0
        <==> (line_fit_ok(ch[i], h) && (ch[i].len() > 1 ==> zeros_in(ch[i]) == 0))) by {
        lemma_zeros_in_nonneg(ch[i]);
    }
}

/// Sum of the block lengths of one hint sequence, and that it never
/// overflows.
fn sum_line(h: &Vec<u32>) -> (r: u128)
    ensures
        r == hint_sum(h@),
        r <= h@.len() * 0x1_0000_0000,
{
    let mut r: u128 = 0;
    let mut i: usize = 0;
    while i < h.len()
        invariant
            i <= h@.len(),
            r == hint_sum(h@.subrange(0, i as int)),
            r <= i * 0x1_0000_0000,
        decreases h@.len() - i,
    {
        proof {
            assert(h@.subrange(0, i as int + 1).drop_last() =~= h@.subrange(0, i as int));
            assert(h@.subrange(0, i as int + 1).last() == h@[i as int]);
        }
        r = r + h[i] as u128;
        i += 1;
    }
    proof {
        assert(h@.subrange(0, h@.len() as int) =~= h@);
    }
    r
}

/// Whether the blocks of a non-empty hint sequence cannot fit in a line of
/// `len` cells.
fn line_too_long(h: &Vec<u32>, len: usize) -> (r: bool)
    ensures
        r == !line_fit_ok(h@, len as int),
{
    if h.len() == 0 {
        return false;
    }
    let s = sum_line(h);
    let min_len = s + (h.len() - 1) as u128;
    min_len > len as u128
}

/// Static hint-set validation.
///
/// Provided the two grand totals are small enough to compare at all — which
/// any hint set that fits in memory is — the error list is exactly the
/// expected report: one entry per violated check, each carrying that check's
/// own text, in emission order.  `valid` holds exactly when the list is
/// empty.
pub fn validate_puzzle(
    width: usize,
    height: usize,
    row_hints: &Vec<Vec<u32>>,
    col_hints: &Vec<Vec<u32>>,
) -> (r: ValidationResult)
    ensures
        r.valid <==> r.errors@.len() == 0,
        total_sum(hints_views(row_hints@)) <= u128::MAX && total_sum(hints_views(col_hints@))
            <= u128::MAX ==> r.errors@.len() == violation_count(
            width as int,
            height as int,
            hints_views(row_hints@),
            hints_views(col_hints@),
        ),
        base_violations(
            width as int,
            height as int,
            hints_views(row_hints@),
            hints_views(col_hints@),
        ) <= r.errors@.len() <= base_violations(
            width as int,
            height as int,
            hints_views(row_hints@),
            hints_views(col_hints@),
        ) + 1,
        forall|k: int|
            0 <= k < r.errors@.len() ==> is_validator_message((#[trigger] r.errors@[k])@),
        total_sum(hints_views(row_hints@)) <= u128::MAX && total_sum(hints_views(col_hints@))
            <= u128::MAX && total_sum(hints_views(row_hints@)) != total_sum(hints_views(col_hints@))
            ==> r.errors@.len() >= 1 && r.errors@.last()@ == total_mismatch_msg(),
        total_sum(hints_views(row_hints@)) <= u128::MAX && total_sum(hints_views(col_hints@))
            <= u128::MAX ==> msg_views(r.errors@) == expected_errors(
            width as int,
            height as int,
            hints_views(row_hints@),
            hints_views(col_hints@),
        ),
{
    let ghost rh = hints_views(row_hints@);
    let ghost ch = hints_views(col_hints@);
    let mut errors: Vec<String> = Vec::new();

    if width == 0 || width > 100 {
        push_message(&mut errors, "幅は1以上100以下である必要があります");
    }
    proof {
        assert(msg_views(errors@) =~= msgs_if(!dim_ok(width as int), width_range_msg()));
    }
    if height == 0 || height > 100 {
        push_message(&mut errors, "高さは1以上100以下である必要があります");
    }
    proof {
        assert(msg_views(errors@) =~= msgs_if(!dim_ok(width as int), width_range_msg()) + msgs_if(
            !dim_ok(height as int),
            height_range_msg(),
        ));
    }
    if row_hints.len() != height {
        push_message(&mut errors, "行ヒントの数が高さと一致しません");
    }
    proof {
        assert(msg_views(errors@) =~= msgs_if(!dim_ok(width as int), width_range_msg()) + msgs_if(
            !dim_ok(height as int),
            height_range_msg(),
        ) + msgs_if(rh.len() != height as int, row_count_msg()));
    }
    if col_hints.len() != width {
        push_message(&mut errors, "列ヒントの数が幅と一致しません");
    }
    let ghost head_count = errors@.len() as int;
    let ghost head_seq = msg_views(errors@);
    proof {
        assert(head_seq =~= head_msgs(
            width as int,
            height as int,
            rh.len() as int,
            ch.len() as int,
        ));
    }

    // Each row hint sequence must fit the width, with no embedded zero.
    let mut i: usize = 0;
    proof {
        assert(head_seq + hintset_msgs(rh.subrange(0, 0), width as int, row_fit_msg(), row_zero_msg())
            =~= head_seq);
    }
    while i < row_hints.len()
        invariant
            i <= row_hints@.len(),
            rh == hints_views(row_hints@),
            errors@.len() == head_count + hintset_violations(rh.subrange(0, i as int), width as int),
            head_count + hintset_violations(rh.subrange(0, i as int), width as int) >= 0,
            msg_views(errors@) == head_seq + hintset_msgs(
                rh.subrange(0, i as int),
                width as int,
                row_fit_msg(),
                row_zero_msg(),
            ),
            forall|k: int|
                0 <= k < errors@.len() ==> is_validator_message((#[trigger] errors@[k])@),
        decreases row_hints@.len() - i,
    {
        let hints = &row_hints[i];
        let ghost before = errors@.len() as int;
        let ghost before_seq = msg_views(errors@);
        if line_too_long(hints, width) {
            push_message(&mut errors, "行のヒントは最低必要マス数が幅を超えています");
        }
        proof {
            assert(msg_views(errors@) =~= before_seq + msgs_if(
                !line_fit_ok(rh[i as int], width as int),
                row_fit_msg(),
            ));
            assert(msg_views(errors@) =~= before_seq + msgs_if(
                !line_fit_ok(rh[i as int], width as int),
                row_fit_msg(),
            ) + (if hints@.len() > 1 {
                zero_msgs(hints@.subrange(0, 0), row_zero_msg())
            } else {
                Seq::<Seq<char>>::empty()
            }));
        }
        let mut j: usize = 0;
        while j < hints.len()
            invariant
                j <= hints@.len(),
                hints@ == rh[i as int],
                0 <= i < rh.len(),
                errors@.len() == before + (if line_fit_ok(rh[i as int], width as int) {
                    0int
                } else {
                    1int
                }) + (if hints@.len() > 1 {
                    zeros_in(hints@.subrange(0, j as int))
                } else {
                    0int
                }),
                (if hints@.len() > 1 {
                    zeros_in(hints@.subrange(0, j as int))
                } else {
                    0int
                }) >= 0,
                before >= 0,
                msg_views(errors@) == before_seq + msgs_if(
                    !line_fit_ok(rh[i as int], width as int),
                    row_fit_msg(),
                ) + (if hints@.len() > 1 {
                    zero_msgs(hints@.subrange(0, j as int), row_zero_msg())
                } else {
                    Seq::<Seq<char>>::empty()
                }),
                forall|k: int|
                    0 <= k < errors@.len() ==> is_validator_message((#[trigger] errors@[k])@),
            decreases hints@.len() - j,
        {
            proof {
                assert(hints@.subrange(0, j as int + 1).drop_last() =~= hints@.subrange(
                    0,
                    j as int,
                ));
                assert(hints@.subrange(0, j as int + 1).last() == hints@[j as int]);
            }
            if hints[j] == 0 && hints.len() > 1 {
                push_message(&mut errors, "行のヒントに0が含まれています");
            }
            proof {
                assert(msg_views(errors@) =~= before_seq + msgs_if(
                    !line_fit_ok(rh[i as int], width as int),
                    row_fit_msg(),
                ) + (if hints@.len() > 1 {
                    zero_msgs(hints@.subrange(0, j as int + 1), row_zero_msg())
                } else {
                    Seq::<Seq<char>>::empty()
                }));
            }
            j += 1;
        }
        proof {
            assert(hints@.subrange(0, hints@.len() as int) =~= hints@);
            assert(rh.subrange(0, i as int + 1).drop_last() =~= rh.subrange(0, i as int));
            assert(rh.subrange(0, i as int + 1).last() == rh[i as int]);
            assert(msg_views(errors@) =~= head_seq + hintset_msgs(
                rh.subrange(0, i as int + 1),
                width as int,
                row_fit_msg(),
                row_zero_msg(),
            ));
        }
        i += 1;
    }
    proof {
        assert(rh.subrange(0, rh.len() as int) =~= rh);
    }
    let ghost after_rows = errors@.len() as int;
    let ghost after_rows_seq = msg_views(errors@);
    proof {
        assert(after_rows_seq == head_seq + hintset_msgs(
            rh,
            width as int,
            row_fit_msg(),
            row_zero_msg(),
        ));
    }

    // Each column hint sequence must fit the height, with no embedded zero.
    let mut i2: usize = 0;
    proof {
        assert(after_rows_seq + hintset_msgs(
            ch.subrange(0, 0),
            height as int,
            col_fit_msg(),
            col_zero_msg(),
        ) =~= after_rows_seq);
    }
    while i2 < col_hints.len()
        invariant
            i2 <= col_hints@.len(),
            ch == hints_views(col_hints@),
            errors@.len() == after_rows + hintset_violations(
                ch.subrange(0, i2 as int),
                height as int,
            ),
            after_rows + hintset_violations(ch.subrange(0, i2 as int), height as int) >= 0,
            msg_views(errors@) == after_rows_seq + hintset_msgs(
                ch.subrange(0, i2 as int),
                height as int,
                col_fit_msg(),
                col_zero_msg(),
            ),
            forall|k: int|
                0 <= k < errors@.len() ==> is_validator_message((#[trigger] errors@[k])@),
        decreases col_hints@.len() - i2,
    {
        let hints = &col_hints[i2];
        let ghost before = errors@.len() as int;
        let ghost before_seq = msg_views(errors@);
        if line_too_long(hints, height) {
            push_message(&mut errors, "列のヒントは最低必要マス数が高さを超えています");
        }
        proof {
            assert(msg_views(errors@) =~= before_seq + msgs_if(
                !line_fit_ok(ch[i2 as int], height as int),
                col_fit_msg(),
            ));
            assert(msg_views(errors@) =~= before_seq + msgs_if(
                !line_fit_ok(ch[i2 as int], height as int),
                col_fit_msg(),
            ) + (if hints@.len() > 1 {
                zero_msgs(hints@.subrange(0, 0), col_zero_msg())
            } else {
                Seq::<Seq<char>>::empty()
            }));
        }
        let mut j: usize = 0;
        while j < hints.len()
            invariant
                j <= hints@.len(),
                hints@ == ch[i2 as int],
                0 <= i2 < ch.len(),
                errors@.len() == before + (if line_fit_ok(ch[i2 as int], height as int) {
                    0int
                } else {
                    1int
                }) + (if hints@.len() > 1 {
                    zeros_in(hints@.subrange(0, j as int))
                } else {
                    0int
                }),
                (if hints@.len() > 1 {
                    zeros_in(hints@.subrange(0, j as int))
                } else {
                    0int
                }) >= 0,
                before >= 0,
                msg_views(errors@) == before_seq + msgs_if(
                    !line_fit_ok(ch[i2 as int], height as int),
                    col_fit_msg(),
                ) + (if hints@.len() > 1 {
                    zero_msgs(hints@.subrange(0, j as int), col_zero_msg())
                } else {
                    Seq::<Seq<char>>::empty()
                }),
                forall|k: int|
                    0 <= k < errors@.len() ==> is_validator_message((#[trigger] errors@[k])@),
            decreases hints@.len() - j,
        {
            proof {
                assert(hints@.subrange(0, j as int + 1).drop_last() =~= hints@.subrange(
                    0,
                    j as int,
                ));
                assert(hints@.subrange(0, j as int + 1).last() == hints@[j as int]);
            }
            if hints[j] == 0 && hints.len() > 1 {
                push_message(&mut errors, "列のヒントに0が含まれています");
            }
            proof {
                assert(msg_views(errors@) =~= before_seq + msgs_if(
                    !line_fit_ok(ch[i2 as int], height as int),
                    col_fit_msg(),
                ) + (if hints@.len() > 1 {
                    zero_msgs(hints@.subrange(0, j as int + 1), col_zero_msg())
                } else {
                    Seq::<Seq<char>>::empty()
                }));
            }
            j += 1;
        }
        proof {
            assert(hints@.subrange(0, hints@.len() as int) =~= hints@);
            assert(ch.subrange(0, i2 as int + 1).drop_last() =~= ch.subrange(0, i2 as int));
            assert(ch.subrange(0, i2 as int + 1).last() == ch[i2 as int]);
            assert(msg_views(errors@) =~= after_rows_seq + hintset_msgs(
                ch.subrange(0, i2 as int + 1),
                height as int,
                col_fit_msg(),
                col_zero_msg(),
            ));
        }
        i2 += 1;
    }
    proof {
        assert(ch.subrange(0, ch.len() as int) =~= ch);
    }
    let ghost after_cols = errors@.len() as int;
    let ghost after_cols_seq = msg_views(errors@);
    proof {
        assert(after_cols_seq == after_rows_seq + hintset_msgs(
            ch,
            height as int,
            col_fit_msg(),
            col_zero_msg(),
        ));
    }

    // Necessary global condition: rows and columns fill the same number of
    // cells.  The sums are compared exactly whenever they fit in the
    // accumulator, which any hint set that fits in memory does.
    let (row_total, row_over) = sum_hintset(row_hints);
    let (col_total, col_over) = sum_hintset(col_hints);
    let totals_differ = if row_over || col_over {
        row_over != col_over
    } else {
        row_total != col_total
    };
    if totals_differ {
        push_message(&mut errors, "行ヒントの合計と列ヒントの合計が一致しません");
    }
    proof {
        assert(msg_views(errors@) =~= after_cols_seq + msgs_if(totals_differ, total_mismatch_msg()));
        if total_sum(rh) <= u128::MAX && total_sum(ch) <= u128::MAX {
            assert(totals_differ == (total_sum(rh) != total_sum(ch)));
            assert(msg_views(errors@) =~= expected_errors(width as int, height as int, rh, ch));
        }
    }

    let valid = errors.len() == 0;
    ValidationResult { valid, errors }
}

/// Grand total of a hint set, with a flag raised if it cannot be held
/// exactly.
fn sum_hintset(hs: &Vec<Vec<u32>>) -> (r: (u128, bool))
    ensures
        !r.1 ==> r.0 == total_sum(hints_views(hs@)),
        r.1 ==> total_sum(hints_views(hs@)) > u128::MAX,
{
    let ghost hv = hints_views(hs@);
    let mut total: u128 = 0;
    let mut over = false;
    let mut i: usize = 0;
    while i < hs.len()
        invariant
            i <= hs@.len(),
            hv == hints_views(hs@),
            !over ==> total == total_sum(hv.subrange(0, i as int)),
            over ==> total_sum(hv.subrange(0, i as int)) > u128::MAX,
        decreases hs@.len() - i,
    {
        proof {
            assert(hv.subrange(0, i as int + 1).drop_last() =~= hv.subrange(0, i as int));
            assert(hv.subrange(0, i as int + 1).last() == hv[i as int]);
            lemma_hint_sum_nonneg(hv[i as int]);
            lemma_total_sum_nonneg(hv.subrange(0, i as int));
        }
        let line = &hs[i];
        let s = sum_line(line);
        if !over {
            match total.checked_add(s) {
                Some(t) => {
                    total = t;
                },
                None => {
                    over = true;
                },
            }
        }
        i += 1;
    }
    proof {
        assert(hv.subrange(0, hv.len() as int) =~= hv);
    }
    (total, over)
}

proof fn lemma_hint_sum_nonneg(h: Seq<u32>)
    ensures
        hint_sum(h) >= 0,
    decreases h.len(),
{
    if h.len() > 0 {
        lemma_hint_sum_nonneg(h.drop_last());
    }
}

proof fn lemma_total_sum_nonneg(hs: Seq<Seq<u32>>)
    ensures
        total_sum(hs) >= 0,
    decreases hs.len(),
{
    if hs.len() > 0 {
        lemma_total_sum_nonneg(hs.drop_last());
        lemma_hint_sum_nonneg(hs.last());
    }
}

} // verus!
