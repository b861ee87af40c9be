//! Argmax over logits, whole or merged from row ranges.

use crate::inference_avx512::f32bits;
use crate::inference_avx512::f32bits::{eq, finite, gt, NEG_INF_BITS};
use crate::inference_avx512::{lm_head_argmax_quant_supported, GgmlType};
use vstd::prelude::*;

verus! {

/// A half-open range of rows.
#[derive(Clone, Copy, Debug, PartialEq, Eq, Structural)]
pub struct RowRange {
    pub start: usize,
    pub end: usize,
}

/// Row `i` bounds all rows of `[lo, hi)` from above by its key `k`.
pub open spec fn bounded(s: Seq<u32>, lo: int, hi: int, k: int) -> bool {
    forall|j: int| lo <= j < hi && !f32bits::is_nan(#[trigger] s[j]) ==> f32bits::key(s[j]) <= k
}

/// `i` is the first row of `[lo, hi)` with the key `k`.
pub open spec fn first_with(s: Seq<u32>, lo: int, hi: int, k: int, i: int) -> bool {
    &&& lo <= i < hi
    &&& !f32bits::is_nan(s[i])
    &&& f32bits::key(s[i]) == k
    &&& forall|j: int|
        lo <= j < i && !f32bits::is_nan(#[trigger] s[j]) ==> f32bits::key(s[j]) != k
}

/// `(i, v)` is the argmax of the rows `[lo, hi)`: `v` is the largest value and
/// `i` the first row that holds it. Without any number among the rows it is the
/// first row and negative infinity.
pub open spec fn is_argmax(s: Seq<u32>, lo: int, hi: int, i: int, v: u32) -> bool {
    let k = f32bits::key(v);
    &&& !f32bits::is_nan(v)
    &&& bounded(s, lo, hi, k)
    &&& first_with(s, lo, hi, k, i) || (v == NEG_INF_BITS && i == lo && forall|j: int|
        lo <= j < hi ==> f32bits::is_nan(#[trigger] s[j]))
}

/// Argmax of the rows `[lo, hi)`, by one pass for the maximum and one for its
/// first place.
pub fn argmax_range(values: &[u32], lo: usize, hi: usize) -> (r: (usize, u32))
    requires
        lo <= hi <= values@.len(),
    ensures
        is_argmax(values@, lo as int, hi as int, r.0 as int, r.1),
{
    let mut max: u32 = NEG_INF_BITS;
    let mut i: usize = lo;
    while i < hi
        invariant
            lo <= i <= hi <= values@.len(),
            !f32bits::is_nan(max),
            bounded(values@, lo as int, i as int, f32bits::key(max)),
            max == NEG_INF_BITS || exists|j: int|
                lo <= j < i && #[trigger] values@[j] == max && !f32bits::is_nan(values@[j]),
        decreases hi - i,
    {
        proof {
            f32bits::lemma_order(values@[i as int], max);
            f32bits::lemma_order(max, values@[i as int]);
        }
        let ghost prev = max;
        if gt(values[i], max) {
            max = values[i];
        }
        i = i + 1;
        assert forall|j: int| lo <= j < i && !f32bits::is_nan(#[trigger] values@[j]) implies
            f32bits::key(values@[j]) <= f32bits::key(max) by {}
        assert(prev != NEG_INF_BITS && max == prev ==> exists|j: int|
            lo <= j < i && #[trigger] values@[j] == max && !f32bits::is_nan(values@[j]));
        assert(max != prev ==> values@[i - 1] == max);
    }
    let mut j: usize = lo;
    while j < hi
        invariant
            lo <= j <= hi <= values@.len(),
            !f32bits::is_nan(max),
            bounded(values@, lo as int, hi as int, f32bits::key(max)),
            max == NEG_INF_BITS || exists|m: int|
                lo <= m < hi && #[trigger] values@[m] == max && !f32bits::is_nan(values@[m]),
            forall|m: int|
                lo <= m < j && !f32bits::is_nan(#[trigger] values@[m]) ==> f32bits::key(values@[m])
                    != f32bits::key(max),
        decreases hi - j,
    {
        if eq(values[j], max) {
            return (j, max);
        }
        j = j + 1;
    }
    assert forall|m: int| lo <= m < hi implies f32bits::is_nan(#[trigger] values@[m]) by {
        f32bits::lemma_order(values@[m], max);
    }
    (lo, max)
}

/// Index of the first maximum, and the maximum.
pub fn argmax_f32_avx512(values: &[u32]) -> (r: (usize, u32))
    ensures
        is_argmax(values@, 0, values@.len() as int, r.0 as int, r.1),
{
    argmax_range(values, 0, values.len())
}

/// The merge slot before any candidate: loses every comparison.
pub const LM_ARGMAX_INIT: u64 = 0xff80_0000_ffff_ffff;

/// Value bits in the upper half, row index in the lower.
pub open spec fn slot_value(slot: u64) -> u32 {
    (slot / 0x1_0000_0000) as u32
}

pub open spec fn slot_index(slot: u64) -> u32 {
    (slot % 0x1_0000_0000) as u32
}

pub fn lm_argmax_pack(val: u32, idx: u32) -> (slot: u64)
    ensures
        slot_value(slot) == val,
        slot_index(slot) == idx,
{
    (val as u64) * 0x1_0000_0000 + idx as u64
}

pub fn lm_argmax_unpack(slot: u64) -> (r: (u32, u32))
    ensures
        r.0 == slot_value(slot),
        r.1 == slot_index(slot),
{
    ((slot / 0x1_0000_0000) as u32, (slot % 0x1_0000_0000) as u32)
}

/// Whether a candidate replaces the slot: a larger value, or the same value at
/// a smaller row.
pub open spec fn wins(val: u32, idx: u32, slot: u64) -> bool {
    f32bits::greater(val, slot_value(slot)) || (f32bits::equal(val, slot_value(slot)) && idx
        < slot_index(slot))
}

/// Merges one candidate into the slot.
pub fn lm_argmax_propose(slot: u64, val: u32, idx: u32) -> (next: u64)
    ensures
        wins(val, idx, slot) ==> slot_value(next) == val && slot_index(next) == idx,
        !wins(val, idx, slot) ==> next == slot,
{
    let (cv, ci) = lm_argmax_unpack(slot);
    if !(gt(val, cv) || (eq(val, cv) && idx < ci)) {
        return slot;
    }
    lm_argmax_pack(val, idx)
}

/// Some of the ranges holds row `r`.
pub open spec fn covered(ranges: Seq<RowRange>, r: int) -> bool {
    exists|i: int|
        0 <= i < ranges.len() && (#[trigger] ranges[i]).start <= r && r < ranges[i].end
}

/// The first row of `[lo, hi)` that holds a number, or `hi`.
pub open spec fn first_number(s: Seq<u32>, lo: int, hi: int) -> int
    decreases hi - lo,
{
    if lo >= hi {
        hi
    } else if !f32bits::is_nan(s[lo]) {
        lo
    } else {
        first_number(s, lo + 1, hi)
    }
}

/// The row that a range without a value above negative infinity names: its first
/// number, or its start where it has none.
pub open spec fn low_row(s: Seq<u32>, range: RowRange) -> int {
    let r = first_number(s, range.start as int, range.end as int);
    if r < range.end {
        r
    } else {
        range.start as int
    }
}

/// `i` is the least of the rows that the ranges name where none has a value above
/// negative infinity, or the largest index where all are empty.
pub open spec fn least_low_row(s: Seq<u32>, ranges: Seq<RowRange>, i: u32) -> bool {
    &&& forall|j: int|
        0 <= j < ranges.len() && (#[trigger] ranges[j]).start < ranges[j].end ==> i <= low_row(
            s,
            ranges[j],
        )
    &&& (exists|j: int|
        0 <= j < ranges.len() && (#[trigger] ranges[j]).start < ranges[j].end && i == low_row(
            s,
            ranges[j],
        )) || (i == u32::MAX && forall|j: int|
        0 <= j < ranges.len() ==> (#[trigger] ranges[j]).start >= ranges[j].end)
}

/// The slot holds the largest value of the covered rows and its first row among
/// them. At negative infinity a range without a number still names its start.
pub open spec fn slot_holds(s: Seq<u32>, ranges: Seq<RowRange>, slot: u64) -> bool {
    let k = f32bits::key(slot_value(slot));
    &&& !f32bits::is_nan(slot_value(slot))
    &&& forall|r: int|
        covered(ranges, r) && !f32bits::is_nan(#[trigger] s[r]) ==> f32bits::key(s[r]) <= k
    &&& k > f32bits::lowest() ==> {
        &&& covered(ranges, slot_index(slot) as int)
        &&& !f32bits::is_nan(s[slot_index(slot) as int])
        &&& f32bits::key(s[slot_index(slot) as int]) == k
        &&& forall|r: int|
            covered(ranges, r) && !f32bits::is_nan(#[trigger] s[r]) && f32bits::key(s[r]) == k
                ==> slot_index(slot) <= r
    }
    &&& k <= f32bits::lowest() ==> least_low_row(s, ranges, slot_index(slot))
}

/// From `lo` to the first number there is none.
proof fn lemma_first_number(s: Seq<u32>, lo: int, hi: int)
    requires
        lo <= hi,
    ensures
        lo <= first_number(s, lo, hi) <= hi,
        first_number(s, lo, hi) < hi ==> !f32bits::is_nan(s[first_number(s, lo, hi)]),
        forall|j: int| lo <= j < first_number(s, lo, hi) ==> f32bits::is_nan(#[trigger] s[j]),
    decreases hi - lo,
{
    if lo < hi && f32bits::is_nan(s[lo]) {
        lemma_first_number(s, lo + 1, hi);
    }
}

/// An argmax at negative infinity is the row that its range names.
proof fn lemma_low_argmax(s: Seq<u32>, range: RowRange, i: int, v: u32)
    requires
        range.start < range.end,
        is_argmax(s, range.start as int, range.end as int, i, v),
        f32bits::key(v) <= f32bits::lowest(),
    ensures
        i == low_row(s, range),
{
    let r = first_number(s, range.start as int, range.end as int);
    lemma_first_number(s, range.start as int, range.end as int);
    f32bits::lemma_order(v, v);
    if r < range.end {
        f32bits::lemma_order(s[r], v);
        assert(f32bits::key(s[r]) == f32bits::key(v));
    }
}

/// One more range: the least row so far against the row that it names.
proof fn lemma_least_low_push(s: Seq<u32>, done: Seq<RowRange>, range: RowRange, i: u32)
    requires
        least_low_row(s, done, i),
    ensures
        range.start >= range.end || i <= low_row(s, range) < u32::MAX ==> least_low_row(
            s,
            done.push(range),
            i,
        ),
        range.start < range.end && 0 <= low_row(s, range) < i ==> least_low_row(
            s,
            done.push(range),
            low_row(s, range) as u32,
        ),
{
    let all = done.push(range);
    let low = low_row(s, range);
    assert(all[done.len() as int] == range);
    assert forall|j: int|
        0 <= j < all.len() && (#[trigger] all[j]).start < all[j].end implies j == done.len()
        || i <= low_row(s, all[j]) by {
        if j < done.len() {
            assert(all[j] == done[j]);
        }
    }
    if exists|j: int|
        0 <= j < done.len() && (#[trigger] done[j]).start < done[j].end && i == low_row(s, done[j]) {
        let j = choose|j: int|
            0 <= j < done.len() && (#[trigger] done[j]).start < done[j].end && i == low_row(
                s,
                done[j],
            );
        assert(all[j] == done[j]);
    } else {
        assert forall|j: int| 0 <= j < done.len() implies (#[trigger] all[j]).start
            >= all[j].end by {
            assert(all[j] == done[j]);
        }
    }
}

/// Merges the argmax of one range of rows into the slot. An empty range changes nothing.
pub fn lm_head_argmax_kernel(slot: u64, out: &[u32], range: RowRange) -> (next: u64)
    requires
        range.end <= out@.len(),
        out@.len() <= u32::MAX,
    ensures
        forall|done: Seq<RowRange>|
            slot_holds(out@, done, slot) ==> #[trigger] slot_holds(out@, done.push(range), next),
{
    if range.start >= range.end {
        assert forall|done: Seq<RowRange>| slot_holds(out@, done, slot) implies
            #[trigger] slot_holds(out@, done.push(range), slot) by {
            lemma_covered_push(done, range);
            if f32bits::key(slot_value(slot)) <= f32bits::lowest() {
                lemma_least_low_push(out@, done, range, slot_index(slot));
            }
        }
        return slot;
    }
    let (idx, val) = argmax_range(out, range.start, range.end);
    let next: u64 = lm_argmax_propose(slot, val, idx as u32);
    assert forall|done: Seq<RowRange>| slot_holds(out@, done, slot) implies
        #[trigger] slot_holds(out@, done.push(range), next) by {
        lemma_covered_push(done, range);
        f32bits::lemma_order(val, slot_value(slot));
        f32bits::lemma_order(slot_value(slot), val);
        if f32bits::key(slot_value(next)) <= f32bits::lowest() {
            lemma_low_argmax(out@, range, idx as int, val);
            lemma_least_low_push(out@, done, range, slot_index(slot));
        }
    }
    next
}

proof fn lemma_covered_push(done: Seq<RowRange>, range: RowRange)
    ensures
        forall|r: int| #[trigger]
            covered(done.push(range), r) <==> covered(done, r) || range.start <= r < range.end,
{
    assert forall|r: int| #[trigger] covered(done.push(range), r) <==> covered(done, r)
        || range.start <= r < range.end by {
        let all = done.push(range);
        if covered(done, r) {
            let i = choose|i: int|
                0 <= i < done.len() && (#[trigger] done[i]).start <= r && r < done[i].end;
            assert(all[i] == done[i]);
        }
        if range.start <= r < range.end {
            assert(all[done.len() as int] == range);
        }
        if covered(all, r) {
            let i = choose|i: int|
                0 <= i < all.len() && (#[trigger] all[i]).start <= r && r < all[i].end;
            if i < done.len() {
                assert(done[i] == all[i]);
            }
        }
    }
}

/// Argmax of all rows, merged from the argmax of each of `ranges`, in their
/// order: `(row, value bits)`.
pub fn lm_head_linear_argmax_dispatch(out: &[u32], ranges: &Vec<RowRange>) -> (r: (usize, u32))
    requires
        out@.len() <= u32::MAX,
        forall|i: int| 0 <= i < ranges@.len() ==> (#[trigger] ranges@[i]).end <= out@.len(),
    ensures
        exists|slot: u64| #[trigger]
            slot_holds(out@, ranges@, slot) && slot_index(slot) == r.0 && slot_value(slot) == r.1,
{
    let mut slot: u64 = LM_ARGMAX_INIT;
    let mut i: usize = 0;
    assert(slot_holds(out@, Seq::empty(), LM_ARGMAX_INIT));
    assert(ranges@.take(0) =~= Seq::<RowRange>::empty());
    while i < ranges.len()
        invariant
            i <= ranges@.len(),
            out@.len() <= u32::MAX,
            forall|i: int| 0 <= i < ranges@.len() ==> (#[trigger] ranges@[i]).end <= out@.len(),
            slot_holds(out@, ranges@.take(i as int), slot),
        decreases ranges@.len() - i,
    {
        slot = lm_head_argmax_kernel(slot, out, ranges[i]);
        i = i + 1;
        assert(ranges@.take(i as int) =~= ranges@.take(i - 1).push(ranges@[i - 1]));
    }
    assert(ranges@.take(i as int) =~= ranges@);
    let (val, idx) = lm_argmax_unpack(slot);
    (idx as usize, val)
}

/// However the rows are split into ranges, and in whatever order the ranges are
/// merged, the value is that of one scan over all rows. So is the row, unless the
/// value is negative infinity and some rows hold a number and others none.
pub proof fn lemma_merge_is_scan(s: Seq<u32>, ranges: Seq<RowRange>, slot: u64, i: int, v: u32)
    requires
        forall|r: int| 0 <= r < s.len() <==> #[trigger] covered(ranges, r),
        slot_holds(s, ranges, slot),
        is_argmax(s, 0, s.len() as int, i, v),
    ensures
        f32bits::equal(slot_value(slot), v),
        f32bits::key(v) > f32bits::lowest() ==> slot_index(slot) == i,
        s.len() > 0 && (forall|r: int| 0 <= r < s.len() ==> !f32bits::is_nan(#[trigger] s[r]))
            ==> slot_index(slot) == i,
        s.len() > 0 && (forall|r: int| 0 <= r < s.len() ==> f32bits::is_nan(#[trigger] s[r]))
            ==> slot_index(slot) == i,
{
    let k = f32bits::key(slot_value(slot));
    let w = f32bits::key(v);
    f32bits::lemma_order(v, slot_value(slot));
    f32bits::lemma_order(slot_value(slot), v);
    if k > f32bits::lowest() {
        let r = slot_index(slot) as int;
        assert(covered(ranges, r));
        assert(0 <= r < s.len());
        assert(f32bits::key(s[r]) <= w);
    }
    if w > f32bits::lowest() {
        assert(first_with(s, 0, s.len() as int, w, i));
        assert(covered(ranges, i));
        assert(f32bits::key(s[i]) <= k);
    }
    if s.len() > 0 && w <= f32bits::lowest() && ((forall|r: int|
        0 <= r < s.len() ==> !f32bits::is_nan(#[trigger] s[r])) || (forall|r: int|
        0 <= r < s.len() ==> f32bits::is_nan(#[trigger] s[r]))) {
        lemma_uniform_low(s, ranges, slot_index(slot));
        if !f32bits::is_nan(s[0]) {
            f32bits::lemma_order(s[0], v);
            assert(first_with(s, 0, s.len() as int, w, 0));
        }
    }
}

/// Where all rows hold a number, or none does, every range names its start, and
/// the least of them is the first row.
proof fn lemma_uniform_low(s: Seq<u32>, ranges: Seq<RowRange>, i: u32)
    requires
        s.len() > 0,
        forall|r: int| 0 <= r < s.len() <==> #[trigger] covered(ranges, r),
        least_low_row(s, ranges, i),
        (forall|r: int| 0 <= r < s.len() ==> !f32bits::is_nan(#[trigger] s[r])) || (forall|r: int|
            0 <= r < s.len() ==> f32bits::is_nan(#[trigger] s[r])),
    ensures
        i == 0,
{
    assert(covered(ranges, 0));
    let j = choose|j: int|
        0 <= j < ranges.len() && (#[trigger] ranges[j]).start <= 0 && 0 < ranges[j].end;
    let lo = ranges[j].start as int;
    let hi = ranges[j].end as int;
    lemma_first_number(s, lo, hi);
    assert(covered(ranges, hi - 1));
    let r = first_number(s, lo, hi);
    if r < hi {
        assert(covered(ranges, r));
        assert(!f32bits::is_nan(s[r]));
        assert(!f32bits::is_nan(s[0]));
    }
}

/// Why the language-model head gave no token.
#[derive(Clone, Copy, Debug, PartialEq, Eq, Structural)]
pub enum LmHeadError {
    NonFiniteLogits,
    ArgmaxInPaddingRegion(usize),
}

/// What an argmax `(i, v)` stands for, in a vocabulary of `vocab_real` entries.
pub open spec fn head_result(i: int, v: u32, vocab_real: int) -> Result<u32, LmHeadError> {
    if !f32bits::is_finite(v) {
        Err(LmHeadError::NonFiniteLogits)
    } else if i >= vocab_real {
        Err(LmHeadError::ArgmaxInPaddingRegion(i as usize))
    } else {
        Ok(i as u32)
    }
}

/// The token of the argmax `(max_idx, max_val)`.
pub fn head_token(max_idx: usize, max_val: u32, vocab_real: usize) -> (r: Result<u32, LmHeadError>)
    requires
        vocab_real <= u32::MAX,
    ensures
        r == head_result(max_idx as int, max_val, vocab_real as int),
{
    if !finite(max_val) {
        return Err(LmHeadError::NonFiniteLogits);
    }
    if max_idx >= vocab_real {
        return Err(LmHeadError::ArgmaxInPaddingRegion(max_idx));
    }
    Ok(max_idx as u32)
}

/// Every split of the rows gives the same token or the same error as one scan.
pub proof fn lemma_head_result_is_scan(
    s: Seq<u32>,
    ranges: Seq<RowRange>,
    slot: u64,
    i: int,
    v: u32,
)
    requires
        forall|r: int| 0 <= r < s.len() <==> #[trigger] covered(ranges, r),
        slot_holds(s, ranges, slot),
        is_argmax(s, 0, s.len() as int, i, v),
    ensures
        f32bits::is_finite(slot_value(slot)) == f32bits::is_finite(v),
        f32bits::is_finite(v) ==> slot_index(slot) == i,
{
    lemma_merge_is_scan(s, ranges, slot, i, v);
    f32bits::lemma_order(v, slot_value(slot));
}

/// Every sequence of rows has an argmax.
pub proof fn lemma_argmax_exists(s: Seq<u32>, hi: nat)
    requires
        hi <= s.len(),
    ensures
        exists|i: int, v: u32| is_argmax(s, 0, hi as int, i, v),
    decreases hi,
{
    if hi == 0 {
        assert(is_argmax(s, 0, 0, 0, NEG_INF_BITS));
    } else {
        let n = hi - 1;
        lemma_argmax_exists(s, n as nat);
        let (i, v) = choose|i: int, v: u32| is_argmax(s, 0, n, i, v);
        let w = s[n];
        f32bits::lemma_order(w, v);
        f32bits::lemma_order(v, w);
        if f32bits::is_nan(w) {
            assert(is_argmax(s, 0, hi as int, i, v));
        } else if f32bits::key(w) > f32bits::key(v) || !first_with(s, 0, n, f32bits::key(v), i) {
            assert(first_with(s, 0, hi as int, f32bits::key(w), n));
            assert(is_argmax(s, 0, hi as int, n, w));
        } else {
            assert(first_with(s, 0, hi as int, f32bits::key(v), i));
            assert(is_argmax(s, 0, hi as int, i, v));
        }
    }
}

/// Two argmaxes of the same rows name the same row and equal values.
pub proof fn lemma_argmax_unique(s: Seq<u32>, i: int, v: u32, j: int, w: u32)
    requires
        is_argmax(s, 0, s.len() as int, i, v),
        is_argmax(s, 0, s.len() as int, j, w),
    ensures
        i == j,
        f32bits::key(v) == f32bits::key(w),
        f32bits::is_finite(v) == f32bits::is_finite(w),
{
    f32bits::lemma_order(v, w);
    f32bits::lemma_order(w, v);
    let n = s.len() as int;
    if first_with(s, 0, n, f32bits::key(v), i) && first_with(s, 0, n, f32bits::key(w), j) {
        assert(f32bits::key(s[i]) <= f32bits::key(w));
        assert(f32bits::key(s[j]) <= f32bits::key(v));
    }
}

/// The token that the logits name. Where the head's type has a kernel, the
/// argmax is merged from that of each range of rows; else one scan finds it.
/// Some argmax always exists.
pub fn lm_head_argmax_avx512(
    logits: &[u32],
    ranges: &Vec<RowRange>,
    output_quant: GgmlType,
    vocab_real: usize,
) -> (r: Result<u32, LmHeadError>)
    requires
        logits@.len() <= u32::MAX,
        vocab_real <= u32::MAX,
        forall|i: int| 0 <= i < ranges@.len() ==> (#[trigger] ranges@[i]).end <= logits@.len(),
        forall|row: int| 0 <= row < logits@.len() ==> #[trigger] covered(ranges@, row),
    ensures
        exists|i: int, v: u32| is_argmax(logits@, 0, logits@.len() as int, i, v),
        forall|i: int, v: u32| #[trigger]
            is_argmax(logits@, 0, logits@.len() as int, i, v) ==> r == head_result(
                i,
                v,
                vocab_real as int,
            ),
{
    proof {
        lemma_argmax_exists(logits@, logits@.len());
    }
    if lm_head_argmax_quant_supported(output_quant) {
        let (idx, val) = lm_head_linear_argmax_dispatch(logits, ranges);
        proof {
            let slot = choose|slot: u64| #[trigger]
                slot_holds(logits@, ranges@, slot) && slot_index(slot) == idx && slot_value(slot)
                    == val;
            assert forall|row: int| 0 <= row < logits@.len() <==> #[trigger] covered(
                ranges@,
                row,
            ) by {}
            assert forall|i: int, v: u32| #[trigger]
                is_argmax(logits@, 0, logits@.len() as int, i, v) implies head_result(
                idx as int,
                val,
                vocab_real as int,
            ) == head_result(i, v, vocab_real as int) by {
                lemma_head_result_is_scan(logits@, ranges@, slot, i, v);
            }
        }
        head_token(idx, val, vocab_real)
    } else {
        let (idx, val) = argmax_f32_avx512(logits);
        proof {
            assert forall|i: int, v: u32| #[trigger]
                is_argmax(logits@, 0, logits@.len() as int, i, v) implies head_result(
                idx as int,
                val,
                vocab_real as int,
            ) == head_result(i, v, vocab_real as int) by {
                lemma_argmax_unique(logits@, idx as int, val, i, v);
            }
        }
        head_token(idx, val, vocab_real)
    }
}

} // verus!
