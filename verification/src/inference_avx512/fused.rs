//! Several projections of one input as one parallel dispatch. The rows of all
//! of them stand one behind the other in a virtual row space, which is split
//! over the cores like the rows of a single projection.

use crate::arch::x86_64::math::linear::Layout;
use crate::inference_avx512;
use crate::inference_avx512::argmax::RowRange;
use crate::inference_avx512::{linear_dispatch_avx512, GgmlType, FUSED_MAX_SEGMENTS};
use vstd::prelude::*;

verus! {

/// One projection of a fused dispatch.
#[derive(Clone, Copy, Debug, PartialEq, Eq, Structural)]
pub struct FusedSegment {
    pub out_dim: usize,
    /// First virtual row, set by [`linear_fused_dispatch`].
    pub row_base: usize,
    pub quant: GgmlType,
    /// Row group of the weights, one where they are plain.
    pub interleave: u32,
}

/// The segments in the virtual row space.
pub struct FusedPlan {
    pub table: Vec<FusedSegment>,
    pub total_rows: usize,
    /// Row group that splits are aligned to.
    pub align: usize,
}

/// Rows of the segments before `n`.
pub open spec fn rows_before(segs: Seq<FusedSegment>, n: nat) -> int
    decreases n,
{
    if n == 0 {
        0
    } else {
        rows_before(segs, (n - 1) as nat) + segs[n - 1].out_dim
    }
}

/// The largest row group of the segments before `n`, at least one.
pub open spec fn group_before(segs: Seq<FusedSegment>, n: nat) -> int
    decreases n,
{
    if n == 0 {
        1
    } else {
        let g = group_before(segs, (n - 1) as nat);
        if segs[n - 1].interleave > g {
            segs[n - 1].interleave as int
        } else {
            g
        }
    }
}

proof fn lemma_rows_grow(segs: Seq<FusedSegment>, a: nat, b: nat)
    requires
        a <= b <= segs.len(),
    ensures
        0 <= rows_before(segs, a) <= rows_before(segs, b),
    decreases b,
{
    if b > 0 && a < b {
        lemma_rows_grow(segs, a, (b - 1) as nat);
    } else if a > 0 {
        lemma_rows_grow(segs, (a - 1) as nat, (a - 1) as nat);
    }
}

/// The table is the segments with each row base at the rows before it.
pub open spec fn placed(table: Seq<FusedSegment>, segs: Seq<FusedSegment>) -> bool {
    &&& table.len() == segs.len()
    &&& forall|i: int|
        0 <= i < segs.len() ==> #[trigger] table[i] == (FusedSegment {
            row_base: rows_before(segs, i as nat) as usize,
            ..segs[i]
        })
}

/// Places the segments in the virtual row space.
pub fn linear_fused_dispatch(segments: &Vec<FusedSegment>) -> (p: FusedPlan)
    requires
        segments@.len() <= FUSED_MAX_SEGMENTS,
        rows_before(segments@, segments@.len()) <= usize::MAX,
    ensures
        placed(p.table@, segments@),
        p.total_rows == rows_before(segments@, segments@.len()),
        p.align == group_before(segments@, segments@.len()),
{
    let mut table: Vec<FusedSegment> = Vec::new();
    let mut total_rows: usize = 0;
    let mut align: usize = 1;
    let mut i: usize = 0;
    while i < segments.len()
        invariant
            i <= segments@.len(),
            rows_before(segments@, segments@.len()) <= usize::MAX,
            table@.len() == i,
            forall|j: int|
                0 <= j < i ==> #[trigger] table@[j] == (FusedSegment {
                    row_base: rows_before(segments@, j as nat) as usize,
                    ..segments@[j]
                }),
            total_rows == rows_before(segments@, i as nat),
            align == group_before(segments@, i as nat),
        decreases segments@.len() - i,
    {
        proof {
            lemma_rows_grow(segments@, (i + 1) as nat, segments@.len());
        }
        let mut seg: FusedSegment = segments[i];
        seg.row_base = total_rows;
        total_rows = total_rows + seg.out_dim;
        if seg.interleave as usize > align {
            align = seg.interleave as usize;
        }
        table.push(seg);
        i = i + 1;
    }
    FusedPlan { table, total_rows, align }
}

/// Local rows of one segment, and the kernel that computes them.
#[derive(Clone, Copy, Debug, PartialEq, Eq, Structural)]
pub struct SegmentRows {
    pub segment: usize,
    pub rows: RowRange,
    pub kernel: Layout,
}

/// Virtual row `row_base + l` of segment `s` lies in `range`, and the segment has a kernel.
pub open spec fn owns(table: Seq<FusedSegment>, range: RowRange, s: int, l: int) -> bool {
    &&& 0 <= s < table.len()
    &&& 0 <= l < table[s].out_dim
    &&& range.start <= table[s].row_base + l < range.end
    &&& inference_avx512::kernel_of(table[s].quant, table[s].interleave) is Some
}

/// Piece `p` holds local row `l` of segment `s`.
pub open spec fn piece_has(p: SegmentRows, s: int, l: int) -> bool {
    p.segment == s && p.rows.start <= l < p.rows.end
}

/// Maps a range of virtual rows onto the segments.
pub fn fused_linear_kernel(table: &Vec<FusedSegment>, range: RowRange) -> (pieces: Vec<SegmentRows>)
    requires
        forall|i: int|
            0 <= i < table@.len() ==> (#[trigger] table@[i]).row_base + table@[i].out_dim
                <= usize::MAX,
    ensures
        forall|s: int, l: int| #[trigger]
            owns(table@, range, s, l) <==> exists|i: int|
                0 <= i < pieces@.len() && piece_has(#[trigger] pieces@[i], s, l),
        forall|i: int, j: int|
            0 <= i < j < pieces@.len() ==> (#[trigger] pieces@[i]).segment < (
            #[trigger] pieces@[j]).segment,
        forall|i: int|
            0 <= i < pieces@.len() ==> {
                let p = #[trigger] pieces@[i];
                &&& p.segment < table@.len()
                &&& p.rows.start < p.rows.end
                &&& p.rows.end <= table@[p.segment as int].out_dim
                &&& Some(p.kernel) == inference_avx512::kernel_of(
                    table@[p.segment as int].quant,
                    table@[p.segment as int].interleave,
                )
            },
{
    let mut pieces: Vec<SegmentRows> = Vec::new();
    let mut s: usize = 0;
    while s < table.len()
        invariant
            s <= table@.len(),
            forall|i: int|
                0 <= i < table@.len() ==> (#[trigger] table@[i]).row_base + table@[i].out_dim
                    <= usize::MAX,
            forall|t: int, l: int|
                t < s ==> (#[trigger] owns(table@, range, t, l) <==> exists|i: int|
                    0 <= i < pieces@.len() && piece_has(#[trigger] pieces@[i], t, l)),
            forall|i: int, j: int|
                0 <= i < j < pieces@.len() ==> (#[trigger] pieces@[i]).segment < (
                #[trigger] pieces@[j]).segment,
            forall|i: int|
                0 <= i < pieces@.len() ==> {
                    let p = #[trigger] pieces@[i];
                    &&& p.segment < s
                    &&& p.rows.start < p.rows.end
                    &&& p.rows.end <= table@[p.segment as int].out_dim
                    &&& Some(p.kernel) == inference_avx512::kernel_of(
                        table@[p.segment as int].quant,
                        table@[p.segment as int].interleave,
                    )
                },
        decreases table@.len() - s,
    {
        let seg: FusedSegment = table[s];
        let seg_start: usize = seg.row_base;
        let seg_end: usize = seg.row_base + seg.out_dim;
        let lo: usize = if range.start > seg_start {
            range.start
        } else {
            seg_start
        };
        let hi: usize = if range.end < seg_end {
            range.end
        } else {
            seg_end
        };
        let ghost before = pieces@;
        if lo < hi {
            let local = RowRange { start: lo - seg_start, end: hi - seg_start };
            match linear_dispatch_avx512(seg.quant, seg.interleave) {
                Ok(kernel) => {
                    pieces.push(SegmentRows { segment: s, rows: local, kernel });
                },
                Err(_) => {},
            }
        }
        proof {
            let grown = pieces@;
            assert forall|t: int, l: int| t < s + 1 implies (#[trigger] owns(table@, range, t, l)
                <==> exists|i: int| 0 <= i < grown.len() && piece_has(#[trigger] grown[i], t, l)) by {
                if t < s {
                    if owns(table@, range, t, l) {
                        let i = choose|i: int|
                            0 <= i < before.len() && piece_has(#[trigger] before[i], t, l);
                        assert(grown[i] == before[i]);
                    }
                    if exists|i: int| 0 <= i < grown.len() && piece_has(#[trigger] grown[i], t, l) {
                        let i = choose|i: int|
                            0 <= i < grown.len() && piece_has(#[trigger] grown[i], t, l);
                        assert(i < before.len());
                        assert(grown[i] == before[i]);
                    }
                } else {
                    if owns(table@, range, t, l) {
                        assert(t == s);
                        assert(lo < hi);
                        assert(piece_has(grown[before.len() as int], t, l));
                    }
                    if exists|i: int| 0 <= i < grown.len() && piece_has(#[trigger] grown[i], t, l) {
                        let i = choose|i: int|
                            0 <= i < grown.len() && piece_has(#[trigger] grown[i], t, l);
                        if i < before.len() {
                            assert(before[i].segment < s);
                        }
                    }
                }
            }
        }
        s = s + 1;
    }
    pieces
}

/// Every virtual row of a plan is a row of exactly one segment, at one place in it.
pub proof fn lemma_virtual_row(segs: Seq<FusedSegment>, table: Seq<FusedSegment>, r: int)
    requires
        placed(table, segs),
        rows_before(segs, segs.len()) <= usize::MAX,
        0 <= r < rows_before(segs, segs.len()),
    ensures
        exists|s: int|
            0 <= s < segs.len() && (#[trigger] table[s]).row_base <= r < table[s].row_base
                + table[s].out_dim,
        forall|s: int, t: int|
            0 <= s < segs.len() && 0 <= t < segs.len() && (#[trigger] table[s]).row_base <= r
                && r < table[s].row_base + table[s].out_dim && (#[trigger] table[t]).row_base <= r
                && r < table[t].row_base + table[t].out_dim ==> s == t,
{
    lemma_find_segment(segs, segs.len(), r);
    let s = choose|s: int|
        0 <= s < segs.len() && #[trigger] rows_before(segs, s as nat) <= r && r < rows_before(
            segs,
            (s + 1) as nat,
        );
    lemma_rows_grow(segs, s as nat, segs.len());
    assert(table[s].row_base <= r < table[s].row_base + table[s].out_dim);
    assert forall|s: int, t: int|
        0 <= s < segs.len() && 0 <= t < segs.len() && (#[trigger] table[s]).row_base <= r && r
            < table[s].row_base + table[s].out_dim && (#[trigger] table[t]).row_base <= r && r
            < table[t].row_base + table[t].out_dim implies s == t by {
        lemma_rows_grow(segs, s as nat, segs.len());
        lemma_rows_grow(segs, t as nat, segs.len());
        if s < t {
            lemma_rows_grow(segs, (s + 1) as nat, t as nat);
        }
        if t < s {
            lemma_rows_grow(segs, (t + 1) as nat, s as nat);
        }
    }
}

/// However virtual rows are cut into two ranges, each row that the whole owns is
/// owned by exactly one of the two, as the same row of the same segment.
pub proof fn lemma_one_owner(
    table: Seq<FusedSegment>,
    start: usize,
    mid: usize,
    end: usize,
    s: int,
    l: int,
)
    requires
        start <= mid <= end,
    ensures
        owns(table, (RowRange { start, end }), s, l) <==> owns(
            table,
            (RowRange { start, end: mid }),
            s,
            l,
        ) || owns(table, (RowRange { start: mid, end }), s, l),
        !(owns(table, (RowRange { start, end: mid }), s, l) && owns(
            table,
            (RowRange { start: mid, end }),
            s,
            l,
        )),
{
}

proof fn lemma_find_segment(segs: Seq<FusedSegment>, n: nat, r: int)
    requires
        n <= segs.len(),
        0 <= r < rows_before(segs, n),
    ensures
        exists|s: int|
            0 <= s < n && #[trigger] rows_before(segs, s as nat) <= r && r < rows_before(
                segs,
                (s + 1) as nat,
            ),
    decreases n,
{
    if n > 0 {
        if r < rows_before(segs, (n - 1) as nat) {
            lemma_find_segment(segs, (n - 1) as nat, r);
        } else {
            assert(rows_before(segs, (n - 1) as nat) <= r && r < rows_before(
                segs,
                ((n - 1) + 1) as nat,
            ));
        }
    }
}

} // verus!
