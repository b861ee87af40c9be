//! Which weight a kernel multiplies with which activation, and into which of the
//! four lanes of its accumulator the product goes.

use crate::arch::x86_64::math::linear;
use crate::arch::x86_64::math::linear::{row_codes, Code, Layout, RowTerms, Term};
use vstd::prelude::*;

verus! {

/// Lane of column `col`: four columns side by side, or in Q6_K the four stripes
/// of a half block.
pub open spec fn lane_at(l: Layout, col: int) -> int {
    match l {
        Layout::Q6K => col % 128 / 32,
        _ => col % 4,
    }
}

/// The multiply-adds of row `row`, column by column.
pub open spec fn terms_of(l: Layout, w: Seq<u8>, in_dim: int, row: int) -> Seq<Term> {
    let nb = in_dim / l.elements();
    Seq::new(
        (nb * l.elements()) as nat,
        |c: int|
            Term {
                col: c as usize,
                code: linear::code_at(l, w, nb, row, c),
                chain: 0,
                lane: lane_at(l, c) as usize,
            },
    )
}

/// The multiply-adds of a row take every column once, in ascending order, in one
/// accumulator. The columns go round its four lanes one by one, in Q6_K in runs of 32.
pub proof fn lemma_columns_go_round(l: Layout, w: Seq<u8>, in_dim: int, row: int, c: int)
    requires
        0 <= in_dim <= usize::MAX,
        0 <= c < in_dim / l.elements() * l.elements(),
    ensures
        ({
            let t = terms_of(l, w, in_dim, row);
            &&& t[c].col == c
            &&& t[c].chain == 0
            &&& c == 0 ==> t[c].lane == 0
            &&& c + 1 < t.len() ==> t[c + 1].lane == (if l is Q6K && (c + 1) % 32 != 0 {
                t[c].lane as int
            } else {
                (t[c].lane + 1) % 4
            })
        }),
{
    linear::lemma_whole_blocks(l, in_dim);
    lemma_round(l, c);
}

proof fn lemma_round(l: Layout, c: int)
    requires
        0 <= c,
    ensures
        0 <= lane_at(l, c) < 4,
        lane_at(l, 0) == 0,
        lane_at(l, c + 1) == (if l is Q6K && (c + 1) % 32 != 0 {
            lane_at(l, c)
        } else {
            (lane_at(l, c) + 1) % 4
        }),
{
    if l is Q6K {
        assert(c % 128 / 32 == c / 32 % 4 && (c + 1) % 128 / 32 == (c + 1) / 32 % 4);
    }
}

/// The bytes hold `out_dim` rows.
pub open spec fn holds_matrix(l: Layout, w: Seq<u8>, in_dim: int, out_dim: int) -> bool {
    out_dim * (in_dim / l.elements()) * l.bytes() <= w.len()
}

/// All rows in order, each with its multiply-adds.
pub open spec fn all_rows(
    out: Seq<RowTerms>,
    l: Layout,
    w: Seq<u8>,
    in_dim: int,
    out_dim: int,
) -> bool {
    &&& out.len() == out_dim
    &&& forall|i: int|
        0 <= i < out.len() ==> (#[trigger] out[i]).row == i && out[i].terms@ == terms_of(
            l,
            w,
            in_dim,
            i,
        )
}

fn row_terms(l: Layout, w: &[u8], in_dim: usize, row: usize) -> (r: RowTerms)
    requires
        linear::holds_row(l, w@, in_dim as int / l.elements(), row as int),
    ensures
        r.row == row,
        r.terms@ == terms_of(l, w@, in_dim as int, row as int),
{
    let codes: Vec<Code> = row_codes(l, w, in_dim, row);
    let mut terms: Vec<Term> = Vec::new();
    let mut c: usize = 0;
    while c < codes.len()
        invariant
            c <= codes@.len(),
            codes@.len() == in_dim as int / l.elements() * l.elements(),
            forall|i: int|
                0 <= i < codes@.len() ==> #[trigger] codes@[i] == linear::code_at(
                    l,
                    w@,
                    in_dim as int / l.elements(),
                    row as int,
                    i,
                ),
            terms@ == terms_of(l, w@, in_dim as int, row as int).take(c as int),
        decreases codes@.len() - c,
    {
        let lane: usize = match l {
            Layout::Q6K => c % 128 / 32,
            _ => c % 4,
        };
        let ghost all = terms_of(l, w@, in_dim as int, row as int);
        terms.push(Term { col: c, code: codes[c], chain: 0, lane });
        assert(all.take(c + 1) =~= all.take(c as int).push(all[c as int]));
        c = c + 1;
    }
    assert(terms@ =~= terms_of(l, w@, in_dim as int, row as int));
    RowTerms { row, terms }
}

fn matrix_terms(l: Layout, w: &[u8], in_dim: usize, out_dim: usize) -> (out: Vec<RowTerms>)
    requires
        !l.grouped(),
        holds_matrix(l, w@, in_dim as int, out_dim as int),
    ensures
        all_rows(out@, l, w@, in_dim as int, out_dim as int),
{
    let mut out: Vec<RowTerms> = Vec::new();
    let mut i: usize = 0;
    while i < out_dim
        invariant
            i <= out_dim,
            !l.grouped(),
            holds_matrix(l, w@, in_dim as int, out_dim as int),
            all_rows(out@, l, w@, in_dim as int, i as int),
        decreases out_dim - i,
    {
        let ghost nb = in_dim as int / l.elements();
        let ghost bytes = l.bytes();
        assert((i + 1) * nb * bytes <= out_dim * nb * bytes) by (nonlinear_arith)
            requires
                i + 1 <= out_dim,
                0 <= nb,
                0 < bytes,
        ;
        out.push(row_terms(l, w, in_dim, i));
        i = i + 1;
    }
    out
}

/// Multiply-adds of a Q4_K matrix.
pub fn linear_q4k_neon(w_blocks: &[u8], in_dim: usize, out_dim: usize) -> (out: Vec<RowTerms>)
    requires
        holds_matrix(Layout::Q4K, w_blocks@, in_dim as int, out_dim as int),
    ensures
        all_rows(out@, Layout::Q4K, w_blocks@, in_dim as int, out_dim as int),
{
    matrix_terms(Layout::Q4K, w_blocks, in_dim, out_dim)
}

/// Multiply-adds of a Q6_K matrix.
pub fn linear_q6k_neon(w_blocks: &[u8], in_dim: usize, out_dim: usize) -> (out: Vec<RowTerms>)
    requires
        holds_matrix(Layout::Q6K, w_blocks@, in_dim as int, out_dim as int),
    ensures
        all_rows(out@, Layout::Q6K, w_blocks@, in_dim as int, out_dim as int),
{
    matrix_terms(Layout::Q6K, w_blocks, in_dim, out_dim)
}

/// Multiply-adds of a Q4_0 matrix.
pub fn linear_q4_0_neon(w_blocks: &[u8], in_dim: usize, out_dim: usize) -> (out: Vec<RowTerms>)
    requires
        holds_matrix(Layout::Q4_0, w_blocks@, in_dim as int, out_dim as int),
    ensures
        all_rows(out@, Layout::Q4_0, w_blocks@, in_dim as int, out_dim as int),
{
    matrix_terms(Layout::Q4_0, w_blocks, in_dim, out_dim)
}

/// Multiply-adds of a Q8_0 matrix.
pub fn linear_q8_0_neon(w_blocks: &[u8], in_dim: usize, out_dim: usize) -> (out: Vec<RowTerms>)
    requires
        holds_matrix(Layout::Q8_0, w_blocks@, in_dim as int, out_dim as int),
    ensures
        all_rows(out@, Layout::Q8_0, w_blocks@, in_dim as int, out_dim as int),
{
    matrix_terms(Layout::Q8_0, w_blocks, in_dim, out_dim)
}

} // verus!
