//! Integer dot products of Q4_K weights with Q8_K activations.

use crate::arch::x86_64::math::linear;
use crate::arch::x86_64::math::linear::{get_scale_min_k4, Layout, Q4K_BYTES};
use crate::bytes;
use crate::bytes::{push_le32, u16_le, u32_le};
use crate::inference_avx512::argmax::RowRange;
use vstd::prelude::*;

verus! {

/// Bytes of one Q8_K block: scale, 256 signed bytes, 16 partial sums.
pub const Q8K_BLOCK_BYTES: usize = 292;

/// Elements of one Q8_K block.
pub const Q8K_BLOCK_SIZE: usize = 256;

/// The eight scales, then the eight minima, of the twelve packed bytes.
pub fn unpack_mins_and_scales(scales_12: &[u8]) -> (out: [u8; 16])
    requires
        scales_12@.len() >= 12,
    ensures
        forall|j: int| 0 <= j < 8 ==> #[trigger] out@[j] == linear::k4_scale(scales_12@, j),
        forall|j: int| 8 <= j < 16 ==> #[trigger] out@[j] == linear::k4_min(scales_12@, j - 8),
{
    let mut out: [u8; 16] = [0u8; 16];
    let mut j: usize = 0;
    while j < 8
        invariant
            j <= 8,
            scales_12@.len() >= 12,
            forall|i: int| 0 <= i < j ==> #[trigger] out@[i] == linear::k4_scale(scales_12@, i),
            forall|i: int|
                8 <= i < 8 + j ==> #[trigger] out@[i] == linear::k4_min(scales_12@, i - 8),
        decreases 8 - j,
    {
        let (sc, mn) = get_scale_min_k4(scales_12, j);
        out[j] = sc;
        out[8 + j] = mn;
        j = j + 1;
    }
    out
}

/// A rounded activation within the range of a signed byte.
pub open spec fn clamped(q: i32) -> int {
    if q > 127 {
        127
    } else if q < -128 {
        -128
    } else {
        q as int
    }
}

/// The byte of a signed value.
pub open spec fn byte_of(v: int) -> u8 {
    if v < 0 {
        (v + 256) as u8
    } else {
        v as u8
    }
}

/// Two bytes of a signed value, least significant first.
pub open spec fn word_of(v: int) -> int {
    if v < 0 {
        v + 0x1_0000
    } else {
        v
    }
}

/// Sum of the clamped activations `[lo, lo + n)`.
pub open spec fn activation_sum(q: Seq<i32>, lo: int, n: nat) -> int
    decreases n,
{
    if n == 0 {
        0
    } else {
        activation_sum(q, lo, (n - 1) as nat) + clamped(q[lo + n - 1])
    }
}

proof fn lemma_activation_sum_bound(q: Seq<i32>, lo: int, n: nat)
    ensures
        -128 * n <= activation_sum(q, lo, n) <= 127 * n,
    decreases n,
{
    if n > 0 {
        lemma_activation_sum_bound(q, lo, (n - 1) as nat);
    }
}

/// The block of the activations that start at `lo`, with the scale bits `d`.
pub open spec fn q8k_block(d: u32, q: Seq<i32>, lo: int) -> Seq<u8> {
    bytes::le32_bytes(d as int) + Seq::new(256, |i: int| byte_of(clamped(q[lo + i]))) + Seq::new(
        32,
        |i: int|
            {
                let w = word_of(activation_sum(q, lo + i / 2 * 16, 16));
                if i % 2 == 0 {
                    (w % 256) as u8
                } else {
                    (w / 256) as u8
                }
            },
    )
}

/// The blocks of all activations.
pub open spec fn q8k_row(d: Seq<u32>, q: Seq<i32>, n: nat) -> Seq<u8>
    decreases n,
{
    if n == 0 {
        Seq::empty()
    } else {
        q8k_row(d, q, (n - 1) as nat) + q8k_block(d[n - 1], q, 256 * (n - 1))
    }
}

fn clamp(q: i32) -> (v: i32)
    ensures
        v == clamped(q),
{
    if q > 127 {
        127
    } else if q < -128 {
        -128
    } else {
        q
    }
}

fn push_block(out: &mut Vec<u8>, d: u32, q: &[i32], lo: usize)
    requires
        lo + 256 <= q@.len(),
    ensures
        final(out)@ == old(out)@ + q8k_block(d, q@, lo as int),
{
    assert(q.len() <= usize::MAX);
    push_le32(out, d);
    let ghost head = out@;
    let ghost body = Seq::new(256, |i: int| byte_of(clamped(q@[lo + i])));
    let ghost tail = Seq::new(
        32,
        |i: int|
            {
                let w = word_of(activation_sum(q@, lo + i / 2 * 16, 16));
                if i % 2 == 0 {
                    (w % 256) as u8
                } else {
                    (w / 256) as u8
                }
            },
    );
    let mut i: usize = 0;
    assert(out@ =~= head + body.take(0));
    while i < 256
        invariant
            i <= 256,
            lo + 256 <= q@.len(),
            q@.len() <= usize::MAX,
            body == Seq::new(256, |i: int| byte_of(clamped(q@[lo + i]))),
            out@ == head + body.take(i as int),
        decreases 256 - i,
    {
        let v: i32 = clamp(q[lo + i]);
        let b: u8 = if v < 0 {
            (v + 256) as u8
        } else {
            v as u8
        };
        out.push(b);
        i = i + 1;
        assert(out@ =~= head + body.take(i as int));
    }
    assert(body.take(256) =~= body);
    let ghost filled = out@;
    let mut k: usize = 0;
    assert(out@ =~= filled + tail.take(0));
    while k < 16
        invariant
            k <= 16,
            lo + 256 <= q@.len(),
            q@.len() <= usize::MAX,
            tail == Seq::new(
                32,
                |i: int|
                    {
                        let w = word_of(activation_sum(q@, lo + i / 2 * 16, 16));
                        if i % 2 == 0 {
                            (w % 256) as u8
                        } else {
                            (w / 256) as u8
                        }
                    },
            ),
            out@ == filled + tail.take(2 * k as int),
        decreases 16 - k,
    {
        let mut sum: i32 = 0;
        let mut j: usize = 0;
        while j < 16
            invariant
                j <= 16,
                k < 16,
                lo + 256 <= q@.len(),
                q@.len() <= usize::MAX,
                sum == activation_sum(q@, lo + k * 16, j as nat),
                -128 * j <= sum <= 127 * j,
            decreases 16 - j,
        {
            sum = sum + clamp(q[lo + k * 16 + j]);
            j = j + 1;
        }
        let w: u32 = if sum < 0 {
            (sum + 0x1_0000) as u32
        } else {
            sum as u32
        };
        assert((2 * k as int) / 2 == k && (2 * k + 1) / 2 == k);
        out.push((w % 256) as u8);
        out.push((w / 256) as u8);
        k = k + 1;
        assert(out@ =~= filled + tail.take(2 * k as int));
    }
    assert(tail.take(32) =~= tail);
    assert(out@ =~= old(out)@ + q8k_block(d, q@, lo as int));
}

/// Packs rounded activations into Q8_K blocks. `scales[b]` holds the bits of
/// the scale of block `b`.
pub fn quantize_row_q8k(q: &[i32], scales: &[u32], n: usize) -> (out: Vec<u8>)
    requires
        n % 256 == 0,
        n <= q@.len(),
        n / 256 <= scales@.len(),
    ensures
        out@ == q8k_row(scales@, q@, (n / 256) as nat),
{
    let mut out: Vec<u8> = Vec::new();
    let mut b: usize = 0;
    while b < n / 256
        invariant
            b <= n / 256,
            n % 256 == 0,
            n <= q@.len(),
            n / 256 <= scales@.len(),
            out@ == q8k_row(scales@, q@, b as nat),
        decreases n / 256 - b,
    {
        push_block(&mut out, scales[b], q, 256 * b);
        b = b + 1;
    }
    out
}

/// Activation `e` of the Q8_K block at `o`.
pub open spec fn activation(q8: Seq<u8>, o: int, e: int) -> int {
    linear::signed(q8[o + 4 + e])
}

/// Partial sum `g` that the block at `o` carries.
pub open spec fn partial_sum(q8: Seq<u8>, o: int, g: int) -> int {
    let w = bytes::le16(q8, o + 260 + 2 * g);
    if w < 0x8000 {
        w
    } else {
        w - 0x1_0000
    }
}

/// Sum over the first `n` elements of weight times activation, scales included.
pub open spec fn weighted_upto(w: Seq<u8>, wo: int, q8: Seq<u8>, qo: int, n: nat) -> int
    decreases n,
{
    if n == 0 {
        0
    } else {
        let c = linear::q4k_at(w, wo, n - 1);
        weighted_upto(w, wo, q8, qo, (n - 1) as nat) + c.scale * (c.q * activation(q8, qo, n - 1))
    }
}

/// Sum over the first `n` sub-blocks of minimum times partial sums.
pub open spec fn minima_upto(w: Seq<u8>, wo: int, q8: Seq<u8>, qo: int, n: nat) -> int
    decreases n,
{
    if n == 0 {
        0
    } else {
        minima_upto(w, wo, q8, qo, (n - 1) as nat) + linear::k4_min(
            w.subrange(wo + 4, wo + 16),
            n - 1,
        ) * (partial_sum(q8, qo, 2 * (n - 1)) + partial_sum(q8, qo, 2 * (n - 1) + 1))
    }
}

fn signed_byte(b: u8) -> (v: i32)
    ensures
        v == linear::signed(b),
        -128 <= v < 128,
{
    if b < 128 {
        b as i32
    } else {
        b as i32 - 256
    }
}

fn signed_word(w: u16) -> (v: i32)
    ensures
        v == (if w < 0x8000 {
            w as int
        } else {
            w - 0x1_0000
        }),
{
    if w < 0x8000 {
        w as i32
    } else {
        w as i32 - 0x1_0000
    }
}

/// The two integer sums of one weight block at `wo` with one activation block
/// at `qo`: scaled products, and minima times partial sums.
pub fn linear_q4k_vnni_block(w: &[u8], wo: usize, q8: &[u8], qo: usize) -> (r: (i64, i32))
    requires
        wo + Q4K_BYTES <= w@.len(),
        qo + Q8K_BLOCK_BYTES <= q8@.len(),
    ensures
        r.0 == weighted_upto(w@, wo as int, q8@, qo as int, 256),
        r.1 == minima_upto(w@, wo as int, q8@, qo as int, 8),
{
    assert(w.len() <= usize::MAX && q8.len() <= usize::MAX);
    let mut scales: Vec<u8> = Vec::new();
    let mut i: usize = 0;
    while i < 12
        invariant
            i <= 12,
            wo + Q4K_BYTES <= w@.len(),
            w@.len() <= usize::MAX,
            scales@ == w@.subrange(wo + 4, wo + 4 + i),
        decreases 12 - i,
    {
        scales.push(w[wo + 4 + i]);
        i = i + 1;
        assert(scales@ =~= w@.subrange(wo + 4, wo + 4 + i));
    }
    let sc_mn: [u8; 16] = unpack_mins_and_scales(scales.as_slice());
    let mut total: i64 = 0;
    let mut mins: i32 = 0;
    let mut g: usize = 0;
    while g < 8
        invariant
            g <= 8,
            wo + Q4K_BYTES <= w@.len(),
            w@.len() <= usize::MAX,
            qo + Q8K_BLOCK_BYTES <= q8@.len(),
            q8@.len() <= usize::MAX,
            forall|j: int|
                0 <= j < 8 ==> #[trigger] sc_mn@[j] == linear::k4_scale(
                    w@.subrange(wo + 4, wo + 16),
                    j,
                ),
            forall|j: int|
                8 <= j < 16 ==> #[trigger] sc_mn@[j] == linear::k4_min(
                    w@.subrange(wo + 4, wo + 16),
                    j - 8,
                ),
            total == weighted_upto(w@, wo as int, q8@, qo as int, (32 * g) as nat),
            -4_000_000 * g <= total <= 4_000_000 * g,
            mins == minima_upto(w@, wo as int, q8@, qo as int, g as nat),
            -4_200_000 * g <= mins <= 4_200_000 * g,
        decreases 8 - g,
    {
        let high: bool = g % 2 == 1;
        let scale: i64 = sc_mn[g] as i64;
        proof {
            let s = w@.subrange(wo + 4, wo + 16);
            assert(0 <= linear::k4_scale(s, g as int) < 64 && 0 <= linear::k4_min(s, g as int) < 64);
        }
        let mut sub: i32 = 0;
        let mut k: usize = 0;
        while k < 32
            invariant
                k <= 32,
                g < 8,
                high == (g % 2 == 1),
                scale == linear::k4_scale(w@.subrange(wo + 4, wo + 16), g as int),
                0 <= scale < 64,
                wo + Q4K_BYTES <= w@.len(),
                w@.len() <= usize::MAX,
                qo + Q8K_BLOCK_BYTES <= q8@.len(),
                q8@.len() <= usize::MAX,
                -1920 * k <= sub <= 1920 * k,
                total + scale * sub == weighted_upto(
                    w@,
                    wo as int,
                    q8@,
                    qo as int,
                    (32 * g + k) as nat,
                ),
            decreases 32 - k,
        {
            let b: u8 = w[wo + 16 + g / 2 * 32 + k];
            let q: i32 = if high {
                (b / 16) as i32
            } else {
                (b % 16) as i32
            };
            let a: i32 = signed_byte(q8[qo + 4 + g * 32 + k]);
            assert(-1920 <= q * a <= 1920) by (nonlinear_arith)
                requires
                    0 <= q <= 15,
                    -128 <= a <= 127,
            ;
            proof {
                let e = 32 * g + k;
                let c = linear::q4k_at(w@, wo as int, e);
                assert(e / 64 == g as int / 2 && e % 32 == k && e / 32 == g && (e % 64 >= 32)
                    == high);
                assert(c.q == q && c.scale == scale);
                assert(scale * (sub + q * a) == scale * sub + scale * (q * a))
                    by (nonlinear_arith);
            }
            sub = sub + q * a;
            k = k + 1;
        }
        let bs_lo: i32 = signed_word(u16_le(q8, qo + 260 + 4 * g));
        let bs_hi: i32 = signed_word(u16_le(q8, qo + 260 + 4 * g + 2));
        let min: i32 = sc_mn[8 + g] as i32;
        assert(-3_932_160 <= scale * sub <= 3_932_160) by (nonlinear_arith)
            requires
                0 <= scale < 64,
                -61_440 <= sub <= 61_440,
        ;
        assert(-4_194_304 <= min * (bs_lo + bs_hi) <= 4_194_304) by (nonlinear_arith)
            requires
                0 <= min < 64,
                -32768 <= bs_lo < 32768,
                -32768 <= bs_hi < 32768,
        ;
        assert(sub * scale == scale * sub) by (nonlinear_arith);
        total = total + (sub as i64) * scale;
        mins = mins + min * (bs_lo + bs_hi);
        g = g + 1;
    }
    (total, mins)
}

/// Sum over all 256 elements of minimum times activation.
pub open spec fn min_products(w: Seq<u8>, wo: int, q8: Seq<u8>, qo: int, n: nat) -> int
    decreases n,
{
    if n == 0 {
        0
    } else {
        min_products(w, wo, q8, qo, (n - 1) as nat) + linear::q4k_at(w, wo, n - 1).min * activation(
            q8,
            qo,
            n - 1,
        )
    }
}

/// A packed block carries the clamped activations.
pub proof fn lemma_block_activation(d: u32, q: Seq<i32>, lo: int, e: int)
    requires
        0 <= e < 256,
    ensures
        activation(q8k_block(d, q, lo), 0, e) == clamped(q[lo + e]),
{
    let b = q8k_block(d, q, lo);
    assert(b[4 + e] == byte_of(clamped(q[lo + e])));
}

/// A packed block carries the sums of its runs of sixteen.
pub proof fn lemma_block_partial(d: u32, q: Seq<i32>, lo: int, g: int)
    requires
        0 <= g < 16,
    ensures
        partial_sum(q8k_block(d, q, lo), 0, g) == activation_sum(q, lo + g * 16, 16),
{
    let b = q8k_block(d, q, lo);
    lemma_activation_sum_bound(q, lo + g * 16, 16);
    let w = word_of(activation_sum(q, lo + g * 16, 16));
    assert((2 * g) / 2 == g && (2 * g + 1) / 2 == g && (2 * g + 1) % 2 == 1 && (2 * g) % 2 == 0);
    assert(b[260 + 2 * g] == (w % 256) as u8);
    assert(b[260 + 2 * g + 1] == (w / 256) as u8);
}

proof fn lemma_group_products(w: Seq<u8>, wo: int, d: u32, q: Seq<i32>, lo: int, g: int, k: nat)
    requires
        0 <= g < 8,
        k <= 32,
    ensures
        min_products(w, wo, q8k_block(d, q, lo), 0, (32 * g + k) as nat) == min_products(
            w,
            wo,
            q8k_block(d, q, lo),
            0,
            (32 * g) as nat,
        ) + linear::k4_min(w.subrange(wo + 4, wo + 16), g) * activation_sum(q, lo + 32 * g, k),
    decreases k,
{
    let m = linear::k4_min(w.subrange(wo + 4, wo + 16), g);
    if k == 0 {
        assert(m * 0 == 0);
    } else {
        lemma_group_products(w, wo, d, q, lo, g, (k - 1) as nat);
        let e = 32 * g + k - 1;
        lemma_block_activation(d, q, lo, e);
        assert(e / 32 == g);
        assert(linear::q4k_at(w, wo, e).min == m);
        let a = activation_sum(q, lo + 32 * g, (k - 1) as nat);
        let c = clamped(q[lo + e]);
        assert(m * (a + c) == m * a + m * c) by (nonlinear_arith);
    }
}

pub proof fn lemma_sum_split(q: Seq<i32>, lo: int, n: nat)
    requires
        n <= 16,
    ensures
        activation_sum(q, lo, (16 + n) as nat) == activation_sum(q, lo, 16) + activation_sum(
            q,
            lo + 16,
            n,
        ),
    decreases n,
{
    if n > 0 {
        lemma_sum_split(q, lo, (n - 1) as nat);
    }
}

/// For a packed activation block, the partial sums stand for the activations
/// themselves: minima times partial sums is minima times activations, element
/// by element.
pub proof fn lemma_partial_sums_suffice(w: Seq<u8>, wo: int, d: u32, q: Seq<i32>, lo: int, n: nat)
    requires
        n <= 8,
    ensures
        minima_upto(w, wo, q8k_block(d, q, lo), 0, n) == min_products(
            w,
            wo,
            q8k_block(d, q, lo),
            0,
            (32 * n) as nat,
        ),
    decreases n,
{
    if n > 0 {
        let g = n - 1;
        lemma_partial_sums_suffice(w, wo, d, q, lo, g as nat);
        lemma_group_products(w, wo, d, q, lo, g, 32);
        lemma_block_partial(d, q, lo, 2 * g);
        lemma_block_partial(d, q, lo, 2 * g + 1);
        lemma_sum_split(q, lo + 32 * g, 16);
        assert(2 * g * 16 == 32 * g && (2 * g + 1) * 16 == 32 * g + 16);
    }
}

/// One pair of blocks: the result grows by `d * q8_scale * dot` less
/// `dmin * q8_scale * mins`.
#[derive(Clone, Copy, Debug, PartialEq, Eq, Structural)]
pub struct VnniBlock {
    /// Bits of the binary16 scale of the weights.
    pub d: u16,
    /// Bits of the binary16 scale of the minima.
    pub dmin: u16,
    /// Bits of the binary32 scale of the activations.
    pub q8_scale: u32,
    pub dot: i64,
    pub mins: i32,
}

/// The blocks of one row, to be added in order.
pub struct VnniRow {
    pub row: usize,
    pub blocks: Vec<VnniBlock>,
}

/// Block `b` of row `row`, in a matrix of `nb` blocks per row.
pub open spec fn vnni_block_at(w: Seq<u8>, q8: Seq<u8>, nb: int, row: int, b: int) -> VnniBlock {
    let wo = (row * nb + b) * 144;
    let qo = b * 292;
    VnniBlock {
        d: bytes::le16(w, wo) as u16,
        dmin: bytes::le16(w, wo + 2) as u16,
        q8_scale: bytes::le32(q8, qo) as u32,
        dot: weighted_upto(w, wo, q8, qo, 256) as i64,
        mins: minima_upto(w, wo, q8, qo, 8) as i32,
    }
}

/// The blocks of row `row`.
pub open spec fn vnni_blocks(w: Seq<u8>, q8: Seq<u8>, nb: int, row: int) -> Seq<VnniBlock> {
    Seq::new(nb as nat, |b: int| vnni_block_at(w, q8, nb, row, b))
}

proof fn lemma_block_fits(nb: int, row: int, b: int, last: int, len: int)
    requires
        0 <= b < nb,
        0 <= row <= last,
        (last + 1) * nb * 144 <= len,
    ensures
        0 <= (row * nb + b) * 144,
        (row * nb + b) * 144 + 144 <= len,
        0 <= row * nb,
        row * nb + b <= len,
{
    assert(row * nb + nb <= (last + 1) * nb && 0 <= row * nb) by (nonlinear_arith)
        requires
            0 <= row <= last,
            0 <= nb,
    ;
}

fn vnni_row(q8k: &[u8], w: &[u8], nb: usize, row: usize) -> (r: VnniRow)
    requires
        (row + 1) * nb * 144 <= w@.len(),
        nb * 292 <= q8k@.len(),
    ensures
        r.row == row,
        r.blocks@ == vnni_blocks(w@, q8k@, nb as int, row as int),
{
    assert(w.len() <= usize::MAX && q8k.len() <= usize::MAX);
    let mut blocks: Vec<VnniBlock> = Vec::new();
    let mut b: usize = 0;
    while b < nb
        invariant
            b <= nb,
            (row + 1) * nb * 144 <= w@.len(),
            nb * 292 <= q8k@.len(),
            w@.len() <= usize::MAX,
            q8k@.len() <= usize::MAX,
            blocks@ == vnni_blocks(w@, q8k@, nb as int, row as int).take(b as int),
        decreases nb - b,
    {
        proof {
            lemma_block_fits(nb as int, row as int, b as int, row as int, w@.len() as int);
        }
        let wo: usize = (row * nb + b) * Q4K_BYTES;
        let qo: usize = b * Q8K_BLOCK_BYTES;
        let (dot, mins): (i64, i32) = linear_q4k_vnni_block(w, wo, q8k, qo);
        let ghost all = vnni_blocks(w@, q8k@, nb as int, row as int);
        blocks.push(
            VnniBlock {
                d: u16_le(w, wo),
                dmin: u16_le(w, wo + 2),
                q8_scale: u32_le(q8k, qo),
                dot,
                mins,
            },
        );
        assert(all.take(b + 1) =~= all.take(b as int).push(all[b as int]));
        b = b + 1;
    }
    assert(blocks@ =~= vnni_blocks(w@, q8k@, nb as int, row as int));
    VnniRow { row, blocks }
}

/// The integer sums of the rows `range` of a Q4_K matrix with one row of packed
/// activations.
pub fn linear_q4k_vnni_range(q8k_packed: &[u8], w_blocks: &[u8], in_dim: usize, range: RowRange) -> (
out: Vec<VnniRow>)
    requires
        linear::holds_rows(Layout::Q4K, w_blocks@, in_dim as int, range),
        range.start < range.end ==> in_dim as int / 256 * 292 <= q8k_packed@.len(),
    ensures
        out@.len() == (if range.start < range.end {
            range.end - range.start
        } else {
            0
        }),
        forall|i: int|
            0 <= i < out@.len() ==> (#[trigger] out@[i]).row == range.start + i && out@[i].blocks@
                == vnni_blocks(w_blocks@, q8k_packed@, in_dim as int / 256, range.start + i),
{
    let nb: usize = in_dim / 256;
    let mut out: Vec<VnniRow> = Vec::new();
    let mut i: usize = range.start;
    while i < range.end
        invariant
            range.start <= i,
            i <= range.end || i == range.start,
            nb == in_dim as int / 256,
            linear::holds_rows(Layout::Q4K, w_blocks@, in_dim as int, range),
            range.start < range.end ==> nb * 292 <= q8k_packed@.len(),
            out@.len() == i - range.start,
            forall|k: int|
                0 <= k < out@.len() ==> (#[trigger] out@[k]).row == range.start + k
                    && out@[k].blocks@ == vnni_blocks(
                    w_blocks@,
                    q8k_packed@,
                    nb as int,
                    range.start + k,
                ),
        decreases range.end - i,
    {
        assert((i + 1) * nb * 144 <= range.end * nb * 144) by (nonlinear_arith)
            requires
                i + 1 <= range.end,
                0 <= nb,
        ;
        out.push(vnni_row(q8k_packed, w_blocks, nb, i));
        i = i + 1;
    }
    out
}

} // verus!
