//! The packed forms of the quantised weight blocks, and that decoding undoes them.
//!
//! A block is packed from the numbers it carries: a binary16 scale, the scales and
//! minima of its sub-blocks, and one code per element. Decoding an element gives back
//! exactly its numbers, and packing what was decoded gives back every byte of the
//! block, so no bit of a block is left unread and none is read twice.

use crate::arch::x86_64::math::linear;
use crate::arch::x86_64::math::linear::{Code, Layout};
use crate::arch::x86_64::math::vnni;
use crate::bytes;
use vstd::prelude::*;

verus! {

/// The block `p` stands at `o`.
pub open spec fn holds_block(w: Seq<u8>, o: int, p: Seq<u8>) -> bool {
    0 <= o && o + p.len() <= w.len() && forall|i: int|
        0 <= i < p.len() ==> #[trigger] w[o + i] == p[i]
}

/// The byte of a signed number.
pub open spec fn signed_byte(v: i8) -> u8 {
    if v < 0 {
        (v + 256) as u8
    } else {
        v as u8
    }
}

/// Byte `i` of a number of two bytes, least significant first.
pub open spec fn half_byte(d: u16, i: int) -> u8 {
    if i == 0 {
        (d as int % 256) as u8
    } else {
        (d as int / 256) as u8
    }
}

proof fn lemma_half(w: Seq<u8>, o: int, d: u16)
    requires
        w[o] == half_byte(d, 0),
        w[o + 1] == half_byte(d, 1),
    ensures
        bytes::le16(w, o) == d,
{
}

/// 256 codes of six bits.
pub open spec fn six_bits(q: Seq<u8>) -> bool {
    q.len() == 256 && forall|i: int| 0 <= i < 256 ==> #[trigger] q[i] < 64
}

/// Q6_K: the low four bits of the codes, two elements 64 apart to a byte; the high two
/// bits, four elements 32 apart to a byte, both for each half of 128 elements; sixteen
/// signed scales; the scale of the block.
pub open spec fn q6k_packed(d: u16, scales: Seq<i8>, q: Seq<u8>) -> Seq<u8> {
    Seq::new(
        210,
        |i: int|
            if i < 128 {
                let a = i / 64 * 128 + i % 64;
                (q[a] as int % 16 + 16 * (q[a + 64] as int % 16)) as u8
            } else if i < 192 {
                let a = (i - 128) / 32 * 128 + i % 32;
                (q[a] as int / 16 + 4 * (q[a + 32] as int / 16) + 16 * (q[a + 64] as int / 16) + 64
                    * (q[a + 96] as int / 16)) as u8
            } else if i < 208 {
                signed_byte(scales[i - 192])
            } else {
                half_byte(d, i - 208)
            },
    )
}

proof fn lemma_nibbles(a: int, b: int)
    requires
        0 <= a < 16,
        0 <= b < 16,
    ensures
        0 <= a + 16 * b < 256,
        (a + 16 * b) % 16 == a,
        (a + 16 * b) / 16 == b,
{
}

proof fn lemma_pairs(a: int, b: int, c: int, d: int)
    requires
        0 <= a < 4,
        0 <= b < 4,
        0 <= c < 4,
        0 <= d < 4,
    ensures
        ({
            let x = a + 4 * b + 16 * c + 64 * d;
            &&& 0 <= x < 256
            &&& x % 4 == a
            &&& x / 4 % 4 == b
            &&& x / 16 % 4 == c
            &&& x / 64 % 4 == d
        }),
{
    let x = a + 4 * b + 16 * c + 64 * d;
    assert(x / 4 == b + 4 * c + 16 * d);
    assert(x / 16 == c + 4 * d);
    assert(x / 64 == d);
}

/// The half, the stripe and the place of an element in it.
proof fn lemma_q6k_place(e: int) -> (r: (int, int, int))
    requires
        0 <= e < 256,
    ensures
        e == 128 * r.0 + 32 * r.1 + r.2,
        0 <= r.0 < 2,
        0 <= r.1 < 4,
        0 <= r.2 < 32,
        e / 128 == r.0,
        e % 128 / 32 == r.1,
        e % 32 == r.2,
        e / 16 == 8 * r.0 + 2 * r.1 + r.2 / 16,
        0 <= r.2 / 16 < 2,
{
    (e / 128, e % 128 / 32, e % 32)
}

/// Decoding undoes packing: element `e` of a packed Q6_K block has its own code, less
/// 32, and the scale of its run of sixteen.
pub proof fn lemma_q6k_decodes(
    w: Seq<u8>,
    o: int,
    d: u16,
    scales: Seq<i8>,
    q: Seq<u8>,
    e: int,
)
    requires
        scales.len() == 16,
        six_bits(q),
        holds_block(w, o, q6k_packed(d, scales, q)),
        0 <= e < 256,
    ensures
        linear::q6k_at(w, o, e) == (Code {
            d,
            dmin: 0,
            scale: scales[e / 16] as i32,
            min: 0,
            q: (q[e] - 32) as i32,
        }),
{
    let p = q6k_packed(d, scales, q);
    let (half, stripe, l) = lemma_q6k_place(e);
    let r = linear::q6k_at(w, o, e);
    assert(q[e] < 64);
    let i = half * 64 + stripe % 2 * 32 + l;
    assert(linear::nibble(w[o + i], stripe >= 2) == q[e] as int % 16) by {
        let a = 128 * half + (stripe % 2 * 32 + l);
        assert(i / 64 == half && i % 64 == stripe % 2 * 32 + l);
        assert(w[o + i] == p[i]);
        assert(q[a] < 64 && q[a + 64] < 64);
        lemma_nibbles(q[a] as int % 16, q[a + 64] as int % 16);
        assert(p[i] == q[a] as int % 16 + 16 * (q[a + 64] as int % 16));
        if stripe < 2 {
            assert(a == e);
        } else {
            assert(a + 64 == e);
        }
    }
    let j = 128 + half * 32 + l;
    assert(w[o + j] as int / linear::four_pow(stripe) % 4 == q[e] as int / 16) by {
        let b = half * 128 + l;
        assert((j - 128) / 32 == half && j % 32 == l);
        assert(w[o + j] == p[j]);
        assert(q[b] < 64 && q[b + 32] < 64 && q[b + 64] < 64 && q[b + 96] < 64);
        lemma_pairs(
            q[b] as int / 16,
            q[b + 32] as int / 16,
            q[b + 64] as int / 16,
            q[b + 96] as int / 16,
        );
        assert(e == b + 32 * stripe);
        assert(p[j] == q[b] as int / 16 + 4 * (q[b + 32] as int / 16) + 16 * (q[b + 64] as int / 16)
            + 64 * (q[b + 96] as int / 16));
    }
    let k = 192 + half * 8 + l / 16 + 2 * stripe;
    assert(linear::signed(w[o + k]) == scales[e / 16]) by {
        assert(k - 192 == e / 16);
        assert(w[o + k] == p[k]);
    }
    assert(bytes::le16(w, o + 208) == d) by {
        assert(w[o + 208] == p[208] && w[o + 209] == p[209]);
        lemma_half(w, o + 208, d);
    }
    assert(o + half * 64 + stripe % 2 * 32 + l == o + i);
    assert(o + 128 + half * 32 + l == o + j);
    assert(o + 192 + half * 8 + l / 16 + 2 * stripe == o + k);
    assert(r.q == q[e] as int % 16 + 16 * (q[e] as int / 16) - 32);
}

/// Packing undoes decoding: every byte of a Q6_K block comes back from its elements.
pub proof fn lemma_q6k_repacks(w: Seq<u8>, o: int)
    requires
        0 <= o,
        o + 210 <= w.len(),
    ensures
        holds_block(
            w,
            o,
            q6k_packed(
                linear::q6k_at(w, o, 0).d,
                Seq::new(16, |k: int| linear::q6k_at(w, o, 16 * k).scale as i8),
                Seq::new(256, |e: int| (linear::q6k_at(w, o, e).q + 32) as u8),
            ),
        ),
{
    let d = linear::q6k_at(w, o, 0).d;
    let scales = Seq::new(16, |k: int| linear::q6k_at(w, o, 16 * k).scale as i8);
    let q = Seq::new(256, |e: int| (linear::q6k_at(w, o, e).q + 32) as u8);
    let p = q6k_packed(d, scales, q);
    reveal(q6k_code_of);
    assert forall|i: int| 0 <= i < 210 implies #[trigger] w[o + i] == p[i] by {
        if i < 128 {
            let a = i / 64 * 128 + i % 64;
            lemma_q6k_low(w, o, i);
            assert(p[i] == (q[a] as int % 16 + 16 * (q[a + 64] as int % 16)) as u8);
        } else if i < 192 {
            let a = (i - 128) / 32 * 128 + i % 32;
            lemma_q6k_high(w, o, i);
            assert(p[i] == (q[a] as int / 16 + 4 * (q[a + 32] as int / 16) + 16 * (q[a + 64] as int
                / 16) + 64 * (q[a + 96] as int / 16)) as u8);
        } else if i < 208 {
            lemma_q6k_scale(w, o, i);
            assert(p[i] == signed_byte(scales[i - 192]));
        } else {
            lemma_bytes(w[o + 208] as int, w[o + 209] as int);
            assert(p[i] == half_byte(d, i - 208));
        }
    }
}

#[verifier::opaque]
spec fn q6k_code_of(w: Seq<u8>, o: int, e: int) -> int {
    ((linear::q6k_at(w, o, e).q + 32) as u8) as int
}

proof fn lemma_q6k_low(w: Seq<u8>, o: int, i: int)
    requires
        0 <= i < 128,
    ensures
        ({
            let a = i / 64 * 128 + i % 64;
            w[o + i] == q6k_code_of(w, o, a) % 16 + 16 * (q6k_code_of(w, o, a + 64) % 16)
        }),
{
    let (half, r) = (i / 64, i % 64);
    let (s, l) = (r / 32, r % 32);
    let a = half * 128 + r;
    lemma_q6k_code_bits(w, o, half, s, l);
    lemma_q6k_code_bits(w, o, half, s + 2, l);
    assert(a == 128 * half + 32 * s + l && a + 64 == 128 * half + 32 * (s + 2) + l);
    assert(o + half * 64 + s * 32 + l == o + i);
}

proof fn lemma_q6k_high(w: Seq<u8>, o: int, i: int)
    requires
        128 <= i < 192,
    ensures
        ({
            let a = (i - 128) / 32 * 128 + i % 32;
            w[o + i] == q6k_code_of(w, o, a) / 16 + 4 * (q6k_code_of(w, o, a + 32) / 16) + 16 * (
            q6k_code_of(w, o, a + 64) / 16) + 64 * (q6k_code_of(w, o, a + 96) / 16)
        }),
{
    let b = w[o + i] as int;
    let (half, l) = ((i - 128) / 32, i % 32);
    let a = half * 128 + l;
    assert(o + 128 + half * 32 + l == o + i);
    assert(q6k_code_of(w, o, a) / 16 == b % 4) by {
        lemma_q6k_code_bits(w, o, half, 0, l);
    }
    assert(q6k_code_of(w, o, a + 32) / 16 == b / 4 % 4) by {
        lemma_q6k_code_bits(w, o, half, 1, l);
    }
    assert(q6k_code_of(w, o, a + 64) / 16 == b / 16 % 4) by {
        lemma_q6k_code_bits(w, o, half, 2, l);
    }
    assert(q6k_code_of(w, o, a + 96) / 16 == b / 64 % 4) by {
        lemma_q6k_code_bits(w, o, half, 3, l);
    }
    lemma_byte_pairs(b);
}

proof fn lemma_byte_pairs(b: int)
    requires
        0 <= b < 256,
    ensures
        b == b % 4 + 4 * (b / 4 % 4) + 16 * (b / 16 % 4) + 64 * (b / 64 % 4),
{
    let (x, y, z) = (b / 4, b / 16, b / 64);
    assert(b == 4 * x + b % 4);
    assert(x / 4 == y && x == 4 * y + x % 4);
    assert(y / 4 == z && y == 4 * z + y % 4);
    assert(z % 4 == z);
}

proof fn lemma_q6k_scale(w: Seq<u8>, o: int, i: int)
    requires
        192 <= i < 208,
    ensures
        w[o + i] == signed_byte(linear::q6k_at(w, o, 16 * (i - 192)).scale as i8),
{
    let (half, stripe, l) = lemma_q6k_place(16 * (i - 192));
    assert(o + 192 + half * 8 + l / 16 + 2 * stripe == o + i);
}

proof fn lemma_bytes(x: int, y: int)
    requires
        0 <= x < 256,
        0 <= y < 256,
    ensures
        (x + 0x100 * y) % 256 == x,
        (x + 0x100 * y) / 256 == y,
        0 <= x + 0x100 * y < 0x1_0000,
{
}

/// The bits of a code in the two bytes that hold them.
proof fn lemma_q6k_code_bits(w: Seq<u8>, o: int, half: int, stripe: int, l: int)
    requires
        0 <= half < 2,
        0 <= stripe < 4,
        0 <= l < 32,
    ensures
        ({
            let q = q6k_code_of(w, o, 128 * half + 32 * stripe + l);
            &&& q % 16 == linear::nibble(
                w[o + half * 64 + stripe % 2 * 32 + l],
                stripe >= 2,
            )
            &&& q / 16 == w[o + 128 + half * 32 + l] as int / linear::four_pow(stripe) % 4
            &&& 0 <= q < 64
        }),
{
    reveal(q6k_code_of);
    let e = 128 * half + 32 * stripe + l;
    assert(e / 128 == half && e % 128 / 32 == stripe && e % 32 == l);
    let low = linear::nibble(w[o + half * 64 + stripe % 2 * 32 + l], stripe >= 2);
    let two = w[o + 128 + half * 32 + l] as int / linear::four_pow(stripe) % 4;
    assert(0 <= low < 16 && 0 <= two < 4);
    assert(linear::q6k_at(w, o, e).q == low + 16 * two - 32);
    lemma_nibbles(low, two);
}

// Q4_K.

/// Eight numbers of six bits.
pub open spec fn eight_of_six(s: Seq<u8>) -> bool {
    s.len() == 8 && forall|i: int| 0 <= i < 8 ==> #[trigger] s[i] < 64
}

/// `n` codes of four bits.
pub open spec fn four_bits(q: Seq<u8>, n: int) -> bool {
    q.len() == n && forall|i: int| 0 <= i < n ==> #[trigger] q[i] < 16
}

/// Eight scales and eight minima of six bits in twelve bytes: the first four of each
/// have a byte each, whose upper two bits are those of the last four; the lower four
/// bits of the last four share a byte, scale below minimum.
pub open spec fn k4_packed(scales: Seq<u8>, mins: Seq<u8>) -> Seq<u8> {
    Seq::new(
        12,
        |i: int|
            if i < 4 {
                (scales[i] + 64 * (scales[i + 4] as int / 16)) as u8
            } else if i < 8 {
                (mins[i - 4] + 64 * (mins[i] as int / 16)) as u8
            } else {
                (scales[i - 4] as int % 16 + 16 * (mins[i - 4] as int % 16)) as u8
            },
    )
}

proof fn lemma_six_and_two(a: int, b: int)
    requires
        0 <= a < 64,
        0 <= b < 4,
    ensures
        0 <= a + 64 * b < 256,
        (a + 64 * b) % 64 == a,
        (a + 64 * b) / 64 == b,
{
}

/// Unpacking the twelve bytes gives back every scale and every minimum.
pub proof fn lemma_k4_decodes(s: Seq<u8>, scales: Seq<u8>, mins: Seq<u8>, j: int)
    requires
        eight_of_six(scales),
        eight_of_six(mins),
        holds_block(s, 0, k4_packed(scales, mins)),
        0 <= j < 8,
    ensures
        linear::k4_scale(s, j) == scales[j],
        linear::k4_min(s, j) == mins[j],
{
    let p = k4_packed(scales, mins);
    assert(scales[j] < 64 && mins[j] < 64);
    if j < 4 {
        assert(scales[j + 4] < 64 && mins[j + 4] < 64);
        lemma_six_and_two(scales[j] as int, scales[j + 4] as int / 16);
        lemma_six_and_two(mins[j] as int, mins[j + 4] as int / 16);
        assert(s[0 + j] == p[j] && s[0 + (j + 4)] == p[j + 4]);
    } else {
        assert(scales[j - 4] < 64 && mins[j - 4] < 64);
        lemma_six_and_two(scales[j - 4] as int, scales[j] as int / 16);
        lemma_six_and_two(mins[j - 4] as int, mins[j] as int / 16);
        lemma_nibbles(scales[j] as int % 16, mins[j] as int % 16);
        assert(s[0 + j] == p[j] && s[0 + (j + 4)] == p[j + 4] && s[0 + (j - 4)] == p[j - 4]);
    }
}

/// Packing what was unpacked gives back the twelve bytes.
pub proof fn lemma_k4_repacks(s: Seq<u8>)
    requires
        s.len() == 12,
    ensures
        k4_packed(
            Seq::new(8, |j: int| linear::k4_scale(s, j) as u8),
            Seq::new(8, |j: int| linear::k4_min(s, j) as u8),
        ) == s,
{
    let scales = Seq::new(8, |j: int| linear::k4_scale(s, j) as u8);
    let mins = Seq::new(8, |j: int| linear::k4_min(s, j) as u8);
    let p = k4_packed(scales, mins);
    assert forall|i: int| 0 <= i < 12 implies p[i] == s[i] by {
        let b = s[i] as int;
        if i < 4 {
            let x = s[i + 8] as int % 16;
            lemma_nibbles(x, b / 64);
            assert(scales[i] == b % 64 && scales[i + 4] == x + 16 * (b / 64));
            assert(b == b % 64 + 64 * (b / 64));
        } else if i < 8 {
            let x = s[i + 4] as int / 16;
            lemma_nibbles(x, b / 64);
            assert(mins[i - 4] == b % 64 && mins[i] == x + 16 * (b / 64));
            assert(b == b % 64 + 64 * (b / 64));
        } else {
            let (x, y) = (s[i - 8] as int / 64, s[i - 4] as int / 64);
            lemma_nibbles(b % 16, x);
            lemma_nibbles(b / 16, y);
            assert(scales[i - 4] == b % 16 + 16 * x && mins[i - 4] == b / 16 + 16 * y);
            assert(b == b % 16 + 16 * (b / 16));
        }
    }
    assert(p =~= s);
}

/// Q4_K: the scale of the block and that of the minima, the packed scales and minima of
/// its eight sub-blocks, and the codes, two elements 32 apart to a byte.
pub open spec fn q4k_packed(
    d: u16,
    dmin: u16,
    scales: Seq<u8>,
    mins: Seq<u8>,
    q: Seq<u8>,
) -> Seq<u8> {
    Seq::new(
        144,
        |i: int|
            if i < 2 {
                half_byte(d, i)
            } else if i < 4 {
                half_byte(dmin, i - 2)
            } else if i < 16 {
                k4_packed(scales, mins)[i - 4]
            } else {
                let a = (i - 16) / 32 * 64 + (i - 16) % 32;
                (q[a] + 16 * q[a + 32]) as u8
            },
    )
}

/// Decoding undoes packing: element `e` of a packed Q4_K block has its own code, and the
/// scale and the minimum of its run of 32.
pub proof fn lemma_q4k_decodes(
    w: Seq<u8>,
    o: int,
    d: u16,
    dmin: u16,
    scales: Seq<u8>,
    mins: Seq<u8>,
    q: Seq<u8>,
    e: int,
)
    requires
        eight_of_six(scales),
        eight_of_six(mins),
        four_bits(q, 256),
        holds_block(w, o, q4k_packed(d, dmin, scales, mins, q)),
        0 <= e < 256,
    ensures
        linear::q4k_at(w, o, e) == (Code {
            d,
            dmin,
            scale: scales[e / 32] as i32,
            min: mins[e / 32] as i32,
            q: q[e] as i32,
        }),
        linear::k4_min(w.subrange(o + 4, o + 16), e / 32) == mins[e / 32],
{
    let p = q4k_packed(d, dmin, scales, mins, q);
    let s = w.subrange(o + 4, o + 16);
    let k = k4_packed(scales, mins);
    assert forall|i: int| 0 <= i < 12 implies #[trigger] s[0 + i] == k[i] by {
        assert(w[o + (i + 4)] == p[i + 4]);
    }
    lemma_k4_decodes(s, scales, mins, e / 32);
    assert(w[o + 0] == p[0] && w[o + 1] == p[1] && w[o + 2] == p[2] && w[o + 3] == p[3]);
    lemma_half(w, o, d);
    lemma_half(w, o + 2, dmin);
    let (j, l) = (e / 64, e % 32);
    let i = 16 + j * 32 + l;
    let a = j * 64 + l;
    assert((i - 16) / 32 == j && (i - 16) % 32 == l);
    assert(q[a] < 16 && q[a + 32] < 16);
    lemma_nibbles(q[a] as int, q[a + 32] as int);
    assert(w[o + i] == p[i]);
    assert(o + 16 + j * 32 + l == o + i);
    assert(p[i] == q[a] + 16 * q[a + 32]);
    if e % 64 >= 32 {
        assert(e == a + 32);
    } else {
        assert(e == a);
    }
}

/// Packing undoes decoding: every byte of a Q4_K block comes back from its elements.
pub proof fn lemma_q4k_repacks(w: Seq<u8>, o: int)
    requires
        0 <= o,
        o + 144 <= w.len(),
    ensures
        holds_block(
            w,
            o,
            q4k_packed(
                linear::q4k_at(w, o, 0).d,
                linear::q4k_at(w, o, 0).dmin,
                Seq::new(8, |k: int| linear::q4k_at(w, o, 32 * k).scale as u8),
                Seq::new(8, |k: int| linear::q4k_at(w, o, 32 * k).min as u8),
                Seq::new(256, |e: int| linear::q4k_at(w, o, e).q as u8),
            ),
        ),
{
    let d = linear::q4k_at(w, o, 0).d;
    let dmin = linear::q4k_at(w, o, 0).dmin;
    let scales = Seq::new(8, |k: int| linear::q4k_at(w, o, 32 * k).scale as u8);
    let mins = Seq::new(8, |k: int| linear::q4k_at(w, o, 32 * k).min as u8);
    let q = Seq::new(256, |e: int| linear::q4k_at(w, o, e).q as u8);
    lemma_q4k_heads(w, o, scales, mins);
    lemma_q4k_pairs(w, o, q);
    lemma_q4k_assembles(w, o, d, dmin, scales, mins, q);
}

proof fn lemma_q4k_pairs(w: Seq<u8>, o: int, q: Seq<u8>)
    requires
        q == Seq::new(256, |e: int| linear::q4k_at(w, o, e).q as u8),
    ensures
        forall|i: int|
            16 <= i < 144 ==> #[trigger] w[o + i] == q[(i - 16) / 32 * 64 + (i - 16) % 32] + 16
                * q[(i - 16) / 32 * 64 + (i - 16) % 32 + 32],
{
    assert forall|i: int| 16 <= i < 144 implies #[trigger] w[o + i] == q[(i - 16) / 32 * 64 + (i
        - 16) % 32] + 16 * q[(i - 16) / 32 * 64 + (i - 16) % 32 + 32] by {
        lemma_q4k_pair(w, o, i);
        let a = (i - 16) / 32 * 64 + (i - 16) % 32;
        assert(q[a] == linear::q4k_at(w, o, a).q as u8);
        assert(q[a + 32] == linear::q4k_at(w, o, a + 32).q as u8);
    }
}

proof fn lemma_q4k_assembles(
    w: Seq<u8>,
    o: int,
    d: u16,
    dmin: u16,
    scales: Seq<u8>,
    mins: Seq<u8>,
    q: Seq<u8>,
)
    requires
        0 <= o,
        o + 144 <= w.len(),
        d == bytes::le16(w, o) as u16,
        dmin == bytes::le16(w, o + 2) as u16,
        k4_packed(scales, mins) == w.subrange(o + 4, o + 16),
        forall|i: int|
            16 <= i < 144 ==> #[trigger] w[o + i] == q[(i - 16) / 32 * 64 + (i - 16) % 32] + 16
                * q[(i - 16) / 32 * 64 + (i - 16) % 32 + 32],
    ensures
        holds_block(w, o, q4k_packed(d, dmin, scales, mins, q)),
{
    let p = q4k_packed(d, dmin, scales, mins, q);
    let k = k4_packed(scales, mins);
    lemma_bytes(w[o] as int, w[o + 1] as int);
    lemma_bytes(w[o + 2] as int, w[o + 3] as int);
    assert forall|i: int| 0 <= i < 144 implies #[trigger] w[o + i] == p[i] by {
        if i < 4 {
        } else if i < 16 {
            assert(p[i] == k[i - 4]);
            assert(w.subrange(o + 4, o + 16)[i - 4] == w[o + i]);
        }
    }
}

/// The scales and minima of the runs, packed, are the bytes in front of the codes.
proof fn lemma_q4k_heads(w: Seq<u8>, o: int, scales: Seq<u8>, mins: Seq<u8>)
    requires
        0 <= o,
        o + 144 <= w.len(),
        scales == Seq::new(8, |k: int| linear::q4k_at(w, o, 32 * k).scale as u8),
        mins == Seq::new(8, |k: int| linear::q4k_at(w, o, 32 * k).min as u8),
    ensures
        k4_packed(scales, mins) == w.subrange(o + 4, o + 16),
{
    let s = w.subrange(o + 4, o + 16);
    let a = Seq::new(8, |j: int| linear::k4_scale(s, j) as u8);
    let b = Seq::new(8, |j: int| linear::k4_min(s, j) as u8);
    assert(scales == a) by {
        assert forall|k: int| 0 <= k < 8 implies scales[k] == a[k] by {
            lemma_q4k_run(w, o, k);
        }
        assert(scales =~= a);
    }
    assert(mins == b) by {
        assert forall|k: int| 0 <= k < 8 implies mins[k] == b[k] by {
            lemma_q4k_run(w, o, k);
        }
        assert(mins =~= b);
    }
    lemma_k4_repacks(s);
}

proof fn lemma_q4k_run(w: Seq<u8>, o: int, k: int)
    requires
        0 <= k < 8,
    ensures
        linear::q4k_at(w, o, 32 * k).scale as u8 == linear::k4_scale(
            w.subrange(o + 4, o + 16),
            k,
        ) as u8,
        linear::q4k_at(w, o, 32 * k).min as u8 == linear::k4_min(
            w.subrange(o + 4, o + 16),
            k,
        ) as u8,
{
    let s = w.subrange(o + 4, o + 16);
    assert((32 * k) / 32 == k);
    assert(0 <= linear::k4_scale(s, k) < 64 && 0 <= linear::k4_min(s, k) < 64);
}

proof fn lemma_q4k_pair(w: Seq<u8>, o: int, i: int)
    requires
        16 <= i < 144,
    ensures
        ({
            let a = (i - 16) / 32 * 64 + (i - 16) % 32;
            let (x, y) = (linear::q4k_at(w, o, a).q, linear::q4k_at(w, o, a + 32).q);
            0 <= x < 16 && 0 <= y < 16 && w[o + i] == x + 16 * y
        }),
{
    let (j, l) = ((i - 16) / 32, (i - 16) % 32);
    let a = j * 64 + l;
    assert(a / 64 == j && a % 32 == l && a % 64 == l);
    assert((a + 32) / 64 == j && (a + 32) % 32 == l && (a + 32) % 64 == l + 32);
    assert(o + 16 + j * 32 + l == o + i);
}

// Q4_0 and Q8_0.

/// Q4_0: the scale, and 32 codes, two elements 16 apart to a byte.
pub open spec fn q4_0_packed(d: u16, q: Seq<u8>) -> Seq<u8> {
    Seq::new(
        18,
        |i: int|
            if i < 2 {
                half_byte(d, i)
            } else {
                (q[i - 2] + 16 * q[i + 14]) as u8
            },
    )
}

/// Q8_0: the scale, and 32 signed bytes.
pub open spec fn q8_0_packed(d: u16, q: Seq<i8>) -> Seq<u8> {
    Seq::new(
        34,
        |i: int|
            if i < 2 {
                half_byte(d, i)
            } else {
                signed_byte(q[i - 2])
            },
    )
}

/// Four Q4_0 blocks in one: the four scales, the codes of one block after the other.
pub open spec fn q4_0x4_packed(d: Seq<u16>, q: Seq<Seq<u8>>) -> Seq<u8> {
    Seq::new(
        72,
        |i: int|
            if i < 8 {
                half_byte(d[i / 2], i % 2)
            } else {
                q4_0_packed(d[(i - 8) / 16], q[(i - 8) / 16])[2 + (i - 8) % 16]
            },
    )
}

/// Four Q8_0 blocks in one: the four scales, the codes of one block after the other.
pub open spec fn q8_0x4_packed(d: Seq<u16>, q: Seq<Seq<i8>>) -> Seq<u8> {
    Seq::new(
        136,
        |i: int|
            if i < 8 {
                half_byte(d[i / 2], i % 2)
            } else {
                signed_byte(q[(i - 8) / 32][(i - 8) % 32])
            },
    )
}

/// The code of an element of a block of 32.
pub open spec fn plain_code(d: u16, q: int) -> Code {
    Code { d, dmin: 0, scale: 1, min: 0, q: q as i32 }
}

/// Decoding undoes packing: element `e` of a packed Q4_0 block has its own code, less 8.
pub proof fn lemma_q4_0_decodes(w: Seq<u8>, o: int, d: u16, q: Seq<u8>, e: int)
    requires
        four_bits(q, 32),
        holds_block(w, o, q4_0_packed(d, q)),
        0 <= e < 32,
    ensures
        linear::q4_0_at(w, o, o + 2, e) == plain_code(d, q[e] - 8),
{
    let p = q4_0_packed(d, q);
    let l = e % 16;
    assert(w[o + 0] == p[0] && w[o + 1] == p[1] && w[o + (2 + l)] == p[2 + l]);
    lemma_half(w, o, d);
    assert(q[l] < 16 && q[l + 16] < 16);
    lemma_nibbles(q[l] as int, q[l + 16] as int);
    assert(o + 2 + l == o + (2 + l));
}

/// Packing undoes decoding: every byte of a Q4_0 block comes back from its elements.
pub proof fn lemma_q4_0_repacks(w: Seq<u8>, o: int)
    requires
        0 <= o,
        o + 18 <= w.len(),
    ensures
        holds_block(
            w,
            o,
            q4_0_packed(
                linear::q4_0_at(w, o, o + 2, 0).d,
                Seq::new(32, |e: int| (linear::q4_0_at(w, o, o + 2, e).q + 8) as u8),
            ),
        ),
{
    let d = linear::q4_0_at(w, o, o + 2, 0).d;
    let q = Seq::new(32, |e: int| (linear::q4_0_at(w, o, o + 2, e).q + 8) as u8);
    let p = q4_0_packed(d, q);
    assert forall|i: int| 0 <= i < 18 implies #[trigger] w[o + i] == p[i] by {
        if i < 2 {
            lemma_bytes(w[o] as int, w[o + 1] as int);
        } else {
            let b = w[o + i] as int;
            assert(o + 2 + (i - 2) % 16 == o + i && o + 2 + (i + 14) % 16 == o + i);
            assert(q[i - 2] == b % 16 && q[i + 14] == b / 16);
        }
    }
}

/// Decoding undoes packing: element `e` of a packed Q8_0 block has its own code.
pub proof fn lemma_q8_0_decodes(w: Seq<u8>, o: int, d: u16, q: Seq<i8>, e: int)
    requires
        q.len() == 32,
        holds_block(w, o, q8_0_packed(d, q)),
        0 <= e < 32,
    ensures
        linear::q8_0_at(w, o, o + 2, e) == plain_code(d, q[e] as int),
{
    let p = q8_0_packed(d, q);
    assert(w[o + 0] == p[0] && w[o + 1] == p[1] && w[o + (2 + e)] == p[2 + e]);
    lemma_half(w, o, d);
    assert(o + 2 + e == o + (2 + e));
}

/// Packing undoes decoding: every byte of a Q8_0 block comes back from its elements.
pub proof fn lemma_q8_0_repacks(w: Seq<u8>, o: int)
    requires
        0 <= o,
        o + 34 <= w.len(),
    ensures
        holds_block(
            w,
            o,
            q8_0_packed(
                linear::q8_0_at(w, o, o + 2, 0).d,
                Seq::new(32, |e: int| linear::q8_0_at(w, o, o + 2, e).q as i8),
            ),
        ),
{
    let d = linear::q8_0_at(w, o, o + 2, 0).d;
    let q = Seq::new(32, |e: int| linear::q8_0_at(w, o, o + 2, e).q as i8);
    let p = q8_0_packed(d, q);
    assert forall|i: int| 0 <= i < 34 implies #[trigger] w[o + i] == p[i] by {
        if i < 2 {
            lemma_bytes(w[o] as int, w[o + 1] as int);
        } else {
            assert(o + 2 + (i - 2) == o + i);
            assert(q[i - 2] == linear::signed(w[o + i]));
        }
    }
}

// Matrices.

/// The blocks one after the other.
pub open spec fn joined(blocks: Seq<Seq<u8>>) -> Seq<u8>
    decreases blocks.len(),
{
    if blocks.len() == 0 {
        Seq::empty()
    } else {
        joined(blocks.drop_last()) + blocks.last()
    }
}

/// The bytes of a matrix: row after row, each row block after block.
pub open spec fn matrix(rows: Seq<Seq<Seq<u8>>>) -> Seq<u8> {
    joined(Seq::new(rows.len(), |r: int| joined(rows[r])))
}

/// Every row has `nb` blocks of `size` bytes.
pub open spec fn is_matrix(rows: Seq<Seq<Seq<u8>>>, nb: int, size: int) -> bool {
    forall|r: int, b: int|
        #![trigger rows[r][b]]
        0 <= r < rows.len() && 0 <= b < nb ==> rows[r][b].len() == size
}

proof fn lemma_joined(blocks: Seq<Seq<u8>>, size: int, k: int)
    requires
        0 <= size,
        forall|b: int| 0 <= b < blocks.len() ==> (#[trigger] blocks[b]).len() == size,
    ensures
        joined(blocks).len() == blocks.len() * size,
        0 <= k < blocks.len() ==> holds_block(joined(blocks), k * size, blocks[k]),
    decreases blocks.len(),
{
    let n = blocks.len() as int;
    if n == 0 {
        assert(n * size == 0) by (nonlinear_arith)
            requires
                n == 0,
        ;
    } else {
        let less = blocks.drop_last();
        assert forall|b: int| 0 <= b < less.len() implies (#[trigger] less[b]).len() == size by {
            assert(less[b] == blocks[b]);
        }
        lemma_joined(less, size, k);
        assert(blocks.last() == blocks[n - 1]);
        assert((n - 1) * size + size == n * size) by (nonlinear_arith);
        if 0 <= k < n {
            assert(0 <= k * size && k * size + size <= n * size) by (nonlinear_arith)
                requires
                    0 <= k < n,
                    0 <= size,
            ;
            if k < n - 1 {
                assert(less[k] == blocks[k]);
            }
        }
    }
}

/// Block `b` of row `r` stands behind the blocks of the rows before and those before it
/// in its row.
proof fn lemma_matrix(rows: Seq<Seq<Seq<u8>>>, nb: int, size: int, r: int, b: int)
    requires
        0 <= size,
        0 <= nb,
        is_matrix(rows, nb, size),
        forall|k: int| 0 <= k < rows.len() ==> (#[trigger] rows[k]).len() == nb,
        0 <= r < rows.len(),
        0 <= b < nb,
    ensures
        holds_block(matrix(rows), (r * nb + b) * size, rows[r][b]),
{
    let parts = Seq::new(rows.len(), |r: int| joined(rows[r]));
    assert forall|k: int| 0 <= k < parts.len() implies (#[trigger] parts[k]).len() == nb * size by {
        assert(rows[k].len() == nb);
        assert forall|i: int| 0 <= i < rows[k].len() implies (#[trigger] rows[k][i]).len()
            == size by {}
        lemma_joined(rows[k], size, 0);
    }
    assert(0 <= nb * size) by (nonlinear_arith)
        requires
            0 <= nb,
            0 <= size,
    ;
    lemma_joined(parts, nb * size, r);
    assert forall|i: int| 0 <= i < rows[r].len() implies (#[trigger] rows[r][i]).len() == size by {}
    lemma_joined(rows[r], size, b);
    let w = matrix(rows);
    let at = r * (nb * size);
    assert(at + b * size == (r * nb + b) * size) by (nonlinear_arith)
        requires
            at == r * (nb * size),
    ;
    assert forall|i: int| 0 <= i < size implies #[trigger] w[(r * nb + b) * size + i]
        == rows[r][b][i] by {
        assert(parts[r][b * size + i] == rows[r][b][i]);
        assert(w[at + (b * size + i)] == parts[r][b * size + i]);
    }
}

/// The weight in row `row` and column `col` is element `col % n` of block `col / n` of
/// that row, with `n` elements to a block.
pub proof fn lemma_matrix_code(
    l: Layout,
    rows: Seq<Seq<Seq<u8>>>,
    nb: int,
    row: int,
    col: int,
)
    requires
        !l.grouped(),
        0 <= nb,
        is_matrix(rows, nb, l.bytes()),
        forall|k: int| 0 <= k < rows.len() ==> (#[trigger] rows[k]).len() == nb,
        0 <= row < rows.len(),
        0 <= col < nb * l.elements(),
    ensures
        ({
            let b = rows[row][col / l.elements()];
            let e = col % l.elements();
            linear::code_at(l, matrix(rows), nb, row, col) == match l {
                Layout::Q4K => linear::q4k_at(b, 0, e),
                Layout::Q6K => linear::q6k_at(b, 0, e),
                Layout::Q4_0 => linear::q4_0_at(b, 0, 2, e),
                _ => linear::q8_0_at(b, 0, 2, e),
            }
        }),
{
    let blk = col / l.elements();
    let e = col % l.elements();
    if l.elements() == 256 {
        assert(0 <= col / 256 < nb);
    } else {
        assert(0 <= col / 32 < nb);
    }
    lemma_matrix(rows, nb, l.bytes(), row, blk);
    let w = matrix(rows);
    let b = rows[row][blk];
    let o = (row * nb + blk) * l.bytes();
    assert(b.len() == l.bytes());
    match l {
        Layout::Q4K => {
            assert(w.subrange(o + 4, o + 16) =~= b.subrange(4, 16)) by {
                assert forall|k: int| 0 <= k < 12 implies w.subrange(o + 4, o + 16)[k]
                    == b.subrange(4, 16)[k] by {
                    assert(w[o + (4 + k)] == b[4 + k]);
                }
            }
            assert(w[o + 0] == b[0] && w[o + 1] == b[1] && w[o + 2] == b[2] && w[o + 3] == b[3]);
            let i = 16 + e / 64 * 32 + e % 32;
            assert(w[o + i] == b[i]);
            assert(o + 16 + e / 64 * 32 + e % 32 == o + i);
        },
        Layout::Q6K => {
            lemma_q6k_moved(w, o, b, e);
        },
        Layout::Q4_0 => {
            let i = 2 + e % 16;
            assert(w[o + 0] == b[0] && w[o + 1] == b[1] && w[o + i] == b[i]);
            assert(o + 2 + e % 16 == o + i);
        },
        _ => {
            let i = 2 + e;
            assert(w[o + 0] == b[0] && w[o + 1] == b[1] && w[o + i] == b[i]);
            assert(o + 2 + e == o + i);
        },
    }
}

proof fn lemma_q6k_moved(w: Seq<u8>, o: int, b: Seq<u8>, e: int)
    requires
        b.len() == 210,
        holds_block(w, o, b),
        0 <= e < 256,
    ensures
        linear::q6k_at(w, o, e) == linear::q6k_at(b, 0, e),
{
    let (half, stripe, l) = lemma_q6k_place(e);
    let i = half * 64 + stripe % 2 * 32 + l;
    let j = 128 + half * 32 + l;
    let k = 192 + half * 8 + l / 16 + 2 * stripe;
    assert(w[o + i] == b[i] && w[o + j] == b[j] && w[o + k] == b[k]);
    assert(w[o + 208] == b[208] && w[o + 209] == b[209]);
    assert(o + half * 64 + stripe % 2 * 32 + l == o + i);
    assert(o + 128 + half * 32 + l == o + j);
    assert(o + 192 + half * 8 + l / 16 + 2 * stripe == o + k);
}

/// Four rows interleaved: the weight in row `row` and column `col` of a matrix of
/// interleaved Q4_0 blocks is the code, less 8, of that row in the block of its group.
pub proof fn lemma_q4_0x4_matrix_code(
    groups: Seq<Seq<Seq<u8>>>,
    nb: int,
    d: Seq<u16>,
    q: Seq<Seq<u8>>,
    row: int,
    col: int,
)
    requires
        0 <= nb,
        is_matrix(groups, nb, 72),
        forall|k: int| 0 <= k < groups.len() ==> (#[trigger] groups[k]).len() == nb,
        0 <= row < 4 * groups.len(),
        0 <= col < nb * 32,
        d.len() == 4,
        q.len() == 4,
        forall|k: int| 0 <= k < 4 ==> four_bits(#[trigger] q[k], 32),
        groups[row / 4][col / 32] == q4_0x4_packed(d, q),
    ensures
        linear::code_at(Layout::Q4_0X4, matrix(groups), nb, row, col) == plain_code(
            d[row % 4],
            q[row % 4][col % 32] - 8,
        ),
{
    let blk = col / 32;
    let e = col % 32;
    let lane = row % 4;
    lemma_matrix(groups, nb, 72, row / 4, blk);
    let w = matrix(groups);
    let b = groups[row / 4][blk];
    let o = (row / 4 * nb + blk) * 72;
    let l = e % 16;
    let i = 8 + 16 * lane + l;
    assert(w[o + 2 * lane] == b[2 * lane] && w[o + (2 * lane + 1)] == b[2 * lane + 1]);
    assert((2 * lane) / 2 == lane && (2 * lane) % 2 == 0 && (2 * lane + 1) / 2 == lane && (2 * lane
        + 1) % 2 == 1);
    lemma_half(w, o + 2 * lane, d[lane]);
    assert((i - 8) / 16 == lane && (i - 8) % 16 == l);
    assert(w[o + i] == b[i]);
    assert(four_bits(q[lane], 32));
    assert(q[lane][l] < 16 && q[lane][l + 16] < 16);
    lemma_nibbles(q[lane][l] as int, q[lane][l + 16] as int);
    assert(o + 8 + 16 * lane + l == o + i);
}

/// Four rows interleaved: the weight in row `row` and column `col` of a matrix of
/// interleaved Q8_0 blocks is the code of that row in the block of its group.
pub proof fn lemma_q8_0x4_matrix_code(
    groups: Seq<Seq<Seq<u8>>>,
    nb: int,
    d: Seq<u16>,
    q: Seq<Seq<i8>>,
    row: int,
    col: int,
)
    requires
        0 <= nb,
        is_matrix(groups, nb, 136),
        forall|k: int| 0 <= k < groups.len() ==> (#[trigger] groups[k]).len() == nb,
        0 <= row < 4 * groups.len(),
        0 <= col < nb * 32,
        d.len() == 4,
        q.len() == 4,
        groups[row / 4][col / 32] == q8_0x4_packed(d, q),
    ensures
        linear::code_at(Layout::Q8_0X4, matrix(groups), nb, row, col) == plain_code(
            d[row % 4],
            q[row % 4][col % 32] as int,
        ),
{
    let blk = col / 32;
    let e = col % 32;
    let lane = row % 4;
    lemma_matrix(groups, nb, 136, row / 4, blk);
    let w = matrix(groups);
    let b = groups[row / 4][blk];
    let o = (row / 4 * nb + blk) * 136;
    let i = 8 + 32 * lane + e;
    assert(w[o + 2 * lane] == b[2 * lane] && w[o + (2 * lane + 1)] == b[2 * lane + 1]);
    assert((2 * lane) / 2 == lane && (2 * lane) % 2 == 0 && (2 * lane + 1) / 2 == lane && (2 * lane
        + 1) % 2 == 1);
    lemma_half(w, o + 2 * lane, d[lane]);
    assert((i - 8) / 32 == lane && (i - 8) % 32 == e);
    assert(w[o + i] == b[i]);
    assert(o + 8 + 32 * lane + e == o + i);
}

// Q4_K against packed activations.

/// Sum of `f` over the first `n` numbers.
pub open spec fn total(f: spec_fn(int) -> int, n: nat) -> int
    decreases n,
{
    if n == 0 {
        0
    } else {
        total(f, (n - 1) as nat) + f(n - 1)
    }
}

/// An activation is kept where a signed byte can hold it, and moved to the nearest
/// signed byte elsewhere.
pub proof fn lemma_clamped_is_nearest(q: i32, v: int)
    requires
        -128 <= v <= 127,
    ensures
        -128 <= vnni::clamped(q) <= 127,
        -128 <= q <= 127 ==> vnni::clamped(q) == q,
        q > 127 ==> q - vnni::clamped(q) <= q - v,
        q < -128 ==> vnni::clamped(q) - q <= v - q,
{
}

/// Products with the activations, element by element.
pub open spec fn dot_with(scales: Seq<u8>, q: Seq<u8>, a: Seq<i32>, lo: int) -> int {
    total(|e: int| scales[e / 32] * (q[e] * vnni::clamped(a[lo + e])), 256)
}

/// Minima times activations, element by element.
pub open spec fn mins_with(mins: Seq<u8>, a: Seq<i32>, lo: int) -> int {
    total(|e: int| mins[e / 32] * vnni::clamped(a[lo + e]), 256)
}

proof fn lemma_weighted(
    w: Seq<u8>,
    wo: int,
    q8: Seq<u8>,
    qo: int,
    f: spec_fn(int) -> int,
    n: nat,
)
    requires
        forall|e: int|
            0 <= e < n ==> #[trigger] f(e) == linear::q4k_at(w, wo, e).scale * (linear::q4k_at(
                w,
                wo,
                e,
            ).q * vnni::activation(q8, qo, e)),
    ensures
        vnni::weighted_upto(w, wo, q8, qo, n) == total(f, n),
    decreases n,
{
    if n > 0 {
        lemma_weighted(w, wo, q8, qo, f, (n - 1) as nat);
        assert(f(n - 1) == f(n - 1));
    }
}

proof fn lemma_run_of_minima(mins: Seq<u8>, a: Seq<i32>, lo: int, g: int, k: nat)
    requires
        0 <= g < 8,
        k <= 32,
    ensures
        ({
            let f = |e: int| mins[e / 32] * vnni::clamped(a[lo + e]);
            total(f, (32 * g + k) as nat) == total(f, (32 * g) as nat) + mins[g]
                * vnni::activation_sum(a, lo + 32 * g, k)
        }),
    decreases k,
{
    let f = |e: int| mins[e / 32] * vnni::clamped(a[lo + e]);
    let m = mins[g] as int;
    if k == 0 {
        assert(m * 0 == 0);
    } else {
        lemma_run_of_minima(mins, a, lo, g, (k - 1) as nat);
        let e = 32 * g + k - 1;
        assert(e / 32 == g);
        let x = vnni::activation_sum(a, lo + 32 * g, (k - 1) as nat);
        let c = vnni::clamped(a[lo + e]);
        assert(m * (x + c) == m * x + m * c) by (nonlinear_arith);
    }
}

proof fn lemma_minima(
    w: Seq<u8>,
    wo: int,
    q8: Seq<u8>,
    qo: int,
    mins: Seq<u8>,
    a: Seq<i32>,
    lo: int,
    n: nat,
)
    requires
        n <= 8,
        forall|j: int|
            0 <= j < 8 ==> linear::k4_min(w.subrange(wo + 4, wo + 16), j) == #[trigger] mins[j],
        forall|g: int|
            0 <= g < 16 ==> #[trigger] vnni::partial_sum(q8, qo, g) == vnni::activation_sum(
                a,
                lo + g * 16,
                16,
            ),
    ensures
        vnni::minima_upto(w, wo, q8, qo, n) == total(
            |e: int| mins[e / 32] * vnni::clamped(a[lo + e]),
            (32 * n) as nat,
        ),
    decreases n,
{
    if n > 0 {
        let g = n - 1;
        lemma_minima(w, wo, q8, qo, mins, a, lo, g as nat);
        lemma_run_of_minima(mins, a, lo, g, 32);
        vnni::lemma_sum_split(a, lo + 32 * g, 16);
        assert(2 * g * 16 == 32 * g && (2 * g + 1) * 16 == 32 * g + 16);
        assert(vnni::partial_sum(q8, qo, 2 * g) == vnni::activation_sum(a, lo + 32 * g, 16));
        assert(vnni::partial_sum(q8, qo, 2 * g + 1) == vnni::activation_sum(
            a,
            lo + 32 * g + 16,
            16,
        ));
        assert(linear::k4_min(w.subrange(wo + 4, wo + 16), g) == mins[g]);
    }
}

/// The two sums of a packed weight block with a packed activation block are those of
/// the numbers that went into them: scale times code times activation, and minimum
/// times activation, over all 256 elements.
pub proof fn lemma_vnni_sums(
    w: Seq<u8>,
    wo: int,
    d: u16,
    dmin: u16,
    scales: Seq<u8>,
    mins: Seq<u8>,
    q: Seq<u8>,
    q8: Seq<u8>,
    qo: int,
    ad: u32,
    a: Seq<i32>,
    lo: int,
)
    requires
        eight_of_six(scales),
        eight_of_six(mins),
        four_bits(q, 256),
        holds_block(w, wo, q4k_packed(d, dmin, scales, mins, q)),
        holds_block(q8, qo, vnni::q8k_block(ad, a, lo)),
    ensures
        vnni::weighted_upto(w, wo, q8, qo, 256) == dot_with(scales, q, a, lo),
        vnni::minima_upto(w, wo, q8, qo, 8) == mins_with(mins, a, lo),
{
    let b = vnni::q8k_block(ad, a, lo);
    assert(b.len() == 292);
    let f = |e: int| scales[e / 32] * (q[e] * vnni::clamped(a[lo + e]));
    assert forall|e: int| 0 <= e < 256 implies #[trigger] f(e) == linear::q4k_at(w, wo, e).scale * (
    linear::q4k_at(w, wo, e).q * vnni::activation(q8, qo, e)) by {
        lemma_q4k_decodes(w, wo, d, dmin, scales, mins, q, e);
        vnni::lemma_block_activation(ad, a, lo, e);
        assert(q8[qo + (4 + e)] == b[4 + e]);
        assert(0 + 4 + e == 4 + e && qo + 4 + e == qo + (4 + e));
    }
    lemma_weighted(w, wo, q8, qo, f, 256);
    assert forall|g: int| 0 <= g < 16 implies #[trigger] vnni::partial_sum(q8, qo, g)
        == vnni::activation_sum(a, lo + g * 16, 16) by {
        vnni::lemma_block_partial(ad, a, lo, g);
        assert(q8[qo + (260 + 2 * g)] == b[260 + 2 * g]);
        assert(q8[qo + (261 + 2 * g)] == b[261 + 2 * g]);
        assert(qo + 260 + 2 * g == qo + (260 + 2 * g) && qo + 260 + 2 * g + 1 == qo + (261 + 2
            * g));
    }
    assert forall|j: int| 0 <= j < 8 implies linear::k4_min(w.subrange(wo + 4, wo + 16), j)
        == #[trigger] mins[j] by {
        lemma_q4k_decodes(w, wo, d, dmin, scales, mins, q, 32 * j);
        assert((32 * j) / 32 == j);
    }
    lemma_minima(w, wo, q8, qo, mins, a, lo, 8);
}

/// The activation blocks of a row stand one after the other.
proof fn lemma_q8k_row(d: Seq<u32>, a: Seq<i32>, n: nat, b: int)
    requires
        0 <= b < n,
    ensures
        holds_block(vnni::q8k_row(d, a, n), b * 292, vnni::q8k_block(d[b], a, 256 * b)),
        vnni::q8k_row(d, a, n).len() == n * 292,
    decreases n,
{
    let less = vnni::q8k_row(d, a, (n - 1) as nat);
    let last = vnni::q8k_block(d[n - 1], a, 256 * (n - 1));
    assert(last.len() == 292);
    if b < n - 1 {
        lemma_q8k_row(d, a, (n - 1) as nat, b);
    } else if n > 1 {
        lemma_q8k_row(d, a, (n - 1) as nat, 0);
    } else {
        assert(less.len() == 0);
    }
}

/// Block `b` of row `row`, over whole matrices of packed blocks and a whole row of
/// packed activations: the three scales as packed, and the two sums of the numbers.
pub proof fn lemma_vnni_matrix_block(
    rows: Seq<Seq<Seq<u8>>>,
    nb: int,
    d: u16,
    dmin: u16,
    scales: Seq<u8>,
    mins: Seq<u8>,
    q: Seq<u8>,
    ad: Seq<u32>,
    a: Seq<i32>,
    row: int,
    b: int,
)
    requires
        0 <= b < nb,
        0 <= row < rows.len(),
        is_matrix(rows, nb, 144),
        forall|k: int| 0 <= k < rows.len() ==> (#[trigger] rows[k]).len() == nb,
        eight_of_six(scales),
        eight_of_six(mins),
        four_bits(q, 256),
        rows[row][b] == q4k_packed(d, dmin, scales, mins, q),
    ensures
        vnni::vnni_block_at(matrix(rows), vnni::q8k_row(ad, a, nb as nat), nb, row, b) == (
        vnni::VnniBlock {
            d,
            dmin,
            q8_scale: ad[b],
            dot: dot_with(scales, q, a, 256 * b) as i64,
            mins: mins_with(mins, a, 256 * b) as i32,
        }),
{
    let w = matrix(rows);
    let q8 = vnni::q8k_row(ad, a, nb as nat);
    let wo = (row * nb + b) * 144;
    let qo = b * 292;
    lemma_matrix(rows, nb, 144, row, b);
    lemma_q8k_row(ad, a, nb as nat, b);
    lemma_vnni_sums(w, wo, d, dmin, scales, mins, q, q8, qo, ad[b], a, 256 * b);
    assert(bytes::le16(w, wo) == d && bytes::le16(w, wo + 2) == dmin) by {
        let p = q4k_packed(d, dmin, scales, mins, q);
        assert(w[wo + 0] == p[0] && w[wo + 1] == p[1] && w[wo + 2] == p[2] && w[wo + 3] == p[3]);
        lemma_half(w, wo, d);
        lemma_half(w, wo + 2, dmin);
    }
    assert(bytes::le32(q8, qo) == ad[b]) by {
        lemma_q8k_scale(q8, qo, ad[b], a, 256 * b);
    }
}

proof fn lemma_q8k_scale(q8: Seq<u8>, qo: int, ad: u32, a: Seq<i32>, lo: int)
    requires
        holds_block(q8, qo, vnni::q8k_block(ad, a, lo)),
    ensures
        bytes::le32(q8, qo) == ad,
{
    let p = vnni::q8k_block(ad, a, lo);
    let h = bytes::le32_bytes(ad as int);
    assert(p.len() == 292);
    assert(q8[qo + 0] == p[0] && q8[qo + 1] == p[1] && q8[qo + 2] == p[2] && q8[qo + 3] == p[3]);
    assert(p[0] == h[0] && p[1] == h[1] && p[2] == h[2] && p[3] == h[3]);
    bytes::lemma_round_trip32(ad);
}

} // verus!
