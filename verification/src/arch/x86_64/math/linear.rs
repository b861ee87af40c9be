//! Layout of the quantised weight blocks.
//!
//! A weight is `scale * q * d - min * dmin`, where `d` and `dmin` are binary16
//! numbers of the block. The functions here find the integers and the bit
//! patterns; the floating-point arithmetic is the caller's.

use crate::bits;
use crate::bytes;
use crate::bytes::u16_le;
use crate::inference_avx512::argmax::RowRange;
use vstd::prelude::*;

verus! {

/// Elements of one Q4_K or Q6_K block.
pub const K_BLOCK: usize = 256;

/// Elements of one Q4_0 or Q8_0 block.
pub const S_BLOCK: usize = 32;

/// Bytes of one block.
pub const Q4K_BYTES: usize = 144;

pub const Q6K_BYTES: usize = 210;

pub const Q4_0_BYTES: usize = 18;

pub const Q8_0_BYTES: usize = 34;

/// Rows of one interleaved group.
pub const GROUP: usize = 4;

/// One weight: the value is `scale * q * d - min * dmin`.
#[derive(Clone, Copy, Debug, PartialEq, Eq, Structural)]
pub struct Code {
    /// Bits of the binary16 number `d`.
    pub d: u16,
    /// Bits of the binary16 number `dmin`, zero where the format has none.
    pub dmin: u16,
    pub scale: i32,
    pub min: i32,
    pub q: i32,
}

/// Two to the power `n`.
pub open spec fn two_pow(n: nat) -> int
    decreases n,
{
    if n == 0 {
        1
    } else {
        2 * two_pow((n - 1) as nat)
    }
}

/// Magnitude of a finite binary16 number, in units of `2^-24`.
pub open spec fn f16_units(bits: u16) -> int {
    let exp = bits as int / 0x400 % 32;
    let mant = bits as int % 0x400;
    if exp == 0 {
        mant
    } else {
        (0x400 + mant) * two_pow((exp - 1) as nat)
    }
}

/// Magnitude of a finite binary32 number, in units of `2^-149`.
pub open spec fn f32_units(bits: u32) -> int {
    let exp = bits as int / 0x80_0000 % 256;
    let mant = bits as int % 0x80_0000;
    if exp == 0 {
        mant
    } else {
        (0x80_0000 + mant) * two_pow((exp - 1) as nat)
    }
}

proof fn lemma_two_pow_add(a: nat, b: nat)
    ensures
        two_pow(a + b) == two_pow(a) * two_pow(b),
    decreases a,
{
    if a == 0 {
        assert(two_pow(0) == 1);
    } else {
        lemma_two_pow_add((a - 1) as nat, b);
        assert(two_pow((a + b) as nat) == 2 * two_pow((a + b - 1) as nat));
        assert((a + b - 1) as nat == (a - 1) as nat + b);
        assert(2 * (two_pow((a - 1) as nat) * two_pow(b)) == (2 * two_pow((a - 1) as nat))
            * two_pow(b)) by (nonlinear_arith);
    }
}

/// The binary32 bits of a binary16 number. The value is the same: a unit of
/// binary16 is `2^125` units of binary32. Infinities stay infinite, and what is
/// not a number keeps its payload.
pub fn fp16_to_f32(bits: u16) -> (r: u32)
    ensures
        r as int / 0x8000_0000 == bits as int / 0x8000,
        bits as int / 0x400 % 32 < 31 ==> r as int / 0x80_0000 % 256 < 255 && f32_units(r)
            == f16_units(bits) * two_pow(125),
        bits as int / 0x400 % 32 == 31 ==> r as int / 0x80_0000 % 256 == 255 && r as int % 0x80_0000
            == bits as int % 0x400 * 0x2000,
{
    let sign: u32 = bits as u32 / 0x8000;
    let exp: u32 = bits as u32 / 0x400 % 32;
    let mant: u32 = bits as u32 % 0x400;
    if exp == 0 {
        if mant == 0 {
            let r: u32 = sign * 0x8000_0000;
            assert(r as int / 0x80_0000 % 256 == 0 && r as int % 0x80_0000 == 0);
            assert(f32_units(r) == 0 && f16_units(bits) == 0);
            return r;
        }
        // Shift the leading one up to bit ten and lower the exponent with it.
        let mut m: u32 = mant;
        let mut e: u32 = 113;
        let ghost start = mant as int;
        let ghost mut up: nat = 0;
        assert(two_pow(0) == 1);
        assert(start * two_pow(0) == start);
        assert(two_pow(10) == 1024) by {
            reveal_with_fuel(two_pow, 11);
        }
        while m < 0x400
            invariant
                0 < m < 0x800,
                m == start * two_pow(up),
                up + e == 113,
                up <= 10,
                start > 0,
                two_pow(10) == 1024,
            decreases e,
        {
            proof {
                assert(two_pow((up + 1) as nat) == 2 * two_pow(up));
                assert(start * (2 * two_pow(up)) == 2 * (start * two_pow(up)))
                    by (nonlinear_arith);
                if up >= 10 {
                    assert(start * two_pow(up) >= two_pow(up)) by (nonlinear_arith)
                        requires
                            start >= 1,
                            two_pow(up) >= 0,
                    ;
                }
                up = (up + 1) as nat;
            }
            m = 2 * m;
            e = e - 1;
        }
        let r: u32 = sign * 0x8000_0000 + e * 0x80_0000 + (m - 0x400) * 0x2000;
        proof {
            assert(r as int / 0x80_0000 % 256 == e);
            assert(r as int % 0x80_0000 == (m - 0x400) * 0x2000);
            // (0x800000 + (m - 0x400) * 0x2000) == m * 2^13, and e - 1 == 112 - up.
            assert(two_pow(13) == 0x2000) by {
                reveal_with_fuel(two_pow, 14);
            }
            let p = two_pow((e - 1) as nat);
            assert(f32_units(r) == (m * 0x2000) * p);
            lemma_two_pow_add(13, (e - 1) as nat);
            lemma_two_pow_add(up, (13 + (e - 1)) as nat);
            assert(up + 13 + (e - 1) == 125);
            let t = two_pow((13 + (e - 1)) as nat);
            assert((m * 0x2000) * p == m * (0x2000 * p)) by (nonlinear_arith);
            assert((start * two_pow(up)) * t == start * (two_pow(up) * t)) by (nonlinear_arith);
        }
        return r;
    }
    if exp == 31 {
        let r: u32 = sign * 0x8000_0000 + 255 * 0x80_0000 + mant * 0x2000;
        assert(r as int / 0x80_0000 % 256 == 255 && r as int % 0x80_0000 == mant * 0x2000);
        return r;
    }
    let r: u32 = sign * 0x8000_0000 + (exp + 112) * 0x80_0000 + mant * 0x2000;
    proof {
        assert(r as int / 0x80_0000 % 256 == exp + 112 && r as int % 0x80_0000 == mant * 0x2000);
        assert(two_pow(13) == 0x2000) by {
            reveal_with_fuel(two_pow, 14);
        }
        lemma_two_pow_add(13, (exp + 111) as nat);
        lemma_two_pow_add((exp - 1) as nat, 125);
        assert((13 + (exp + 111)) as nat == ((exp - 1) + 125) as nat);
        let p = two_pow((exp + 111) as nat);
        let u = 0x400 + mant as int;
        assert((u * 0x2000) * p == u * (0x2000 * p)) by (nonlinear_arith);
        let a = two_pow((exp - 1) as nat);
        assert(u * (a * two_pow(125)) == (u * a) * two_pow(125)) by (nonlinear_arith);
    }
    r
}

/// Scale of sub-block `j` in the twelve packed bytes.
pub open spec fn k4_scale(s: Seq<u8>, j: int) -> int {
    if j < 4 {
        s[j] as int % 64
    } else {
        s[j + 4] as int % 16 + 16 * (s[j - 4] as int / 64)
    }
}

/// Minimum of sub-block `j` in the twelve packed bytes.
pub open spec fn k4_min(s: Seq<u8>, j: int) -> int {
    if j < 4 {
        s[j + 4] as int % 64
    } else {
        s[j + 4] as int / 16 + 16 * (s[j] as int / 64)
    }
}

/// Six-bit scale and minimum of Q4_K sub-block `j`, from the twelve packed bytes.
pub fn get_scale_min_k4(scales: &[u8], j: usize) -> (r: (u8, u8))
    requires
        scales@.len() >= 12,
        j < 8,
    ensures
        r.0 == k4_scale(scales@, j as int),
        r.1 == k4_min(scales@, j as int),
        r.0 < 64,
        r.1 < 64,
{
    if j < 4 {
        let a: u8 = scales[j];
        let b: u8 = scales[j + 4];
        proof {
            bits::lemma_u8(a);
            bits::lemma_u8(b);
        }
        (a & 0x3F, b & 0x3F)
    } else {
        let lo: u8 = scales[j + 4];
        let hs: u8 = scales[j - 4];
        let hm: u8 = scales[j];
        assert((lo & 0x0F) | ((hs >> 6) << 4) == lo % 16 + 16 * (hs / 64) && (lo >> 4) | ((hm >> 6)
            << 4) == lo / 16 + 16 * (hm / 64)) by (bit_vector);
        ((lo & 0x0F) | ((hs >> 6) << 4), (lo >> 4) | ((hm >> 6) << 4))
    }
}

/// Low or high four bits of a byte.
pub open spec fn nibble(b: u8, high: bool) -> int {
    if high {
        b as int / 16
    } else {
        b as int % 16
    }
}

/// A byte as a signed number.
pub open spec fn signed(b: u8) -> int {
    if b < 128 {
        b as int
    } else {
        b - 256
    }
}

fn as_signed(b: u8) -> (v: i32)
    ensures
        v == signed(b),
{
    if b < 128 {
        b as i32
    } else {
        b as i32 - 256
    }
}

/// Element `e` of the Q4_K block at `o`: 64 elements share 32 bytes, the first
/// half in the low four bits, the second in the high.
pub open spec fn q4k_at(w: Seq<u8>, o: int, e: int) -> Code {
    let j = e / 64;
    let high = e % 64 >= 32;
    let sub = e / 32;
    let s = w.subrange(o + 4, o + 16);
    Code {
        d: bytes::le16(w, o) as u16,
        dmin: bytes::le16(w, o + 2) as u16,
        scale: k4_scale(s, sub) as i32,
        min: k4_min(s, sub) as i32,
        q: nibble(w[o + 16 + j * 32 + e % 32], high) as i32,
    }
}

/// Element `e` of the Q6_K block at `o`: two halves of 128 elements, each in
/// four stripes of 32 that share their bytes.
pub open spec fn q6k_at(w: Seq<u8>, o: int, e: int) -> Code {
    let half = e / 128;
    let stripe = e % 128 / 32;
    let l = e % 32;
    let low = nibble(w[o + half * 64 + stripe % 2 * 32 + l], stripe >= 2);
    let two = w[o + 128 + half * 32 + l] as int / four_pow(stripe) % 4;
    Code {
        d: bytes::le16(w, o + 208) as u16,
        dmin: 0,
        scale: signed(w[o + 192 + half * 8 + l / 16 + 2 * stripe]) as i32,
        min: 0,
        q: (low + 16 * two - 32) as i32,
    }
}

/// 1, 4, 16, 64.
pub open spec fn four_pow(n: int) -> int {
    if n == 0 {
        1
    } else if n == 1 {
        4
    } else if n == 2 {
        16
    } else {
        64
    }
}

/// Element `e` of a Q4_0 block with its scale at `d` and its bytes at `o`.
pub open spec fn q4_0_at(w: Seq<u8>, d: int, o: int, e: int) -> Code {
    Code {
        d: bytes::le16(w, d) as u16,
        dmin: 0,
        scale: 1,
        min: 0,
        q: (nibble(w[o + e % 16], e >= 16) - 8) as i32,
    }
}

/// Element `e` of a Q8_0 block with its scale at `d` and its bytes at `o`.
pub open spec fn q8_0_at(w: Seq<u8>, d: int, o: int, e: int) -> Code {
    Code { d: bytes::le16(w, d) as u16, dmin: 0, scale: 1, min: 0, q: signed(w[o + e]) as i32 }
}

fn nibble_of(b: u8, high: bool) -> (v: i32)
    ensures
        v == nibble(b, high),
        0 <= v < 16,
{
    if high {
        (b / 16) as i32
    } else {
        (b % 16) as i32
    }
}

/// Element `e` of the Q4_K block at `o`.
pub fn q4k_code(w: &[u8], o: usize, e: usize) -> (c: Code)
    requires
        o + Q4K_BYTES <= w@.len(),
        e < K_BLOCK,
    ensures
        c == q4k_at(w@, o as int, e as int),
        0 <= c.q < 16,
        0 <= c.scale < 64,
        0 <= c.min < 64,
{
    assert(w.len() <= usize::MAX);
    let mut scales: Vec<u8> = Vec::new();
    let mut i: usize = 0;
    while i < 12
        invariant
            i <= 12,
            o + Q4K_BYTES <= w@.len(),
            w@.len() <= usize::MAX,
            scales@ == w@.subrange(o + 4, o + 4 + i),
        decreases 12 - i,
    {
        scales.push(w[o + 4 + i]);
        i = i + 1;
        assert(scales@ =~= w@.subrange(o + 4, o + 4 + i));
    }
    let (sc, mn) = get_scale_min_k4(scales.as_slice(), e / 32);
    let b: u8 = w[o + 16 + e / 64 * 32 + e % 32];
    Code {
        d: u16_le(w, o),
        dmin: u16_le(w, o + 2),
        scale: sc as i32,
        min: mn as i32,
        q: nibble_of(b, e % 64 >= 32),
    }
}

/// Element `e` of the Q6_K block at `o`.
pub fn q6k_code(w: &[u8], o: usize, e: usize) -> (c: Code)
    requires
        o + Q6K_BYTES <= w@.len(),
        e < K_BLOCK,
    ensures
        c == q6k_at(w@, o as int, e as int),
        -32 <= c.q < 32,
        -128 <= c.scale < 128,
{
    assert(w.len() <= usize::MAX);
    let half: usize = e / 128;
    let stripe: usize = e % 128 / 32;
    let l: usize = e % 32;
    let low: i32 = nibble_of(w[o + half * 64 + stripe % 2 * 32 + l], stripe >= 2);
    let h: u8 = w[o + 128 + half * 32 + l];
    let two: u8 = if stripe == 0 {
        h % 4
    } else if stripe == 1 {
        h / 4 % 4
    } else if stripe == 2 {
        h / 16 % 4
    } else {
        h / 64 % 4
    };
    Code {
        d: u16_le(w, o + 208),
        dmin: 0,
        scale: as_signed(w[o + 192 + half * 8 + l / 16 + 2 * stripe]),
        min: 0,
        q: low + 16 * two as i32 - 32,
    }
}

/// Element `e` of the Q4_0 block at `o`.
pub fn q4_0_code(w: &[u8], o: usize, e: usize) -> (c: Code)
    requires
        o + Q4_0_BYTES <= w@.len(),
        e < S_BLOCK,
    ensures
        c == q4_0_at(w@, o as int, o + 2, e as int),
        -8 <= c.q < 8,
{
    assert(w.len() <= usize::MAX);
    Code {
        d: u16_le(w, o),
        dmin: 0,
        scale: 1,
        min: 0,
        q: nibble_of(w[o + 2 + e % 16], e >= 16) - 8,
    }
}

/// Element `e` of the Q8_0 block at `o`.
pub fn q8_0_code(w: &[u8], o: usize, e: usize) -> (c: Code)
    requires
        o + Q8_0_BYTES <= w@.len(),
        e < S_BLOCK,
    ensures
        c == q8_0_at(w@, o as int, o + 2, e as int),
        -128 <= c.q < 128,
{
    assert(w.len() <= usize::MAX);
    Code { d: u16_le(w, o), dmin: 0, scale: 1, min: 0, q: as_signed(w[o + 2 + e]) }
}

/// Element `e` of row `lane` in the interleaved Q4_0 group block at `o`.
pub fn q4_0x4_code(w: &[u8], o: usize, lane: usize, e: usize) -> (c: Code)
    requires
        o + 72 <= w@.len(),
        lane < GROUP,
        e < S_BLOCK,
    ensures
        c == q4_0_at(w@, o + 2 * lane, o + 8 + 16 * lane, e as int),
        -8 <= c.q < 8,
{
    assert(w.len() <= usize::MAX);
    Code {
        d: u16_le(w, o + 2 * lane),
        dmin: 0,
        scale: 1,
        min: 0,
        q: nibble_of(w[o + 8 + 16 * lane + e % 16], e >= 16) - 8,
    }
}

/// Element `e` of row `lane` in the interleaved Q8_0 group block at `o`.
pub fn q8_0x4_code(w: &[u8], o: usize, lane: usize, e: usize) -> (c: Code)
    requires
        o + 136 <= w@.len(),
        lane < GROUP,
        e < S_BLOCK,
    ensures
        c == q8_0_at(w@, o + 2 * lane, o + 8 + 32 * lane, e as int),
        -128 <= c.q < 128,
{
    assert(w.len() <= usize::MAX);
    Code {
        d: u16_le(w, o + 2 * lane),
        dmin: 0,
        scale: 1,
        min: 0,
        q: as_signed(w[o + 8 + 32 * lane + e]),
    }
}

/// How a weight matrix is stored.
#[derive(Clone, Copy, Debug, PartialEq, Eq, Structural)]
pub enum Layout {
    Q4K,
    Q6K,
    Q4_0,
    Q8_0,
    /// Q4_0 with the blocks of four rows interleaved.
    Q4_0X4,
    /// Q8_0 with the blocks of four rows interleaved.
    Q8_0X4,
}

impl Layout {
    /// Elements of one block.
    pub open spec fn elements(self) -> int {
        match self {
            Layout::Q4K => 256,
            Layout::Q6K => 256,
            _ => 32,
        }
    }

    /// Bytes of one block of one row.
    pub open spec fn bytes(self) -> int {
        match self {
            Layout::Q4K => 144,
            Layout::Q6K => 210,
            Layout::Q4_0 | Layout::Q4_0X4 => 18,
            Layout::Q8_0 | Layout::Q8_0X4 => 34,
        }
    }

    pub open spec fn grouped(self) -> bool {
        self is Q4_0X4 || self is Q8_0X4
    }

    pub fn block_elements(self) -> (n: usize)
        ensures
            n == self.elements(),
    {
        match self {
            Layout::Q4K => 256,
            Layout::Q6K => 256,
            Layout::Q4_0 => 32,
            Layout::Q8_0 => 32,
            Layout::Q4_0X4 => 32,
            Layout::Q8_0X4 => 32,
        }
    }

    pub fn block_bytes(self) -> (n: usize)
        ensures
            n == self.bytes(),
    {
        match self {
            Layout::Q4K => Q4K_BYTES,
            Layout::Q6K => Q6K_BYTES,
            Layout::Q4_0 => Q4_0_BYTES,
            Layout::Q8_0 => Q8_0_BYTES,
            Layout::Q4_0X4 => Q4_0_BYTES,
            Layout::Q8_0X4 => Q8_0_BYTES,
        }
    }
}

/// Offset of block `blk` of row `row`, in a matrix of `nb` blocks per row. In an
/// interleaved matrix it is the offset of the group block that holds it.
pub open spec fn block_offset(l: Layout, nb: int, row: int, blk: int) -> int {
    if l.grouped() {
        (row / 4 * nb + blk) * (4 * l.bytes())
    } else {
        (row * nb + blk) * l.bytes()
    }
}

/// The weight in row `row` and column `col` of a matrix of `nb` blocks per row.
pub open spec fn code_at(l: Layout, w: Seq<u8>, nb: int, row: int, col: int) -> Code {
    let o = block_offset(l, nb, row, col / l.elements());
    let e = col % l.elements();
    let lane = row % 4;
    match l {
        Layout::Q4K => q4k_at(w, o, e),
        Layout::Q6K => q6k_at(w, o, e),
        Layout::Q4_0 => q4_0_at(w, o, o + 2, e),
        Layout::Q8_0 => q8_0_at(w, o, o + 2, e),
        Layout::Q4_0X4 => q4_0_at(w, o + 2 * lane, o + 8 + 16 * lane, e),
        Layout::Q8_0X4 => q8_0_at(w, o + 2 * lane, o + 8 + 32 * lane, e),
    }
}

/// The bytes hold row `row`, and in an interleaved matrix its whole group.
pub open spec fn holds_row(l: Layout, w: Seq<u8>, nb: int, row: int) -> bool {
    if l.grouped() {
        (row / 4 + 1) * nb * (4 * l.bytes()) <= w.len()
    } else {
        (row + 1) * nb * l.bytes() <= w.len()
    }
}

proof fn lemma_block_inside(unit: int, nb: int, group: int, blk: int, len: int)
    requires
        unit > 0,
        0 <= blk < nb,
        0 <= group,
        (group + 1) * nb * unit <= len,
    ensures
        0 <= (group * nb + blk) * unit,
        (group * nb + blk) * unit + unit <= len,
        0 <= group * nb + blk < (group + 1) * nb,
        0 <= group * nb,
        group * nb + blk <= len,
{
    assert((group + 1) * nb == group * nb + nb) by (nonlinear_arith);
    assert(0 <= group * nb) by (nonlinear_arith)
        requires
            0 <= group,
            0 <= blk < nb,
    ;
    let k = group * nb + blk;
    assert((k + 1) * unit <= (group + 1) * nb * unit) by (nonlinear_arith)
        requires
            k + 1 <= (group + 1) * nb,
            unit > 0,
    ;
    assert((k + 1) * unit == k * unit + unit) by (nonlinear_arith);
    assert(0 <= k * unit && k <= k * unit) by (nonlinear_arith)
        requires
            0 <= k,
            unit > 0,
    ;
}

/// The weights of row `row`, column by column.
pub fn row_codes(l: Layout, w: &[u8], in_dim: usize, row: usize) -> (codes: Vec<Code>)
    requires
        holds_row(l, w@, in_dim as int / l.elements(), row as int),
    ensures
        codes@.len() == in_dim as int / l.elements() * l.elements(),
        forall|c: int|
            0 <= c < codes@.len() ==> #[trigger] codes@[c] == code_at(
                l,
                w@,
                in_dim as int / l.elements(),
                row as int,
                c,
            ),
{
    assert(w.len() <= usize::MAX);
    let elements: usize = l.block_elements();
    let bytes: usize = l.block_bytes();
    let nb: usize = in_dim / elements;
    let grouped: bool = match l {
        Layout::Q4_0X4 => true,
        Layout::Q8_0X4 => true,
        _ => false,
    };
    let group: usize = if grouped {
        row / 4
    } else {
        row
    };
    let unit: usize = if grouped {
        4 * bytes
    } else {
        bytes
    };
    let lane: usize = row % 4;
    let mut codes: Vec<Code> = Vec::new();
    let mut blk: usize = 0;
    while blk < nb
        invariant
            blk <= nb,
            elements == l.elements(),
            bytes == l.bytes(),
            nb == in_dim as int / l.elements(),
            grouped == l.grouped(),
            group == (if grouped {
                row as int / 4
            } else {
                row as int
            }),
            unit == (if grouped {
                4 * bytes as int
            } else {
                bytes as int
            }),
            lane == row % 4,
            w@.len() <= usize::MAX,
            (group + 1) * nb * unit <= w@.len(),
            codes@.len() == blk * elements,
            forall|c: int|
                0 <= c < codes@.len() ==> #[trigger] codes@[c] == code_at(
                    l,
                    w@,
                    nb as int,
                    row as int,
                    c,
                ),
        decreases nb - blk,
    {
        proof {
            lemma_block_inside(unit as int, nb as int, group as int, blk as int, w@.len() as int);
        }
        let o: usize = (group * nb + blk) * unit;
        assert(o == block_offset(l, nb as int, row as int, blk as int));
        let mut e: usize = 0;
        while e < elements
            invariant
                e <= elements,
                blk < nb,
                elements == l.elements(),
                lane == row % 4,
                o == block_offset(l, nb as int, row as int, blk as int),
                o + (if l.grouped() {
                    4 * l.bytes()
                } else {
                    l.bytes()
                }) <= w@.len(),
                codes@.len() == blk * elements + e,
                forall|c: int|
                    0 <= c < codes@.len() ==> #[trigger] codes@[c] == code_at(
                        l,
                        w@,
                        nb as int,
                        row as int,
                        c,
                    ),
            decreases elements - e,
        {
            let c: Code = match l {
                Layout::Q4K => q4k_code(w, o, e),
                Layout::Q6K => q6k_code(w, o, e),
                Layout::Q4_0 => q4_0_code(w, o, e),
                Layout::Q8_0 => q8_0_code(w, o, e),
                Layout::Q4_0X4 => q4_0x4_code(w, o, lane, e),
                Layout::Q8_0X4 => q8_0x4_code(w, o, lane, e),
            };
            proof {
                let col = blk * elements + e;
                assert(col / elements as int == blk && col % elements as int == e) by {
                    vstd::arithmetic::div_mod::lemma_fundamental_div_mod_converse(
                        col,
                        elements as int,
                        blk as int,
                        e as int,
                    );
                }
            }
            codes.push(c);
            e = e + 1;
        }
        blk = blk + 1;
        assert((blk - 1) * elements + elements == blk * elements) by (nonlinear_arith);
    }
    codes
}

/// The accumulator and the lane to which column `col` is added. Columns of one
/// accumulator lane are added in ascending order.
pub fn chain_of(l: Layout, col: usize) -> (r: (usize, usize))
    ensures
        r.0 == chain_at(l, col as int),
        r.1 == col % 16,
        r.0 < 4,
{
    match l {
        Layout::Q4K => (col % 64 / 16, col % 16),
        Layout::Q6K => (col % 128 / 32, col % 16),
        _ => (col % 32 / 16, col % 16),
    }
}

/// The byte of a plain matrix that stands at `i` of the interleaved one.
pub open spec fn interleave_source(nb: int, bytes: int, i: int) -> int {
    let unit = i / (4 * bytes);
    let off = i % (4 * bytes);
    let lane = if off < 8 {
        off / 2
    } else {
        (off - 8) / (bytes - 2)
    };
    let byte = if off < 8 {
        off % 2
    } else {
        2 + (off - 8) % (bytes - 2)
    };
    ((unit / nb * 4 + lane) * nb + unit % nb) * bytes + byte
}

/// The interleaved form of a plain matrix of blocks of `bytes` bytes.
pub open spec fn interleaved(p: Seq<u8>, nb: int, bytes: int) -> Seq<u8> {
    Seq::new(p.len(), |i: int| p[interleave_source(nb, bytes, i)])
}

proof fn lemma_interleave_source(nb: int, bytes: int, row: int, blk: int, off: int, byte: int)
    requires
        bytes == 18 || bytes == 34,
        0 <= row,
        0 <= blk < nb,
        0 <= byte < bytes,
        off == (if byte < 2 {
            2 * (row % 4) + byte
        } else {
            8 + (row % 4) * (bytes - 2) + (byte - 2)
        }),
    ensures
        interleave_source(nb, bytes, (row / 4 * nb + blk) * (4 * bytes) + off) == (row * nb + blk)
            * bytes + byte,
        0 <= off < 4 * bytes,
{
    let g = row / 4;
    let lane = row % 4;
    let unit = g * nb + blk;
    let u4 = 4 * bytes;
    assert(0 <= off < u4);
    vstd::arithmetic::div_mod::lemma_fundamental_div_mod_converse(unit * u4 + off, u4, unit, off);
    vstd::arithmetic::div_mod::lemma_fundamental_div_mod_converse(unit, nb, g, blk);
    assert(g * 4 + lane == row);
}

/// Interleaving moves bytes only: every weight of the interleaved matrix is the
/// weight in the same row and column of the plain one.
pub proof fn lemma_interleaving_keeps_weights(
    p: Seq<u8>,
    nb: int,
    rows: int,
    wide: bool,
    row: int,
    col: int,
)
    requires
        0 < nb,
        0 <= row < rows,
        rows % 4 == 0,
        0 <= col < nb * 32,
        p.len() == rows * nb * (if wide {
            34int
        } else {
            18int
        }),
    ensures
        wide ==> code_at(Layout::Q8_0X4, interleaved(p, nb, 34), nb, row, col) == code_at(
            Layout::Q8_0,
            p,
            nb,
            row,
            col,
        ),
        !wide ==> code_at(Layout::Q4_0X4, interleaved(p, nb, 18), nb, row, col) == code_at(
            Layout::Q4_0,
            p,
            nb,
            row,
            col,
        ),
{
    let bytes: int = if wide {
        34
    } else {
        18
    };
    let x = interleaved(p, nb, bytes);
    let blk = col / 32;
    let e = col % 32;
    let lane = row % 4;
    let o = (row / 4 * nb + blk) * (4 * bytes);
    let po = (row * nb + blk) * bytes;
    let m = row / 4 + 1;
    assert(m * nb * (4 * bytes) <= rows * nb * bytes) by (nonlinear_arith)
        requires
            m * 4 <= rows,
            nb > 0,
            bytes > 0,
    {
        assert(m * nb * (4 * bytes) == (m * 4) * (nb * bytes));
        assert(rows * nb * bytes == rows * (nb * bytes));
        assert(nb * bytes > 0);
    }
    lemma_block_inside(4 * bytes, nb, row / 4, blk, p.len() as int);
    lemma_interleave_source(nb, bytes, row, blk, 2 * lane, 0);
    lemma_interleave_source(nb, bytes, row, blk, 2 * lane + 1, 1);
    assert(x[o + 2 * lane] == p[po] && x[o + 2 * lane + 1] == p[po + 1]);
    let b = if wide {
        e
    } else {
        e % 16
    };
    let off = 8 + lane * (bytes - 2) + b;
    lemma_interleave_source(nb, bytes, row, blk, off, b + 2);
    assert(x[o + off] == p[po + 2 + b]);
    if wide {
        assert(lane * (bytes - 2) == 32 * lane) by (nonlinear_arith)
            requires
                bytes == 34,
        ;
        assert(q8_0_at(x, o + 2 * lane, o + 8 + 32 * lane, e) == q8_0_at(p, po, po + 2, e));
    } else {
        assert(lane * (bytes - 2) == 16 * lane) by (nonlinear_arith)
            requires
                bytes == 18,
        ;
        assert(q4_0_at(x, o + 2 * lane, o + 8 + 16 * lane, e) == q4_0_at(p, po, po + 2, e));
    }
}

/// A run of rows that a kernel handles together.
#[derive(Clone, Copy, Debug, PartialEq, Eq, Structural)]
pub struct RowBatch {
    pub first: usize,
    pub count: usize,
}

/// The batches run through the rows `[start, end)` without a gap and without
/// an overlap.
pub open spec fn run_through(bs: Seq<RowBatch>, start: int, end: int) -> bool
    decreases bs.len(),
{
    if bs.len() == 0 {
        start >= end
    } else {
        let b = bs.last();
        b.count >= 1 && b.first + b.count == end && start <= b.first && (if bs.len() == 1 {
            b.first == start
        } else {
            run_through(bs.drop_last(), start, b.first as int) && start < b.first
        })
    }
}

/// Every row of the range stands in exactly one batch, and no other row in any.
pub proof fn lemma_rows_once(bs: Seq<RowBatch>, start: int, end: int, r: int)
    requires
        run_through(bs, start, end),
    ensures
        (start <= r < end) <==> exists|i: int|
            0 <= i < bs.len() && (#[trigger] bs[i]).first <= r && r < bs[i].first + bs[i].count,
        forall|i: int, j: int|
            0 <= i < j < bs.len() ==> (#[trigger] bs[i]).first + bs[i].count <= (
            #[trigger] bs[j]).first,
        forall|i: int|
            0 <= i < bs.len() ==> start <= (#[trigger] bs[i]).first && bs[i].first + bs[i].count
                <= end,
    decreases bs.len(),
{
    if bs.len() > 0 {
        let b = bs.last();
        let rest = bs.drop_last();
        if bs.len() > 1 {
            lemma_rows_once(rest, start, b.first as int, r);
            if start <= r < b.first {
                let i = choose|i: int|
                    0 <= i < rest.len() && (#[trigger] rest[i]).first <= r && r < rest[i].first
                        + rest[i].count;
                assert(bs[i] == rest[i]);
            }
            assert forall|i: int, j: int| 0 <= i < j < bs.len() implies (
            #[trigger] bs[i]).first + bs[i].count <= (#[trigger] bs[j]).first by {
                assert(bs[i] == rest[i]);
                if j < rest.len() {
                    assert(bs[j] == rest[j]);
                }
            }
            assert forall|i: int| 0 <= i < bs.len() implies start <= (#[trigger] bs[i]).first
                && bs[i].first + bs[i].count <= end by {
                if i < rest.len() {
                    assert(bs[i] == rest[i]);
                }
            }
        }
        if b.first <= r < end {
            assert(bs[bs.len() - 1] == b);
        }
        if exists|i: int|
            0 <= i < bs.len() && (#[trigger] bs[i]).first <= r && r < bs[i].first + bs[i].count {
            let i = choose|i: int|
                0 <= i < bs.len() && (#[trigger] bs[i]).first <= r && r < bs[i].first
                    + bs[i].count;
            if i < bs.len() - 1 {
                assert(bs[i] == rest[i]);
            }
        }
    }
}

/// The rows of a plain kernel: two at a time, the odd one out alone at the end.
pub fn paired_rows(range: RowRange) -> (bs: Vec<RowBatch>)
    ensures
        run_through(bs@, range.start as int, range.end as int),
        forall|i: int| 0 <= i < bs@.len() ==> (#[trigger] bs@[i]).count <= 2,
{
    let mut bs: Vec<RowBatch> = Vec::new();
    let mut i: usize = range.start;
    while i < range.end
        invariant
            range.start <= i,
            i <= range.end || i == range.start,
            run_through(bs@, range.start as int, i as int),
            bs@.len() == 0 ==> i == range.start,
            bs@.len() > 0 ==> i > range.start,
            forall|j: int| 0 <= j < bs@.len() ==> (#[trigger] bs@[j]).count <= 2,
        decreases range.end - i,
    {
        let count: usize = if range.end - i >= 2 {
            2
        } else {
            1
        };
        let ghost before = bs@;
        bs.push(RowBatch { first: i, count });
        assert(bs@.drop_last() =~= before);
        i = i + count;
    }
    bs
}

/// The rows of an interleaved kernel: group by group, of a group only the rows
/// that the range owns.
pub fn grouped_rows(range: RowRange) -> (bs: Vec<RowBatch>)
    ensures
        run_through(bs@, range.start as int, range.end as int),
        forall|i: int|
            0 <= i < bs@.len() ==> (#[trigger] bs@[i]).first as int % 4 + bs@[i].count <= 4,
{
    let mut bs: Vec<RowBatch> = Vec::new();
    let mut i: usize = range.start;
    while i < range.end
        invariant
            range.start <= i,
            i <= range.end || i == range.start,
            run_through(bs@, range.start as int, i as int),
            bs@.len() == 0 ==> i == range.start,
            bs@.len() > 0 ==> i > range.start,
            forall|j: int|
                0 <= j < bs@.len() ==> (#[trigger] bs@[j]).first as int % 4 + bs@[j].count <= 4,
        decreases range.end - i,
    {
        let g: usize = i / GROUP;
        let lane_lo: usize = i - g * GROUP;
        let rows_left: usize = range.end - g * GROUP;
        let lane_hi: usize = if rows_left < GROUP {
            rows_left
        } else {
            GROUP
        };
        let ghost before = bs@;
        bs.push(RowBatch { first: i, count: lane_hi - lane_lo });
        assert(bs@.drop_last() =~= before);
        i = g * GROUP + lane_hi;
    }
    bs
}

/// Row ranges that batches cover are laid end to end.
proof fn lemma_batches_adjoin(bs: Seq<RowBatch>, start: int, end: int)
    requires
        run_through(bs, start, end),
        bs.len() > 0,
    ensures
        bs[0].first == start,
        bs.last().first + bs.last().count == end,
        forall|i: int|
            0 <= i < bs.len() - 1 ==> (#[trigger] bs[i]).first + bs[i].count == bs[i + 1].first,
    decreases bs.len(),
{
    let rest = bs.drop_last();
    if bs.len() > 1 {
        lemma_batches_adjoin(rest, start, bs.last().first as int);
        assert(bs[0] == rest[0]);
        assert forall|i: int| 0 <= i < bs.len() - 1 implies (#[trigger] bs[i]).first + bs[i].count
            == bs[i + 1].first by {
            assert(bs[i] == rest[i]);
            if i < rest.len() - 1 {
                assert(bs[i + 1] == rest[i + 1]);
            }
        }
    }
}

proof fn lemma_holds_earlier_row(l: Layout, w: Seq<u8>, nb: int, last: int, row: int)
    requires
        holds_row(l, w, nb, last),
        0 <= row <= last,
        0 <= nb,
    ensures
        holds_row(l, w, nb, row),
{
    let unit = if l.grouped() {
        4 * l.bytes()
    } else {
        l.bytes()
    };
    let a = if l.grouped() {
        row / 4 + 1
    } else {
        row + 1
    };
    let b = if l.grouped() {
        last / 4 + 1
    } else {
        last + 1
    };
    assert(a * nb * unit <= b * nb * unit) by (nonlinear_arith)
        requires
            0 <= a <= b,
            0 <= nb,
            0 < unit,
    ;
}

/// One multiply-add of a row: activation `col` times the weight, into lane
/// `lane` of accumulator `chain`.
#[derive(Clone, Copy, Debug, PartialEq, Eq, Structural)]
pub struct Term {
    pub col: usize,
    pub code: Code,
    pub chain: usize,
    pub lane: usize,
}

/// What goes into one element of the result. The terms of one lane are added in
/// the order in which they stand here.
pub struct RowTerms {
    pub row: usize,
    pub terms: Vec<Term>,
}

/// Accumulator of column `col`.
pub open spec fn chain_at(l: Layout, col: int) -> int {
    match l {
        Layout::Q4K => col % 64 / 16,
        Layout::Q6K => col % 128 / 32,
        _ => col % 32 / 16,
    }
}

/// The multiply-adds of row `row`, column by column.
pub open spec fn terms_of(l: Layout, w: Seq<u8>, in_dim: int, row: int) -> Seq<Term> {
    let nb = in_dim / l.elements();
    Seq::new(
        (nb * l.elements()) as nat,
        |c: int|
            Term {
                col: c as usize,
                code: code_at(l, w, nb, row, c),
                chain: chain_at(l, c) as usize,
                lane: (c % 16) as usize,
            },
    )
}

/// The multiply-adds of a row take every column once, in ascending order. The columns go
/// round the sixteen lanes one by one. Runs of columns go round the accumulators: four,
/// in runs of sixteen for Q4_K and of 32 for Q6_K, and two in runs of sixteen for the
/// others.
pub proof fn lemma_columns_go_round(l: Layout, w: Seq<u8>, in_dim: int, row: int, c: int)
    requires
        0 <= in_dim <= usize::MAX,
        0 <= c < in_dim / l.elements() * l.elements(),
    ensures
        ({
            let t = terms_of(l, w, in_dim, row);
            let run: int = if l is Q6K {
                32
            } else {
                16
            };
            let chains: int = if l is Q4K || l is Q6K {
                4
            } else {
                2
            };
            &&& t[c].col == c
            &&& c == 0 ==> t[c].lane == 0 && t[c].chain == 0
            &&& c + 1 < t.len() ==> t[c + 1].lane == (t[c].lane + 1) % 16
            &&& c + 1 < t.len() ==> t[c + 1].chain == (if (c + 1) % run == 0 {
                (t[c].chain + 1) % chains
            } else {
                t[c].chain as int
            })
        }),
{
    lemma_whole_blocks(l, in_dim);
    lemma_round(l, c);
}

/// The columns of whole blocks are columns of the row.
pub proof fn lemma_whole_blocks(l: Layout, in_dim: int)
    requires
        0 <= in_dim,
    ensures
        0 <= in_dim / l.elements() * l.elements() <= in_dim,
{
    if l.elements() == 256 {
        assert(in_dim / 256 * 256 <= in_dim);
    } else {
        assert(in_dim / 32 * 32 <= in_dim);
    }
}

proof fn lemma_round(l: Layout, c: int)
    requires
        0 <= c,
    ensures
        0 <= chain_at(l, c) < 4,
        chain_at(l, 0) == 0,
        (c + 1) % 16 == (c % 16 + 1) % 16,
        chain_at(l, c + 1) == (if (c + 1) % (if l is Q6K {
            32int
        } else {
            16int
        }) == 0 {
            (chain_at(l, c) + 1) % (if l is Q4K || l is Q6K {
                4int
            } else {
                2int
            })
        } else {
            chain_at(l, c)
        }),
{
    match l {
        Layout::Q4K => {
            lemma_runs(c, 16, 4);
        },
        Layout::Q6K => {
            lemma_runs(c, 32, 4);
        },
        _ => {
            lemma_runs(c, 16, 2);
        },
    }
}

/// Runs of `run` columns go round `n` places.
proof fn lemma_runs(c: int, run: int, n: int)
    requires
        0 <= c,
        run == 16 || run == 32,
        n == 4 && (run == 16 || run == 32) || n == 2 && run == 16,
    ensures
        0 <= c % (n * run) / run < n,
        (c + 1) % (n * run) / run == (if (c + 1) % run == 0 {
            (c % (n * run) / run + 1) % n
        } else {
            c % (n * run) / run
        }),
{
    let m = n * run;
    let (q, r) = (c / m, c % m);
    let (a, b) = (r / run, r % run);
    let k = q * n + a;
    vstd::arithmetic::div_mod::lemma_fundamental_div_mod(c, m);
    vstd::arithmetic::div_mod::lemma_fundamental_div_mod(r, run);
    assert(m == 64 || m == 128 || m == 32);
    assert(0 <= a < n && 0 <= b < run);
    assert(c == k * run + b) by (nonlinear_arith)
        requires
            c == m * q + r,
            r == run * a + b,
            m == n * run,
            k == q * n + a,
    ;
    if b + 1 < run {
        vstd::arithmetic::div_mod::lemma_fundamental_div_mod_converse(c + 1, run, k, b + 1);
        vstd::arithmetic::div_mod::lemma_fundamental_div_mod_converse(c + 1, m, q, r + 1);
        vstd::arithmetic::div_mod::lemma_fundamental_div_mod_converse(r + 1, run, a, b + 1);
    } else {
        assert(c + 1 == (k + 1) * run) by (nonlinear_arith)
            requires
                c == k * run + b,
                b + 1 == run,
        ;
        vstd::arithmetic::div_mod::lemma_fundamental_div_mod_converse(c + 1, run, k + 1, 0);
        if a + 1 < n {
            vstd::arithmetic::div_mod::lemma_fundamental_div_mod_converse(c + 1, m, q, r + 1);
            vstd::arithmetic::div_mod::lemma_fundamental_div_mod_converse(r + 1, run, a + 1, 0);
        } else {
            assert(r + 1 == m);
            assert(c + 1 == m * (q + 1)) by (nonlinear_arith)
                requires
                    c == m * q + r,
                    r + 1 == m,
            ;
            vstd::arithmetic::div_mod::lemma_fundamental_div_mod_converse(c + 1, m, q + 1, 0);
        }
    }
}

/// The bytes hold every row of the range.
pub open spec fn holds_rows(l: Layout, w: Seq<u8>, in_dim: int, range: RowRange) -> bool {
    range.start < range.end ==> holds_row(l, w, in_dim / l.elements(), range.end - 1)
}

/// The rows of the range in ascending order, each with its multiply-adds.
pub open spec fn rows_of(
    out: Seq<RowTerms>,
    l: Layout,
    w: Seq<u8>,
    in_dim: int,
    range: RowRange,
) -> bool {
    &&& out.len() == (if range.start < range.end {
        range.end - range.start
    } else {
        0
    })
    &&& forall|i: int|
        0 <= i < out.len() ==> (#[trigger] out[i]).row == range.start + i && out[i].terms@
            == terms_of(l, w, in_dim, range.start + i)
}

fn row_terms(l: Layout, w: &[u8], in_dim: usize, row: usize) -> (r: RowTerms)
    requires
        holds_row(l, w@, in_dim as int / l.elements(), row as int),
    ensures
        r.row == row,
        r.terms@ == terms_of(l, w@, in_dim as int, row as int),
{
    let codes: Vec<Code> = row_codes(l, w, in_dim, row);
    let mut terms: Vec<Term> = Vec::new();
    let mut c: usize = 0;
    while c < codes.len()
        invariant
            c <= codes@.len(),
            codes@.len() == in_dim as int / l.elements() * l.elements(),
            forall|i: int|
                0 <= i < codes@.len() ==> #[trigger] codes@[i] == code_at(
                    l,
                    w@,
                    in_dim as int / l.elements(),
                    row as int,
                    i,
                ),
            terms@ == terms_of(l, w@, in_dim as int, row as int).take(c as int),
        decreases codes@.len() - c,
    {
        let (chain, lane): (usize, usize) = chain_of(l, c);
        let ghost all = terms_of(l, w@, in_dim as int, row as int);
        terms.push(Term { col: c, code: codes[c], chain, lane });
        assert(all.take(c + 1) =~= all.take(c as int).push(all[c as int]));
        c = c + 1;
    }
    assert(terms@ =~= terms_of(l, w@, in_dim as int, row as int));
    RowTerms { row, terms }
}

fn range_terms(l: Layout, w: &[u8], in_dim: usize, range: RowRange) -> (out: Vec<RowTerms>)
    requires
        holds_rows(l, w@, in_dim as int, range),
    ensures
        rows_of(out@, l, w@, in_dim as int, range),
{
    let batches: Vec<RowBatch> = match l {
        Layout::Q4_0X4 => grouped_rows(range),
        Layout::Q8_0X4 => grouped_rows(range),
        _ => paired_rows(range),
    };
    let mut out: Vec<RowTerms> = Vec::new();
    let mut k: usize = 0;
    proof {
        if batches@.len() > 0 {
            lemma_batches_adjoin(batches@, range.start as int, range.end as int);
        }
        lemma_rows_once(batches@, range.start as int, range.end as int, range.start as int);
    }
    while k < batches.len()
        invariant
            k <= batches@.len(),
            holds_rows(l, w@, in_dim as int, range),
            out@.len() == (if k < batches@.len() {
                batches@[k as int].first - range.start
            } else if batches@.len() > 0 {
                range.end - range.start
            } else {
                0
            }),
            forall|i: int|
                0 <= i < out@.len() ==> (#[trigger] out@[i]).row == range.start + i
                    && out@[i].terms@ == terms_of(l, w@, in_dim as int, range.start + i),
            batches@.len() > 0 ==> batches@.last().first + batches@.last().count == range.end,
            forall|i: int|
                0 <= i < batches@.len() - 1 ==> (#[trigger] batches@[i]).first + batches@[i].count
                    == batches@[i + 1].first,
            forall|i: int|
                0 <= i < batches@.len() ==> range.start <= (#[trigger] batches@[i]).first
                    && batches@[i].first + batches@[i].count <= range.end,
        decreases batches@.len() - k,
    {
        let b: RowBatch = batches[k];
        let mut j: usize = 0;
        while j < b.count
            invariant
                j <= b.count,
                holds_rows(l, w@, in_dim as int, range),
                range.start <= b.first,
                b.first + b.count <= range.end,
                out@.len() == b.first + j - range.start,
                forall|i: int|
                    0 <= i < out@.len() ==> (#[trigger] out@[i]).row == range.start + i
                        && out@[i].terms@ == terms_of(l, w@, in_dim as int, range.start + i),
            decreases b.count - j,
        {
            proof {
                lemma_holds_earlier_row(
                    l,
                    w@,
                    in_dim as int / l.elements(),
                    range.end - 1,
                    b.first + j,
                );
            }
            let r: RowTerms = row_terms(l, w, in_dim, b.first + j);
            out.push(r);
            j = j + 1;
        }
        k = k + 1;
    }
    out
}

/// Multiply-adds of a whole Q4_K matrix.
pub fn linear_q4k_avx512(w_blocks: &[u8], in_dim: usize, out_dim: usize) -> (out: Vec<RowTerms>)
    requires
        holds_rows(
            Layout::Q4K,
            w_blocks@,
            in_dim as int,
            (RowRange { start: 0, end: out_dim }),
        ),
    ensures
        rows_of(
            out@,
            Layout::Q4K,
            w_blocks@,
            in_dim as int,
            (RowRange { start: 0, end: out_dim }),
        ),
{
    linear_q4k_avx512_range(w_blocks, in_dim, RowRange { start: 0, end: out_dim })
}

/// Multiply-adds of the rows `range` of a Q4_K matrix.
pub fn linear_q4k_avx512_range(w_blocks: &[u8], in_dim: usize, range: RowRange) -> (out: Vec<
    RowTerms,
>)
    requires
        holds_rows(Layout::Q4K, w_blocks@, in_dim as int, range),
    ensures
        rows_of(out@, Layout::Q4K, w_blocks@, in_dim as int, range),
{
    range_terms(Layout::Q4K, w_blocks, in_dim, range)
}

/// Multiply-adds of a whole Q6_K matrix.
pub fn linear_q6k_avx512(w_blocks: &[u8], in_dim: usize, out_dim: usize) -> (out: Vec<RowTerms>)
    requires
        holds_rows(
            Layout::Q6K,
            w_blocks@,
            in_dim as int,
            (RowRange { start: 0, end: out_dim }),
        ),
    ensures
        rows_of(
            out@,
            Layout::Q6K,
            w_blocks@,
            in_dim as int,
            (RowRange { start: 0, end: out_dim }),
        ),
{
    linear_q6k_avx512_range(w_blocks, in_dim, RowRange { start: 0, end: out_dim })
}

/// Multiply-adds of the rows `range` of a Q6_K matrix.
pub fn linear_q6k_avx512_range(w_blocks: &[u8], in_dim: usize, range: RowRange) -> (out: Vec<
    RowTerms,
>)
    requires
        holds_rows(Layout::Q6K, w_blocks@, in_dim as int, range),
    ensures
        rows_of(out@, Layout::Q6K, w_blocks@, in_dim as int, range),
{
    range_terms(Layout::Q6K, w_blocks, in_dim, range)
}

/// Multiply-adds of a whole Q4_0 matrix.
pub fn linear_q4_0_avx512(w_blocks: &[u8], in_dim: usize, out_dim: usize) -> (out: Vec<RowTerms>)
    requires
        holds_rows(
            Layout::Q4_0,
            w_blocks@,
            in_dim as int,
            (RowRange { start: 0, end: out_dim }),
        ),
    ensures
        rows_of(
            out@,
            Layout::Q4_0,
            w_blocks@,
            in_dim as int,
            (RowRange { start: 0, end: out_dim }),
        ),
{
    linear_q4_0_avx512_range(w_blocks, in_dim, RowRange { start: 0, end: out_dim })
}

/// Multiply-adds of the rows `range` of a Q4_0 matrix.
pub fn linear_q4_0_avx512_range(w_blocks: &[u8], in_dim: usize, range: RowRange) -> (out: Vec<
    RowTerms,
>)
    requires
        holds_rows(Layout::Q4_0, w_blocks@, in_dim as int, range),
    ensures
        rows_of(out@, Layout::Q4_0, w_blocks@, in_dim as int, range),
{
    range_terms(Layout::Q4_0, w_blocks, in_dim, range)
}

/// Multiply-adds of a whole Q8_0 matrix.
pub fn linear_q8_0_avx512(w_blocks: &[u8], in_dim: usize, out_dim: usize) -> (out: Vec<RowTerms>)
    requires
        holds_rows(
            Layout::Q8_0,
            w_blocks@,
            in_dim as int,
            (RowRange { start: 0, end: out_dim }),
        ),
    ensures
        rows_of(
            out@,
            Layout::Q8_0,
            w_blocks@,
            in_dim as int,
            (RowRange { start: 0, end: out_dim }),
        ),
{
    linear_q8_0_avx512_range(w_blocks, in_dim, RowRange { start: 0, end: out_dim })
}

/// Multiply-adds of the rows `range` of a Q8_0 matrix.
pub fn linear_q8_0_avx512_range(w_blocks: &[u8], in_dim: usize, range: RowRange) -> (out: Vec<
    RowTerms,
>)
    requires
        holds_rows(Layout::Q8_0, w_blocks@, in_dim as int, range),
    ensures
        rows_of(out@, Layout::Q8_0, w_blocks@, in_dim as int, range),
{
    range_terms(Layout::Q8_0, w_blocks, in_dim, range)
}

/// Multiply-adds of the rows `range` of a Q4_0 matrix interleaved by four rows. Rows of
/// a group that the range does not own are left alone.
pub fn linear_q4_0x4_avx512_range(w_blocks: &[u8], in_dim: usize, range: RowRange) -> (out: Vec<
    RowTerms,
>)
    requires
        holds_rows(Layout::Q4_0X4, w_blocks@, in_dim as int, range),
    ensures
        rows_of(out@, Layout::Q4_0X4, w_blocks@, in_dim as int, range),
{
    range_terms(Layout::Q4_0X4, w_blocks, in_dim, range)
}

/// Multiply-adds of the rows `range` of a Q8_0 matrix interleaved by four rows. Rows of
/// a group that the range does not own are left alone.
pub fn linear_q8_0x4_avx512_range(w_blocks: &[u8], in_dim: usize, range: RowRange) -> (out: Vec<
    RowTerms,
>)
    requires
        holds_rows(Layout::Q8_0X4, w_blocks@, in_dim as int, range),
    ensures
        rows_of(out@, Layout::Q8_0X4, w_blocks@, in_dim as int, range),
{
    range_terms(Layout::Q8_0X4, w_blocks, in_dim, range)
}

/// The kernel for interleaved rows adds the same products in the same order as
/// the kernel for plain rows.
pub proof fn lemma_interleaved_kernel_agrees(p: Seq<u8>, in_dim: int, rows: int, wide: bool, row: int)
    requires
        0 <= in_dim,
        0 <= row < rows,
        rows % 4 == 0,
        p.len() == rows * (in_dim / 32) * (if wide {
            34int
        } else {
            18int
        }),
    ensures
        wide ==> terms_of(Layout::Q8_0X4, interleaved(p, in_dim / 32, 34), in_dim, row) == terms_of(
            Layout::Q8_0,
            p,
            in_dim,
            row,
        ),
        !wide ==> terms_of(Layout::Q4_0X4, interleaved(p, in_dim / 32, 18), in_dim, row)
            == terms_of(Layout::Q4_0, p, in_dim, row),
{
    let nb = in_dim / 32;
    let (a, b, bytes) = if wide {
        (Layout::Q8_0X4, Layout::Q8_0, 34int)
    } else {
        (Layout::Q4_0X4, Layout::Q4_0, 18int)
    };
    let s = terms_of(a, interleaved(p, nb, bytes), in_dim, row);
    let t = terms_of(b, p, in_dim, row);
    assert forall|c: int| 0 <= c < s.len() implies s[c] == t[c] by {
        lemma_interleaving_keeps_weights(p, nb, rows, wide, row, c);
    }
    assert(s =~= t);
}

/// However a range is cut into parts, the parts together are the whole.
pub proof fn lemma_ranges_join(
    a: Seq<RowTerms>,
    b: Seq<RowTerms>,
    l: Layout,
    w: Seq<u8>,
    in_dim: int,
    start: usize,
    mid: usize,
    end: usize,
)
    requires
        start <= mid <= end,
        rows_of(a, l, w, in_dim, (RowRange { start, end: mid })),
        rows_of(b, l, w, in_dim, (RowRange { start: mid, end })),
    ensures
        rows_of(a + b, l, w, in_dim, (RowRange { start, end })),
{
    let all = a + b;
    assert forall|i: int| 0 <= i < all.len() implies (#[trigger] all[i]).row == start + i
        && all[i].terms@ == terms_of(l, w, in_dim, start + i) by {
        if i < a.len() {
            assert(all[i] == a[i]);
        } else {
            assert(all[i] == b[i - a.len()]);
        }
    }
}

} // verus!
