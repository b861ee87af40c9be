use zero_kernel::arch::aarch64::math::linear::{
    linear_q4_0_neon, linear_q4k_neon, linear_q6k_neon, linear_q8_0_neon,
};
use zero_kernel::arch::x86_64::math::linear::{
    chain_of, fp16_to_f32, get_scale_min_k4, grouped_rows, linear_q4_0_avx512,
    linear_q4_0_avx512_range, linear_q4_0x4_avx512_range, linear_q4k_avx512,
    linear_q4k_avx512_range, linear_q6k_avx512, linear_q6k_avx512_range, linear_q8_0_avx512,
    linear_q8_0_avx512_range, linear_q8_0x4_avx512_range, paired_rows, q4_0_code, q4_0x4_code,
    q4k_code, q6k_code, q8_0_code, q8_0x4_code, row_codes, Code, Layout, RowBatch, RowTerms,
};
use zero_kernel::arch::x86_64::math::vnni::{
    linear_q4k_vnni_block, linear_q4k_vnni_range, quantize_row_q8k, unpack_mins_and_scales,
    Q8K_BLOCK_BYTES,
};
use zero_kernel::inference_avx512::argmax::RowRange;
use zero_kernel::inference_avx512::forward::{linear_q4k_single, linear_q6k_single};

/// Bytes that look random and are the same in every run.
fn bytes(n: usize, seed: u32) -> Vec<u8> {
    let mut x = seed;
    let mut v = Vec::new();
    for _ in 0..n {
        x = x.wrapping_mul(1_664_525).wrapping_add(1_013_904_223);
        v.push((x >> 24) as u8);
    }
    v
}

fn range(start: usize, end: usize) -> RowRange {
    RowRange { start, end }
}

fn f16(bits: u16) -> f32 {
    f32::from_bits(fp16_to_f32(bits))
}

fn value(c: Code) -> f32 {
    f16(c.d) * c.scale as f32 * c.q as f32 - f16(c.dmin) * c.min as f32
}

#[test]
fn half_precision_numbers() {
    assert_eq!(f16(0x3C00), 1.0);
    assert_eq!(f16(0xC000), -2.0);
    assert_eq!(f16(0x3555), 0.333_251_95);
    assert_eq!(f16(0x7BFF), 65504.0);
    assert_eq!(f16(0x0001), 5.960_464_5e-8);
    assert_eq!(f16(0x03FF), 6.097_555e-5);
    assert_eq!(f16(0x0400), 6.103_515_6e-5);
    assert_eq!(fp16_to_f32(0x8000), 0x8000_0000);
    assert_eq!(fp16_to_f32(0x7C00), 0x7F80_0000);
    assert_eq!(fp16_to_f32(0xFC00), 0xFF80_0000);
    assert!(f16(0x7E01).is_nan());
}

#[test]
fn six_bit_scales() {
    let s: Vec<u8> = vec![0xC1, 0x42, 0x83, 0xC4, 0x45, 0x86, 0xC7, 0x48, 0x19, 0x2A, 0x3B, 0x4C];
    // The first four stand alone.
    assert_eq!(get_scale_min_k4(&s, 0), (0x01, 0x05));
    assert_eq!(get_scale_min_k4(&s, 3), (0x04, 0x08));
    // The others borrow the top bits of the first eight bytes.
    assert_eq!(get_scale_min_k4(&s, 4), (0x39, 0x11));
    assert_eq!(get_scale_min_k4(&s, 7), (0x3C, 0x14));
    let all = unpack_mins_and_scales(&s);
    for j in 0..8 {
        let (sc, mn) = get_scale_min_k4(&s, j);
        assert_eq!((all[j], all[8 + j]), (sc, mn));
    }
}

#[test]
fn weights_of_each_format() {
    let w = bytes(4 * 144, 7);
    // Q4_K: element 37 is the high nibble of byte 16 + 5, with scale one.
    let (sc, mn) = get_scale_min_k4(&w[4..16], 1);
    assert_eq!(
        q4k_code(&w, 0, 37),
        Code {
            d: u16::from_le_bytes([w[0], w[1]]),
            dmin: u16::from_le_bytes([w[2], w[3]]),
            scale: sc as i32,
            min: mn as i32,
            q: (w[16 + 5] >> 4) as i32,
        }
    );
    // Q6_K: element 128 + 70 is a high nibble with bits four and five.
    let l = 6;
    let q = (w[64 + l] >> 4) as i32 | ((w[128 + 32 + l] >> 4 & 3) << 4) as i32;
    let c = q6k_code(&w, 0, 128 + 64 + l);
    assert_eq!(c.q, q - 32);
    assert_eq!(c.scale, w[192 + 8 + 4] as i8 as i32);
    assert_eq!(c.d, u16::from_le_bytes([w[208], w[209]]));
    assert_eq!(q4_0_code(&w, 0, 3).q, (w[2 + 3] & 15) as i32 - 8);
    assert_eq!(q4_0_code(&w, 0, 19).q, (w[2 + 3] >> 4) as i32 - 8);
    assert_eq!(q8_0_code(&w, 0, 31).q, w[2 + 31] as i8 as i32);
    assert_eq!(q4_0x4_code(&w, 0, 2, 19).q, (w[8 + 32 + 3] >> 4) as i32 - 8);
    assert_eq!(q4_0x4_code(&w, 0, 2, 19).d, u16::from_le_bytes([w[4], w[5]]));
    assert_eq!(q8_0x4_code(&w, 0, 3, 9).q, w[8 + 96 + 9] as i8 as i32);
}

#[test]
fn rows_stand_one_behind_the_other() {
    let w = bytes(3 * 2 * 144, 3);
    let codes = row_codes(Layout::Q4K, &w, 512, 2);
    assert_eq!(codes.len(), 512);
    assert_eq!(codes[256 + 9], q4k_code(&w, (2 * 2 + 1) * 144, 9));
    // Columns that fill no block are left out.
    assert_eq!(row_codes(Layout::Q4K, &w, 511, 0).len(), 256);
    let w = bytes(2 * 4 * 34, 5);
    let codes = row_codes(Layout::Q8_0X4, &w, 32, 6);
    assert_eq!(codes[4], q8_0x4_code(&w, 4 * 34, 2, 4));
}

#[test]
fn accumulators_of_columns() {
    assert_eq!(chain_of(Layout::Q4K, 64 + 33), (2, 1));
    assert_eq!(chain_of(Layout::Q6K, 128 + 96 + 17), (3, 1));
    assert_eq!(chain_of(Layout::Q8_0, 31), (1, 15));
    assert_eq!(chain_of(Layout::Q4_0X4, 32), (0, 0));
}

#[test]
fn row_batches() {
    let b = |first, count| RowBatch { first, count };
    assert_eq!(paired_rows(range(3, 8)), vec![b(3, 2), b(5, 2), b(7, 1)]);
    assert_eq!(paired_rows(range(3, 3)).len(), 0);
    assert_eq!(grouped_rows(range(3, 10)), vec![b(3, 1), b(4, 4), b(8, 2)]);
    assert_eq!(grouped_rows(range(5, 7)), vec![b(5, 2)]);
    assert_eq!(grouped_rows(range(9, 2)).len(), 0);
}

fn same(a: &[RowTerms], b: &[RowTerms]) -> bool {
    a.len() == b.len() && a.iter().zip(b.iter()).all(|(x, y)| x.row == y.row && x.terms == y.terms)
}

#[test]
fn kernels_cover_their_range() {
    let w = bytes(5 * 144, 11);
    let out = linear_q4k_avx512_range(&w, 256, range(1, 4));
    assert_eq!(out.iter().map(|r| r.row).collect::<Vec<usize>>(), vec![1, 2, 3]);
    let t = out[1].terms[100];
    assert_eq!(t.col, 100);
    assert_eq!(t.code, q4k_code(&w, 2 * 144, 100));
    assert_eq!((t.chain, t.lane), (2, 4));
    assert_eq!(linear_q4k_avx512_range(&w, 256, range(4, 4)).len(), 0);
    // A split of the rows changes nothing.
    let mut parts = linear_q4k_avx512_range(&w, 256, range(0, 2));
    parts.extend(linear_q4k_avx512_range(&w, 256, range(2, 5)));
    assert!(same(&parts, &linear_q4k_avx512(&w, 256, 5)));
    assert!(same(&parts, &linear_q4k_single(&w, 256, 5)));
    let w = bytes(3 * 210, 12);
    assert!(same(&linear_q6k_avx512(&w, 256, 3), &linear_q6k_single(&w, 256, 3)));
    assert!(same(&linear_q6k_avx512(&w, 256, 3)[1..], &linear_q6k_avx512_range(&w, 256, range(1, 3))));
    let w = bytes(3 * 68, 13);
    assert!(same(&linear_q8_0_avx512(&w, 64, 3)[2..], &linear_q8_0_avx512_range(&w, 64, range(2, 3))));
    assert!(same(&linear_q4_0_avx512(&w, 64, 3)[..2], &linear_q4_0_avx512_range(&w, 64, range(0, 2))));
}

fn interleave(p: &[u8], rows: usize, nb: usize, size: usize) -> Vec<u8> {
    let mut v = Vec::new();
    for g in 0..rows / 4 {
        for b in 0..nb {
            let block = |lane: usize| &p[((g * 4 + lane) * nb + b) * size..][..size];
            for lane in 0..4 {
                v.extend_from_slice(&block(lane)[..2]);
            }
            for lane in 0..4 {
                v.extend_from_slice(&block(lane)[2..]);
            }
        }
    }
    v
}

#[test]
fn interleaved_rows_give_the_same_products() {
    let p = bytes(8 * 3 * 18, 21);
    let x = interleave(&p, 8, 3, 18);
    let r = range(2, 7);
    assert!(same(&linear_q4_0x4_avx512_range(&x, 96, r), &linear_q4_0_avx512_range(&p, 96, r)));
    let p = bytes(8 * 3 * 34, 22);
    let x = interleave(&p, 8, 3, 34);
    assert!(same(&linear_q8_0x4_avx512_range(&x, 96, r), &linear_q8_0_avx512_range(&p, 96, r)));
}

#[test]
fn both_machines_multiply_the_same_weights() {
    let pairs = [
        {
            let w = bytes(2 * 144, 31);
            (linear_q4k_neon(&w, 256, 2), linear_q4k_avx512(&w, 256, 2))
        },
        {
            let w = bytes(2 * 210, 32);
            (linear_q6k_neon(&w, 256, 2), linear_q6k_avx512(&w, 256, 2))
        },
        {
            let w = bytes(4 * 18, 33);
            (linear_q4_0_neon(&w, 64, 2), linear_q4_0_avx512(&w, 64, 2))
        },
        {
            let w = bytes(4 * 34, 34);
            (linear_q8_0_neon(&w, 64, 2), linear_q8_0_avx512(&w, 64, 2))
        },
    ];
    for (a, b) in pairs.iter() {
        assert_eq!(a.len(), 2);
        for (x, y) in a.iter().zip(b.iter()) {
            assert_eq!(x.row, y.row);
            for (s, t) in x.terms.iter().zip(y.terms.iter()) {
                assert_eq!((s.col, s.code), (t.col, t.code));
                assert_eq!(s.chain, 0);
                assert!(s.lane < 4);
            }
        }
    }
    assert_eq!(pairs[0].0[0].terms[7].lane, 3);
    assert_eq!(pairs[1].0[0].terms[128 + 70].lane, 2);
}

#[test]
fn packed_activations() {
    let q: Vec<i32> = (0..256).map(|i| (i * 7) % 301 - 150).collect();
    let row = quantize_row_q8k(&q, &[0x3F80_0000], 256);
    assert_eq!(row.len(), Q8K_BLOCK_BYTES);
    assert_eq!(&row[..4], &1.0f32.to_le_bytes());
    let clamped = |i: usize| q[i].clamp(-128, 127);
    for i in 0..256 {
        assert_eq!(row[4 + i] as i8 as i32, clamped(i));
    }
    for g in 0..16 {
        let sum: i32 = (g * 16..g * 16 + 16).map(clamped).sum();
        assert_eq!(i16::from_le_bytes([row[260 + 2 * g], row[261 + 2 * g]]) as i32, sum);
    }
}

#[test]
fn integer_products() {
    let w = bytes(3 * 2 * 144, 41);
    let q: Vec<i32> = (0..512).map(|i| (i * 37) % 255 - 127).collect();
    let q8 = quantize_row_q8k(&q, &[0x3F00_0000, 0x4000_0000], 512);
    let rows = linear_q4k_vnni_range(&q8, &w, 512, range(1, 3));
    assert_eq!(rows.len(), 2);
    for r in rows.iter() {
        assert_eq!(r.blocks.len(), 2);
        for (b, block) in r.blocks.iter().enumerate() {
            let wo = (r.row * 2 + b) * 144;
            let mut dot = 0i64;
            let mut mins = 0i64;
            for e in 0..256 {
                let c = q4k_code(&w, wo, e);
                let a = q[b * 256 + e] as i64;
                dot += c.scale as i64 * c.q as i64 * a;
                // The partial sums stand for the products with the minima.
                mins += c.min as i64 * a;
                assert_eq!((c.d, c.dmin), (block.d, block.dmin));
            }
            assert_eq!(block.dot, dot);
            assert_eq!(block.mins as i64, mins);
            assert_eq!(block.q8_scale, if b == 0 { 0x3F00_0000 } else { 0x4000_0000 });
            assert_eq!(linear_q4k_vnni_block(&w, wo, &q8, b * 292), (block.dot, block.mins));
        }
    }
    assert_eq!(linear_q4k_vnni_range(&q8, &w, 512, range(2, 2)).len(), 0);
}

#[test]
fn dequantised_value() {
    let c = Code { d: 0x3C00, dmin: 0x3800, scale: 5, min: 3, q: 7 };
    assert_eq!(value(c), 35.0 - 1.5);
}
