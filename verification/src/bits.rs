//! What masks and shifts mean as arithmetic.

use vstd::prelude::*;

verus! {

pub proof fn lemma_u8(x: u8)
    by (bit_vector)
    ensures
        x & 0x01 == x % 2,
        x & 0x03 == x % 4,
        x & 0x07 == x % 8,
        x & 0x0F == x % 16,
        x & 0x1F == x % 32,
        x & 0x3F == x % 64,
        x & 0xFC == x - x % 4,
        x & 0x02 == (x / 2) % 2 * 2,
        x & 0x80 == x / 128 * 128,
        x >> 4 == x / 16,
        x >> 6 == x / 64,
{
}

pub proof fn lemma_u32(x: u32)
    by (bit_vector)
    ensures
        x & 0x1 == x % 2,
        x & 0x3 == x % 4,
        x & 0xF == x % 16,
        x & 0x3F == x % 64,
        x & 0xFF == x % 0x100,
        x & 0x3FF == x % 0x400,
        x & 0xFFF == x % 0x1000,
        x & 0xFFFF == x % 0x1_0000,
        x & 0xFFFF_FFF0 == x - x % 16,
        x >> 1 == x / 2,
        x >> 8 == x / 0x100,
        x >> 16 == x / 0x1_0000,
        x >> 24 == x / 0x100_0000,
        x >> 26 == x / 0x400_0000,
{
}

pub proof fn lemma_u64(x: u64)
    by (bit_vector)
    ensures
        x & 0xFF == x % 0x100,
        x & 0xFFF == x % 0x1000,
        x & 0xFFFF == x % 0x1_0000,
        x & 0x3F_FFFF == x % 0x40_0000,
        x & 0x1F_FFFF == x % 0x20_0000,
        x & 0xFFFF_FFFF == x % 0x1_0000_0000,
        x & !0xFFF == x - x % 0x1000,
        x >> 8 == x / 0x100,
        x >> 12 == x / 0x1000,
        x >> 21 == x / 0x20_0000,
        x >> 32 == x / 0x1_0000_0000,
        x >> 63 == x / 0x8000_0000_0000_0000,
{
}

/// Joining two halves is addition.
pub proof fn lemma_join32(lo: u32, hi: u32)
    by (bit_vector)
    ensures
        (lo as u64) | ((hi as u64) << 32) == lo + hi * 0x1_0000_0000,
        ((hi as u64) << 32) | (lo as u64) == lo + hi * 0x1_0000_0000,
{
}

} // verus!
