//! Fixed-width integers inside byte buffers.

use vstd::prelude::*;

verus! {

/// Two bytes at `o`, least significant first.
pub open spec fn le16(s: Seq<u8>, o: int) -> int {
    s[o] + 0x100 * s[o + 1]
}

/// Four bytes at `o`, least significant first.
pub open spec fn le32(s: Seq<u8>, o: int) -> int {
    s[o] + 0x100 * s[o + 1] + 0x1_0000 * s[o + 2] + 0x100_0000 * s[o + 3]
}

/// Eight bytes at `o`, least significant first.
pub open spec fn le64(s: Seq<u8>, o: int) -> int {
    le32(s, o) + 0x1_0000_0000 * le32(s, o + 4)
}

/// Two bytes at `o`, most significant first.
pub open spec fn be16(s: Seq<u8>, o: int) -> int {
    0x100 * s[o] + s[o + 1]
}

/// Four bytes at `o`, most significant first.
pub open spec fn be32(s: Seq<u8>, o: int) -> int {
    0x100_0000 * s[o] + 0x1_0000 * s[o + 1] + 0x100 * s[o + 2] + s[o + 3]
}

/// Eight bytes at `o`, most significant first.
pub open spec fn be64(s: Seq<u8>, o: int) -> int {
    0x1_0000_0000 * be32(s, o) + be32(s, o + 4)
}

pub fn u16_le(buf: &[u8], o: usize) -> (v: u16)
    requires
        o + 2 <= buf@.len(),
    ensures
        v == le16(buf@, o as int),
{
    buf[o] as u16 + 0x100 * (buf[o + 1] as u16)
}

pub fn u32_le(buf: &[u8], o: usize) -> (v: u32)
    requires
        o + 4 <= buf@.len(),
    ensures
        v == le32(buf@, o as int),
{
    buf[o] as u32 + 0x100 * (buf[o + 1] as u32) + 0x1_0000 * (buf[o + 2] as u32) + 0x100_0000 * (
    buf[o + 3] as u32)
}

pub fn u64_le(buf: &[u8], o: usize) -> (v: u64)
    requires
        o + 8 <= buf@.len(),
    ensures
        v == le64(buf@, o as int),
{
    assert(buf.len() <= usize::MAX);
    u32_le(buf, o) as u64 + 0x1_0000_0000 * (u32_le(buf, o + 4) as u64)
}

pub fn u32_be(buf: &[u8], o: usize) -> (v: u32)
    requires
        o + 4 <= buf@.len(),
    ensures
        v == be32(buf@, o as int),
{
    0x100_0000 * (buf[o] as u32) + 0x1_0000 * (buf[o + 1] as u32) + 0x100 * (buf[o + 2] as u32)
        + buf[o + 3] as u32
}

pub fn u64_be(buf: &[u8], o: usize) -> (v: u64)
    requires
        o + 8 <= buf@.len(),
    ensures
        v == be64(buf@, o as int),
{
    assert(buf.len() <= usize::MAX);
    0x1_0000_0000 * (u32_be(buf, o) as u64) + u32_be(buf, o + 4) as u64
}

/// The bytes of `v`, least significant first.
pub open spec fn le32_bytes(v: int) -> Seq<u8> {
    seq![
        (v % 0x100) as u8,
        (v / 0x100 % 0x100) as u8,
        (v / 0x1_0000 % 0x100) as u8,
        (v / 0x100_0000 % 0x100) as u8,
    ]
}

/// The bytes of `v`, least significant first.
pub open spec fn le64_bytes(v: int) -> Seq<u8> {
    le32_bytes(v % 0x1_0000_0000) + le32_bytes(v / 0x1_0000_0000)
}

/// The bytes of `v`, most significant first.
pub open spec fn be32_bytes(v: int) -> Seq<u8> {
    seq![
        (v / 0x100_0000 % 0x100) as u8,
        (v / 0x1_0000 % 0x100) as u8,
        (v / 0x100 % 0x100) as u8,
        (v % 0x100) as u8,
    ]
}

/// The bytes of `v`, most significant first.
pub open spec fn be64_bytes(v: int) -> Seq<u8> {
    be32_bytes(v / 0x1_0000_0000) + be32_bytes(v % 0x1_0000_0000)
}

pub fn push_le32(out: &mut Vec<u8>, v: u32)
    ensures
        final(out)@ == old(out)@ + le32_bytes(v as int),
{
    out.push((v % 0x100) as u8);
    out.push((v / 0x100 % 0x100) as u8);
    out.push((v / 0x1_0000 % 0x100) as u8);
    out.push((v / 0x100_0000 % 0x100) as u8);
    assert(out@ =~= old(out)@ + le32_bytes(v as int));
}

pub fn push_le64(out: &mut Vec<u8>, v: u64)
    ensures
        final(out)@ == old(out)@ + le64_bytes(v as int),
{
    push_le32(out, (v % 0x1_0000_0000) as u32);
    push_le32(out, (v / 0x1_0000_0000) as u32);
    assert(out@ =~= old(out)@ + le64_bytes(v as int));
}

pub fn push_be32(out: &mut Vec<u8>, v: u32)
    ensures
        final(out)@ == old(out)@ + be32_bytes(v as int),
{
    out.push((v / 0x100_0000 % 0x100) as u8);
    out.push((v / 0x1_0000 % 0x100) as u8);
    out.push((v / 0x100 % 0x100) as u8);
    out.push((v % 0x100) as u8);
    assert(out@ =~= old(out)@ + be32_bytes(v as int));
}

pub fn push_be64(out: &mut Vec<u8>, v: u64)
    ensures
        final(out)@ == old(out)@ + be64_bytes(v as int),
{
    push_be32(out, (v / 0x1_0000_0000) as u32);
    push_be32(out, (v % 0x1_0000_0000) as u32);
    assert(out@ =~= old(out)@ + be64_bytes(v as int));
}

/// Reading a 32-bit word back gives the value that was written, in either byte order.
pub proof fn lemma_round_trip32(v: u32)
    ensures
        le32(le32_bytes(v as int), 0) == v,
        be32(be32_bytes(v as int), 0) == v,
{
}

/// Reading a 64-bit word back gives the value that was written, in either byte order.
pub proof fn lemma_round_trip64(v: u64)
    ensures
        le64(le64_bytes(v as int), 0) == v,
        be64(be64_bytes(v as int), 0) == v,
{
    let lo = (v % 0x1_0000_0000) as u32;
    let hi = (v / 0x1_0000_0000) as u32;
    lemma_round_trip32(lo);
    lemma_round_trip32(hi);
    let l = le32_bytes(lo as int);
    let h = le32_bytes(hi as int);
    assert(le32(l + h, 0) == le32(l, 0) && le32(l + h, 4) == le32(h, 0));
    let bl = be32_bytes(lo as int);
    let bh = be32_bytes(hi as int);
    assert(be32(bh + bl, 0) == be32(bh, 0) && be32(bh + bl, 4) == be32(bl, 0));
}

} // verus!
