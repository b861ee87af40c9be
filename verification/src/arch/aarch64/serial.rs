//! The PL011 serial port.

use crate::arch::aarch64::mmio::MmioOp;
use vstd::prelude::*;

verus! {

/// Offset of the data register.
pub const UARTDR: usize = 0x000;

/// Offset of the flag register.
pub const UARTFR: usize = 0x018;

/// The transmit queue is full.
pub const UARTFR_TXFF: u32 = 0x20;

/// Where the port is before the device tree was read.
pub const EARLY_UART_BASE: usize = 0x0900_0000;

/// The port that the kernel writes to.
#[derive(Clone, Copy, Debug, PartialEq, Eq, Structural)]
pub struct Serial {
    pub base: usize,
}

/// A port at an address of its own.
#[derive(Clone, Copy, Debug, PartialEq, Eq, Structural)]
pub struct Pl011 {
    pub base: usize,
}

/// Waits for room, then writes the byte.
pub open spec fn byte_ops(base: int, b: u8) -> Seq<MmioOp> {
    seq![
        MmioOp::PollClear32 { addr: (base + UARTFR) as usize, mask: UARTFR_TXFF },
        MmioOp::Write32 { addr: base as usize, value: b as u32 },
    ]
}

/// The bytes with a carriage return in front of every line feed.
pub open spec fn crlf(s: Seq<u8>) -> Seq<u8>
    decreases s.len(),
{
    if s.len() == 0 {
        Seq::empty()
    } else if s.last() == 0x0A {
        crlf(s.drop_last()).push(0x0D).push(0x0A)
    } else {
        crlf(s.drop_last()).push(s.last())
    }
}

/// Writes all bytes in turn.
pub open spec fn bytes_ops(base: int, s: Seq<u8>) -> Seq<MmioOp>
    decreases s.len(),
{
    if s.len() == 0 {
        Seq::empty()
    } else {
        bytes_ops(base, s.drop_last()) + byte_ops(base, s.last())
    }
}

proof fn lemma_bytes_push(base: int, s: Seq<u8>, b: u8)
    ensures
        bytes_ops(base, s.push(b)) == bytes_ops(base, s) + byte_ops(base, b),
{
    assert(s.push(b).drop_last() =~= s);
}

impl Pl011 {
    /// A port at `base`.
    pub fn new(base: usize) -> (p: Pl011)
        ensures
            p.base == base,
    {
        Pl011 { base }
    }

    /// Writes one byte.
    pub fn write_byte(&self, ops: &mut Vec<MmioOp>, byte: u8)
        requires
            self.base + UARTFR <= usize::MAX,
        ensures
            final(ops)@ == old(ops)@ + byte_ops(self.base as int, byte),
    {
        ops.push(MmioOp::PollClear32 { addr: self.base + UARTFR, mask: UARTFR_TXFF });
        ops.push(MmioOp::Write32 { addr: self.base + UARTDR, value: byte as u32 });
        assert(ops@ =~= old(ops)@ + byte_ops(self.base as int, byte));
    }

    /// Writes text, with every line feed made a line end.
    pub fn write_str(&self, ops: &mut Vec<MmioOp>, s: &str)
        requires
            self.base + UARTFR <= usize::MAX,
        ensures
            final(ops)@ == old(ops)@ + bytes_ops(
                self.base as int,
                crlf(vstd::utf8::encode_utf8(s@)),
            ),
    {
        let bytes: &[u8] = s.as_bytes();
        let ghost base = self.base as int;
        let mut i: usize = 0;
        assert(bytes@.take(0).len() == 0);
        assert(ops@ =~= old(ops)@ + bytes_ops(base, crlf(bytes@.take(0))));
        while i < bytes.len()
            invariant
                i <= bytes@.len(),
                base == self.base,
                self.base + UARTFR <= usize::MAX,
                ops@ == old(ops)@ + bytes_ops(base, crlf(bytes@.take(i as int))),
            decreases bytes@.len() - i,
        {
            let b: u8 = bytes[i];
            let ghost before = bytes@.take(i as int);
            let ghost now = bytes@.take(i + 1);
            assert(now.drop_last() =~= before && now.last() == b);
            if b == 0x0A {
                self.write_byte(ops, 0x0D);
                proof {
                    lemma_bytes_push(base, crlf(before), 0x0D);
                    lemma_bytes_push(base, crlf(before).push(0x0D), 0x0A);
                }
            } else {
                proof {
                    lemma_bytes_push(base, crlf(before), b);
                }
            }
            self.write_byte(ops, b);
            i = i + 1;
            assert(ops@ =~= old(ops)@ + bytes_ops(base, crlf(now)));
        }
        assert(bytes@.take(i as int) =~= bytes@);
    }
}

impl Serial {
    /// The port at its early address.
    pub fn new() -> (s: Serial)
        ensures
            s.base == EARLY_UART_BASE,
    {
        Serial { base: EARLY_UART_BASE }
    }

    /// Writes text to the port.
    pub fn write_str(&self, ops: &mut Vec<MmioOp>, s: &str)
        requires
            self.base + UARTFR <= usize::MAX,
        ensures
            final(ops)@ == old(ops)@ + bytes_ops(
                self.base as int,
                crlf(vstd::utf8::encode_utf8(s@)),
            ),
    {
        let p = Pl011::new(self.base);
        p.write_str(ops, s);
    }
}

/// The port needs no set-up at its early address.
pub fn init_early(s: &mut Serial)
    ensures
        *final(s) == *old(s),
{
}

/// The same as `init_early`.
pub fn init(s: &mut Serial)
    ensures
        *final(s) == *old(s),
{
    init_early(s);
}

/// Goes over to the port that the device tree names.
pub fn set_base(s: &mut Serial, new_base: usize)
    ensures
        final(s).base == new_base,
{
    s.base = new_base;
}

/// Where the port is.
pub fn current_base(s: &Serial) -> (base: usize)
    ensures
        base == s.base,
{
    s.base
}

/// Writes text and ends the line.
pub fn println(s: &Serial, text: &str) -> (ops: Vec<MmioOp>)
    requires
        s.base + UARTFR <= usize::MAX,
    ensures
        ops@ == bytes_ops(
            s.base as int,
            crlf(vstd::utf8::encode_utf8(text@)).push(0x0D).push(0x0A),
        ),
{
    let p = Pl011::new(s.base);
    let mut ops: Vec<MmioOp> = Vec::new();
    s.write_str(&mut ops, text);
    let ghost line = crlf(vstd::utf8::encode_utf8(text@));
    assert(ops@ =~= bytes_ops(s.base as int, line));
    p.write_byte(&mut ops, 0x0D);
    p.write_byte(&mut ops, 0x0A);
    proof {
        lemma_bytes_push(s.base as int, line, 0x0D);
        lemma_bytes_push(s.base as int, line.push(0x0D), 0x0A);
    }
    ops
}

/// No line feed goes out without a carriage return in front of it.
pub proof fn lemma_crlf(s: Seq<u8>, i: int)
    requires
        0 <= i < crlf(s).len(),
        crlf(s)[i] == 0x0A,
    ensures
        i > 0,
        crlf(s)[i - 1] == 0x0D,
    decreases s.len(),
{
    let less = crlf(s.drop_last());
    if s.last() == 0x0A {
        if i < less.len() {
            lemma_crlf(s.drop_last(), i);
        }
    } else {
        if i < less.len() {
            lemma_crlf(s.drop_last(), i);
        }
    }
}

} // verus!
