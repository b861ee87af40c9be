//! The first serial port.

use crate::arch::x86_64::pic;
use crate::arch::x86_64::port::PortOp;
use vstd::prelude::*;

verus! {

pub const COM1: u16 = 0x3F8;

/// Writes to the port. What is written is also shown by the frame buffer console.
#[derive(Clone, Copy, Debug, PartialEq, Eq, Structural)]
pub struct Serial;

/// Waits until the port takes a byte, and hands it over, for each byte.
pub open spec fn tx_ops(bytes: Seq<u8>) -> Seq<PortOp> {
    Seq::new(
        2 * bytes.len(),
        |i: int|
            if i % 2 == 0 {
                PortOp::PollSet8 { port: 0x3FD, mask: 0x20 }
            } else {
                PortOp::Out8 { port: COM1, byte: bytes[i / 2] }
            },
    )
}

impl Serial {
    /// Writes text as it is.
    pub fn write_str(&self, ops: &mut Vec<PortOp>, s: &str)
        ensures
            final(ops)@ == old(ops)@ + tx_ops(vstd::utf8::encode_utf8(s@)),
    {
        let bytes: &[u8] = s.as_bytes();
        let ghost all = tx_ops(bytes@);
        let mut i: usize = 0;
        assert(ops@ =~= old(ops)@ + all.take(0));
        while i < bytes.len()
            invariant
                i <= bytes@.len(),
                all == tx_ops(bytes@),
                ops@ == old(ops)@ + all.take(2 * i),
            decreases bytes@.len() - i,
        {
            assert(all[2 * i] == (PortOp::PollSet8 { port: 0x3FD, mask: 0x20 }));
            assert(all[2 * i + 1] == (PortOp::Out8 { port: COM1, byte: bytes@[i as int] }));
            ops.push(PortOp::PollSet8 { port: COM1 + 5, mask: 0x20 });
            ops.push(PortOp::Out8 { port: COM1, byte: bytes[i] });
            i = i + 1;
            assert(ops@ =~= old(ops)@ + all.take(2 * i));
        }
        assert(all.take(2 * i as int) =~= all);
    }
}

/// Sets the port up: 115200 baud, eight bits, no parity, one stop bit.
pub open spec fn init_ops() -> Seq<PortOp> {
    seq![
        pic::out8(0x3F9, 0x00),
        pic::out8(0x3FB, 0x80),
        pic::out8(0x3F8, 0x01),
        pic::out8(0x3F9, 0x00),
        pic::out8(0x3FB, 0x03),
        pic::out8(0x3FA, 0xC7),
        pic::out8(0x3FC, 0x0B),
    ]
}

/// Sets the port up: 115200 baud, eight bits, no parity, one stop bit.
pub fn init() -> (ops: Vec<PortOp>)
    ensures
        ops@ == init_ops(),
{
    let mut ops: Vec<PortOp> = Vec::new();
    ops.push(PortOp::Out8 { port: COM1 + 1, byte: 0x00 });
    ops.push(PortOp::Out8 { port: COM1 + 3, byte: 0x80 });
    ops.push(PortOp::Out8 { port: COM1, byte: 0x01 });
    ops.push(PortOp::Out8 { port: COM1 + 1, byte: 0x00 });
    ops.push(PortOp::Out8 { port: COM1 + 3, byte: 0x03 });
    ops.push(PortOp::Out8 { port: COM1 + 2, byte: 0xC7 });
    ops.push(PortOp::Out8 { port: COM1 + 4, byte: 0x0B });
    assert(ops@ =~= init_ops());
    ops
}

/// What the port holds.
pub struct Uart {
    pub divisor_low: u8,
    pub divisor_high: u8,
    pub interrupts: u8,
    pub queue: u8,
    /// Its upper bit puts the divisor in the place of data and interrupts.
    pub line: u8,
    pub modem: u8,
    /// Bytes that went out.
    pub out: Seq<u8>,
}

/// The port after an operation.
pub open spec fn obeyed(u: Uart, op: PortOp) -> Uart {
    match op {
        PortOp::Out8 { port, byte } => if port == 0x3F8 {
            if u.line >= 0x80 {
                Uart { divisor_low: byte, ..u }
            } else {
                Uart { out: u.out.push(byte), ..u }
            }
        } else if port == 0x3F9 {
            if u.line >= 0x80 {
                Uart { divisor_high: byte, ..u }
            } else {
                Uart { interrupts: byte, ..u }
            }
        } else if port == 0x3FA {
            Uart { queue: byte, ..u }
        } else if port == 0x3FB {
            Uart { line: byte, ..u }
        } else if port == 0x3FC {
            Uart { modem: byte, ..u }
        } else {
            u
        },
        _ => u,
    }
}

/// The port after operations.
pub open spec fn obeyed_all(u: Uart, ops: Seq<PortOp>) -> Uart
    decreases ops.len(),
{
    if ops.len() == 0 {
        u
    } else {
        obeyed(obeyed_all(u, ops.drop_last()), ops.last())
    }
}

/// From any state with the divisor out of the way, the port ends up at its full rate of
/// 115200 baud, with eight bits, no parity and one stop bit, without interrupts, and
/// nothing has gone out.
pub proof fn lemma_set_up(u: Uart)
    requires
        u.line < 0x80,
    ensures
        obeyed_all(u, init_ops()) == (Uart {
            divisor_low: 1,
            divisor_high: 0,
            interrupts: 0,
            queue: 0xC7,
            line: 3,
            modem: 0x0B,
            out: u.out,
        }),
{
    let s = init_ops();
    reveal_with_fuel(obeyed_all, 8);
    assert(s.drop_last() =~= s.take(6));
    assert(s.take(6).drop_last() =~= s.take(5));
    assert(s.take(5).drop_last() =~= s.take(4));
    assert(s.take(4).drop_last() =~= s.take(3));
    assert(s.take(3).drop_last() =~= s.take(2));
    assert(s.take(2).drop_last() =~= s.take(1));
    assert(s.take(1).drop_last() =~= s.take(0));
}

/// Writes text and ends the line.
pub fn println(s: &str) -> (ops: Vec<PortOp>)
    ensures
        ops@ == tx_ops(vstd::utf8::encode_utf8(s@)) + tx_ops(vstd::utf8::encode_utf8("\r\n"@)),
{
    let ser = Serial;
    let mut ops: Vec<PortOp> = Vec::new();
    ser.write_str(&mut ops, s);
    assert(ops@ =~= tx_ops(vstd::utf8::encode_utf8(s@)));
    ser.write_str(&mut ops, "\r\n");
    ops
}

/// The bytes that operations hand to the port.
pub open spec fn sent(ops: Seq<PortOp>) -> Seq<u8>
    decreases ops.len(),
{
    if ops.len() == 0 {
        Seq::empty()
    } else {
        match ops.last() {
            PortOp::Out8 { port, byte } => if port == COM1 {
                sent(ops.drop_last()).push(byte)
            } else {
                sent(ops.drop_last())
            },
            _ => sent(ops.drop_last()),
        }
    }
}

/// Every byte of the text goes out, once and in order.
pub proof fn lemma_all_sent(bytes: Seq<u8>)
    ensures
        sent(tx_ops(bytes)) == bytes,
    decreases bytes.len(),
{
    let ops = tx_ops(bytes);
    if bytes.len() > 0 {
        let n = bytes.len() as int;
        let less = bytes.drop_last();
        lemma_all_sent(less);
        assert(ops.last() == (PortOp::Out8 { port: COM1, byte: bytes[n - 1] })) by {
            assert((2 * n - 1) % 2 == 1 && (2 * n - 1) / 2 == n - 1);
        }
        let a = ops.drop_last();
        assert(a.last() == (PortOp::PollSet8 { port: 0x3FD, mask: 0x20 })) by {
            assert((2 * n - 2) % 2 == 0);
        }
        assert(a.drop_last() =~= tx_ops(less));
        assert(sent(a) == less);
        assert(less.push(bytes[n - 1]) =~= bytes);
    } else {
        assert(ops.len() == 0);
        assert(bytes =~= Seq::empty());
    }
}

} // verus!
