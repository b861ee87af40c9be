//! The legacy interrupt controllers.

use crate::arch::x86_64::port::PortOp;
use vstd::prelude::*;

verus! {

pub const MASTER_CMD: u16 = 0x20;

pub const MASTER_DATA: u16 = 0x21;

pub const SLAVE_CMD: u16 = 0xA0;

pub const SLAVE_DATA: u16 = 0xA1;

/// Vector of the first line.
pub const MASTER_OFFSET: u8 = 0x20;

/// Vector of the eighth line.
pub const SLAVE_OFFSET: u8 = 0x28;

/// The end-of-interrupt command.
pub const EOI: u8 = 0x20;

pub open spec fn out8(port: u16, byte: u8) -> PortOp {
    PortOp::Out8 { port, byte }
}

/// Moves the lines to their vectors, and masks all but the timer.
pub open spec fn init_ops() -> Seq<PortOp> {
    seq![
        out8(MASTER_CMD, 0x11),
        out8(SLAVE_CMD, 0x11),
        out8(MASTER_DATA, MASTER_OFFSET),
        out8(SLAVE_DATA, SLAVE_OFFSET),
        out8(MASTER_DATA, 0x04),
        out8(SLAVE_DATA, 0x02),
        out8(MASTER_DATA, 0x01),
        out8(SLAVE_DATA, 0x01),
        out8(MASTER_DATA, 0xFE),
        out8(SLAVE_DATA, 0xFF),
    ]
}

/// Moves the lines to their vectors, and masks all but the timer.
pub fn init() -> (ops: Vec<PortOp>)
    ensures
        ops@ == init_ops(),
{
    let mut ops: Vec<PortOp> = Vec::new();
    ops.push(PortOp::Out8 { port: MASTER_CMD, byte: 0x11 });
    ops.push(PortOp::Out8 { port: SLAVE_CMD, byte: 0x11 });
    ops.push(PortOp::Out8 { port: MASTER_DATA, byte: MASTER_OFFSET });
    ops.push(PortOp::Out8 { port: SLAVE_DATA, byte: SLAVE_OFFSET });
    ops.push(PortOp::Out8 { port: MASTER_DATA, byte: 0x04 });
    ops.push(PortOp::Out8 { port: SLAVE_DATA, byte: 0x02 });
    ops.push(PortOp::Out8 { port: MASTER_DATA, byte: 0x01 });
    ops.push(PortOp::Out8 { port: SLAVE_DATA, byte: 0x01 });
    ops.push(PortOp::Out8 { port: MASTER_DATA, byte: 0xFE });
    ops.push(PortOp::Out8 { port: SLAVE_DATA, byte: 0xFF });
    assert(ops@ =~= init_ops());
    ops
}

/// What a controller holds, and which word of its initialisation it waits for; zero
/// where it waits for none.
pub struct Controller {
    pub waits_for: int,
    /// Vector of its first line.
    pub base: u8,
    /// Lines with a controller behind them; behind one, the line it is on.
    pub wiring: u8,
    pub mode: u8,
    /// Lines that are shut.
    pub mask: u8,
}

/// A controller after a byte at its command register: a byte with bit four set starts
/// the initialisation, which three bytes of data follow.
pub open spec fn commanded(c: Controller, byte: u8) -> Controller {
    if byte as int / 16 % 2 == 1 {
        Controller { waits_for: 2, mask: 0, ..c }
    } else {
        c
    }
}

/// A controller after a byte at its data register.
pub open spec fn given(c: Controller, byte: u8) -> Controller {
    if c.waits_for == 2 {
        Controller { waits_for: 3, base: byte, ..c }
    } else if c.waits_for == 3 {
        Controller { waits_for: 4, wiring: byte, ..c }
    } else if c.waits_for == 4 {
        Controller { waits_for: 0, mode: byte, ..c }
    } else {
        Controller { mask: byte, ..c }
    }
}

/// The two controllers, whose registers are at 0x20 and at 0xA0, after an operation.
pub open spec fn obeyed(c: (Controller, Controller), op: PortOp) -> (Controller, Controller) {
    match op {
        PortOp::Out8 { port, byte } => if port == 0x20 {
            (commanded(c.0, byte), c.1)
        } else if port == 0x21 {
            (given(c.0, byte), c.1)
        } else if port == 0xA0 {
            (c.0, commanded(c.1, byte))
        } else if port == 0xA1 {
            (c.0, given(c.1, byte))
        } else {
            c
        },
        _ => c,
    }
}

/// The two controllers after operations.
pub open spec fn obeyed_all(c: (Controller, Controller), ops: Seq<PortOp>) -> (
    Controller,
    Controller,
)
    decreases ops.len(),
{
    if ops.len() == 0 {
        c
    } else {
        obeyed(obeyed_all(c, ops.drop_last()), ops.last())
    }
}

/// Whatever they held: the lines of the first controller come as the vectors from 0x20
/// on, those of the second, which is on its third line, as the vectors from 0x28 on, and
/// of all of them only the first line is open.
pub proof fn lemma_lines_moved(c: (Controller, Controller))
    ensures
        ({
            let r = obeyed_all(c, init_ops());
            &&& r.0 == (Controller { waits_for: 0, base: 0x20, wiring: 4, mode: 1, mask: 0xFE })
            &&& r.1 == (Controller { waits_for: 0, base: 0x28, wiring: 2, mode: 1, mask: 0xFF })
        }),
{
    let s = init_ops();
    reveal_with_fuel(obeyed_all, 11);
    assert(s.drop_last() =~= s.take(9));
    assert(s.take(9).drop_last() =~= s.take(8));
    assert(s.take(8).drop_last() =~= s.take(7));
    assert(s.take(7).drop_last() =~= s.take(6));
    assert(s.take(6).drop_last() =~= s.take(5));
    assert(s.take(5).drop_last() =~= s.take(4));
    assert(s.take(4).drop_last() =~= s.take(3));
    assert(s.take(3).drop_last() =~= s.take(2));
    assert(s.take(2).drop_last() =~= s.take(1));
    assert(s.take(1).drop_last() =~= s.take(0));
}

/// Ends an interrupt of the first controller.
pub fn send_eoi_master() -> (ops: Vec<PortOp>)
    ensures
        ops@ == seq![out8(MASTER_CMD, EOI)],
{
    let mut ops: Vec<PortOp> = Vec::new();
    ops.push(PortOp::Out8 { port: MASTER_CMD, byte: EOI });
    ops
}

/// Ends an interrupt of the second controller, which came through the first.
pub fn send_eoi_slave() -> (ops: Vec<PortOp>)
    ensures
        ops@ == seq![out8(SLAVE_CMD, EOI), out8(MASTER_CMD, EOI)],
{
    let mut ops: Vec<PortOp> = Vec::new();
    ops.push(PortOp::Out8 { port: SLAVE_CMD, byte: EOI });
    ops.push(PortOp::Out8 { port: MASTER_CMD, byte: EOI });
    ops
}

} // verus!
