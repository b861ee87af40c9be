//! The interval timer.

use crate::arch::x86_64::pic;
use crate::arch::x86_64::port::PortOp;
use vstd::prelude::*;

verus! {

pub const CHANNEL_0_DATA: u16 = 0x40;

pub const COMMAND_REG: u16 = 0x43;

/// Input clock of the timer in Hz.
pub const PIT_HZ: u64 = 1_193_182;

pub const DIVISOR: u16 = 11_932;

/// Ticks in a second, nearly.
pub const HZ: u64 = 100;

/// The ticks so far.
#[derive(Clone, Copy, Debug, PartialEq, Eq, Structural)]
pub struct PitState {
    pub ticks: u64,
}

/// Starts the timer: square wave, low byte of the divisor first.
pub fn init() -> (ops: Vec<PortOp>)
    ensures
        ops@ == seq![
            pic::out8(COMMAND_REG, 0x36),
            pic::out8(CHANNEL_0_DATA, (DIVISOR % 0x100) as u8),
            pic::out8(CHANNEL_0_DATA, (DIVISOR / 0x100) as u8),
        ],
{
    let mut ops: Vec<PortOp> = Vec::new();
    ops.push(PortOp::Out8 { port: COMMAND_REG, byte: 0x36 });
    ops.push(PortOp::Out8 { port: CHANNEL_0_DATA, byte: (DIVISOR % 0x100) as u8 });
    ops.push(PortOp::Out8 { port: CHANNEL_0_DATA, byte: (DIVISOR / 0x100) as u8 });
    ops
}

/// The divisor gives 100 ticks a second, to within a hundredth of a percent.
pub proof fn lemma_rate()
    ensures
        HZ * DIVISOR * 9_999 <= PIT_HZ * 10_000 <= HZ * DIVISOR * 10_001,
{
}

/// Counts a tick.
pub fn tick(s: &mut PitState)
    ensures
        *final(s) == (PitState { ticks: old(s).ticks.wrapping_add(1) }),
{
    s.ticks = s.ticks.wrapping_add(1);
}

/// The ticks so far.
pub fn ticks(s: &PitState) -> (n: u64)
    ensures
        n == s.ticks,
{
    s.ticks
}

} // verus!
