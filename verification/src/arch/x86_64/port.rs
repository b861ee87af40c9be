//! Operations on I/O ports, to be carried out in order.

use vstd::prelude::*;

verus! {

#[derive(Clone, Copy, Debug, PartialEq, Eq, Structural)]
pub enum PortOp {
    /// Writes one byte.
    Out8 { port: u16, byte: u8 },
    /// Writes one 32-bit word.
    Out32 { port: u16, value: u32 },
    /// Reads one byte.
    In8 { port: u16 },
    /// Reads one 32-bit word.
    In32 { port: u16 },
    /// Reads bytes until one has a bit of the mask set.
    PollSet8 { port: u16, mask: u8 },
}

} // verus!
