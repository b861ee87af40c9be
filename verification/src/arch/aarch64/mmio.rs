//! Operations on mapped registers, to be carried out in order.

use vstd::prelude::*;

verus! {

#[derive(Clone, Copy, Debug, PartialEq, Eq, Structural)]
pub enum MmioOp {
    Write32 { addr: usize, value: u32 },
    /// Reads until no bit of the mask is set.
    PollClear32 { addr: usize, mask: u32 },
}

} // verus!
