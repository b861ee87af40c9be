//! 64-bit ARM support.

use vstd::prelude::*;

pub mod boot;
pub mod dtb;
pub mod exceptions;
pub mod gic;
pub mod lfb;
pub mod math;
pub mod mmio;
pub mod mmu;
pub mod serial;
pub mod timer;

verus! {

/// An instruction that changes or uses the interrupt masks.
#[derive(Clone, Copy, Debug, PartialEq, Eq, Structural)]
pub enum DaifOp {
    /// Masks all four kinds.
    MaskAll,
    /// Unmasks all four kinds.
    UnmaskAll,
    /// Sets the masks as they were.
    Restore(u64),
    /// Waits for an interrupt.
    Wait,
}

/// The masks: four bits from bit six on.
pub open spec fn masks_after(op: DaifOp, daif: u64) -> u64 {
    match op {
        DaifOp::MaskAll => 0x3C0,
        DaifOp::UnmaskAll => 0,
        DaifOp::Restore(v) => v,
        DaifOp::Wait => daif,
    }
}

/// Around a section without interrupts, where the masks were `daif` before: all
/// is masked inside, and as before behind it.
pub fn without_interrupts(daif: u64) -> (b: (DaifOp, DaifOp))
    ensures
        b == (DaifOp::MaskAll, DaifOp::Restore(daif)),
        masks_after(b.0, daif) == 0x3C0,
        masks_after(b.1, 0x3C0) == daif,
{
    (DaifOp::MaskAll, DaifOp::Restore(daif))
}

/// Unmasks, then waits.
pub fn enable_and_hlt() -> (ops: (DaifOp, DaifOp))
    ensures
        ops == (DaifOp::UnmaskAll, DaifOp::Wait),
{
    (DaifOp::UnmaskAll, DaifOp::Wait)
}

pub fn interrupts_disable() -> (op: DaifOp)
    ensures
        op == DaifOp::MaskAll,
{
    DaifOp::MaskAll
}

pub fn interrupts_enable() -> (op: DaifOp)
    ensures
        op == DaifOp::UnmaskAll,
{
    DaifOp::UnmaskAll
}

pub fn hlt() -> (op: DaifOp)
    ensures
        op == DaifOp::Wait,
{
    DaifOp::Wait
}

} // verus!
