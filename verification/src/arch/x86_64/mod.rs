//! x86-64 support.

use vstd::prelude::*;

pub mod acpi;
pub mod apic;
pub mod cpuinfo;
pub mod cycles;
pub mod fb_console;
pub mod firmware;
pub mod gdt;
pub mod interrupts;
pub mod iommu;
pub mod math;
pub mod pcie;
pub mod phys;
pub mod pic;
pub mod pit;
pub mod port;
pub mod serial;
pub mod trampoline;

verus! {

/// An instruction that changes or uses the interrupt flag.
#[derive(Clone, Copy, Debug, PartialEq, Eq, Structural)]
pub enum IntOp {
    Disable,
    Enable,
    /// Enables, and halts before the next interrupt can come.
    EnableAndHalt,
    Halt,
}

/// The interrupt flag after an instruction.
pub open spec fn flag_after(op: Option<IntOp>, enabled: bool) -> bool {
    match op {
        Some(IntOp::Disable) => false,
        Some(IntOp::Enable) => true,
        Some(IntOp::EnableAndHalt) => true,
        _ => enabled,
    }
}

/// What stands around a section that no interrupt may break.
#[derive(Clone, Copy, Debug, PartialEq, Eq, Structural)]
pub struct Bracket {
    pub before: Option<IntOp>,
    pub after: Option<IntOp>,
}

/// Around a section without interrupts, where they were `enabled` before: they
/// are off inside, and as before behind it.
pub fn without_interrupts(enabled: bool) -> (b: Bracket)
    ensures
        b == (if enabled {
            Bracket { before: Some(IntOp::Disable), after: Some(IntOp::Enable) }
        } else {
            Bracket { before: None, after: None }
        }),
        !flag_after(b.before, enabled),
        flag_after(b.after, false) == enabled,
{
    if enabled {
        Bracket { before: Some(IntOp::Disable), after: Some(IntOp::Enable) }
    } else {
        Bracket { before: None, after: None }
    }
}

pub fn enable_and_hlt() -> (op: IntOp)
    ensures
        op == IntOp::EnableAndHalt,
{
    IntOp::EnableAndHalt
}

pub fn interrupts_disable() -> (op: IntOp)
    ensures
        op == IntOp::Disable,
{
    IntOp::Disable
}

pub fn interrupts_enable() -> (op: IntOp)
    ensures
        op == IntOp::Enable,
{
    IntOp::Enable
}

pub fn hlt() -> (op: IntOp)
    ensures
        op == IntOp::Halt,
{
    IntOp::Halt
}

} // verus!
