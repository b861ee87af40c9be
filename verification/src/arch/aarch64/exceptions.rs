//! Exceptions and interrupts.

use crate::arch::aarch64::gic::{acknowledge_irq, end_of_interrupt, GicState, GICC_SPURIOUS};
use crate::arch::aarch64::mmio::MmioOp;
use crate::arch::aarch64::timer;
use crate::arch::aarch64::timer::{handle_tick, TimerState, TIMER_INTID};
use crate::text;
use crate::text::{push_dec, push_hex18, push_hex_padded};
use vstd::prelude::*;

verus! {

/// What an exception class means.
pub open spec fn class_text(ec: u64) -> Seq<char> {
    if ec == 0x00 {
        "Unknown reason"@
    } else if ec == 0x01 {
        "Trapped WFI/WFE"@
    } else if ec == 0x03 {
        "Trapped MCR/MRC (CP15)"@
    } else if ec == 0x04 {
        "Trapped MCRR/MRRC (CP15)"@
    } else if ec == 0x05 {
        "Trapped MCR/MRC (CP14)"@
    } else if ec == 0x06 {
        "Trapped LDC/STC (CP14)"@
    } else if ec == 0x07 {
        "Trapped SIMD/FP access"@
    } else if ec == 0x0C {
        "Trapped MRRC (CP14)"@
    } else if ec == 0x0E {
        "Illegal Execution state"@
    } else if ec == 0x11 {
        "SVC instruction (AArch32)"@
    } else if ec == 0x15 {
        "SVC instruction (AArch64)"@
    } else if ec == 0x18 {
        "Trapped MSR/MRS/System instruction"@
    } else if ec == 0x19 {
        "Trapped SVE access"@
    } else if ec == 0x20 {
        "Instruction Abort, lower EL"@
    } else if ec == 0x21 {
        "Instruction Abort, same EL"@
    } else if ec == 0x22 {
        "PC alignment fault"@
    } else if ec == 0x24 {
        "Data Abort, lower EL"@
    } else if ec == 0x25 {
        "Data Abort, same EL"@
    } else if ec == 0x26 {
        "SP alignment fault"@
    } else if ec == 0x28 {
        "Trapped FP exception (AArch32)"@
    } else if ec == 0x2C {
        "Trapped FP exception (AArch64)"@
    } else if ec == 0x2F {
        "SError interrupt"@
    } else if ec == 0x30 {
        "Breakpoint, lower EL"@
    } else if ec == 0x31 {
        "Breakpoint, same EL"@
    } else if ec == 0x32 {
        "Software Step, lower EL"@
    } else if ec == 0x33 {
        "Software Step, same EL"@
    } else if ec == 0x34 {
        "Watchpoint, lower EL"@
    } else if ec == 0x35 {
        "Watchpoint, same EL"@
    } else if ec == 0x38 {
        "BKPT instruction (AArch32)"@
    } else if ec == 0x3C {
        "BRK instruction (AArch64)"@
    } else {
        "Reserved/Unknown"@
    }
}

pub fn decode_exception_class(ec: u64) -> (t: &'static str)
    ensures
        t@ == class_text(ec),
{
    match ec {
        0x00 => "Unknown reason",
        0x01 => "Trapped WFI/WFE",
        0x03 => "Trapped MCR/MRC (CP15)",
        0x04 => "Trapped MCRR/MRRC (CP15)",
        0x05 => "Trapped MCR/MRC (CP14)",
        0x06 => "Trapped LDC/STC (CP14)",
        0x07 => "Trapped SIMD/FP access",
        0x0C => "Trapped MRRC (CP14)",
        0x0E => "Illegal Execution state",
        0x11 => "SVC instruction (AArch32)",
        0x15 => "SVC instruction (AArch64)",
        0x18 => "Trapped MSR/MRS/System instruction",
        0x19 => "Trapped SVE access",
        0x20 => "Instruction Abort, lower EL",
        0x21 => "Instruction Abort, same EL",
        0x22 => "PC alignment fault",
        0x24 => "Data Abort, lower EL",
        0x25 => "Data Abort, same EL",
        0x26 => "SP alignment fault",
        0x28 => "Trapped FP exception (AArch32)",
        0x2C => "Trapped FP exception (AArch64)",
        0x2F => "SError interrupt",
        0x30 => "Breakpoint, lower EL",
        0x31 => "Breakpoint, same EL",
        0x32 => "Software Step, lower EL",
        0x33 => "Software Step, same EL",
        0x34 => "Watchpoint, lower EL",
        0x35 => "Watchpoint, same EL",
        0x38 => "BKPT instruction (AArch32)",
        0x3C => "BRK instruction (AArch64)",
        _ => "Reserved/Unknown",
    }
}

/// What entry `v` of the vector table reports; none for the four interrupt
/// entries.
pub open spec fn vector_text(v: int) -> Option<Seq<char>> {
    if v == 0 {
        Some("Synchronous (Current EL, SP_EL0)"@)
    } else if v == 2 {
        Some("FIQ (Current EL, SP_EL0)"@)
    } else if v == 3 {
        Some("SError (Current EL, SP_EL0)"@)
    } else if v == 4 {
        Some("Synchronous (Current EL, SP_ELx)"@)
    } else if v == 6 {
        Some("FIQ (Current EL, SP_ELx)"@)
    } else if v == 7 {
        Some("SError (Current EL, SP_ELx)"@)
    } else if v == 8 {
        Some("Synchronous (Lower EL, AArch64)"@)
    } else if v == 10 {
        Some("FIQ (Lower EL, AArch64)"@)
    } else if v == 11 {
        Some("SError (Lower EL, AArch64)"@)
    } else if v == 12 {
        Some("Synchronous (Lower EL, AArch32)"@)
    } else if v == 14 {
        Some("FIQ (Lower EL, AArch32)"@)
    } else if v == 15 {
        Some("SError (Lower EL, AArch32)"@)
    } else {
        None
    }
}

/// The name of entry `v` of the vector table, if that entry reports and halts.
pub fn vector_label(v: u8) -> (l: Option<&'static str>)
    requires
        v < 16,
    ensures
        match vector_text(v as int) {
            Some(t) => l matches Some(s) && s@ == t,
            None => l is None,
        },
{
    match v {
        0 => Some("Synchronous (Current EL, SP_EL0)"),
        2 => Some("FIQ (Current EL, SP_EL0)"),
        3 => Some("SError (Current EL, SP_EL0)"),
        4 => Some("Synchronous (Current EL, SP_ELx)"),
        6 => Some("FIQ (Current EL, SP_ELx)"),
        7 => Some("SError (Current EL, SP_ELx)"),
        8 => Some("Synchronous (Lower EL, AArch64)"),
        10 => Some("FIQ (Lower EL, AArch64)"),
        11 => Some("SError (Lower EL, AArch64)"),
        12 => Some("Synchronous (Lower EL, AArch32)"),
        14 => Some("FIQ (Lower EL, AArch32)"),
        15 => Some("SError (Lower EL, AArch32)"),
        _ => None,
    }
}

/// Of the sixteen entries exactly every second of four is an interrupt.
pub proof fn lemma_vectors(v: int)
    requires
        0 <= v < 16,
    ensures
        vector_text(v) is None <==> v % 4 == 1,
{
}

/// The registers that describe an exception.
#[derive(Clone, Copy, Debug, PartialEq, Eq, Structural)]
pub struct ExceptionState {
    pub esr: u64,
    pub elr: u64,
    pub far: u64,
    pub spsr: u64,
}

/// The class: six bits from bit 26 on.
pub open spec fn class_of(esr: u64) -> u64 {
    esr / 0x400_0000 % 64
}

/// The report of an exception.
pub open spec fn report_text(label: Seq<char>, e: ExceptionState) -> Seq<char> {
    "\n===============================================\nAARCH64 EXCEPTION: "@ + label
        + "\n  ESR_EL1  = "@ + text::hex18(e.esr) + "\n  ELR_EL1  = "@ + text::hex18(e.elr)
        + "\n  FAR_EL1  = "@ + text::hex18(e.far) + "\n  SPSR_EL1 = "@ + text::hex18(e.spsr)
        + "\n  EC       = 0x"@ + text::pad_start(text::hex(class_of(e.esr) as nat), 2, '0') + " ("@
        + class_text(class_of(e.esr)) + ")\n===============================================\n"@
}

/// The report of an exception, after which the processor halts.
pub fn report_and_halt(label: &str, e: &ExceptionState) -> (t: String)
    ensures
        t@ == report_text(label@, *e),
{
    let ec: u64 = e.esr / 0x400_0000 % 64;
    let mut t =
        "\n===============================================\nAARCH64 EXCEPTION: ".to_owned();
    t.append(label);
    t.append("\n  ESR_EL1  = ");
    push_hex18(&mut t, e.esr);
    t.append("\n  ELR_EL1  = ");
    push_hex18(&mut t, e.elr);
    t.append("\n  FAR_EL1  = ");
    push_hex18(&mut t, e.far);
    t.append("\n  SPSR_EL1 = ");
    push_hex18(&mut t, e.spsr);
    t.append("\n  EC       = 0x");
    push_hex_padded(&mut t, ec, 2);
    t.append(" (");
    t.append(decode_exception_class(ec));
    t.append(")\n===============================================\n");
    t
}

/// What an interrupt asks for, in this order.
pub struct IrqActions {
    /// Arms the timer again.
    pub timer_value: Option<u64>,
    pub line: Option<String>,
    /// Ends the interrupt.
    pub end: Option<MmioOp>,
}

/// Handles the interrupt that the acknowledge register names: a spurious one is
/// left alone, the timer ticks, any other is reported; both are ended.
pub fn handle_irq_rust(g: &GicState, s: &mut TimerState, iar: u32) -> (r: IrqActions)
    requires
        g.wf(),
        old(s).tick_count < u64::MAX,
    ensures
        ({
            let intid = (iar % 1024) as u32;
            if intid == GICC_SPURIOUS {
                r.timer_value is None && r.line is None && r.end is None && *final(s) == *old(s)
            } else {
                &&& r.end == Some(g.cpu_op(0x010, intid))
                &&& intid == TIMER_INTID ==> r.timer_value == Some(old(s).ticks_per_period)
                    && *final(s) == (TimerState {
                    tick_count: (old(s).tick_count + 1) as u64,
                    ..*old(s)
                }) && (r.line is Some <==> (old(s).tick_count + 1) % 100 == 0) && (
                r.line matches Some(l) ==> l@ == timer::heartbeat_line(final(s).tick_count))
                &&& intid != TIMER_INTID ==> r.timer_value is None && *final(s) == *old(s) && (
                r.line matches Some(l) && l@ == "IRQ: unhandled INTID="@ + text::dec(
                    intid as nat,
                ))
            }
        }),
{
    let intid: u32 = acknowledge_irq(iar);
    if intid == GICC_SPURIOUS {
        return IrqActions { timer_value: None, line: None, end: None };
    }
    if intid == TIMER_INTID {
        let (value, line) = handle_tick(s);
        return IrqActions {
            timer_value: Some(value),
            line,
            end: Some(end_of_interrupt(g, intid)),
        };
    }
    let mut line = "IRQ: unhandled INTID=".to_owned();
    push_dec(&mut line, intid as u64);
    IrqActions { timer_value: None, line: Some(line), end: Some(end_of_interrupt(g, intid)) }
}

} // verus!
