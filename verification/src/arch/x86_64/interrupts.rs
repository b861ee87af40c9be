//! The interrupt table, what each exception reports, and how each interrupt is
//! acknowledged.

use crate::arch::x86_64::gdt::DOUBLE_FAULT_IST_INDEX;
use crate::arch::x86_64::pic;
use crate::arch::x86_64::pic::{send_eoi_master, send_eoi_slave};
use crate::arch::x86_64::pit::{tick, PitState};
use crate::arch::x86_64::port::PortOp;
use crate::text;
use crate::text::{push_hex, push_hex18};
use vstd::prelude::*;

verus! {

#[derive(Clone, Copy, Debug, PartialEq, Eq, Structural)]
pub enum Handler {
    DivideError,
    Debug,
    Nmi,
    Breakpoint,
    Overflow,
    BoundRange,
    InvalidOpcode,
    DeviceNotAvailable,
    DoubleFault,
    InvalidTss,
    SegmentNotPresent,
    StackSegmentFault,
    GeneralProtectionFault,
    PageFault,
    X87FloatingPoint,
    AlignmentCheck,
    MachineCheck,
    SimdFloatingPoint,
    Virtualization,
    Timer,
    IrqMaster,
    SpuriousMaster,
    IrqSlave,
    SpuriousSlave,
}

/// The handler of a vector: exceptions where the processor has them, then the
/// sixteen lines of the interrupt controllers.
pub open spec fn handler_of(v: int) -> Option<Handler> {
    if v == 0 {
        Some(Handler::DivideError)
    } else if v == 1 {
        Some(Handler::Debug)
    } else if v == 2 {
        Some(Handler::Nmi)
    } else if v == 3 {
        Some(Handler::Breakpoint)
    } else if v == 4 {
        Some(Handler::Overflow)
    } else if v == 5 {
        Some(Handler::BoundRange)
    } else if v == 6 {
        Some(Handler::InvalidOpcode)
    } else if v == 7 {
        Some(Handler::DeviceNotAvailable)
    } else if v == 8 {
        Some(Handler::DoubleFault)
    } else if v == 10 {
        Some(Handler::InvalidTss)
    } else if v == 11 {
        Some(Handler::SegmentNotPresent)
    } else if v == 12 {
        Some(Handler::StackSegmentFault)
    } else if v == 13 {
        Some(Handler::GeneralProtectionFault)
    } else if v == 14 {
        Some(Handler::PageFault)
    } else if v == 16 {
        Some(Handler::X87FloatingPoint)
    } else if v == 17 {
        Some(Handler::AlignmentCheck)
    } else if v == 18 {
        Some(Handler::MachineCheck)
    } else if v == 19 {
        Some(Handler::SimdFloatingPoint)
    } else if v == 20 {
        Some(Handler::Virtualization)
    } else if v == 0x20 {
        Some(Handler::Timer)
    } else if 0x21 <= v <= 0x26 {
        Some(Handler::IrqMaster)
    } else if v == 0x27 {
        Some(Handler::SpuriousMaster)
    } else if 0x28 <= v <= 0x2E {
        Some(Handler::IrqSlave)
    } else if v == 0x2F {
        Some(Handler::SpuriousSlave)
    } else {
        None
    }
}

pub fn handler_for(v: u8) -> (h: Option<Handler>)
    ensures
        h == handler_of(v as int),
{
    if v == 0 {
        Some(Handler::DivideError)
    } else if v == 1 {
        Some(Handler::Debug)
    } else if v == 2 {
        Some(Handler::Nmi)
    } else if v == 3 {
        Some(Handler::Breakpoint)
    } else if v == 4 {
        Some(Handler::Overflow)
    } else if v == 5 {
        Some(Handler::BoundRange)
    } else if v == 6 {
        Some(Handler::InvalidOpcode)
    } else if v == 7 {
        Some(Handler::DeviceNotAvailable)
    } else if v == 8 {
        Some(Handler::DoubleFault)
    } else if v == 10 {
        Some(Handler::InvalidTss)
    } else if v == 11 {
        Some(Handler::SegmentNotPresent)
    } else if v == 12 {
        Some(Handler::StackSegmentFault)
    } else if v == 13 {
        Some(Handler::GeneralProtectionFault)
    } else if v == 14 {
        Some(Handler::PageFault)
    } else if v == 16 {
        Some(Handler::X87FloatingPoint)
    } else if v == 17 {
        Some(Handler::AlignmentCheck)
    } else if v == 18 {
        Some(Handler::MachineCheck)
    } else if v == 19 {
        Some(Handler::SimdFloatingPoint)
    } else if v == 20 {
        Some(Handler::Virtualization)
    } else if v == 0x20 {
        Some(Handler::Timer)
    } else if 0x21 <= v && v <= 0x26 {
        Some(Handler::IrqMaster)
    } else if v == 0x27 {
        Some(Handler::SpuriousMaster)
    } else if 0x28 <= v && v <= 0x2E {
        Some(Handler::IrqSlave)
    } else if v == 0x2F {
        Some(Handler::SpuriousSlave)
    } else {
        None
    }
}

/// One entry of the table.
#[derive(Clone, Copy, Debug, PartialEq, Eq, Structural)]
pub struct Gate {
    pub vector: u8,
    pub handler: Handler,
    /// The stack to switch to.
    pub ist: Option<u16>,
}

pub open spec fn gate_of(v: int, h: Handler) -> Gate {
    Gate {
        vector: v as u8,
        handler: h,
        ist: if h is DoubleFault {
            Some(DOUBLE_FAULT_IST_INDEX)
        } else {
            None
        },
    }
}

/// The entries of the vectors below `n`, in order.
pub open spec fn gates_below(n: nat) -> Seq<Gate>
    decreases n,
{
    if n == 0 {
        Seq::empty()
    } else {
        match handler_of(n - 1) {
            Some(h) => gates_below((n - 1) as nat).push(gate_of(n - 1, h)),
            None => gates_below((n - 1) as nat),
        }
    }
}

/// The entries to load.
pub fn init() -> (gates: Vec<Gate>)
    ensures
        gates@ == gates_below(256),
{
    let mut gates: Vec<Gate> = Vec::new();
    let mut v: usize = 0;
    while v < 256
        invariant
            v <= 256,
            gates@ == gates_below(v as nat),
        decreases 256 - v,
    {
        match handler_for(v as u8) {
            Some(h) => {
                let ist: Option<u16> = match h {
                    Handler::DoubleFault => Some(DOUBLE_FAULT_IST_INDEX),
                    _ => None,
                };
                gates.push(Gate { vector: v as u8, handler: h, ist });
            },
            None => {},
        }
        v = v + 1;
    }
    gates
}

/// The entries that another processor loads: the same.
pub fn init_ap_exception_table() -> (gates: Vec<Gate>)
    ensures
        gates@ == gates_below(256),
{
    init()
}

/// A vector has exactly one entry if it has a handler, and none else.
pub proof fn lemma_gates_complete(n: nat, v: int)
    requires
        0 <= v < n <= 256,
        handler_of(v) is Some,
    ensures
        exists|i: int|
            0 <= i < gates_below(n).len() && #[trigger] gates_below(n)[i] == gate_of(
                v,
                handler_of(v)->0,
            ),
    decreases n,
{
    if v == n - 1 {
        let g = gates_below(n);
        assert(g[g.len() - 1] == gate_of(v, handler_of(v)->0));
    } else {
        lemma_gates_complete((n - 1) as nat, v);
        let less = gates_below((n - 1) as nat);
        let i = choose|i: int|
            0 <= i < less.len() && #[trigger] less[i] == gate_of(v, handler_of(v)->0);
        assert(gates_below(n)[i] == less[i]);
    }
}

/// The entries stand in the order of their vectors, each vector once, each with the
/// handler of its vector; the double fault alone has a stack of its own.
pub proof fn lemma_gates_in_order(n: nat)
    requires
        n <= 256,
    ensures
        forall|i: int|
            #![trigger gates_below(n)[i]]
            0 <= i < gates_below(n).len() ==> {
                let g = gates_below(n)[i];
                &&& g.vector < n
                &&& handler_of(g.vector as int) == Some(g.handler)
                &&& g.ist == (if g.vector == 8 {
                    Some(DOUBLE_FAULT_IST_INDEX)
                } else {
                    None
                })
            },
        forall|i: int, j: int|
            0 <= i < j < gates_below(n).len() ==> (#[trigger] gates_below(n)[i]).vector < (
            #[trigger] gates_below(n)[j]).vector,
    decreases n,
{
    if n > 0 {
        lemma_gates_in_order((n - 1) as nat);
        let less = gates_below((n - 1) as nat);
        let all = gates_below(n);
        assert forall|i: int| 0 <= i < less.len() implies #[trigger] all[i] == less[i] by {}
    }
}

/// The processor state that an exception left on the stack. Segments and flags
/// are given as they are shown.
#[derive(Clone, Copy, Debug)]
pub struct Frame<'a> {
    pub rip: u64,
    pub rsp: u64,
    pub cs: &'a str,
    pub flags: &'a str,
    pub ss: &'a str,
}

pub open spec fn report_text(label: Seq<char>, f: Frame) -> Seq<char> {
    "\r\nEXCEPTION: "@ + label + "\r\n  RIP    = "@ + text::hex18(f.rip) + "\r\n  CS     = "@
        + f.cs@ + "\r\n  RFLAGS = "@ + f.flags@ + "\r\n  RSP    = "@ + text::hex18(f.rsp)
        + "\r\n  SS     = "@ + f.ss@ + "\n"@
}

pub open spec fn code_text(code: u64) -> Seq<char> {
    "  ERROR  = 0x"@ + text::hex(code as nat) + "\n"@
}

/// The report of an exception.
pub fn report(label: &str, f: &Frame) -> (t: String)
    ensures
        t@ == report_text(label@, *f),
{
    let mut t = "\r\nEXCEPTION: ".to_owned();
    t.append(label);
    t.append("\r\n  RIP    = ");
    push_hex18(&mut t, f.rip);
    t.append("\r\n  CS     = ");
    t.append(f.cs);
    t.append("\r\n  RFLAGS = ");
    t.append(f.flags);
    t.append("\r\n  RSP    = ");
    push_hex18(&mut t, f.rsp);
    t.append("\r\n  SS     = ");
    t.append(f.ss);
    t.append("\n");
    t
}

/// The report of an exception with an error code.
pub fn report_with_code(label: &str, f: &Frame, code: u64) -> (t: String)
    ensures
        t@ == report_text(label@, *f) + code_text(code),
{
    let mut t = report(label, f);
    let mut line = "  ERROR  = 0x".to_owned();
    push_hex(&mut line, code);
    line.append("\n");
    t.append(line.as_str());
    t
}

/// The name under which an exception is reported.
pub open spec fn label_of(h: Handler) -> Seq<char> {
    match h {
        Handler::DivideError => "DIVIDE ERROR (#DE)"@,
        Handler::Debug => "DEBUG (#DB)"@,
        Handler::Nmi => "NMI"@,
        Handler::Overflow => "OVERFLOW (#OF)"@,
        Handler::BoundRange => "BOUND RANGE EXCEEDED (#BR)"@,
        Handler::InvalidOpcode => "INVALID OPCODE (#UD)"@,
        Handler::DeviceNotAvailable => "DEVICE NOT AVAILABLE (#NM)"@,
        Handler::InvalidTss => "INVALID TSS (#TS)"@,
        Handler::SegmentNotPresent => "SEGMENT NOT PRESENT (#NP)"@,
        Handler::StackSegmentFault => "STACK SEGMENT FAULT (#SS)"@,
        Handler::GeneralProtectionFault => "GENERAL PROTECTION FAULT (#GP)"@,
        Handler::PageFault => "PAGE FAULT (#PF)"@,
        Handler::X87FloatingPoint => "x87 FLOATING POINT (#MF)"@,
        Handler::AlignmentCheck => "ALIGNMENT CHECK (#AC)"@,
        Handler::SimdFloatingPoint => "SIMD FLOATING POINT (#XM)"@,
        Handler::Virtualization => "VIRTUALIZATION (#VE)"@,
        _ => ""@,
    }
}

fn label(h: Handler) -> (l: &'static str)
    ensures
        l@ == label_of(h),
{
    match h {
        Handler::DivideError => "DIVIDE ERROR (#DE)",
        Handler::Debug => "DEBUG (#DB)",
        Handler::Nmi => "NMI",
        Handler::Overflow => "OVERFLOW (#OF)",
        Handler::BoundRange => "BOUND RANGE EXCEEDED (#BR)",
        Handler::InvalidOpcode => "INVALID OPCODE (#UD)",
        Handler::DeviceNotAvailable => "DEVICE NOT AVAILABLE (#NM)",
        Handler::InvalidTss => "INVALID TSS (#TS)",
        Handler::SegmentNotPresent => "SEGMENT NOT PRESENT (#NP)",
        Handler::StackSegmentFault => "STACK SEGMENT FAULT (#SS)",
        Handler::GeneralProtectionFault => "GENERAL PROTECTION FAULT (#GP)",
        Handler::PageFault => "PAGE FAULT (#PF)",
        Handler::X87FloatingPoint => "x87 FLOATING POINT (#MF)",
        Handler::AlignmentCheck => "ALIGNMENT CHECK (#AC)",
        Handler::SimdFloatingPoint => "SIMD FLOATING POINT (#XM)",
        Handler::Virtualization => "VIRTUALIZATION (#VE)",
        _ => "",
    }
}

/// The exception comes with an error code that is shown as a number.
pub open spec fn has_code(h: Handler) -> bool {
    h is InvalidTss || h is SegmentNotPresent || h is StackSegmentFault || h is GeneralProtectionFault || h is AlignmentCheck
}

/// What is reported of an exception.
pub open spec fn exception_text(
    h: Handler,
    f: Frame,
    code: u64,
    cr2: u64,
    fault_flags: Seq<char>,
) -> Seq<char> {
    match h {
        Handler::Breakpoint =>
            "\r\n[breakpoint handler reached — IDT live, returning to caller]\r\n  RIP    = "@
            + text::hex18(f.rip) + "\n"@,
        Handler::Nmi => "\r\nNMI received — RIP = "@ + text::hex18(f.rip) + "\n"@ + report_text(
            "NMI"@,
            f,
        ),
        Handler::PageFault => report_text("PAGE FAULT (#PF)"@, f) + ("  CR2    = "@
            + text::hex18(cr2) + "\r\n  ERROR  = "@ + fault_flags + "\n"@),
        Handler::DoubleFault => "\r\nEXCEPTION: DOUBLE FAULT (#DF)\n  RIP    = "@
            + text::hex18(f.rip) + "\r\n  ERROR  = 0x"@ + text::hex(code as nat) + "\n"@,
        Handler::MachineCheck => "\r\nEXCEPTION: MACHINE CHECK (#MC)\n  RIP = "@
            + text::hex18(f.rip) + "\n"@,
        _ => if has_code(h) {
            report_text(label_of(h), f) + code_text(code)
        } else {
            report_text(label_of(h), f)
        },
    }
}

/// The vectors of the interrupt controllers.
pub open spec fn is_irq(h: Handler) -> bool {
    h is Timer || h is IrqMaster || h is SpuriousMaster || h is IrqSlave || h is SpuriousSlave
}

/// What an exception reports, and whether the processor halts: only a breakpoint
/// returns. `cr2` is the address of a page fault and `fault_flags` its cause as
/// shown.
pub fn on_exception(h: Handler, f: &Frame, code: u64, cr2: u64, fault_flags: &str) -> (r: (
    String,
    bool,
))
    requires
        !is_irq(h),
    ensures
        r.0@ == exception_text(h, *f, code, cr2, fault_flags@),
        r.1 == !(h is Breakpoint),
{
    match h {
        Handler::Breakpoint => {
            let mut t =
                "\r\n[breakpoint handler reached — IDT live, returning to caller]\r\n  RIP    = ".to_owned();
            push_hex18(&mut t, f.rip);
            t.append("\n");
            (t, false)
        },
        Handler::Nmi => {
            let mut t = "\r\nNMI received — RIP = ".to_owned();
            push_hex18(&mut t, f.rip);
            t.append("\n");
            let rest = report("NMI", f);
            t.append(rest.as_str());
            (t, true)
        },
        Handler::PageFault => {
            let mut t = report("PAGE FAULT (#PF)", f);
            let mut line = "  CR2    = ".to_owned();
            push_hex18(&mut line, cr2);
            line.append("\r\n  ERROR  = ");
            line.append(fault_flags);
            line.append("\n");
            t.append(line.as_str());
            (t, true)
        },
        Handler::DoubleFault => {
            let mut t = "\r\nEXCEPTION: DOUBLE FAULT (#DF)\n  RIP    = ".to_owned();
            push_hex18(&mut t, f.rip);
            t.append("\r\n  ERROR  = 0x");
            push_hex(&mut t, code);
            t.append("\n");
            (t, true)
        },
        Handler::MachineCheck => {
            let mut t = "\r\nEXCEPTION: MACHINE CHECK (#MC)\n  RIP = ".to_owned();
            push_hex18(&mut t, f.rip);
            t.append("\n");
            (t, true)
        },
        Handler::InvalidTss
        | Handler::SegmentNotPresent
        | Handler::StackSegmentFault
        | Handler::GeneralProtectionFault
        | Handler::AlignmentCheck => (report_with_code(label(h), f, code), true),
        _ => (report(label(h), f), true),
    }
}

/// What an interrupt asks for.
pub struct IrqOutcome {
    pub ops: Vec<PortOp>,
    /// The network is polled, after the tick and before the acknowledgement.
    pub poll_net: bool,
}

/// How an interrupt is acknowledged: of the first controller there; of the
/// second at both; a spurious one of the first not at all, and a spurious one of
/// the second only at the first.
pub open spec fn ack_ops(h: Handler) -> Seq<PortOp> {
    match h {
        Handler::Timer => seq![pic::out8(0x20, 0x20)],
        Handler::IrqMaster => seq![pic::out8(0x20, 0x20)],
        Handler::IrqSlave => seq![pic::out8(0xA0, 0x20), pic::out8(0x20, 0x20)],
        Handler::SpuriousSlave => seq![pic::out8(0x20, 0x20)],
        _ => Seq::empty(),
    }
}

/// The sixteen lines, whose vectors start at 0x20, eight to a controller: an interrupt is
/// acknowledged at the second controller where it came from there, and at the first
/// behind it; the last line of each may be spurious, and is not acknowledged at the
/// controller that it came from.
pub proof fn lemma_lines_acknowledged(line: int)
    requires
        0 <= line < 16,
    ensures
        handler_of(0x20 + line) matches Some(h) && is_irq(h) && ack_ops(h) == (if line >= 8 && line
            != 15 {
            seq![pic::out8(0xA0, 0x20)]
        } else {
            Seq::empty()
        }) + (if line != 7 {
            seq![pic::out8(0x20, 0x20)]
        } else {
            Seq::empty()
        }) && (h is Timer <==> line == 0),
{
    let h = handler_of(0x20 + line)->0;
    assert(ack_ops(h) =~= (if line >= 8 && line != 15 {
        seq![pic::out8(0xA0, 0x20)]
    } else {
        Seq::empty()
    }) + (if line != 7 {
        seq![pic::out8(0x20, 0x20)]
    } else {
        Seq::empty()
    }));
}

/// The exceptions that come with an error code are those of the vectors 8, 10 to 14 and
/// 17; no line of the controllers shares a vector with an exception.
pub proof fn lemma_error_codes(v: int)
    requires
        handler_of(v) is Some,
    ensures
        ({
            let h = handler_of(v)->0;
            &&& has_code(h) || h is PageFault || h is DoubleFault <==> v == 8 || 10 <= v <= 14 || v
                == 17
            &&& is_irq(h) <==> 0x20 <= v <= 0x2F
            &&& h is DoubleFault <==> v == 8
            &&& h is PageFault <==> v == 14
            &&& h is Breakpoint <==> v == 3
        }),
{
}

/// Handles an interrupt of the controllers.
pub fn on_irq(h: Handler, s: &mut PitState) -> (r: IrqOutcome)
    requires
        is_irq(h),
    ensures
        r.ops@ == ack_ops(h),
        r.poll_net == h is Timer,
        final(s).ticks == (if h is Timer {
            old(s).ticks.wrapping_add(1)
        } else {
            old(s).ticks
        }),
{
    match h {
        Handler::Timer => {
            tick(s);
            IrqOutcome { ops: send_eoi_master(), poll_net: true }
        },
        Handler::IrqMaster => IrqOutcome { ops: send_eoi_master(), poll_net: false },
        Handler::IrqSlave => IrqOutcome { ops: send_eoi_slave(), poll_net: false },
        Handler::SpuriousSlave => IrqOutcome { ops: send_eoi_master(), poll_net: false },
        _ => IrqOutcome { ops: Vec::new(), poll_net: false },
    }
}

} // verus!
