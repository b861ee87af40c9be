//! The local interrupt controller: how it is enabled, how it is addressed, and
//! the interrupts that wake a processor.
//!
//! A method gives the register operations to carry out, in order.

use vstd::prelude::*;

verus! {

pub const REG_ID: usize = 0x020;

pub const REG_VERSION: usize = 0x030;

pub const REG_TPR: usize = 0x080;

pub const REG_EOI: usize = 0x0B0;

pub const REG_SVR: usize = 0x0F0;

pub const REG_ESR: usize = 0x280;

pub const REG_ICR_LOW: usize = 0x300;

pub const REG_ICR_HIGH: usize = 0x310;

pub const MSR_IA32_APIC_BASE: u32 = 0x1B;

/// Enable bit of the base register.
pub const IA32_APIC_BASE_ENABLE: u64 = 0x800;

/// Extended-mode bit of the base register.
pub const IA32_APIC_BASE_X2APIC: u64 = 0x400;

pub const MSR_X2APIC_ID: u32 = 0x802;

pub const MSR_X2APIC_VERSION: u32 = 0x803;

pub const MSR_X2APIC_TPR: u32 = 0x808;

pub const MSR_X2APIC_EOI: u32 = 0x80B;

pub const MSR_X2APIC_SVR: u32 = 0x80F;

pub const MSR_X2APIC_ESR: u32 = 0x828;

pub const MSR_X2APIC_ICR: u32 = 0x830;

/// Assert an INIT: delivery mode five, level and trigger set.
pub const ICR_INIT_ASSERT: u32 = 0xC500;

/// Take an INIT back: delivery mode five, trigger set.
pub const ICR_INIT_DEASSERT: u32 = 0x8500;

/// A start-up interrupt: delivery mode six.
pub const ICR_STARTUP: u32 = 0x600;

/// The command register is still delivering.
pub const DELIVERY_STATUS: u32 = 0x1000;

/// Software enable, and the spurious vector 0xFF.
pub const SVR_VALUE: u32 = 0x1FF;

/// One register operation.
#[allow(inconsistent_fields)]
#[derive(Clone, Copy, Debug, PartialEq, Eq, Structural)]
pub enum ApicOp {
    ReadMmio { addr: u64 },
    WriteMmio { addr: u64, value: u32 },
    ReadMsr { msr: u32 },
    WriteMsr { msr: u32, value: u64 },
    /// Reads until no bit of the mask is set.
    PollClear { addr: u64, mask: u32 },
    /// Waits at least so many microseconds.
    Delay { us: u64 },
}

#[derive(Clone, Copy, Debug, PartialEq, Eq, Structural)]
pub enum ApicMode {
    XApic,
    X2Apic,
}

/// The controller of the core that uses it.
#[derive(Clone, Copy, Debug, PartialEq, Eq, Structural)]
pub struct Apic {
    /// Where the registers are mapped; zero in extended mode.
    pub mmio_base_virt: u64,
    pub mode: ApicMode,
}

/// What was chosen at start-up.
#[derive(Clone, Copy, Debug, PartialEq, Eq, Structural)]
pub struct ApicState {
    pub lapic_virt_base: u64,
    /// Unknown until the first core chose.
    pub mode: Option<ApicMode>,
    /// Counter cycles in a microsecond; zero until asked for.
    pub tsc_cycles_per_us: u64,
}

/// The extended-mode register for a mapped register.
pub open spec fn msr_of(off: int) -> u32 {
    if off == REG_ID {
        MSR_X2APIC_ID
    } else if off == REG_VERSION {
        MSR_X2APIC_VERSION
    } else if off == REG_TPR {
        MSR_X2APIC_TPR
    } else if off == REG_EOI {
        MSR_X2APIC_EOI
    } else if off == REG_SVR {
        MSR_X2APIC_SVR
    } else if off == REG_ESR {
        MSR_X2APIC_ESR
    } else if off == REG_ICR_LOW || off == REG_ICR_HIGH {
        MSR_X2APIC_ICR
    } else {
        MSR_X2APIC_ESR
    }
}

pub fn x2apic_msr_for_mmio_offset(off: usize) -> (msr: u32)
    ensures
        msr == msr_of(off as int),
{
    if off == REG_ID {
        MSR_X2APIC_ID
    } else if off == REG_VERSION {
        MSR_X2APIC_VERSION
    } else if off == REG_TPR {
        MSR_X2APIC_TPR
    } else if off == REG_EOI {
        MSR_X2APIC_EOI
    } else if off == REG_SVR {
        MSR_X2APIC_SVR
    } else if off == REG_ESR {
        MSR_X2APIC_ESR
    } else if off == REG_ICR_LOW || off == REG_ICR_HIGH {
        MSR_X2APIC_ICR
    } else {
        MSR_X2APIC_ESR
    }
}

/// Every mapped register below 0x800 stands at 0x800 plus a sixteenth of its
/// offset, except the upper half of the command register, which is part of the
/// lower one.
pub proof fn lemma_msr_numbering(off: int)
    requires
        off == REG_ID || off == REG_VERSION || off == REG_TPR || off == REG_EOI || off == REG_SVR
            || off == REG_ESR || off == REG_ICR_LOW,
    ensures
        msr_of(off) == 0x800 + off / 16,
{
}

impl Apic {
    /// The mapped registers lie within the address space.
    pub open spec fn wf(self) -> bool {
        self.mmio_base_virt + 0x1000 <= u64::MAX
    }

    pub open spec fn write_op(self, off: int, value: u32) -> ApicOp {
        match self.mode {
            ApicMode::XApic => ApicOp::WriteMmio {
                addr: (self.mmio_base_virt + off) as u64,
                value,
            },
            ApicMode::X2Apic => ApicOp::WriteMsr { msr: msr_of(off), value: value as u64 },
        }
    }

    pub open spec fn read_op(self, off: int) -> ApicOp {
        match self.mode {
            ApicMode::XApic => ApicOp::ReadMmio { addr: (self.mmio_base_virt + off) as u64 },
            ApicMode::X2Apic => ApicOp::ReadMsr { msr: msr_of(off) },
        }
    }

    /// Reads a register.
    pub fn read(&self, off: usize) -> (op: ApicOp)
        requires
            self.wf(),
            off < 0x1000,
        ensures
            op == self.read_op(off as int),
    {
        match self.mode {
            ApicMode::XApic => ApicOp::ReadMmio { addr: self.mmio_base_virt + off as u64 },
            ApicMode::X2Apic => ApicOp::ReadMsr { msr: x2apic_msr_for_mmio_offset(off) },
        }
    }

    /// Writes a register.
    pub fn write(&self, off: usize, value: u32) -> (op: ApicOp)
        requires
            self.wf(),
            off < 0x1000,
        ensures
            op == self.write_op(off as int, value),
    {
        match self.mode {
            ApicMode::XApic => ApicOp::WriteMmio {
                addr: self.mmio_base_virt + off as u64,
                value,
            },
            ApicMode::X2Apic => ApicOp::WriteMsr {
                msr: x2apic_msr_for_mmio_offset(off),
                value: value as u64,
            },
        }
    }

    /// Enables the controller and accepts every interrupt class.
    pub open spec fn enable_ops(self) -> Seq<ApicOp> {
        seq![
            self.write_op(REG_SVR as int, SVR_VALUE),
            self.write_op(REG_TPR as int, 0),
        ]
    }

    fn enable_software_apic(&self, ops: &mut Vec<ApicOp>)
        requires
            self.wf(),
        ensures
            final(ops)@ == old(ops)@ + self.enable_ops(),
    {
        ops.push(self.write(REG_SVR, SVR_VALUE));
        ops.push(self.write(REG_TPR, 0));
        assert(ops@ =~= old(ops)@ + self.enable_ops());
    }
}

/// The base register with the controller on, in plain mode.
pub open spec fn plain_base(base: u64) -> u64 {
    (base | IA32_APIC_BASE_ENABLE) & !IA32_APIC_BASE_X2APIC
}

/// The base register with the controller off.
pub open spec fn off_base(base: u64) -> u64 {
    base & !(IA32_APIC_BASE_ENABLE | IA32_APIC_BASE_X2APIC)
}

/// The base register with the controller on, in extended mode.
pub open spec fn extended_base(base: u64) -> u64 {
    base | (IA32_APIC_BASE_ENABLE | IA32_APIC_BASE_X2APIC)
}

/// The two mode bits of the base register, and that nothing else changes.
pub proof fn lemma_base_modes(base: u64)
    ensures
        plain_base(base) & 0xC00 == 0x800,
        off_base(base) & 0xC00 == 0,
        extended_base(base) & 0xC00 == 0xC00,
        plain_base(base) & !0xC00u64 == base & !0xC00u64,
        off_base(base) & !0xC00u64 == base & !0xC00u64,
        extended_base(base) & !0xC00u64 == base & !0xC00u64,
        plain_base(off_base(base)) == plain_base(base),
{
    assert(((base | 0x800) & !0x400u64) & 0xC00 == 0x800 && (base & !(0x800u64 | 0x400)) & 0xC00
        == 0 && (base | (0x800u64 | 0x400)) & 0xC00 == 0xC00 && ((base | 0x800) & !0x400u64)
        & !0xC00u64 == base & !0xC00u64 && (base & !(0x800u64 | 0x400)) & !0xC00u64 == base
        & !0xC00u64 && (base | (0x800u64 | 0x400)) & !0xC00u64 == base & !0xC00u64 && (((base & !(
    0x800u64 | 0x400)) | 0x800) & !0x400u64) == ((base | 0x800) & !0x400u64)) by (bit_vector);
}

/// Going to plain mode: from extended mode through off.
pub open spec fn plain_mode_ops(base: u64) -> Seq<ApicOp> {
    if base & IA32_APIC_BASE_X2APIC != 0 {
        seq![
            ApicOp::WriteMsr { msr: MSR_IA32_APIC_BASE, value: off_base(base) },
            ApicOp::WriteMsr { msr: MSR_IA32_APIC_BASE, value: plain_base(off_base(base)) },
        ]
    } else {
        seq![ApicOp::WriteMsr { msr: MSR_IA32_APIC_BASE, value: plain_base(base) }]
    }
}

fn enter_plain_mode(ops: &mut Vec<ApicOp>, base: u64)
    ensures
        final(ops)@ == old(ops)@ + plain_mode_ops(base),
{
    let mut b: u64 = base;
    if b & IA32_APIC_BASE_X2APIC != 0 {
        b = b & !(IA32_APIC_BASE_ENABLE | IA32_APIC_BASE_X2APIC);
        ops.push(ApicOp::WriteMsr { msr: MSR_IA32_APIC_BASE, value: b });
    }
    b = b | IA32_APIC_BASE_ENABLE;
    b = b & !IA32_APIC_BASE_X2APIC;
    ops.push(ApicOp::WriteMsr { msr: MSR_IA32_APIC_BASE, value: b });
    assert(ops@ =~= old(ops)@ + plain_mode_ops(base));
}

/// Extended mode is chosen only where an identifier needs it.
pub open spec fn chosen_mode(x2apic_supported: bool, max_apic_id: u32) -> ApicMode {
    if x2apic_supported && max_apic_id > 0xFF {
        ApicMode::X2Apic
    } else {
        ApicMode::XApic
    }
}

impl Apic {
    /// Chooses the mode and enables the controller of the first core. `mapped` is
    /// where its registers were mapped, if that worked, and `base` what the base
    /// register holds.
    pub fn init(
        s: &mut ApicState,
        x2apic_supported: bool,
        lapic_phys: u64,
        phys_offset: u64,
        max_apic_id: u32,
        mapped: Option<u64>,
        base: u64,
    ) -> (r: (Apic, Vec<ApicOp>))
        requires
            chosen_mode(x2apic_supported, max_apic_id) is XApic ==> match mapped {
                Some(v) => v + 0x1000 <= u64::MAX,
                None => phys_offset + lapic_phys + 0x1000 <= u64::MAX,
            },
        ensures
            r.0.wf(),
            r.0.mode == chosen_mode(x2apic_supported, max_apic_id),
            r.0.mmio_base_virt == (if r.0.mode is X2Apic {
                0
            } else {
                match mapped {
                    Some(v) => v as int,
                    None => phys_offset + lapic_phys,
                }
            }),
            r.1@ == (if r.0.mode is X2Apic {
                seq![ApicOp::WriteMsr { msr: MSR_IA32_APIC_BASE, value: extended_base(base) }]
            } else {
                plain_mode_ops(base)
            }) + r.0.enable_ops(),
            *final(s) == (ApicState {
                lapic_virt_base: r.0.mmio_base_virt,
                mode: Some(r.0.mode),
                ..*old(s)
            }),
    {
        let mut ops: Vec<ApicOp> = Vec::new();
        if x2apic_supported && max_apic_id > 0xFF {
            ops.push(
                ApicOp::WriteMsr {
                    msr: MSR_IA32_APIC_BASE,
                    value: base | (IA32_APIC_BASE_ENABLE | IA32_APIC_BASE_X2APIC),
                },
            );
            s.lapic_virt_base = 0;
            s.mode = Some(ApicMode::X2Apic);
            let apic = Apic { mmio_base_virt: 0, mode: ApicMode::X2Apic };
            assert(ops@ =~= seq![
                ApicOp::WriteMsr { msr: MSR_IA32_APIC_BASE, value: extended_base(base) },
            ]);
            apic.enable_software_apic(&mut ops);
            (apic, ops)
        } else {
            let virt: u64 = match mapped {
                Some(v) => v,
                None => phys_offset + lapic_phys,
            };
            s.lapic_virt_base = virt;
            s.mode = Some(ApicMode::XApic);
            enter_plain_mode(&mut ops, base);
            assert(ops@ =~= plain_mode_ops(base));
            let apic = Apic { mmio_base_virt: virt, mode: ApicMode::XApic };
            apic.enable_software_apic(&mut ops);
            (apic, ops)
        }
    }

    /// The controller in the mode that was chosen.
    pub fn current(s: &ApicState) -> (a: Option<Apic>)
        ensures
            a == (match s.mode {
                Some(ApicMode::X2Apic) => Some(
                    Apic { mmio_base_virt: 0, mode: ApicMode::X2Apic },
                ),
                Some(ApicMode::XApic) => if s.lapic_virt_base == 0 {
                    None
                } else {
                    Some(Apic { mmio_base_virt: s.lapic_virt_base, mode: ApicMode::XApic })
                },
                None => None,
            }),
    {
        match s.mode {
            Some(ApicMode::X2Apic) => Some(Apic { mmio_base_virt: 0, mode: ApicMode::X2Apic }),
            Some(ApicMode::XApic) => if s.lapic_virt_base == 0 {
                None
            } else {
                Some(Apic { mmio_base_virt: s.lapic_virt_base, mode: ApicMode::XApic })
            },
            None => None,
        }
    }

    pub fn mode_label(&self) -> (l: &'static str)
        ensures
            l@ == (match self.mode {
                ApicMode::XApic => "xAPIC"@,
                ApicMode::X2Apic => "x2APIC"@,
            }),
    {
        match self.mode {
            ApicMode::XApic => "xAPIC",
            ApicMode::X2Apic => "x2APIC",
        }
    }

    /// Whether an interrupt can be sent to the identifier.
    pub fn can_address(&self, target_apic_id: u32) -> (b: bool)
        ensures
            b == (self.mode is X2Apic || target_apic_id <= 0xFF),
    {
        match self.mode {
            ApicMode::X2Apic => true,
            ApicMode::XApic => target_apic_id <= 0xFF,
        }
    }

    /// The identifier, from what the identifier register holds.
    pub fn id(&self, raw: u64) -> (id: u32)
        ensures
            id == (match self.mode {
                ApicMode::XApic => raw % 0x1_0000_0000 / 0x100_0000,
                ApicMode::X2Apic => raw % 0x1_0000_0000,
            }),
    {
        let low: u64 = raw % 0x1_0000_0000;
        match self.mode {
            ApicMode::XApic => (low / 0x100_0000) as u32,
            ApicMode::X2Apic => low as u32,
        }
    }

    /// The version, from what the version register holds.
    pub fn version(&self, raw: u64) -> (v: u32)
        ensures
            v == raw % 0x1_0000_0000,
    {
        (raw % 0x1_0000_0000) as u32
    }

    /// The errors, from what the error register holds.
    pub fn esr(&self, raw: u64) -> (v: u32)
        ensures
            v == raw % 0x1_0000_0000,
    {
        (raw % 0x1_0000_0000) as u32
    }

    /// Clears the error register.
    pub fn clear_esr(&self, ops: &mut Vec<ApicOp>)
        requires
            self.wf(),
        ensures
            final(ops)@ == old(ops)@.push(self.write_op(REG_ESR as int, 0)),
    {
        ops.push(self.write(REG_ESR, 0));
    }

    /// Sends the interrupt `low` to `target`. In plain mode the command register
    /// must be idle first, and the destination goes before the command.
    pub open spec fn ipi_ops(self, target: u32, low: u32) -> Seq<ApicOp> {
        match self.mode {
            ApicMode::XApic => seq![
                ApicOp::PollClear {
                    addr: (self.mmio_base_virt + REG_ICR_LOW) as u64,
                    mask: DELIVERY_STATUS,
                },
                self.write_op(REG_ICR_HIGH as int, (target % 0x100 * 0x100_0000) as u32),
                self.write_op(REG_ICR_LOW as int, low),
            ],
            ApicMode::X2Apic => seq![
                ApicOp::WriteMsr {
                    msr: MSR_X2APIC_ICR,
                    value: (target * 0x1_0000_0000 + low) as u64,
                },
            ],
        }
    }

    pub fn send_ipi_raw(&self, ops: &mut Vec<ApicOp>, target_apic_id: u32, icr_low_bits: u32)
        requires
            self.wf(),
        ensures
            final(ops)@ == old(ops)@ + self.ipi_ops(target_apic_id, icr_low_bits),
    {
        match self.mode {
            ApicMode::XApic => {
                ops.push(
                    ApicOp::PollClear {
                        addr: self.mmio_base_virt + REG_ICR_LOW as u64,
                        mask: DELIVERY_STATUS,
                    },
                );
                ops.push(self.write(REG_ICR_HIGH, target_apic_id % 0x100 * 0x100_0000));
                ops.push(self.write(REG_ICR_LOW, icr_low_bits));
            },
            ApicMode::X2Apic => {
                let icr: u64 = target_apic_id as u64 * 0x1_0000_0000 + icr_low_bits as u64;
                ops.push(ApicOp::WriteMsr { msr: MSR_X2APIC_ICR, value: icr });
            },
        }
        assert(ops@ =~= old(ops)@ + self.ipi_ops(target_apic_id, icr_low_bits));
    }

    pub fn send_init_assert(&self, ops: &mut Vec<ApicOp>, target_apic_id: u32)
        requires
            self.wf(),
        ensures
            final(ops)@ == old(ops)@ + self.ipi_ops(target_apic_id, ICR_INIT_ASSERT),
    {
        self.send_ipi_raw(ops, target_apic_id, ICR_INIT_ASSERT);
    }

    pub fn send_init_deassert(&self, ops: &mut Vec<ApicOp>, target_apic_id: u32)
        requires
            self.wf(),
        ensures
            final(ops)@ == old(ops)@ + self.ipi_ops(target_apic_id, ICR_INIT_DEASSERT),
    {
        self.send_ipi_raw(ops, target_apic_id, ICR_INIT_DEASSERT);
    }

    /// Starts the target at the page `vector`.
    pub fn send_sipi(&self, ops: &mut Vec<ApicOp>, target_apic_id: u32, vector: u8)
        requires
            self.wf(),
        ensures
            final(ops)@ == old(ops)@ + self.ipi_ops(target_apic_id, (ICR_STARTUP + vector) as u32),
    {
        self.send_ipi_raw(ops, target_apic_id, ICR_STARTUP + vector as u32);
    }

    /// Clears errors, then starts the target, then waits for it.
    pub open spec fn start_ops(self, target: u32, page: u8) -> Seq<ApicOp> {
        seq![self.write_op(REG_ESR as int, 0)] + self.ipi_ops(
            target,
            (ICR_STARTUP + page) as u32,
        ) + seq![ApicOp::Delay { us: 200 }]
    }

    /// The wake-up: INIT, a pause, INIT taken back, and the start twice.
    pub open spec fn boot_ops(self, target: u32, page: u8) -> Seq<ApicOp> {
        seq![self.write_op(REG_ESR as int, 0)] + self.ipi_ops(target, ICR_INIT_ASSERT) + seq![
            ApicOp::Delay { us: 10_000 },
        ] + self.ipi_ops(target, ICR_INIT_DEASSERT) + self.start_ops(target, page)
            + self.start_ops(target, page)
    }

    fn push_start(&self, ops: &mut Vec<ApicOp>, target_apic_id: u32, page: u8)
        requires
            self.wf(),
        ensures
            final(ops)@ == old(ops)@ + self.start_ops(target_apic_id, page),
    {
        self.clear_esr(ops);
        self.send_sipi(ops, target_apic_id, page);
        ops.push(ApicOp::Delay { us: 200 });
        assert(ops@ =~= old(ops)@ + self.start_ops(target_apic_id, page));
    }

    /// Wakes a processor into the code at the page.
    pub fn boot_ap(&self, target_apic_id: u32, trampoline_page: u8) -> (ops: Vec<ApicOp>)
        requires
            self.wf(),
        ensures
            ops@ == self.boot_ops(target_apic_id, trampoline_page),
    {
        let mut ops: Vec<ApicOp> = Vec::new();
        self.clear_esr(&mut ops);
        assert(ops@ =~= seq![self.write_op(REG_ESR as int, 0)]);
        self.send_init_assert(&mut ops, target_apic_id);
        let ghost part = ops@;
        ops.push(ApicOp::Delay { us: 10_000 });
        assert(ops@ =~= part + seq![ApicOp::Delay { us: 10_000 }]);
        self.send_init_deassert(&mut ops, target_apic_id);
        self.push_start(&mut ops, target_apic_id, trampoline_page);
        self.push_start(&mut ops, target_apic_id, trampoline_page);
        ops
    }
}

/// The identifier that an interrupt reaches, from the operations that send it.
pub open spec fn destination(ops: Seq<ApicOp>) -> int {
    if ops.len() == 3 {
        (ops[1]->WriteMmio_value as int) / 0x100_0000
    } else {
        (ops[0]->WriteMsr_value as int) / 0x1_0000_0000
    }
}

/// An interrupt reaches its target if and only if the mode can address it.
pub proof fn lemma_reaches_target(a: Apic, target: u32, low: u32)
    ensures
        destination(a.ipi_ops(target, low)) == target <==> (a.mode is X2Apic || target <= 0xFF),
{
    assert(target * 0x1_0000_0000 + low <= u64::MAX);
}

/// The register that an operation writes, by its offset among the mapped ones, and the
/// value. An extended-mode register has a sixteenth of the offset above 0x800.
pub open spec fn register_written(a: Apic, op: ApicOp) -> Option<(int, int)> {
    match op {
        ApicOp::WriteMmio { addr, value } => if a.mode is XApic {
            Some((addr - a.mmio_base_virt, value as int))
        } else {
            None
        },
        ApicOp::WriteMsr { msr, value } => if a.mode is X2Apic {
            Some(((msr - 0x800) * 16, value as int))
        } else {
            None
        },
        _ => None,
    }
}

/// In either mode a write reaches the register that it is meant for, with its value; and
/// enabling sets the enable bit with the spurious vector 0xFF, and opens all priorities.
pub proof fn lemma_registers_reached(a: Apic, off: int, value: u32)
    requires
        a.wf(),
        off == 0x20 || off == 0x30 || off == 0x80 || off == 0xB0 || off == 0xF0 || off == 0x280
            || off == 0x300,
    ensures
        register_written(a, a.write_op(off, value)) == Some((off, value as int)),
        a.enable_ops().len() == 2,
        register_written(a, a.enable_ops()[0]) == Some((0xF0int, 0x1FFint)),
        register_written(a, a.enable_ops()[1]) == Some((0x80int, 0int)),
{
}

/// Going to plain mode never goes there from extended mode at once: from extended mode
/// the controller is turned off first. Every write keeps the rest of the base register,
/// and the last leaves the controller on in plain mode.
pub proof fn lemma_plain_mode_path(base: u64)
    ensures
        ({
            let ops = plain_mode_ops(base);
            let n = ops.len() as int;
            &&& 1 <= n <= 2
            &&& n == 2 <==> base & 0x400 != 0
            &&& forall|i: int|
                0 <= i < n ==> (#[trigger] ops[i] matches ApicOp::WriteMsr { msr, value } && msr
                    == 0x1B && value & !0xC00u64 == base & !0xC00u64 && value & 0xC00 == (if i == n
                    - 1 {
                    0x800u64
                } else {
                    0
                }))
        }),
{
    lemma_base_modes(base);
    lemma_base_modes(off_base(base));
}

/// An interrupt as a processor hears it.
pub struct Heard {
    /// Microseconds since the first operation.
    pub at: int,
    pub target: int,
    /// The command word.
    pub command: int,
    /// The error register was cleared since the interrupt before.
    pub cleared: bool,
}

/// What an interrupt controller does with operations: the destination it holds, whether
/// it is known to have delivered and whether its errors are cleared, the time that has
/// passed, and the interrupts that have gone out.
pub struct Sender {
    pub destination: int,
    pub idle: bool,
    pub cleared: bool,
    pub now: int,
    pub out: Seq<Heard>,
}

pub open spec fn sent(c: Sender, target: int, command: int) -> Sender {
    Sender {
        idle: false,
        cleared: false,
        out: c.out.push(Heard { at: c.now, target, command, cleared: c.cleared }),
        ..c
    }
}

/// One operation on the controller whose registers are at `base`. Writing the lower half
/// of the command register sends, and is lost while an interrupt may still be on its
/// way; the upper byte of the upper half names the target. In extended mode both halves
/// are one register, which is always free.
pub open spec fn obeyed(base: u64, op: ApicOp, c: Sender) -> Sender {
    match op {
        ApicOp::WriteMmio { addr, value } => if addr == base + 0x310 {
            Sender { destination: value as int / 0x100_0000, ..c }
        } else if addr == base + 0x300 && c.idle {
            sent(c, c.destination, value as int)
        } else if addr == base + 0x280 {
            Sender { cleared: true, ..c }
        } else {
            c
        },
        ApicOp::WriteMsr { msr, value } => if msr == 0x830 {
            sent(c, value as int / 0x1_0000_0000, value as int % 0x1_0000_0000)
        } else if msr == 0x828 {
            Sender { cleared: true, ..c }
        } else {
            c
        },
        ApicOp::PollClear { addr, mask } => if addr == base + 0x300 && mask == 0x1000 {
            Sender { idle: true, ..c }
        } else {
            c
        },
        ApicOp::Delay { us } => Sender { now: c.now + us, ..c },
        _ => c,
    }
}

/// Operations in order.
pub open spec fn obeyed_all(base: u64, ops: Seq<ApicOp>, c: Sender) -> Sender
    decreases ops.len(),
{
    if ops.len() == 0 {
        c
    } else {
        obeyed(base, ops.last(), obeyed_all(base, ops.drop_last(), c))
    }
}

proof fn lemma_obeyed_concat(base: u64, a: Seq<ApicOp>, b: Seq<ApicOp>, c: Sender)
    ensures
        obeyed_all(base, a + b, c) == obeyed_all(base, b, obeyed_all(base, a, c)),
    decreases b.len(),
{
    if b.len() == 0 {
        assert(a + b =~= a);
    } else {
        lemma_obeyed_concat(base, a, b.drop_last(), c);
        assert((a + b).drop_last() =~= a + b.drop_last());
        assert((a + b).last() == b.last());
    }
}

proof fn lemma_obeyed_one(base: u64, op: ApicOp, c: Sender)
    ensures
        obeyed_all(base, seq![op], c) == obeyed(base, op, c),
{
    assert(seq![op].drop_last() =~= Seq::<ApicOp>::empty());
    reveal_with_fuel(obeyed_all, 2);
}

/// Sending sends one interrupt, to the target, with the command given.
pub proof fn lemma_one_interrupt(a: Apic, target: u32, low: u32, c: Sender)
    requires
        a.wf(),
        a.mode is X2Apic || target <= 0xFF,
    ensures
        ({
            let r = obeyed_all(a.mmio_base_virt, a.ipi_ops(target, low), c);
            &&& r.out == c.out.push(
                Heard {
                    at: c.now,
                    target: target as int,
                    command: low as int,
                    cleared: c.cleared,
                },
            )
            &&& r.now == c.now
            &&& !r.cleared
        }),
{
    let base = a.mmio_base_virt;
    let ops = a.ipi_ops(target, low);
    match a.mode {
        ApicMode::XApic => {
            assert(ops =~= seq![ops[0]] + seq![ops[1]] + seq![ops[2]]);
            lemma_obeyed_concat(base, seq![ops[0]], seq![ops[1]], c);
            lemma_obeyed_concat(base, seq![ops[0]] + seq![ops[1]], seq![ops[2]], c);
            let c1 = obeyed(base, ops[0], c);
            let c2 = obeyed(base, ops[1], c1);
            lemma_obeyed_one(base, ops[0], c);
            lemma_obeyed_one(base, ops[1], c1);
            lemma_obeyed_one(base, ops[2], c2);
            assert(target % 0x100 == target);
        },
        ApicMode::X2Apic => {
            assert(ops =~= seq![ops[0]]);
            lemma_obeyed_one(base, ops[0], c);
            assert(target * 0x1_0000_0000 + low <= u64::MAX);
            vstd::arithmetic::div_mod::lemma_fundamental_div_mod_converse(
                target * 0x1_0000_0000 + low,
                0x1_0000_0000,
                target as int,
                low as int,
            );
        },
    }
}

/// A register write that is no command, or a pause, sends nothing.
proof fn lemma_silent(a: Apic, op: ApicOp, c: Sender)
    requires
        a.wf(),
        op == a.write_op(REG_ESR as int, 0) || op is Delay,
    ensures
        ({
            let r = obeyed_all(a.mmio_base_virt, seq![op], c);
            &&& r.out == c.out
            &&& r.now == c.now + (match op {
                ApicOp::Delay { us } => us as int,
                _ => 0,
            })
            &&& r.cleared == (c.cleared || !(op is Delay))
        }),
{
    lemma_obeyed_one(a.mmio_base_virt, op, c);
}

/// The wake-up of a processor that the mode can address, as it is heard: INIT asserted;
/// ten milliseconds later INIT taken back and a start at the page; a fifth of a
/// millisecond later the start again, and as long a pause. Errors are cleared before
/// the INIT and before each start.
pub proof fn lemma_wake_up_heard(a: Apic, target: u32, page: u8, c: Sender)
    requires
        a.wf(),
        a.mode is X2Apic || target <= 0xFF,
    ensures
        ({
            let r = obeyed_all(a.mmio_base_virt, a.boot_ops(target, page), c);
            let t = target as int;
            &&& r.out == c.out + seq![
                Heard { at: c.now, target: t, command: 0xC500, cleared: true },
                Heard { at: c.now + 10_000, target: t, command: 0x8500, cleared: false },
                Heard { at: c.now + 10_000, target: t, command: 0x600 + page, cleared: true },
                Heard { at: c.now + 10_200, target: t, command: 0x600 + page, cleared: true },
            ]
            &&& r.now == c.now + 10_400
        }),
{
    let base = a.mmio_base_virt;
    let clear = seq![a.write_op(REG_ESR as int, 0)];
    let init = a.ipi_ops(target, ICR_INIT_ASSERT);
    let pause = seq![ApicOp::Delay { us: 10_000 }];
    let back = a.ipi_ops(target, ICR_INIT_DEASSERT);
    let start = a.start_ops(target, page);
    lemma_obeyed_concat(base, clear, init, c);
    lemma_obeyed_concat(base, clear + init, pause, c);
    lemma_obeyed_concat(base, clear + init + pause, back, c);
    lemma_obeyed_concat(base, clear + init + pause + back, start, c);
    lemma_obeyed_concat(base, clear + init + pause + back + start, start, c);
    lemma_silent(a, clear[0], c);
    let c1 = obeyed_all(base, clear, c);
    lemma_one_interrupt(a, target, ICR_INIT_ASSERT, c1);
    let c2 = obeyed_all(base, init, c1);
    lemma_silent(a, pause[0], c2);
    let c3 = obeyed_all(base, pause, c2);
    lemma_one_interrupt(a, target, ICR_INIT_DEASSERT, c3);
    let c4 = obeyed_all(base, back, c3);
    lemma_start_heard(a, target, page, c4);
    let c5 = obeyed_all(base, start, c4);
    lemma_start_heard(a, target, page, c5);
}

proof fn lemma_start_heard(a: Apic, target: u32, page: u8, c: Sender)
    requires
        a.wf(),
        a.mode is X2Apic || target <= 0xFF,
    ensures
        ({
            let r = obeyed_all(a.mmio_base_virt, a.start_ops(target, page), c);
            &&& r.out == c.out.push(
                Heard {
                    at: c.now,
                    target: target as int,
                    command: 0x600 + page,
                    cleared: true,
                },
            )
            &&& r.now == c.now + 200
        }),
{
    let base = a.mmio_base_virt;
    let clear = seq![a.write_op(REG_ESR as int, 0)];
    let ipi = a.ipi_ops(target, (ICR_STARTUP + page) as u32);
    let pause = seq![ApicOp::Delay { us: 200 }];
    lemma_obeyed_concat(base, clear, ipi, c);
    lemma_obeyed_concat(base, clear + ipi, pause, c);
    lemma_silent(a, clear[0], c);
    let c1 = obeyed_all(base, clear, c);
    lemma_one_interrupt(a, target, (ICR_STARTUP + page) as u32, c1);
    lemma_silent(a, pause[0], obeyed_all(base, ipi, c1));
}

/// The mode that is chosen can address every identifier up to the highest, where
/// extended mode is supported or not needed.
pub proof fn lemma_chosen_mode_addresses(x2apic_supported: bool, max_apic_id: u32, target: u32)
    requires
        x2apic_supported || max_apic_id <= 0xFF,
        target <= max_apic_id,
    ensures
        chosen_mode(x2apic_supported, max_apic_id) is X2Apic || target <= 0xFF,
{
}

/// Enables the controller of the running core in the mode that was chosen.
/// `base` is what its base register holds.
pub fn enable_current_core(s: &ApicState, base: u64) -> (ops: Vec<ApicOp>)
    requires
        s.lapic_virt_base + 0x1000 <= u64::MAX,
    ensures
        ops@ == (match s.mode {
            Some(ApicMode::X2Apic) => seq![
                ApicOp::WriteMsr { msr: MSR_IA32_APIC_BASE, value: extended_base(base) },
                ApicOp::WriteMsr { msr: MSR_X2APIC_SVR, value: SVR_VALUE as u64 },
                ApicOp::WriteMsr { msr: MSR_X2APIC_TPR, value: 0 },
            ],
            Some(ApicMode::XApic) => if s.lapic_virt_base == 0 {
                Seq::empty()
            } else {
                plain_mode_ops(base) + (Apic {
                    mmio_base_virt: s.lapic_virt_base,
                    mode: ApicMode::XApic,
                }).enable_ops()
            },
            None => Seq::empty(),
        }),
{
    let mut ops: Vec<ApicOp> = Vec::new();
    match s.mode {
        Some(ApicMode::X2Apic) => {
            ops.push(
                ApicOp::WriteMsr {
                    msr: MSR_IA32_APIC_BASE,
                    value: base | (IA32_APIC_BASE_ENABLE | IA32_APIC_BASE_X2APIC),
                },
            );
            ops.push(ApicOp::WriteMsr { msr: MSR_X2APIC_SVR, value: SVR_VALUE as u64 });
            ops.push(ApicOp::WriteMsr { msr: MSR_X2APIC_TPR, value: 0 });
            assert(ops@ =~= seq![
                ApicOp::WriteMsr { msr: MSR_IA32_APIC_BASE, value: extended_base(base) },
                ApicOp::WriteMsr { msr: MSR_X2APIC_SVR, value: SVR_VALUE as u64 },
                ApicOp::WriteMsr { msr: MSR_X2APIC_TPR, value: 0 },
            ]);
        },
        Some(ApicMode::XApic) => match Apic::current(s) {
            Some(apic) => {
                enter_plain_mode(&mut ops, base);
                assert(ops@ =~= plain_mode_ops(base));
                apic.enable_software_apic(&mut ops);
            },
            None => {},
        },
        None => {},
    }
    ops
}

/// Counter cycles in a microsecond, at least one; worked out from the frequency
/// once and then remembered.
pub fn tsc_cycles_per_us(s: &mut ApicState, hz: u64) -> (n: u64)
    ensures
        n == (if old(s).tsc_cycles_per_us != 0 {
            old(s).tsc_cycles_per_us
        } else if hz / 1_000_000 > 1 {
            hz / 1_000_000
        } else {
            1
        }),
        n > 0,
        *final(s) == (ApicState { tsc_cycles_per_us: n, ..*old(s) }),
{
    if s.tsc_cycles_per_us != 0 {
        return s.tsc_cycles_per_us;
    }
    let floor: u64 = hz / 1_000_000;
    let per_us: u64 = if floor > 1 {
        floor
    } else {
        1
    };
    s.tsc_cycles_per_us = per_us;
    per_us
}

/// Whether a wait of `us` microseconds that began at `start` is over at `now`.
/// The counter may wrap; a wait too long to count is as long as can be counted.
pub fn delay_microseconds(per_us: u64, us: u64, start: u64, now: u64) -> (done: bool)
    ensures
        done == ({
            let passed = if now >= start {
                now - start
            } else {
                now - start + 0x1_0000_0000_0000_0000
            };
            let budget = if per_us * us <= u64::MAX {
                per_us * us
            } else {
                u64::MAX as int
            };
            passed >= budget
        }),
{
    let budget: u64 = match per_us.checked_mul(us) {
        Some(b) => b,
        None => u64::MAX,
    };
    now.wrapping_sub(start) >= budget
}

/// The identifier of the running core, from what its identifier register holds;
/// zero before a mode was chosen.
pub fn current_apic_id(s: &ApicState, raw: u64) -> (id: u32)
    ensures
        id == (match s.mode {
            Some(ApicMode::X2Apic) => raw % 0x1_0000_0000,
            Some(ApicMode::XApic) => if s.lapic_virt_base == 0 {
                0
            } else {
                raw % 0x1_0000_0000 / 0x100_0000
            },
            None => 0,
        }),
{
    match Apic::current(s) {
        Some(a) => a.id(raw),
        None => 0,
    }
}

} // verus!
