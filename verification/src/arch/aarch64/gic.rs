//! The interrupt controller.

use crate::arch::aarch64::mmio::MmioOp;
use crate::text;
use crate::text::{push_dec, push_hex};
use vstd::prelude::*;

verus! {

pub const GICD_CTLR: usize = 0x000;

pub const GICD_TYPER: usize = 0x004;

pub const GICD_ISENABLER: usize = 0x100;

pub const GICD_ICENABLER: usize = 0x180;

pub const GICC_CTLR: usize = 0x000;

pub const GICC_PMR: usize = 0x004;

pub const GICC_BPR: usize = 0x008;

pub const GICC_IAR: usize = 0x00C;

pub const GICC_EOIR: usize = 0x010;

/// No interrupt is pending.
pub const GICC_SPURIOUS: u32 = 1023;

/// Where the two halves of the controller are.
#[derive(Clone, Copy, Debug, PartialEq, Eq, Structural)]
pub struct GicState {
    pub dist: usize,
    pub cpu: usize,
}

impl GicState {
    /// The registers lie within the address space.
    pub open spec fn wf(self) -> bool {
        self.dist + 0x1000 <= usize::MAX && self.cpu + 0x1000 <= usize::MAX
    }

    pub open spec fn dist_op(self, off: int, value: u32) -> MmioOp {
        MmioOp::Write32 { addr: (self.dist + off) as usize, value }
    }

    pub open spec fn cpu_op(self, off: int, value: u32) -> MmioOp {
        MmioOp::Write32 { addr: (self.cpu + off) as usize, value }
    }
}

/// Interrupts that the controller has, by its type register.
pub open spec fn max_intid(typer: u32) -> int {
    (typer % 32 + 1) * 32
}

/// Disables the shared interrupts of the registers `[1, n)`.
pub open spec fn disable_ops(g: GicState, n: nat) -> Seq<MmioOp>
    decreases n,
{
    if n <= 1 {
        Seq::empty()
    } else {
        disable_ops(g, (n - 1) as nat).push(
            g.dist_op(GICD_ICENABLER + (n - 1) * 4, 0xFFFF_FFFF),
        )
    }
}

/// Off, all shared interrupts disabled, all priorities let through, on.
pub open spec fn init_ops(g: GicState, typer: u32) -> Seq<MmioOp> {
    seq![g.dist_op(GICD_CTLR as int, 0)] + disable_ops(g, (typer % 32 + 1) as nat) + seq![
        g.cpu_op(GICC_PMR as int, 0xFF),
        g.cpu_op(GICC_BPR as int, 0),
        g.dist_op(GICD_CTLR as int, 1),
        g.cpu_op(GICC_CTLR as int, 1),
    ]
}

pub open spec fn init_line(dist: usize, cpu: usize) -> Seq<char> {
    "Stage 8: GICv2 init dist=0x"@ + text::hex(dist as nat) + " cpu=0x"@ + text::hex(cpu as nat)
}

pub open spec fn typer_line(typer: u32) -> Seq<char> {
    "  GICD_TYPER=0x"@ + text::hex(typer as nat) + ", max INTID="@ + text::dec(
        max_intid(typer) as nat,
    )
}

/// What starting the controller takes, and the lines that report it: one before
/// its type register is read, one after, and one at the end.
pub struct GicInit {
    pub ops: Vec<MmioOp>,
    pub first: String,
    pub second: String,
    pub last: &'static str,
}

/// Starts the controller. `typer` is what its type register holds.
pub fn init(g: &mut GicState, dist_base: usize, cpu_base: usize, typer: u32) -> (r: GicInit)
    requires
        dist_base + 0x1000 <= usize::MAX,
        cpu_base + 0x1000 <= usize::MAX,
    ensures
        *final(g) == (GicState { dist: dist_base, cpu: cpu_base }),
        r.ops@ == init_ops(*final(g), typer),
        r.first@ == init_line(dist_base, cpu_base),
        r.second@ == typer_line(typer),
        r.last@ == "  GICD + GICC enabled"@,
{
    g.dist = dist_base;
    g.cpu = cpu_base;
    let mut first = "Stage 8: GICv2 init dist=0x".to_owned();
    push_hex(&mut first, dist_base as u64);
    first.append(" cpu=0x");
    push_hex(&mut first, cpu_base as u64);
    let it_lines: usize = (typer % 32) as usize;
    let max: usize = (it_lines + 1) * 32;
    let mut second = "  GICD_TYPER=0x".to_owned();
    push_hex(&mut second, typer as u64);
    second.append(", max INTID=");
    push_dec(&mut second, max as u64);
    let mut ops: Vec<MmioOp> = Vec::new();
    ops.push(MmioOp::Write32 { addr: dist_base + GICD_CTLR, value: 0 });
    let ghost head = ops@;
    let regs: usize = (max + 31) / 32;
    assert(regs == it_lines + 1);
    let mut n: usize = 1;
    assert(ops@ =~= head + disable_ops(*g, 1));
    while n < regs
        invariant
            1 <= n <= regs,
            regs <= 32,
            g.dist == dist_base,
            dist_base + 0x1000 <= usize::MAX,
            ops@ == head + disable_ops(*g, n as nat),
        decreases regs - n,
    {
        ops.push(MmioOp::Write32 { addr: dist_base + GICD_ICENABLER + n * 4, value: 0xFFFF_FFFF });
        n = n + 1;
        assert(ops@ =~= head + disable_ops(*g, n as nat));
    }
    ops.push(MmioOp::Write32 { addr: cpu_base + GICC_PMR, value: 0xFF });
    ops.push(MmioOp::Write32 { addr: cpu_base + GICC_BPR, value: 0 });
    ops.push(MmioOp::Write32 { addr: dist_base + GICD_CTLR, value: 1 });
    ops.push(MmioOp::Write32 { addr: cpu_base + GICC_CTLR, value: 1 });
    assert(ops@ =~= init_ops(*g, typer));
    GicInit { ops, first, second, last: "  GICD + GICC enabled" }
}

proof fn lemma_disable_ops(g: GicState, n: nat)
    requires
        1 <= n,
    ensures
        disable_ops(g, n).len() == n - 1,
        forall|k: int|
            0 <= k < n - 1 ==> #[trigger] disable_ops(g, n)[k] == (MmioOp::Write32 {
                addr: (g.dist + 0x180 + 4 * (k + 1)) as usize,
                value: 0xFFFF_FFFF,
            }),
    decreases n,
{
    if n > 1 {
        lemma_disable_ops(g, (n - 1) as nat);
    }
}

/// Starting the controller: the distributor is off while every shared interrupt that it
/// has is disabled, by the register and bit of the interrupt; all priorities are let
/// through before the two halves are turned on, the distributor first.
pub proof fn lemma_starts_disabled(g: GicState, typer: u32, intid: int)
    requires
        g.wf(),
        32 <= intid < 32 * (typer % 32 + 1),
    ensures
        ({
            let ops = init_ops(g, typer);
            let n = ops.len() as int;
            let reg = MmioOp::Write32 {
                addr: (g.dist + 0x180 + 4 * (intid / 32)) as usize,
                value: 0xFFFF_FFFF,
            };
            &&& n >= 5
            &&& ops[0] == (MmioOp::Write32 { addr: g.dist, value: 0 })
            &&& exists|k: int| 0 < k < n - 4 && #[trigger] ops[k] == reg
            &&& ops[n - 4] == (MmioOp::Write32 { addr: (g.cpu + 4) as usize, value: 0xFF })
            &&& ops[n - 3] == (MmioOp::Write32 { addr: (g.cpu + 8) as usize, value: 0 })
            &&& ops[n - 2] == (MmioOp::Write32 { addr: g.dist, value: 1 })
            &&& ops[n - 1] == (MmioOp::Write32 { addr: g.cpu, value: 1 })
        }),
{
    let m = (typer % 32 + 1) as nat;
    let d = disable_ops(g, m);
    lemma_disable_ops(g, m);
    let ops = init_ops(g, typer);
    let k = intid / 32;
    assert(1 <= k < m);
    assert(ops[k] == d[k - 1]);
}

/// The interrupt that an acknowledge register names.
pub fn acknowledge_irq(iar: u32) -> (intid: u32)
    ensures
        intid == iar % 1024,
{
    iar % 1024
}

/// Ends an interrupt.
pub fn end_of_interrupt(g: &GicState, intid: u32) -> (op: MmioOp)
    requires
        g.wf(),
    ensures
        op == g.cpu_op(GICC_EOIR as int, intid),
{
    MmioOp::Write32 { addr: g.cpu + GICC_EOIR, value: intid }
}

/// Enables an interrupt: one bit of one register of 32.
pub fn enable_interrupt(g: &GicState, intid: u32) -> (op: MmioOp)
    requires
        g.dist + GICD_ISENABLER + intid / 32 * 4 <= usize::MAX,
    ensures
        op == g.dist_op(GICD_ISENABLER + intid / 32 * 4, 1u32 << (intid % 32)),
{
    let reg: usize = (intid / 32) as usize;
    let bit: u32 = intid % 32;
    MmioOp::Write32 { addr: g.dist + GICD_ISENABLER + reg * 4, value: 1u32 << bit }
}

/// Enabling one interrupt enables no other: different interrupts have different
/// registers or different bits.
pub proof fn lemma_enable_apart(g: GicState, a: u32, b: u32)
    requires
        g.dist + GICD_ISENABLER + a / 32 * 4 <= usize::MAX,
        g.dist + GICD_ISENABLER + b / 32 * 4 <= usize::MAX,
        a != b,
    ensures
        g.dist_op(GICD_ISENABLER + a / 32 * 4, 1u32 << (a % 32)) != g.dist_op(
            GICD_ISENABLER + b / 32 * 4,
            1u32 << (b % 32),
        ),
        a / 32 == b / 32 ==> (1u32 << (a % 32)) & (1u32 << (b % 32)) == 0,
{
    let i = a % 32;
    let j = b % 32;
    if a / 32 == b / 32 {
        assert(i != j);
        assert((1u32 << i) & (1u32 << j) == 0 && (1u32 << i) != (1u32 << j)) by (bit_vector)
            requires
                i < 32,
                j < 32,
                i != j,
        ;
    }
}

} // verus!
