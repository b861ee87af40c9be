//! Waking the other processors: page tables and image for their way to long
//! mode, their stacks, and the order in which they are woken.

use crate::arch::x86_64::acpi::CpuInfo;
use crate::arch::x86_64::apic::{Apic, ApicMode, ApicOp};
use crate::arch::x86_64::trampoline::image::{
    patch_image, Patches, PATCH_STACK_SLOT_OFFSET, TRAMPOLINE_PHYS, TRAMPOLINE_PROBE_MODE_OFFSET,
    TRAMPOLINE_PROBE_STAGE_OFFSET,
};
use crate::bytes;
use crate::text;
use crate::text::{push_dec, push_hex, push_line};
use vstd::prelude::*;

pub mod image;

verus! {

/// The page that start-up interrupts name.
pub const TRAMPOLINE_SIPI_VECTOR: u8 = 0x08;

/// Most the image may take.
pub const TRAMPOLINE_MAX_BYTES: usize = 4096;

/// Bytes of the stack of one core.
pub const AP_STACK_SIZE: usize = 0x1_0000;

/// Most cores.
pub const MAX_CORES: usize = 64;

/// First address that the bootstrap tables may not lie at.
pub const LOW_BOOTSTRAP_LIMIT: u64 = 0x1_0000_0000;

/// The start-up page is that of the image.
pub proof fn lemma_vector_is_page()
    ensures
        TRAMPOLINE_SIPI_VECTOR == TRAMPOLINE_PHYS / 0x1000,
        TRAMPOLINE_PHYS % 0x1000 == 0,
        TRAMPOLINE_PHYS + TRAMPOLINE_MAX_BYTES <= 0x10_0000,
{
}

/// What is remembered about waking.
#[derive(Clone, Copy, Debug, PartialEq, Eq, Structural)]
pub struct TrampolineState {
    pub installed: bool,
    /// The next stack to hand out; the first core has number zero.
    pub next_ap_slot: usize,
    pub stack_handoff: u64,
    pub bootstrap_cr3: u64,
    pub real_cr3: u64,
    pub real_cr4: u64,
    pub real_cr0: u64,
}

impl TrampolineState {
    pub fn new() -> (s: TrampolineState)
        ensures
            s == (TrampolineState {
                installed: false,
                next_ap_slot: 1,
                stack_handoff: 0,
                bootstrap_cr3: 0,
                real_cr3: 0,
                real_cr4: 0,
                real_cr0: 0,
            }),
    {
        TrampolineState {
            installed: false,
            next_ap_slot: 1,
            stack_handoff: 0,
            bootstrap_cr3: 0,
            real_cr3: 0,
            real_cr4: 0,
            real_cr0: 0,
        }
    }
}

/// What diagnostics show.
#[derive(Clone, Copy, Debug, PartialEq, Eq, Default, Structural)]
pub struct TrampolineStatus {
    pub installed: bool,
    pub phys: u64,
    pub sipi_vector: u8,
    pub bootstrap_cr3: u64,
    pub real_cr3: u64,
    pub real_cr4: u64,
    pub real_cr0: u64,
    pub raw_probe_mode: u8,
    pub raw_probe_stage: u8,
}

/// The status. `mode` and `stage` are the probe bytes of the image in memory,
/// which count only once it is there.
pub fn status(s: &TrampolineState, mode: u8, stage: u8) -> (r: TrampolineStatus)
    ensures
        r == (TrampolineStatus {
            installed: s.installed,
            phys: TRAMPOLINE_PHYS,
            sipi_vector: TRAMPOLINE_SIPI_VECTOR,
            bootstrap_cr3: s.bootstrap_cr3,
            real_cr3: s.real_cr3,
            real_cr4: s.real_cr4,
            real_cr0: s.real_cr0,
            raw_probe_mode: if s.installed {
                mode
            } else {
                0
            },
            raw_probe_stage: if s.installed {
                stage
            } else {
                0
            },
        }),
{
    TrampolineStatus {
        installed: s.installed,
        phys: TRAMPOLINE_PHYS,
        sipi_vector: TRAMPOLINE_SIPI_VECTOR,
        bootstrap_cr3: s.bootstrap_cr3,
        real_cr3: s.real_cr3,
        real_cr4: s.real_cr4,
        real_cr0: s.real_cr0,
        raw_probe_mode: if s.installed {
            mode
        } else {
            0
        },
        raw_probe_stage: if s.installed {
            stage
        } else {
            0
        },
    }
}

// Stacks.

/// End of the stack of core `core_idx`, in the stacks that begin at `arena`.
pub fn ap_stack_top_for(arena: u64, core_idx: usize) -> (top: u64)
    requires
        core_idx < MAX_CORES,
        arena + 0x40_0000 <= u64::MAX,
    ensures
        top == arena + core_idx * AP_STACK_SIZE + AP_STACK_SIZE,
{
    let below: u64 = core_idx as u64 * 0x1_0000;
    arena + below + AP_STACK_SIZE as u64
}

/// The stacks of two cores do not touch, and all lie in the arena.
pub proof fn lemma_stacks_apart(arena: int, i: int, j: int)
    requires
        0 <= i < j < MAX_CORES,
    ensures
        arena + i * AP_STACK_SIZE + AP_STACK_SIZE <= arena + j * AP_STACK_SIZE,
        arena + j * AP_STACK_SIZE + AP_STACK_SIZE <= arena + MAX_CORES * AP_STACK_SIZE,
{
}

/// Hands out the next stack, while there is one.
pub fn claim_next_ap_slot(s: &mut TrampolineState) -> (slot: Option<usize>)
    ensures
        slot == (if old(s).next_ap_slot < MAX_CORES {
            Some(old(s).next_ap_slot)
        } else {
            None
        }),
        *final(s) == (TrampolineState {
            next_ap_slot: old(s).next_ap_slot.wrapping_add(1),
            ..*old(s)
        }),
{
    let idx: usize = s.next_ap_slot;
    s.next_ap_slot = idx.wrapping_add(1);
    if idx >= MAX_CORES {
        None
    } else {
        Some(idx)
    }
}

/// A write to memory at a physical address.
#[allow(inconsistent_fields)]
#[derive(Clone, Copy, Debug, PartialEq, Eq, Structural)]
pub enum MemWrite {
    Byte { addr: u64, value: u8 },
    Word { addr: u64, value: u64 },
}

/// Hands the stack of `core_idx` to the core that is woken next: the probe
/// bytes first, then the stack slot.
pub fn prepare_next_ap_stack(
    s: &mut TrampolineState,
    arena: u64,
    core_idx: usize,
    boot_mode: u32,
    idle_stage: u8,
) -> (w: Vec<MemWrite>)
    requires
        core_idx < MAX_CORES,
        arena + 0x40_0000 <= u64::MAX,
    ensures
        *final(s) == (TrampolineState {
            stack_handoff: (arena + core_idx * AP_STACK_SIZE + AP_STACK_SIZE) as u64,
            ..*old(s)
        }),
        w@ == seq![
            MemWrite::Byte {
                addr: (TRAMPOLINE_PHYS + TRAMPOLINE_PROBE_MODE_OFFSET) as u64,
                value: (if boot_mode < 0xFF {
                    boot_mode as int
                } else {
                    0xFF
                }) as u8,
            },
            MemWrite::Byte {
                addr: (TRAMPOLINE_PHYS + TRAMPOLINE_PROBE_STAGE_OFFSET) as u64,
                value: idle_stage,
            },
            MemWrite::Word {
                addr: (TRAMPOLINE_PHYS + PATCH_STACK_SLOT_OFFSET) as u64,
                value: final(s).stack_handoff,
            },
        ],
{
    let top: u64 = ap_stack_top_for(arena, core_idx);
    s.stack_handoff = top;
    let mode: u8 = if boot_mode < 0xFF {
        boot_mode as u8
    } else {
        0xFF
    };
    let mut w: Vec<MemWrite> = Vec::new();
    w.push(
        MemWrite::Byte {
            addr: TRAMPOLINE_PHYS + TRAMPOLINE_PROBE_MODE_OFFSET as u64,
            value: mode,
        },
    );
    w.push(
        MemWrite::Byte {
            addr: TRAMPOLINE_PHYS + TRAMPOLINE_PROBE_STAGE_OFFSET as u64,
            value: idle_stage,
        },
    );
    w.push(
        MemWrite::Word { addr: TRAMPOLINE_PHYS + PATCH_STACK_SLOT_OFFSET as u64, value: top },
    );
    assert(w@ =~= seq![
        MemWrite::Byte {
            addr: (TRAMPOLINE_PHYS + TRAMPOLINE_PROBE_MODE_OFFSET) as u64,
            value: mode,
        },
        MemWrite::Byte {
            addr: (TRAMPOLINE_PHYS + TRAMPOLINE_PROBE_STAGE_OFFSET) as u64,
            value: idle_stage,
        },
        MemWrite::Word {
            addr: (TRAMPOLINE_PHYS + PATCH_STACK_SLOT_OFFSET) as u64,
            value: top,
        },
    ]);
    w
}

// Bootstrap page tables.

/// Frames for the three levels.
#[derive(Clone, Copy, Debug, PartialEq, Eq, Structural)]
pub struct LowFrames {
    pub pml4: u64,
    pub pdpt: u64,
    pub pd: u64,
}

/// The three levels, in their first entries; all other entries are zero.
#[derive(Clone, Copy, Debug, PartialEq, Eq, Structural)]
pub struct LowTables {
    /// Address of the top level.
    pub root: u64,
    pub pml4_0: u64,
    pub pdpt_0: u64,
    pub pd_0: u64,
}

/// The tables in the frames: each points to the next, present and writable, and
/// the last maps the first two MiB onto themselves.
pub open spec fn tables_in(f: LowFrames) -> LowTables {
    LowTables {
        root: f.pml4,
        pml4_0: (f.pdpt + 3) as u64,
        pdpt_0: (f.pd + 3) as u64,
        pd_0: 0x83,
    }
}

/// What is wrong with the frames.
pub open spec fn frames_fault(f: Option<LowFrames>) -> Option<Seq<char>> {
    match f {
        None => Some("low bootstrap frames unavailable"@),
        Some(f) => if f.pml4 % 0x1000 != 0 || f.pdpt % 0x1000 != 0 || f.pd % 0x1000 != 0 {
            Some("low bootstrap frame is not page-aligned"@)
        } else if f.pml4 >= LOW_BOOTSTRAP_LIMIT || f.pdpt >= LOW_BOOTSTRAP_LIMIT || f.pd
            >= LOW_BOOTSTRAP_LIMIT {
            Some("low bootstrap frame above 4 GiB"@)
        } else {
            None
        },
    }
}

/// An entry is present, and where it points.
pub open spec fn points_to(e: u64) -> Option<int> {
    if e % 2 == 1 {
        Some(e - e % 0x1000)
    } else {
        None
    }
}

/// What the entry `i` of a level holds whose first entry is `first`.
pub open spec fn level_entry(first: u64, i: int) -> u64 {
    if i == 0 {
        first
    } else {
        0
    }
}

/// The physical address of `va`, by a walk from the root through the frames.
pub open spec fn low_translate(f: LowFrames, t: LowTables, va: int) -> Option<int> {
    match points_to(level_entry(t.pml4_0, va / 0x80_0000_0000 % 512)) {
        None => None,
        Some(p) => if t.root != f.pml4 || p != f.pdpt {
            None
        } else {
            match points_to(level_entry(t.pdpt_0, va / 0x4000_0000 % 512)) {
                None => None,
                Some(q) => if q != f.pd {
                    None
                } else {
                    let e = level_entry(t.pd_0, va / 0x20_0000 % 512);
                    match points_to(e) {
                        None => None,
                        Some(_) => if e / 0x80 % 2 == 1 {
                            Some(e - e % 0x20_0000 + va % 0x20_0000)
                        } else {
                            None
                        },
                    }
                },
            }
        },
    }
}

/// The bootstrap tables map exactly the first two MiB of the first 256 TiB,
/// onto themselves: the page of the image stays where it is when paging comes on.
pub proof fn lemma_low_identity(f: LowFrames, va: int)
    requires
        frames_fault(Some(f)) is None,
        0 <= va < 0x1_0000_0000_0000,
    ensures
        low_translate(f, tables_in(f), va) == (if va < 0x20_0000 {
            Some(va)
        } else {
            None
        }),
{
    let t = tables_in(f);
    assert(points_to(t.pml4_0) == Some(f.pdpt as int));
    assert(points_to(t.pdpt_0) == Some(f.pd as int));
    assert(points_to(t.pd_0) == Some(0int));
    if va < 0x20_0000 {
        assert(va / 0x80_0000_0000 % 512 == 0);
        assert(va / 0x4000_0000 % 512 == 0);
        assert(va / 0x20_0000 % 512 == 0);
    } else if va < 0x4000_0000 {
        assert(va / 0x20_0000 % 512 == va / 0x20_0000);
    } else if va < 0x80_0000_0000 {
        assert(va / 0x4000_0000 % 512 == va / 0x4000_0000);
    } else {
        assert(va / 0x80_0000_0000 % 512 == va / 0x80_0000_0000);
    }
}

/// Whether the page at `phys` may be, and was, mapped onto itself.
pub fn ensure_low_identity_page(phys: u64, mapped: bool) -> (r: Result<(), &'static str>)
    ensures
        r is Ok <==> phys % 0x1000 == 0 && mapped,
        r matches Err(e) ==> e@ == (if phys % 0x1000 != 0 {
            "low identity page is not page-aligned"@
        } else {
            "low identity page map failed"@
        }),
{
    if phys % 0x1000 != 0 {
        return Err("low identity page is not page-aligned");
    }
    if mapped {
        Ok(())
    } else {
        Err("low identity page map failed")
    }
}

/// The bootstrap tables, or what is wrong with the frames.
pub fn build_low_bootstrap_page_tables(frames: Option<LowFrames>) -> (r: Result<
    LowTables,
    &'static str,
>)
    ensures
        match frames_fault(frames) {
            Some(m) => r matches Err(e) && e@ == m,
            None => r matches Ok(t) && t == tables_in(frames->0),
        },
{
    let f: LowFrames = match frames {
        Some(f) => f,
        None => {
            return Err("low bootstrap frames unavailable");
        },
    };
    if f.pml4 % 0x1000 != 0 || f.pdpt % 0x1000 != 0 || f.pd % 0x1000 != 0 {
        return Err("low bootstrap frame is not page-aligned");
    }
    if f.pml4 >= LOW_BOOTSTRAP_LIMIT || f.pdpt >= LOW_BOOTSTRAP_LIMIT || f.pd
        >= LOW_BOOTSTRAP_LIMIT {
        return Err("low bootstrap frame above 4 GiB");
    }
    Ok(LowTables { root: f.pml4, pml4_0: f.pdpt + 3, pdpt_0: f.pd + 3, pd_0: 0x83 })
}

// Installation.

/// What the processor that wakes the others runs with.
#[derive(Clone, Copy, Debug, PartialEq, Eq, Structural)]
pub struct BootRegs {
    pub cr3: u64,
    pub cr4: u64,
    pub cr0: u64,
    /// Where woken processors go once in long mode.
    pub entry: u64,
    /// The probe mode of an ordinary start.
    pub full_mode: u8,
    /// The probe stage before a start.
    pub idle_stage: u8,
}

/// What has to be written.
#[derive(Debug)]
pub struct Installed {
    pub tables: LowTables,
    /// The image, for its page.
    pub image: Vec<u8>,
}

/// How far installation is.
pub enum InstallStep {
    /// Map the page onto itself, add whether that worked, and ask again.
    MapPage(u64),
    Done(Result<Installed, &'static str>),
}

/// The page tables' root without its low bits.
pub fn read_cr3_value(cr3: u64) -> (root: u64)
    ensures
        root == cr3 - cr3 % 0x1000,
{
    cr3 - cr3 % 0x1000
}

pub open spec fn patches_of(regs: BootRegs, root: u64) -> Patches {
    Patches {
        entry: regs.entry,
        bootstrap_cr3: root,
        stack: 0,
        real_cr3: (regs.cr3 - regs.cr3 % 0x1000) as u64,
        real_cr4: regs.cr4,
        real_cr0: regs.cr0,
        probe_mode: regs.full_mode,
        probe_stage: regs.idle_stage,
    }
}

/// The installation step for the mappings done so far.
pub open spec fn install_outcome(frames: Option<LowFrames>, mapped: Seq<bool>) -> Result<
    Option<u64>,
    Seq<char>,
> {
    let failed = Err("low identity page map failed"@);
    if mapped.len() == 0 {
        Ok(Some(TRAMPOLINE_PHYS))
    } else if !mapped[0] {
        failed
    } else {
        match frames_fault(frames) {
            Some(m) => Err(m),
            None => {
                let f = frames->0;
                if mapped.len() == 1 {
                    Ok(Some(f.pml4))
                } else if !mapped[1] {
                    failed
                } else if mapped.len() == 2 {
                    Ok(Some(f.pdpt))
                } else if !mapped[2] {
                    failed
                } else if mapped.len() == 3 {
                    Ok(Some(f.pd))
                } else if !mapped[3] {
                    failed
                } else {
                    Ok(None)
                }
            },
        }
    }
}

/// Builds what has to be written for the others to start. `mapped` tells of the
/// pages that were asked for so far, in order.
pub fn install_trampoline(
    s: &mut TrampolineState,
    regs: &BootRegs,
    frames: Option<LowFrames>,
    mapped: &Vec<bool>,
) -> (r: InstallStep)
    ensures
        match install_outcome(frames, mapped@) {
            Ok(Some(page)) => r matches InstallStep::MapPage(p) && p == page && *final(s) == *old(s),
            Err(m) => r matches InstallStep::Done(Err(e)) && e@ == m && *final(s) == *old(s),
            Ok(None) => {
                let f = frames->0;
                &&& r matches InstallStep::Done(Ok(done))
                &&& done.tables == tables_in(f)
                &&& done.image@ == image::patched_image(patches_of(*regs, f.pml4))
                &&& *final(s) == (TrampolineState {
                    installed: true,
                    bootstrap_cr3: f.pml4,
                    real_cr3: (regs.cr3 - regs.cr3 % 0x1000) as u64,
                    real_cr4: regs.cr4,
                    real_cr0: regs.cr0,
                    ..*old(s)
                })
            },
        },
{
    if mapped.len() == 0 {
        return InstallStep::MapPage(TRAMPOLINE_PHYS);
    }
    match ensure_low_identity_page(TRAMPOLINE_PHYS, mapped[0]) {
        Ok(_) => {},
        Err(e) => {
            return InstallStep::Done(Err(e));
        },
    }
    let tables: LowTables = match build_low_bootstrap_page_tables(frames) {
        Ok(t) => t,
        Err(e) => {
            return InstallStep::Done(Err(e));
        },
    };
    let f: LowFrames = match frames {
        Some(f) => f,
        None => {
            return InstallStep::Done(Err("low bootstrap frames unavailable"));
        },
    };
    let pages: [u64; 3] = [f.pml4, f.pdpt, f.pd];
    let mut k: usize = 0;
    while k < 3
        invariant
            k <= 3,
            mapped@.len() >= k + 1,
            forall|j: int| 0 <= j <= k ==> #[trigger] mapped@[j],
            frames == Some(f),
            frames_fault(frames) is None,
            pages@ == seq![f.pml4, f.pdpt, f.pd],
            *s == *old(s),
        decreases 3 - k,
    {
        if mapped.len() == k + 1 {
            return InstallStep::MapPage(pages[k]);
        }
        match ensure_low_identity_page(pages[k], mapped[k + 1]) {
            Ok(_) => {},
            Err(e) => {
                return InstallStep::Done(Err(e));
            },
        }
        k = k + 1;
    }
    assert(mapped@[0] && mapped@[1] && mapped@[2] && mapped@[3]);
    let root: u64 = read_cr3_value(regs.cr3);
    let image: Vec<u8> = patch_image(
        &Patches {
            entry: regs.entry,
            bootstrap_cr3: tables.root,
            stack: 0,
            real_cr3: root,
            real_cr4: regs.cr4,
            real_cr0: regs.cr0,
            probe_mode: regs.full_mode,
            probe_stage: regs.idle_stage,
        },
    );
    s.bootstrap_cr3 = tables.root;
    s.real_cr3 = root;
    s.real_cr4 = regs.cr4;
    s.real_cr0 = regs.cr0;
    s.installed = true;
    InstallStep::Done(Ok(Installed { tables, image }))
}

/// How mapping a page onto itself went.
#[derive(Clone, Copy, Debug, PartialEq, Eq, Structural)]
pub enum IdentityMapOutcome {
    /// It was mapped so already.
    Verified,
    /// It is mapped so now.
    Installed,
}

/// Reports how mapping the image's page went. `outcome` holds the name of the
/// error where it failed.
pub fn ensure_trampoline_identity_mapped(outcome: Result<IdentityMapOutcome, &str>) -> (r: (
    bool,
    String,
))
    ensures
        r.0 == outcome is Ok,
        r.1@ == "ADR-029 P3: trampoline identity map at 0x"@ + text::hex(TRAMPOLINE_PHYS as nat)
            + (match outcome {
            Ok(IdentityMapOutcome::Verified) => ": verified"@,
            Ok(IdentityMapOutcome::Installed) => ": installed"@,
            Err(e) => ": FAILED ("@ + e@ + ")"@,
        }),
{
    let mut line = "ADR-029 P3: trampoline identity map at 0x".to_owned();
    push_hex(&mut line, TRAMPOLINE_PHYS);
    match outcome {
        Ok(IdentityMapOutcome::Verified) => {
            line.append(": verified");
            (true, line)
        },
        Ok(IdentityMapOutcome::Installed) => {
            line.append(": installed");
            (true, line)
        },
        Err(e) => {
            let mut tail = ": FAILED (".to_owned();
            tail.append(e);
            tail.append(")");
            line.append(tail.as_str());
            (false, line)
        },
    }
}

// What a woken processor does.

/// The stages that a start can be stopped after.
#[derive(Clone, Copy, Debug, PartialEq, Eq, Structural)]
pub enum ProbeStage {
    Entry,
    Idt,
    Apic,
    Simd,
}

/// The modes that stop a start, each after its stage.
#[derive(Clone, Copy, Debug, PartialEq, Eq, Structural)]
pub struct ProbeModes {
    pub entry: u32,
    pub idt: u32,
    pub apic: u32,
    pub simd: u32,
}

#[derive(Clone, Copy, Debug, PartialEq, Eq, Structural)]
pub enum ApStep {
    /// Notes the stage.
    Mark(ProbeStage),
    /// Halts for ever.
    Park,
    LoadExceptionTable,
    EnableApic,
    EnableSimd,
    /// Claims a core number, with the topology where it is known; parks without
    /// one. Then registers and works.
    Join { with_topology: bool },
}

/// The steps in front of each stage.
pub open spec fn entry_steps(boot_mode: u32, m: ProbeModes, with_topology: bool) -> Seq<ApStep> {
    if boot_mode == m.entry {
        seq![ApStep::Mark(ProbeStage::Entry), ApStep::Park]
    } else if boot_mode == m.idt {
        seq![ApStep::LoadExceptionTable, ApStep::Mark(ProbeStage::Idt), ApStep::Park]
    } else if boot_mode == m.apic {
        seq![
            ApStep::LoadExceptionTable,
            ApStep::EnableApic,
            ApStep::Mark(ProbeStage::Apic),
            ApStep::Park,
        ]
    } else if boot_mode == m.simd {
        seq![
            ApStep::LoadExceptionTable,
            ApStep::EnableApic,
            ApStep::EnableSimd,
            ApStep::Mark(ProbeStage::Simd),
            ApStep::Park,
        ]
    } else {
        seq![
            ApStep::LoadExceptionTable,
            ApStep::EnableApic,
            ApStep::EnableSimd,
            ApStep::Join { with_topology },
        ]
    }
}

fn stop_at(steps: &mut Vec<ApStep>, stage: ProbeStage)
    ensures
        final(steps)@ == old(steps)@.push(ApStep::Mark(stage)).push(ApStep::Park),
{
    steps.push(ApStep::Mark(stage));
    steps.push(ApStep::Park);
}

/// What a woken processor does in long mode.
pub fn ap_long_mode_entry_trampoline_target(
    boot_mode: u32,
    m: &ProbeModes,
    topology_valid: bool,
) -> (steps: Vec<ApStep>)
    ensures
        steps@ == entry_steps(boot_mode, *m, topology_valid),
{
    let mut steps: Vec<ApStep> = Vec::new();
    let ghost want = entry_steps(boot_mode, *m, topology_valid);
    if boot_mode == m.entry {
        stop_at(&mut steps, ProbeStage::Entry);
        assert(steps@ =~= want);
        return steps;
    }
    steps.push(ApStep::LoadExceptionTable);
    if boot_mode == m.idt {
        stop_at(&mut steps, ProbeStage::Idt);
        assert(steps@ =~= want);
        return steps;
    }
    steps.push(ApStep::EnableApic);
    if boot_mode == m.apic {
        stop_at(&mut steps, ProbeStage::Apic);
        assert(steps@ =~= want);
        return steps;
    }
    steps.push(ApStep::EnableSimd);
    if boot_mode == m.simd {
        stop_at(&mut steps, ProbeStage::Simd);
        assert(steps@ =~= want);
        return steps;
    }
    steps.push(ApStep::Join { with_topology: topology_valid });
    assert(steps@ =~= want);
    steps
}

/// A woken processor goes through the same preparation in every mode: a mode that stops
/// at a stage does what comes before the stage, marks it, and parks; any other mode does
/// all of it and joins.
pub proof fn lemma_stops_at_stage(boot_mode: u32, m: ProbeModes, with_topology: bool, stage: int)
    requires
        0 <= stage < 4,
        boot_mode == seq![m.entry, m.idt, m.apic, m.simd][stage],
        stage > 0 ==> boot_mode != m.entry,
        stage > 1 ==> boot_mode != m.idt,
        stage > 2 ==> boot_mode != m.apic,
    ensures
        entry_steps(boot_mode, m, with_topology) == seq![
            ApStep::LoadExceptionTable,
            ApStep::EnableApic,
            ApStep::EnableSimd,
        ].take(stage) + seq![
            ApStep::Mark(
                seq![ProbeStage::Entry, ProbeStage::Idt, ProbeStage::Apic, ProbeStage::Simd][stage],
            ),
            ApStep::Park,
        ],
{
    let modes = seq![m.entry, m.idt, m.apic, m.simd];
    assert(modes[0] == m.entry && modes[1] == m.idt && modes[2] == m.apic && modes[3] == m.simd);
    assert(entry_steps(boot_mode, m, with_topology) =~= seq![
        ApStep::LoadExceptionTable,
        ApStep::EnableApic,
        ApStep::EnableSimd,
    ].take(stage) + seq![
        ApStep::Mark(
            seq![ProbeStage::Entry, ProbeStage::Idt, ProbeStage::Apic, ProbeStage::Simd][stage],
        ),
        ApStep::Park,
    ]);
}

/// Without a mode that stops, all of the preparation is done.
pub proof fn lemma_joins(boot_mode: u32, m: ProbeModes, with_topology: bool)
    requires
        boot_mode != m.entry,
        boot_mode != m.idt,
        boot_mode != m.apic,
        boot_mode != m.simd,
    ensures
        entry_steps(boot_mode, m, with_topology) == seq![
            ApStep::LoadExceptionTable,
            ApStep::EnableApic,
            ApStep::EnableSimd,
            ApStep::Join { with_topology },
        ],
{
}

/// A woken processor finds in the image what it starts with: where to go, the tables of
/// the bootstrap, and what the registers of the first processor held, the page tables'
/// root without its low bits.
pub proof fn lemma_image_carries_registers(regs: BootRegs, root: u64, img: Seq<u8>)
    requires
        img == image::patched_image(patches_of(regs, root)),
    ensures
        bytes::le64(img, image::PATCH_LME_ENTRY_OFFSET as int) == regs.entry,
        bytes::le64(img, image::PATCH_BOOTSTRAP_CR3_OFFSET as int) == root,
        bytes::le64(img, image::PATCH_STACK_SLOT_OFFSET as int) == 0,
        bytes::le64(img, image::PATCH_REAL_CR3_OFFSET as int) % 0x1000 == 0,
        bytes::le64(img, image::PATCH_REAL_CR3_OFFSET as int) <= regs.cr3 < bytes::le64(
            img,
            image::PATCH_REAL_CR3_OFFSET as int,
        ) + 0x1000,
        bytes::le64(img, image::PATCH_REAL_CR4_OFFSET as int) == regs.cr4,
        bytes::le64(img, image::PATCH_REAL_CR0_OFFSET as int) == regs.cr0,
        img[image::TRAMPOLINE_PROBE_MODE_OFFSET as int] == regs.full_mode,
        img[image::TRAMPOLINE_PROBE_STAGE_OFFSET as int] == regs.idle_stage,
{
    let p = patches_of(regs, root);
    assert(p.real_cr3 % 0x1000 == 0 && p.real_cr3 <= regs.cr3 < p.real_cr3 + 0x1000);
    image::lemma_slots_hold_patches(p);
    let cr3 = bytes::le64(img, image::PATCH_REAL_CR3_OFFSET as int);
    assert(cr3 == p.real_cr3);
}

/// Installing asks for the pages of the image and of the three tables, in this order,
/// goes on after each that could be mapped, and is done with the fourth.
pub proof fn lemma_install_order(f: LowFrames, mapped: Seq<bool>)
    requires
        frames_fault(Some(f)) is None,
    ensures
        ({
            let pages = seq![TRAMPOLINE_PHYS, f.pml4, f.pdpt, f.pd];
            let n = mapped.len() as int;
            &&& (forall|i: int| 0 <= i < n ==> #[trigger] mapped[i]) ==> install_outcome(
                Some(f),
                mapped,
            ) == Ok::<Option<u64>, Seq<char>>(
                if n < 4 {
                    Some(pages[n])
                } else {
                    None
                },
            )
            &&& (exists|i: int| 0 <= i < n && i < 4 && !#[trigger] mapped[i]) ==> install_outcome(
                Some(f),
                mapped,
            ) is Err
        }),
{
}

// Waking all.

/// Whether a processor is woken: enabled, not the one that wakes, and within
/// reach of the controller.
pub open spec fn eligible(c: CpuInfo, bsp: u32, apic: Apic) -> bool {
    c.enabled && c.apic_id != bsp && (apic.mode is X2Apic || c.apic_id <= 0xFF)
}

/// How many of the first `n` are woken at most.
pub open spec fn eligible_count(cpus: Seq<CpuInfo>, bsp: u32, apic: Apic, n: nat) -> nat
    decreases n,
{
    if n == 0 {
        0
    } else {
        eligible_count(cpus, bsp, apic, (n - 1) as nat) + (if eligible(cpus[n - 1], bsp, apic) {
            1nat
        } else {
            0
        })
    }
}

/// What came of waking one.
#[derive(Clone, Copy, Debug, PartialEq, Eq, Structural)]
pub struct ApOutcome {
    /// It registered in time.
    pub registered: bool,
    /// How far its start got.
    pub raw_stage: u8,
}

pub open spec fn mode_text(apic: Apic) -> Seq<char> {
    match apic.mode {
        ApicMode::XApic => "xAPIC"@,
        ApicMode::X2Apic => "x2APIC"@,
    }
}

pub open spec fn waking_line(limit: int, total: int, bsp: u32, apic: Apic) -> Seq<char> {
    "ADR-029 P3: waking "@ + text::dec(limit as nat) + " AP(s) via INIT-SIPI-SIPI ("@ + text::dec(
        total as nat,
    ) + " eligible, BSP apic_id="@ + text::dec(bsp as nat) + ", mode="@ + mode_text(apic) + ")"@
}

pub open spec fn unreachable_line(id: u32, apic: Apic) -> Seq<char> {
    "ADR-029 P3: AP apic_id="@ + text::dec(id as nat) + " cannot be addressed in "@ + mode_text(
        apic,
    ) + " mode — skipped"@
}

pub open spec fn silent_line(id: u32, slot: int, stage: u8) -> Seq<char> {
    "ADR-029 P3: AP apic_id="@ + text::dec(id as nat) + " (slot "@ + text::dec(slot as nat)
        + ") did not register within 100 ms — skipped (raw_stage="@ + text::dec(stage as nat)
        + ")"@
}

pub open spec fn complete_line(booted: int, failed: int, limit: int) -> Seq<char> {
    "ADR-029 P3: AP wake-up loop complete — booted="@ + text::dec(booted as nat) + " failed="@
        + text::dec(failed as nat) + " of "@ + text::dec(limit as nat) + " eligible"@
}

/// The wake-up loop so far.
#[verifier::ext_equal]
pub struct WakeView {
    pub booted: int,
    pub failed: int,
    /// The next stack.
    pub slot: int,
    pub used: int,
    /// The loop is over.
    pub stopped: bool,
    /// The processor that is to be woken next, and its stack.
    pub pending: Option<(u32, int)>,
    pub lines: Seq<Seq<char>>,
}

/// What is given for the loop.
#[verifier::ext_equal]
pub struct WakeInput {
    pub cpus: Seq<CpuInfo>,
    pub bsp: u32,
    pub apic: Apic,
    pub limit: int,
    pub outcomes: Seq<ApOutcome>,
    pub first_slot: int,
}

/// One turn of the loop.
pub open spec fn wake_one(w: WakeInput, v: WakeView, c: CpuInfo) -> WakeView {
    if v.stopped || v.pending is Some {
        v
    } else if v.booted + v.failed >= w.limit {
        WakeView { stopped: true, ..v }
    } else if !c.enabled || c.apic_id == w.bsp {
        v
    } else if !(w.apic.mode is X2Apic || c.apic_id <= 0xFF) {
        WakeView { lines: v.lines.push(unreachable_line(c.apic_id, w.apic)), ..v }
    } else if v.slot >= MAX_CORES {
        WakeView { stopped: true, slot: v.slot + 1, ..v }
    } else if v.used >= w.outcomes.len() {
        WakeView { pending: Some((c.apic_id, v.slot)), ..v }
    } else {
        let o = w.outcomes[v.used];
        if o.registered {
            WakeView { booted: v.booted + 1, slot: v.slot + 1, used: v.used + 1, ..v }
        } else {
            WakeView {
                failed: v.failed + 1,
                slot: v.slot + 1,
                used: v.used + 1,
                lines: v.lines.push(silent_line(c.apic_id, v.slot, o.raw_stage)),
                ..v
            }
        }
    }
}

/// The loop over the first `n` processors.
pub open spec fn wake_run(w: WakeInput, n: nat) -> WakeView
    decreases n,
{
    if n == 0 {
        WakeView {
            booted: 0,
            failed: 0,
            slot: w.first_slot,
            used: 0,
            stopped: false,
            pending: None,
            lines: Seq::empty(),
        }
    } else {
        wake_one(w, wake_run(w, (n - 1) as nat), w.cpus[n - 1])
    }
}

/// What is always true of the loop.
proof fn lemma_wake_bounds(w: WakeInput, n: nat)
    requires
        0 <= w.first_slot,
        0 <= w.limit,
    ensures
        ({
            let v = wake_run(w, n);
            &&& 0 <= v.booted
            &&& 0 <= v.failed
            &&& v.booted + v.failed == v.used
            &&& v.used <= w.outcomes.len()
            &&& v.used <= w.limit
            &&& v.slot <= w.first_slot + v.used + 1
            &&& v.slot >= w.first_slot + v.used
            &&& !v.stopped ==> v.slot == w.first_slot + v.used
            &&& v.used > 0 ==> w.first_slot + v.used <= MAX_CORES
            &&& v.pending matches Some(p) ==> 0 <= p.1 < MAX_CORES
        }),
    decreases n,
{
    if n > 0 {
        lemma_wake_bounds(w, (n - 1) as nat);
    }
}

/// The loop never wakes more than it may, never hands a stack out twice or
/// beyond the last, and counts every processor that it woke.
pub proof fn lemma_wake_sound(w: WakeInput, n: nat)
    requires
        1 <= w.first_slot,
        0 <= w.limit,
    ensures
        ({
            let v = wake_run(w, n);
            &&& 0 <= v.booted && 0 <= v.failed
            &&& v.booted + v.failed == v.used <= w.limit
            &&& v.used > 0 ==> w.first_slot + v.used <= MAX_CORES
            &&& v.pending matches Some(p) ==> p.1 == w.first_slot + v.used && p.1 < MAX_CORES
        }),
    decreases n,
{
    lemma_wake_bounds(w, n);
    if n > 0 {
        lemma_wake_sound(w, (n - 1) as nat);
        lemma_wake_bounds(w, (n - 1) as nat);
    }
}

/// Those of the first `n` processors that may be woken, in order.
pub open spec fn eligible_of(cpus: Seq<CpuInfo>, bsp: u32, apic: Apic, n: nat) -> Seq<CpuInfo> {
    cpus.take(n as int).filter(
        |c: CpuInfo| c.enabled && c.apic_id != bsp && (apic.mode is X2Apic || c.apic_id <= 0xFF),
    )
}

/// How many of the first `n` registered.
pub open spec fn registered_count(outcomes: Seq<ApOutcome>, n: nat) -> nat
    decreases n,
{
    if n == 0 {
        0
    } else {
        registered_count(outcomes, (n - 1) as nat) + (if outcomes[n - 1].registered {
            1nat
        } else {
            0
        })
    }
}

proof fn lemma_eligible_step(cpus: Seq<CpuInfo>, bsp: u32, apic: Apic, n: nat)
    requires
        0 < n <= cpus.len(),
    ensures
        eligible_of(cpus, bsp, apic, n) == (if eligible(cpus[n - 1], bsp, apic) {
            eligible_of(cpus, bsp, apic, (n - 1) as nat).push(cpus[n - 1])
        } else {
            eligible_of(cpus, bsp, apic, (n - 1) as nat)
        }),
        eligible_of(cpus, bsp, apic, n).len() == eligible_count(cpus, bsp, apic, n),
    decreases n,
{
    let s = cpus.take(n as int);
    assert(s.drop_last() =~= cpus.take(n - 1));
    assert(s.last() == cpus[n - 1]);
    reveal(Seq::filter);
    if n > 1 {
        lemma_eligible_step(cpus, bsp, apic, (n - 1) as nat);
    } else {
        assert(cpus.take(0) =~= Seq::<CpuInfo>::empty());
    }
}

proof fn lemma_woken_in_turn(w: WakeInput, n: nat)
    requires
        0 <= w.first_slot,
        0 <= w.limit,
        n <= w.cpus.len(),
    ensures
        ({
            let v = wake_run(w, n);
            let e = eligible_of(w.cpus, w.bsp, w.apic, n);
            &&& v.used <= e.len()
            &&& !v.stopped && v.pending is None ==> v.used == e.len()
            &&& v.stopped ==> v.pending is None && (v.used == w.limit || w.first_slot + v.used
                >= MAX_CORES)
            &&& v.pending matches Some(p) ==> v.used < e.len() && p.0 == e[v.used].apic_id && p.1
                == w.first_slot + v.used && v.used == w.outcomes.len() && v.used < w.limit
            &&& v.booted == registered_count(w.outcomes, v.used as nat)
            &&& v.booted + v.failed == v.used
        }),
    decreases n,
{
    if n == 0 {
        assert(w.cpus.take(0) =~= Seq::<CpuInfo>::empty());
        reveal(Seq::filter);
    } else {
        lemma_woken_in_turn(w, (n - 1) as nat);
        lemma_wake_bounds(w, (n - 1) as nat);
        lemma_eligible_step(w.cpus, w.bsp, w.apic, n);
    }
}

/// The loop wakes the processors that are enabled, are not the one that wakes and can be
/// addressed, one after the other, on stacks one after the other, until the limit or the
/// last stack: with outcomes for the first `k` of them it asks for the next one on the
/// next stack, and it is over as soon as no more are wanted. Those that registered are
/// counted as booted, the others that were woken as failed.
pub proof fn lemma_wakes_in_turn(w: WakeInput, max_aps: u32)
    requires
        0 <= w.first_slot,
        ({
            let total = eligible_of(w.cpus, w.bsp, w.apic, w.cpus.len()).len();
            w.limit == if total < max_aps {
                total as int
            } else {
                max_aps as int
            }
        }),
    ensures
        ({
            let v = wake_run(w, w.cpus.len());
            let e = eligible_of(w.cpus, w.bsp, w.apic, w.cpus.len());
            let k = w.outcomes.len() as int;
            let wanted = k < w.limit && w.first_slot + k < MAX_CORES;
            &&& wanted ==> v.pending == Some((e[k].apic_id, w.first_slot + k))
            &&& !wanted ==> v.pending is None && v.used <= k && (v.used == w.limit || w.first_slot
                + v.used >= MAX_CORES)
            &&& v.booted == registered_count(w.outcomes, v.used as nat)
            &&& v.failed == v.used - v.booted
        }),
{
    lemma_woken_in_turn(w, w.cpus.len());
    lemma_wake_bounds(w, w.cpus.len());
}

/// The limit is the number of those that may be woken, or the given one.
pub proof fn lemma_wake_limit(
    cpus: Seq<CpuInfo>,
    bsp: u32,
    apic: Apic,
    max_aps: u32,
    first_slot: usize,
    outcomes: Seq<ApOutcome>,
)
    ensures
        ({
            let w = wake_input(cpus, bsp, apic, max_aps, first_slot, outcomes);
            let total = eligible_of(cpus, bsp, apic, cpus.len()).len();
            w.limit == if total < max_aps {
                total as int
            } else {
                max_aps as int
            }
        }),
{
    if cpus.len() > 0 {
        lemma_eligible_step(cpus, bsp, apic, cpus.len());
    } else {
        assert(cpus.take(0) =~= Seq::<CpuInfo>::empty());
        reveal(Seq::filter);
    }
}

proof fn lemma_over_stays(w: WakeInput, n: nat, k: nat)
    requires
        n <= k,
        wake_run(w, n).stopped || wake_run(w, n).pending is Some,
    ensures
        wake_run(w, k) == wake_run(w, n),
    decreases k - n,
{
    if n < k {
        lemma_over_stays(w, n, (k - 1) as nat);
    }
}

/// What to do next.
pub enum WakeStep {
    /// Hand the stack over, run the operations, wait, add the outcome, ask again. The
    /// report so far comes with it.
    Wake { apic_id: u32, slot: usize, ops: Vec<ApicOp>, lines: Vec<String> },
    /// All is done: the number of active cores, the stack that comes next, and
    /// the report.
    Finished { active: u32, next_slot: usize, lines: Vec<String> },
}

fn mk_unreachable(id: u32, apic: &Apic) -> (line: String)
    ensures
        line@ == unreachable_line(id, *apic),
{
    let mut line = "ADR-029 P3: AP apic_id=".to_owned();
    push_dec(&mut line, id as u64);
    line.append(" cannot be addressed in ");
    line.append(apic.mode_label());
    line.append(" mode — skipped");
    line
}

fn mk_silent(id: u32, slot: usize, stage: u8) -> (line: String)
    ensures
        line@ == silent_line(id, slot as int, stage),
{
    let mut line = "ADR-029 P3: AP apic_id=".to_owned();
    push_dec(&mut line, id as u64);
    line.append(" (slot ");
    push_dec(&mut line, slot as u64);
    line.append(") did not register within 100 ms — skipped (raw_stage=");
    push_dec(&mut line, stage as u64);
    line.append(")");
    line
}

fn mk_waking(limit: u32, total: u32, bsp: u32, apic: &Apic) -> (line: String)
    ensures
        line@ == waking_line(limit as int, total as int, bsp, *apic),
{
    let mut line = "ADR-029 P3: waking ".to_owned();
    push_dec(&mut line, limit as u64);
    line.append(" AP(s) via INIT-SIPI-SIPI (");
    push_dec(&mut line, total as u64);
    line.append(" eligible, BSP apic_id=");
    push_dec(&mut line, bsp as u64);
    line.append(", mode=");
    line.append(apic.mode_label());
    line.append(")");
    line
}

fn mk_complete(booted: u32, failed: u32, limit: u32) -> (line: String)
    ensures
        line@ == complete_line(booted as int, failed as int, limit as int),
{
    let mut line = "ADR-029 P3: AP wake-up loop complete — booted=".to_owned();
    push_dec(&mut line, booted as u64);
    line.append(" failed=");
    push_dec(&mut line, failed as u64);
    line.append(" of ");
    push_dec(&mut line, limit as u64);
    line.append(" eligible");
    line
}

fn count_eligible(cpus: &[CpuInfo], bsp: u32, apic: &Apic) -> (n: u32)
    requires
        cpus@.len() <= u32::MAX,
    ensures
        n == eligible_count(cpus@, bsp, *apic, cpus@.len()),
        n <= cpus@.len(),
{
    let mut n: u32 = 0;
    let mut i: usize = 0;
    while i < cpus.len()
        invariant
            i <= cpus@.len() <= u32::MAX,
            n <= i,
            n == eligible_count(cpus@, bsp, *apic, i as nat),
        decreases cpus@.len() - i,
    {
        let c: CpuInfo = cpus[i];
        if c.enabled && c.apic_id != bsp && apic.can_address(c.apic_id) {
            n = n + 1;
        }
        i = i + 1;
    }
    n
}

pub open spec fn wake_input(
    cpus: Seq<CpuInfo>,
    bsp: u32,
    apic: Apic,
    max_aps: u32,
    first_slot: usize,
    outcomes: Seq<ApOutcome>,
) -> WakeInput {
    let total = eligible_count(cpus, bsp, apic, cpus.len());
    WakeInput {
        cpus,
        bsp,
        apic,
        limit: if total < max_aps {
            total as int
        } else {
            max_aps as int
        },
        outcomes,
        first_slot: first_slot as int,
    }
}

/// Wakes every eligible processor in turn, `max_aps` at most. `outcomes` tells
/// what came of those woken so far, in order.
pub fn boot_all_aps(
    cpus: &[CpuInfo],
    bsp_apic_id: u32,
    apic: &Apic,
    max_aps: u32,
    first_slot: usize,
    outcomes: &Vec<ApOutcome>,
) -> (r: WakeStep)
    requires
        cpus@.len() <= u32::MAX,
        apic.wf(),
        first_slot + cpus@.len() + 1 <= usize::MAX,
    ensures
        ({
            let w = wake_input(cpus@, bsp_apic_id, *apic, max_aps, first_slot, outcomes@);
            let v = wake_run(w, cpus@.len());
            let total = eligible_count(cpus@, bsp_apic_id, *apic, cpus@.len());
            match v.pending {
                Some(p) => r matches WakeStep::Wake { apic_id, slot, ops, lines } && apic_id
                    == p.0 && slot == p.1 && ops@ == apic.boot_ops(p.0, TRAMPOLINE_SIPI_VECTOR)
                    && text::views(lines@) == seq![
                    waking_line(w.limit, total as int, bsp_apic_id, *apic),
                ] + v.lines,
                None => r matches WakeStep::Finished { active, next_slot, lines } && active == 1
                    + v.booted && next_slot == v.slot && text::views(lines@) == (seq![
                    waking_line(w.limit, total as int, bsp_apic_id, *apic),
                ] + v.lines).push(complete_line(v.booted, v.failed, w.limit)),
            }
        }),
{
    let ghost w = wake_input(cpus@, bsp_apic_id, *apic, max_aps, first_slot, outcomes@);
    let total: u32 = count_eligible(cpus, bsp_apic_id, apic);
    let limit: u32 = if total < max_aps {
        total
    } else {
        max_aps
    };
    let mut lines: Vec<String> = Vec::new();
    push_line(&mut lines, mk_waking(limit, total, bsp_apic_id, apic));
    let ghost head = seq![waking_line(w.limit, total as int, bsp_apic_id, *apic)];
    let mut booted: u32 = 0;
    let mut failed: u32 = 0;
    let mut slot: usize = first_slot;
    let mut used: usize = 0;
    let mut stopped: bool = false;
    let mut i: usize = 0;
    assert(text::views(lines@) =~= head + wake_run(w, 0).lines);
    while i < cpus.len()
        invariant
            i <= cpus@.len() <= u32::MAX,
            apic.wf(),
            w == wake_input(cpus@, bsp_apic_id, *apic, max_aps, first_slot, outcomes@),
            limit == w.limit,
            total == eligible_count(cpus@, bsp_apic_id, *apic, cpus@.len()),
            head == seq![waking_line(w.limit, total as int, bsp_apic_id, *apic)],
            first_slot + cpus@.len() + 1 <= usize::MAX,
            booted + failed <= i,
            slot <= first_slot + i,
            booted == wake_run(w, i as nat).booted,
            failed == wake_run(w, i as nat).failed,
            slot == wake_run(w, i as nat).slot,
            used == wake_run(w, i as nat).used,
            stopped == wake_run(w, i as nat).stopped,
            wake_run(w, i as nat).pending is None,
            text::views(lines@) == head + wake_run(w, i as nat).lines,
        decreases cpus@.len() - i,
    {
        let c: CpuInfo = cpus[i];
        let ghost v = wake_run(w, i as nat);
        let ghost v2 = wake_run(w, (i + 1) as nat);
        assert(v2 == wake_one(w, v, c));
        proof {
            lemma_wake_bounds(w, i as nat);
        }
        if stopped {
        } else if booted + failed >= limit {
            stopped = true;
        } else if !c.enabled || c.apic_id == bsp_apic_id {
        } else if !apic.can_address(c.apic_id) {
            push_line(&mut lines, mk_unreachable(c.apic_id, apic));
        } else if slot >= MAX_CORES {
            stopped = true;
            slot = slot + 1;
        } else if used >= outcomes.len() {
            proof {
                lemma_over_stays(w, (i + 1) as nat, cpus@.len());
            }
            let ops: Vec<ApicOp> = apic.boot_ap(c.apic_id, TRAMPOLINE_SIPI_VECTOR);
            return WakeStep::Wake { apic_id: c.apic_id, slot, ops, lines };
        } else {
            let o: ApOutcome = outcomes[used];
            if o.registered {
                booted = booted + 1;
            } else {
                failed = failed + 1;
                push_line(&mut lines, mk_silent(c.apic_id, slot, o.raw_stage));
            }
            slot = slot + 1;
            used = used + 1;
        }
        i = i + 1;
        assert(text::views(lines@) =~= head + v2.lines);
    }
    proof {
        lemma_wake_bounds(w, cpus@.len());
    }
    push_line(&mut lines, mk_complete(booted, failed, limit));
    WakeStep::Finished { active: 1 + booted, next_slot: slot, lines }
}

/// Whether the wait for a woken processor is over: it registered, or a tenth of
/// a second has passed.
pub fn ap_wait_over(
    registered_before: u32,
    registered: u32,
    start: u64,
    now: u64,
    tsc_hz: u64,
) -> (r: Option<bool>)
    ensures
        r == (if registered > registered_before || (registered == u32::MAX && registered_before
            == u32::MAX) {
            Some(true)
        } else if now.wrapping_sub(start) >= tsc_hz / 10 {
            Some(false)
        } else {
            None
        }),
{
    let expected: u32 = registered_before.saturating_add(1);
    if registered >= expected {
        return Some(true);
    }
    if now.wrapping_sub(start) >= tsc_hz / 10 {
        return Some(false);
    }
    None
}

} // verus!
