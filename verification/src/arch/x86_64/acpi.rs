//! Processor topology from the firmware tables: the root pointer, the table of
//! tables, and the interrupt controller table.

use crate::arch::x86_64::phys::PhysMem;
use crate::bytes;
use crate::bytes::{u16_le, u32_le, u64_le};
use crate::text;
use crate::text::push_hex;
use vstd::prelude::*;

verus! {

/// Most logical processors that are recorded.
pub const MAX_CPUS: usize = 64;

/// Where the local APIC is unless firmware says otherwise.
pub const DEFAULT_LAPIC_PHYS: u64 = 0xFEE0_0000;

/// One logical processor as firmware names it.
#[derive(Clone, Copy, Debug, PartialEq, Eq, Default, Structural)]
pub struct CpuInfo {
    pub apic_id: u32,
    pub enabled: bool,
}

/// The topology that firmware reports.
#[derive(Clone, Copy, Debug)]
pub struct AcpiInfo {
    /// Physical address of the local APIC.
    pub lapic_phys_base: u64,
    /// Physical address of the first I/O APIC, zero if there is none.
    pub ioapic_phys_base: u64,
    /// Entries of `cpus` that count.
    pub cpu_count: u32,
    /// An override entry set `lapic_phys_base`.
    pub lapic_override_applied: bool,
    /// The processors; zero beyond `cpu_count`.
    pub cpus: [CpuInfo; 64],
}

#[derive(Clone, Copy, Debug, PartialEq, Eq, Structural)]
pub enum AcpiError {
    /// There is no root pointer.
    RsdpNotFound,
    RsdpChecksumBad,
    SdtSignatureBad,
    /// A table does not sum to zero.
    SdtChecksumBad,
    /// No table is the interrupt controller table.
    MadtNotFound,
    /// An entry has no length or runs beyond its table.
    MadtTruncated,
    PhysOffsetMissing,
}

/// A topology, without the room that is not used.
#[verifier::ext_equal]
pub struct Topology {
    pub lapic: u64,
    pub ioapic: u64,
    pub overridden: bool,
    pub cpus: Seq<CpuInfo>,
}

/// No two processors have the same identifier.
pub open spec fn distinct_ids(cpus: Seq<CpuInfo>) -> bool {
    forall|i: int, j: int|
        0 <= i < j < cpus.len() ==> (#[trigger] cpus[i]).apic_id != (#[trigger] cpus[j]).apic_id
}

pub open spec fn no_cpu() -> CpuInfo {
    CpuInfo { apic_id: 0, enabled: false }
}

impl AcpiInfo {
    /// The count is within the room, what lies beyond is zero, and no
    /// identifier occurs twice.
    pub open spec fn wf(self) -> bool {
        &&& self.cpu_count <= MAX_CPUS
        &&& forall|i: int| self.cpu_count <= i < 64 ==> #[trigger] self.cpus@[i] == no_cpu()
        &&& distinct_ids(self.cpus@.take(self.cpu_count as int))
    }

    pub open spec fn view(self) -> Topology {
        Topology {
            lapic: self.lapic_phys_base,
            ioapic: self.ioapic_phys_base,
            overridden: self.lapic_override_applied,
            cpus: self.cpus@.take(self.cpu_count as int),
        }
    }

    /// No processor, and the default address.
    pub fn empty() -> (info: AcpiInfo)
        ensures
            info.wf(),
            info@ == (Topology {
                lapic: DEFAULT_LAPIC_PHYS,
                ioapic: 0,
                overridden: false,
                cpus: Seq::empty(),
            }),
    {
        let info = AcpiInfo {
            lapic_phys_base: DEFAULT_LAPIC_PHYS,
            ioapic_phys_base: 0,
            cpu_count: 0,
            lapic_override_applied: false,
            cpus: [CpuInfo { apic_id: 0, enabled: false };64],
        };
        assert(info.cpus@.take(0) =~= Seq::<CpuInfo>::empty());
        info
    }
}

// The root pointer.

/// Bytes of the root pointer.
pub const RSDP_LEN: usize = 36;

/// Bytes of a table header.
pub const SDT_HEADER_LEN: u32 = 36;

/// "RSD PTR ".
pub open spec fn rsdp_signature() -> Seq<u8> {
    seq![0x52u8, 0x53, 0x44, 0x20, 0x50, 0x54, 0x52, 0x20]
}

/// What is used of the root pointer.
#[derive(Clone, Copy, Debug, PartialEq, Eq, Structural)]
pub struct Rsdp {
    pub revision: u8,
    pub rsdt_address: u32,
    pub length: u32,
    pub xsdt_address: u64,
}

/// The root pointer at `p`.
pub open spec fn rsdp_at(m: PhysMem, p: int) -> Rsdp {
    let w = m.window(p, 36);
    Rsdp {
        revision: w[15],
        rsdt_address: bytes::le32(w, 16) as u32,
        length: bytes::le32(w, 20) as u32,
        xsdt_address: bytes::le64(w, 24) as u64,
    }
}

/// There is a root pointer at `p`: the signature, a first checksum over 20
/// bytes, and, from revision 2 on and if the length says so, one over all.
pub open spec fn valid_rsdp(m: PhysMem, p: int) -> bool {
    let r = rsdp_at(m, p);
    &&& m.window(p, 8) == rsdp_signature()
    &&& m.sums_to_zero(p, 20)
    &&& r.revision >= 2 && r.length >= 36 ==> m.sums_to_zero(p, r.length as nat)
}

/// The first root pointer on a 16-byte step of `[base + off, base + len)`.
pub open spec fn rsdp_in(m: PhysMem, base: int, len: int, off: int) -> Option<Rsdp>
    decreases len - off,
{
    if off + 36 > len {
        None
    } else if valid_rsdp(m, base + off) {
        Some(rsdp_at(m, base + off))
    } else {
        rsdp_in(m, base, len, off + 16)
    }
}

/// Start of the extended BIOS data area.
pub open spec fn ebda_base(m: PhysMem) -> int {
    bytes::le16(m.window(0x40E, 2), 0) * 16
}

/// The root pointer of the two legacy areas.
pub open spec fn legacy_rsdp(m: PhysMem) -> Option<Rsdp> {
    let base = ebda_base(m);
    let first = if base != 0 && base < 0x10_0000 {
        rsdp_in(m, base, 1024, 0)
    } else {
        None
    };
    if first is Some {
        first
    } else {
        rsdp_in(m, 0xE0000, 0x20000, 0)
    }
}

/// The root pointer: of the legacy areas, else where the boot loader points.
pub open spec fn rsdp_of(m: PhysMem, bootloader: Option<u64>) -> Option<Rsdp> {
    if legacy_rsdp(m) is Some {
        legacy_rsdp(m)
    } else {
        match bootloader {
            Some(p) => if valid_rsdp(m, p as int) {
                Some(rsdp_at(m, p as int))
            } else {
                None
            },
            None => None,
        }
    }
}

fn rsdp_read(m: &PhysMem, p: u64) -> (r: Option<Rsdp>)
    ensures
        r == (if valid_rsdp(*m, p as int) {
            Some(rsdp_at(*m, p as int))
        } else {
            None
        }),
{
    let w: Vec<u8> = m.read(p as u128, RSDP_LEN);
    assert(m.window(p as int, 8) =~= w@.take(8));
    let named: bool = w[0] == 0x52 && w[1] == 0x53 && w[2] == 0x44 && w[3] == 0x20 && w[4] == 0x50
        && w[5] == 0x54 && w[6] == 0x52 && w[7] == 0x20;
    assert(named <==> w@.take(8) =~= rsdp_signature()) by {
        let a = w@.take(8);
        let b = rsdp_signature();
        assert(a == b ==> a[0] == b[0] && a[1] == b[1] && a[2] == b[2] && a[3] == b[3] && a[4]
            == b[4] && a[5] == b[5] && a[6] == b[6] && a[7] == b[7]);
    }
    if !named {
        return None;
    }
    let r = Rsdp {
        revision: w[15],
        rsdt_address: u32_le(&w, 16),
        length: u32_le(&w, 20),
        xsdt_address: u64_le(&w, 24),
    };
    if !m.checksum_ok(p, 20) {
        return None;
    }
    if r.revision >= 2 && r.length >= 36 && !m.checksum_ok(p, r.length) {
        return None;
    }
    Some(r)
}

fn scan_rsdp_range(m: &PhysMem, base: u64, len: usize) -> (r: Option<Rsdp>)
    requires
        base <= 0x10_0000,
        len <= 0x2_0000,
    ensures
        r == rsdp_in(*m, base as int, len as int, 0),
{
    let mut off: usize = 0;
    while off + RSDP_LEN <= len
        invariant
            base <= 0x10_0000,
            len <= 0x2_0000,
            off <= len + 16,
            rsdp_in(*m, base as int, len as int, 0) == rsdp_in(
                *m,
                base as int,
                len as int,
                off as int,
            ),
        decreases len + 16 - off,
    {
        match rsdp_read(m, base + off as u64) {
            Some(r) => {
                return Some(r);
            },
            None => {},
        }
        off = off + 16;
    }
    None
}

/// Finds the root pointer. The line says where, if the boot loader pointed there.
pub fn find_rsdp(m: &PhysMem, bootloader: Option<u64>) -> (r: (Option<Rsdp>, Option<String>))
    ensures
        r.0 == rsdp_of(*m, bootloader),
        r.1 is Some <==> legacy_rsdp(*m) is None && r.0 is Some,
        r.1 matches Some(line) ==> line@ == "ACPI: RSDP found via bootloader at 0x"@ + text::hex(
            bootloader->0 as nat,
        ),
{
    let w: Vec<u8> = m.read(0x40E, 2);
    let base: u64 = u16_le(&w, 0) as u64 * 16;
    if base != 0 && base < 0x10_0000 {
        match scan_rsdp_range(m, base, 1024) {
            Some(r) => {
                return (Some(r), None);
            },
            None => {},
        }
    }
    match scan_rsdp_range(m, 0xE0000, 0x20000) {
        Some(r) => {
            return (Some(r), None);
        },
        None => {},
    }
    match bootloader {
        Some(p) => match rsdp_read(m, p) {
            Some(r) => {
                let mut line = "ACPI: RSDP found via bootloader at 0x".to_owned();
                push_hex(&mut line, p);
                (Some(r), Some(line))
            },
            None => (None, None),
        },
        None => (None, None),
    }
}

// Tables.

/// The table of tables holds 64-bit addresses.
pub open spec fn is_extended(r: Rsdp) -> bool {
    r.revision >= 2 && r.xsdt_address != 0
}

/// Where the table of tables is.
pub open spec fn root_address(r: Rsdp) -> u64 {
    if is_extended(r) {
        r.xsdt_address
    } else {
        r.rsdt_address as u64
    }
}

pub open spec fn entry_size(r: Rsdp) -> int {
    if is_extended(r) {
        8
    } else {
        4
    }
}

/// The header of a table.
#[derive(Clone, Copy, Debug)]
pub struct SdtHeader {
    pub signature: [u8; 4],
    pub length: u32,
}

pub open spec fn table_signature(m: PhysMem, p: int) -> Seq<u8> {
    m.window(p, 4)
}

pub open spec fn table_length(m: PhysMem, p: int) -> int {
    bytes::le32(m.window(p, 36), 4)
}

/// The table at `p` sums to zero.
pub open spec fn sound_table(m: PhysMem, p: int) -> bool {
    m.sums_to_zero(p, table_length(m, p) as nat)
}

/// Reads the header of the table at `phys` and checks the table's sum.
pub fn read_sdt_header(m: &PhysMem, phys: u64) -> (r: Result<SdtHeader, AcpiError>)
    ensures
        r is Ok <==> sound_table(*m, phys as int),
        r matches Ok(h) ==> h.signature@ == table_signature(*m, phys as int) && h.length
            == table_length(*m, phys as int),
        r matches Err(e) ==> e == AcpiError::SdtChecksumBad,
{
    let w: Vec<u8> = m.read(phys as u128, 36);
    let length: u32 = u32_le(&w, 4);
    if !m.checksum_ok(phys, length) {
        return Err(AcpiError::SdtChecksumBad);
    }
    let h = SdtHeader { signature: [w[0], w[1], w[2], w[3]], length };
    assert(h.signature@ =~= table_signature(*m, phys as int));
    Ok(h)
}

/// Entries of the table of tables.
pub open spec fn entry_count(m: PhysMem, r: Rsdp) -> int {
    (table_length(m, root_address(r) as int) - 36) / entry_size(r)
}

/// The address in entry `i` of the table of tables.
pub open spec fn entry_at(m: PhysMem, r: Rsdp, i: int) -> int {
    let p = root_address(r) + 36 + i * entry_size(r);
    if is_extended(r) {
        bytes::le64(m.window(p, 8), 0)
    } else {
        bytes::le32(m.window(p, 4), 0)
    }
}

/// The first sound table with the signature among the entries from `i` on.
pub open spec fn table_from(m: PhysMem, r: Rsdp, signature: Seq<u8>, i: int) -> Option<u64>
    decreases entry_count(m, r) - i,
{
    if i >= entry_count(m, r) {
        None
    } else {
        let p = entry_at(m, r, i);
        if sound_table(m, p) && table_signature(m, p) == signature {
            Some(p as u64)
        } else {
            table_from(m, r, signature, i + 1)
        }
    }
}

/// Finds the first sound table with the signature.
pub fn find_table(m: &PhysMem, r: &Rsdp, length: u32, signature: [u8; 4]) -> (p: Option<u64>)
    requires
        length == table_length(*m, root_address(*r) as int),
        length >= 36,
    ensures
        p == table_from(*m, *r, signature@, 0),
{
    let extended: bool = r.revision >= 2 && r.xsdt_address != 0;
    let root: u64 = if extended {
        r.xsdt_address
    } else {
        r.rsdt_address as u64
    };
    let size: u32 = if extended {
        8
    } else {
        4
    };
    let n: u32 = (length - SDT_HEADER_LEN) / size;
    let mut i: u32 = 0;
    while i < n
        invariant
            i <= n,
            n == entry_count(*m, *r),
            n * size <= length - 36,
            size == entry_size(*r),
            extended == is_extended(*r),
            root == root_address(*r),
            length == table_length(*m, root as int),
            table_from(*m, *r, signature@, 0) == table_from(*m, *r, signature@, i as int),
        decreases n - i,
    {
        assert(0 <= i * size && i * size + size <= n * size) by (nonlinear_arith)
            requires
                i < n,
        ;
        let at: u128 = root as u128 + 36 + (i * size) as u128;
        let candidate: u64 = if extended {
            let w: Vec<u8> = m.read(at, 8);
            u64_le(&w, 0)
        } else {
            let w: Vec<u8> = m.read(at, 4);
            u32_le(&w, 0) as u64
        };
        assert(candidate == entry_at(*m, *r, i as int));
        match read_sdt_header(m, candidate) {
            Ok(h) => {
                let same: bool = h.signature[0] == signature[0] && h.signature[1] == signature[1]
                    && h.signature[2] == signature[2] && h.signature[3] == signature[3];
                assert(same <==> h.signature@ =~= signature@);
                if same {
                    return Some(candidate);
                }
            },
            Err(_) => {},
        }
        i = i + 1;
    }
    None
}

// The interrupt controller table.

/// Fixed bytes in front of the entries.
pub const MADT_FIXED_LEN: usize = 44;

/// Index of the processor `id`, from `i` on.
pub open spec fn cpu_index(cpus: Seq<CpuInfo>, id: u32, i: int) -> Option<int>
    decreases cpus.len() - i,
{
    if i >= cpus.len() {
        None
    } else if cpus[i].apic_id == id {
        Some(i)
    } else {
        cpu_index(cpus, id, i + 1)
    }
}

/// The processors with `id` recorded: known ones are enabled if either report
/// says so; new ones come last, while there is room.
pub open spec fn with_cpu(cpus: Seq<CpuInfo>, id: u32, enabled: bool) -> Seq<CpuInfo> {
    match cpu_index(cpus, id, 0) {
        Some(i) => cpus.update(
            i,
            CpuInfo { apic_id: id, enabled: cpus[i].enabled || enabled },
        ),
        None => if cpus.len() < MAX_CPUS {
            cpus.push(CpuInfo { apic_id: id, enabled })
        } else {
            cpus
        },
    }
}

/// The index is that of a processor with the identifier; there is none only where no
/// processor has it.
pub proof fn lemma_cpu_index(cpus: Seq<CpuInfo>, id: u32, i: int)
    requires
        0 <= i,
    ensures
        match cpu_index(cpus, id, i) {
            Some(j) => i <= j < cpus.len() && cpus[j].apic_id == id,
            None => forall|j: int| i <= j < cpus.len() ==> (#[trigger] cpus[j]).apic_id != id,
        },
    decreases cpus.len() - i,
{
    if i < cpus.len() && cpus[i].apic_id != id {
        lemma_cpu_index(cpus, id, i + 1);
    }
}

/// Recording keeps identifiers apart, keeps every processor in its place, never
/// disables one, and never exceeds the room.
pub proof fn lemma_with_cpu(cpus: Seq<CpuInfo>, id: u32, enabled: bool)
    requires
        distinct_ids(cpus),
        cpus.len() <= MAX_CPUS,
    ensures
        distinct_ids(with_cpu(cpus, id, enabled)),
        cpus.len() <= with_cpu(cpus, id, enabled).len() <= MAX_CPUS,
        forall|i: int|
            0 <= i < cpus.len() ==> (#[trigger] with_cpu(cpus, id, enabled)[i]).apic_id
                == cpus[i].apic_id && (cpus[i].enabled ==> with_cpu(cpus, id, enabled)[i].enabled),
        with_cpu(with_cpu(cpus, id, enabled), id, enabled) == with_cpu(cpus, id, enabled),
{
    lemma_cpu_index(cpus, id, 0);
    let next = with_cpu(cpus, id, enabled);
    lemma_cpu_index(next, id, 0);
    match cpu_index(next, id, 0) {
        Some(j) => {
            assert(next.update(
                j,
                CpuInfo { apic_id: id, enabled: next[j].enabled || enabled },
            ) =~= next);
        },
        None => {
            match cpu_index(cpus, id, 0) {
                Some(i) => {
                    assert(next[i].apic_id == id);
                },
                None => {
                    if cpus.len() < MAX_CPUS {
                        assert(next[cpus.len() as int].apic_id == id);
                    }
                },
            }
        },
    }
}

/// Records a processor.
pub fn record_cpu(info: &mut AcpiInfo, apic_id: u32, enabled: bool)
    requires
        old(info).wf(),
    ensures
        final(info).wf(),
        final(info)@ == (Topology {
            cpus: with_cpu(old(info)@.cpus, apic_id, enabled),
            ..old(info)@
        }),
{
    let ghost before = info@;
    proof {
        lemma_with_cpu(before.cpus, apic_id, enabled);
    }
    let mut i: usize = 0;
    while i < info.cpu_count as usize
        invariant
            i <= info.cpu_count <= 64,
            info.wf(),
            info@ == before,
            *info == *old(info),
            cpu_index(before.cpus, apic_id, 0) == cpu_index(before.cpus, apic_id, i as int),
            distinct_ids(with_cpu(before.cpus, apic_id, enabled)),
        decreases info.cpu_count - i,
    {
        let c: CpuInfo = info.cpus[i];
        assert(c == before.cpus[i as int]);
        if c.apic_id == apic_id {
            info.cpus[i] = CpuInfo { apic_id, enabled: c.enabled || enabled };
            assert(info.cpus@.take(info.cpu_count as int) =~= with_cpu(
                before.cpus,
                apic_id,
                enabled,
            ));
            return;
        }
        i = i + 1;
    }
    let n: usize = info.cpu_count as usize;
    if n < MAX_CPUS {
        info.cpus[n] = CpuInfo { apic_id, enabled };
        info.cpu_count = info.cpu_count + 1;
        assert(info.cpus@.take(info.cpu_count as int) =~= before.cpus.push(
            CpuInfo { apic_id, enabled },
        ));
    }
}

/// What one entry adds.
pub open spec fn with_entry(m: PhysMem, p: int, t: Topology) -> Topology {
    let w = m.window(p, 16);
    if w[0] == 0 {
        Topology { cpus: with_cpu(t.cpus, w[3] as u32, bytes::le32(w, 4) % 2 == 1), ..t }
    } else if w[0] == 1 {
        if t.ioapic == 0 {
            Topology { ioapic: bytes::le32(w, 4) as u64, ..t }
        } else {
            t
        }
    } else if w[0] == 5 {
        Topology { lapic: bytes::le64(w, 4) as u64, overridden: true, ..t }
    } else if w[0] == 9 {
        Topology {
            cpus: with_cpu(t.cpus, bytes::le32(w, 4) as u32, bytes::le32(w, 8) % 2 == 1),
            ..t
        }
    } else {
        t
    }
}

/// What the entries from `off` on add, in a table of `total` bytes at `p`.
pub open spec fn madt_from(m: PhysMem, p: int, total: int, off: int, t: Topology) -> Result<
    Topology,
    AcpiError,
>
    decreases total - off,
{
    if off + 2 > total {
        Ok(t)
    } else {
        let length = m.at(p + off + 1);
        if length == 0 || off + length > total {
            Err(AcpiError::MadtTruncated)
        } else {
            madt_from(m, p, total, off + length, with_entry(m, p + off, t))
        }
    }
}

/// The topology of the table at `p`.
pub open spec fn madt_topology(m: PhysMem, p: int) -> Result<Topology, AcpiError> {
    let w = m.window(p, 44);
    madt_from(
        m,
        p,
        bytes::le32(w, 4),
        44,
        Topology {
            lapic: bytes::le32(w, 36) as u64,
            ioapic: 0,
            overridden: false,
            cpus: Seq::empty(),
        },
    )
}

fn apply_entry(m: &PhysMem, p: u128, info: &mut AcpiInfo)
    requires
        old(info).wf(),
        p + 16 <= u128::MAX,
    ensures
        final(info).wf(),
        final(info)@ == with_entry(*m, p as int, old(info)@),
{
    let w: Vec<u8> = m.read(p, 16);
    match w[0] {
        0 => {
            let flags: u32 = u32_le(&w, 4);
            record_cpu(info, w[3] as u32, flags % 2 == 1);
        },
        1 => {
            if info.ioapic_phys_base == 0 {
                info.ioapic_phys_base = u32_le(&w, 4) as u64;
            }
        },
        5 => {
            info.lapic_phys_base = u64_le(&w, 4);
            info.lapic_override_applied = true;
        },
        9 => {
            let flags: u32 = u32_le(&w, 8);
            record_cpu(info, u32_le(&w, 4), flags % 2 == 1);
        },
        _ => {},
    }
}

/// The topology of the interrupt controller table at `madt_phys`.
pub fn parse_madt_table(m: &PhysMem, madt_phys: u64) -> (r: Result<AcpiInfo, AcpiError>)
    ensures
        match madt_topology(*m, madt_phys as int) {
            Ok(t) => r matches Ok(info) && info.wf() && info@ == t,
            Err(e) => r matches Err(f) && f == e,
        },
{
    let w: Vec<u8> = m.read(madt_phys as u128, MADT_FIXED_LEN);
    let total: u32 = u32_le(&w, 4);
    let mut info = AcpiInfo::empty();
    info.lapic_phys_base = u32_le(&w, 36) as u64;
    let mut off: u64 = 44;
    while off + 2 <= total as u64
        invariant
            44 <= off,
            off <= total || off == 44,
            info.wf(),
            madt_topology(*m, madt_phys as int) == madt_from(
                *m,
                madt_phys as int,
                total as int,
                off as int,
                info@,
            ),
        decreases total - off,
    {
        let length: u8 = m.byte(madt_phys as u128 + off as u128 + 1);
        if length == 0 {
            return Err(AcpiError::MadtTruncated);
        }
        if off + length as u64 > total as u64 {
            return Err(AcpiError::MadtTruncated);
        }
        apply_entry(m, madt_phys as u128 + off as u128, &mut info);
        off = off + length as u64;
    }
    Ok(info)
}

// What is remembered.

/// The last topology, as diagnostics read it.
pub struct AcpiState {
    /// Zero until a table was parsed.
    pub lapic_phys_base: u64,
    pub ioapic_phys_base: u64,
    pub recorded_cpu_count: u32,
    pub recorded_lapic_phys_base: u64,
    pub recorded_ioapic_phys_base: u64,
    pub recorded_lapic_override: bool,
    /// One word for each processor: see `packed`.
    pub recorded_cpus: [u64; 64],
}

/// Marks a word that holds a processor.
pub const REC_CPU_VALID: u64 = 0x8000_0000_0000_0000;

/// Marks an enabled processor.
pub const REC_CPU_ENABLED: u64 = 0x1_0000_0000;

/// A processor as one word: the identifier below, the marks above.
pub open spec fn packed(c: CpuInfo) -> int {
    REC_CPU_VALID + c.apic_id + (if c.enabled {
        REC_CPU_ENABLED as int
    } else {
        0
    })
}

/// The processor that a word holds.
pub open spec fn unpacked(raw: u64) -> Option<CpuInfo> {
    if raw < REC_CPU_VALID {
        None
    } else {
        Some(
            CpuInfo {
                apic_id: (raw % 0x1_0000_0000) as u32,
                enabled: raw / 0x1_0000_0000 % 2 == 1,
            },
        )
    }
}

/// A word gives back the processor that it was made of.
pub proof fn lemma_packed_reads_back(c: CpuInfo)
    ensures
        0 <= packed(c) <= u64::MAX,
        unpacked(packed(c) as u64) == Some(c),
{
    let raw = packed(c) as u64;
    let k: int = if c.enabled {
        0x8000_0001
    } else {
        0x8000_0000
    };
    assert(raw == k * 0x1_0000_0000 + c.apic_id);
}

/// What entry `i` of the record holds for a topology.
pub open spec fn recorded_word(info: AcpiInfo, i: int) -> int {
    if i < info.cpu_count {
        packed(info.cpus@[i])
    } else {
        0
    }
}

impl AcpiState {
    pub fn new() -> (s: AcpiState)
        ensures
            s.lapic_phys_base == 0,
            s.ioapic_phys_base == 0,
            s.recorded_cpu_count == 0,
            s.recorded_lapic_phys_base == 0,
            s.recorded_ioapic_phys_base == 0,
            !s.recorded_lapic_override,
            forall|i: int| 0 <= i < 64 ==> #[trigger] s.recorded_cpus@[i] == 0,
    {
        AcpiState {
            lapic_phys_base: 0,
            ioapic_phys_base: 0,
            recorded_cpu_count: 0,
            recorded_lapic_phys_base: 0,
            recorded_ioapic_phys_base: 0,
            recorded_lapic_override: false,
            recorded_cpus: [0;64],
        }
    }

    /// The record holds this topology.
    pub open spec fn records(self, info: AcpiInfo) -> bool {
        &&& self.recorded_cpu_count == info.cpu_count
        &&& self.recorded_lapic_phys_base == info.lapic_phys_base
        &&& self.recorded_ioapic_phys_base == info.ioapic_phys_base
        &&& self.recorded_lapic_override == info.lapic_override_applied
        &&& forall|i: int|
            0 <= i < 64 ==> (#[trigger] self.recorded_cpus@[i]) == recorded_word(info, i)
    }
}

/// Records a topology for diagnostics.
pub fn record_topology(s: &mut AcpiState, info: &AcpiInfo)
    ensures
        final(s).records(*info),
        final(s).lapic_phys_base == old(s).lapic_phys_base,
        final(s).ioapic_phys_base == old(s).ioapic_phys_base,
{
    s.recorded_lapic_phys_base = info.lapic_phys_base;
    s.recorded_ioapic_phys_base = info.ioapic_phys_base;
    s.recorded_lapic_override = info.lapic_override_applied;
    let mut i: usize = 0;
    while i < MAX_CPUS
        invariant
            i <= 64,
            s.recorded_lapic_phys_base == info.lapic_phys_base,
            s.recorded_ioapic_phys_base == info.ioapic_phys_base,
            s.recorded_lapic_override == info.lapic_override_applied,
            s.lapic_phys_base == old(s).lapic_phys_base,
            s.ioapic_phys_base == old(s).ioapic_phys_base,
            forall|j: int|
                0 <= j < i ==> (#[trigger] s.recorded_cpus@[j]) == recorded_word(*info, j),
        decreases 64 - i,
    {
        let raw: u64 = if i < info.cpu_count as usize {
            let c: CpuInfo = info.cpus[i];
            if c.enabled {
                REC_CPU_VALID + REC_CPU_ENABLED + c.apic_id as u64
            } else {
                REC_CPU_VALID + c.apic_id as u64
            }
        } else {
            0
        };
        s.recorded_cpus[i] = raw;
        i = i + 1;
    }
    s.recorded_cpu_count = info.cpu_count;
}

/// The local APIC's address, the default before a table was parsed.
pub fn lapic_phys_base(s: &AcpiState) -> (p: u64)
    ensures
        p == (if s.lapic_phys_base == 0 {
            DEFAULT_LAPIC_PHYS
        } else {
            s.lapic_phys_base
        }),
{
    if s.lapic_phys_base == 0 {
        DEFAULT_LAPIC_PHYS
    } else {
        s.lapic_phys_base
    }
}

/// The I/O APIC's address, zero if there is none.
pub fn ioapic_phys_base(s: &AcpiState) -> (p: u64)
    ensures
        p == s.ioapic_phys_base,
{
    s.ioapic_phys_base
}

/// Count, local APIC, I/O APIC and override of the record.
pub fn recorded_summary(s: &AcpiState) -> (r: (u32, u64, u64, bool))
    ensures
        r == (
            s.recorded_cpu_count,
            s.recorded_lapic_phys_base,
            s.recorded_ioapic_phys_base,
            s.recorded_lapic_override,
        ),
{
    (
        s.recorded_cpu_count,
        s.recorded_lapic_phys_base,
        s.recorded_ioapic_phys_base,
        s.recorded_lapic_override,
    )
}

/// Processor `idx` of the record.
pub fn recorded_cpu(s: &AcpiState, idx: usize) -> (c: Option<CpuInfo>)
    ensures
        c == (if idx < MAX_CPUS {
            unpacked(s.recorded_cpus@[idx as int])
        } else {
            None
        }),
{
    if idx >= MAX_CPUS {
        return None;
    }
    let raw: u64 = s.recorded_cpus[idx];
    if raw < REC_CPU_VALID {
        return None;
    }
    Some(
        CpuInfo {
            apic_id: (raw % 0x1_0000_0000) as u32,
            enabled: raw / 0x1_0000_0000 % 2 == 1,
        },
    )
}

/// What was recorded of a topology reads back as it was, and nothing else does.
pub proof fn lemma_record_reads_back(s: AcpiState, info: AcpiInfo, idx: int)
    requires
        s.records(info),
        0 <= idx < 64,
    ensures
        unpacked(s.recorded_cpus@[idx]) == (if idx < info.cpu_count {
            Some(info.cpus@[idx])
        } else {
            None
        }),
{
    if idx < info.cpu_count {
        lemma_packed_reads_back(info.cpus@[idx]);
    }
}

// From memory to topology.

/// If the table of tables is sound, it is at least as long as its header.
pub open spec fn walkable(m: PhysMem, bootloader: Option<u64>) -> bool {
    rsdp_of(m, bootloader) matches Some(r) ==> sound_table(m, root_address(r) as int)
        ==> table_length(m, root_address(r) as int) >= 36
}

/// "APIC".
pub open spec fn madt_signature() -> Seq<u8> {
    seq![0x41u8, 0x50, 0x49, 0x43]
}

/// The topology that memory reports.
pub open spec fn topology_of(m: PhysMem, bootloader: Option<u64>) -> Result<Topology, AcpiError> {
    match rsdp_of(m, bootloader) {
        None => Err(AcpiError::RsdpNotFound),
        Some(r) => if !sound_table(m, root_address(r) as int) {
            Err(AcpiError::SdtChecksumBad)
        } else {
            match table_from(m, r, madt_signature(), 0) {
                None => Err(AcpiError::MadtNotFound),
                Some(p) => if p == 0 {
                    Err(AcpiError::MadtNotFound)
                } else {
                    madt_topology(m, p as int)
                },
            }
        },
    }
}

/// The root pointer, with its table of tables sound.
pub fn root_table(m: &PhysMem, bootloader: Option<u64>) -> (r: Result<(Rsdp, u32), AcpiError>)
    ensures
        match rsdp_of(*m, bootloader) {
            None => r == Err::<(Rsdp, u32), AcpiError>(AcpiError::RsdpNotFound),
            Some(q) => if sound_table(*m, root_address(q) as int) {
                r matches Ok(p) && p.0 == q && p.1 == table_length(*m, root_address(q) as int)
            } else {
                r == Err::<(Rsdp, u32), AcpiError>(AcpiError::SdtChecksumBad)
            },
        },
{
    let rsdp: Rsdp = match find_rsdp(m, bootloader).0 {
        Some(r) => r,
        None => {
            return Err(AcpiError::RsdpNotFound);
        },
    };
    let root: u64 = if rsdp.revision >= 2 && rsdp.xsdt_address != 0 {
        rsdp.xsdt_address
    } else {
        rsdp.rsdt_address as u64
    };
    match read_sdt_header(m, root) {
        Ok(h) => Ok((rsdp, h.length)),
        Err(e) => Err(e),
    }
}

/// Whether the tables can be walked.
pub fn is_walkable(m: &PhysMem, bootloader: Option<u64>) -> (b: bool)
    ensures
        b == walkable(*m, bootloader),
{
    match root_table(m, bootloader) {
        Ok((_, length)) => length >= SDT_HEADER_LEN,
        Err(_) => true,
    }
}

/// Walks root pointer, table of tables and interrupt controller table, and
/// remembers what was found.
pub fn parse_madt(s: &mut AcpiState, m: &PhysMem, bootloader: Option<u64>) -> (r: Result<
    AcpiInfo,
    AcpiError,
>)
    requires
        walkable(*m, bootloader),
    ensures
        match topology_of(*m, bootloader) {
            Ok(t) => {
                &&& r matches Ok(info)
                &&& info.wf()
                &&& info@ == t
                &&& final(s).records(info)
                &&& final(s).lapic_phys_base == t.lapic
                &&& final(s).ioapic_phys_base == t.ioapic
            },
            Err(e) => r matches Err(f) && f == e && *final(s) == *old(s),
        },
{
    let (rsdp, length) = match root_table(m, bootloader) {
        Ok(p) => p,
        Err(e) => {
            return Err(e);
        },
    };
    let sig: [u8; 4] = [0x41, 0x50, 0x49, 0x43];
    assert(sig@ =~= madt_signature());
    let madt: u64 = match find_table(m, &rsdp, length, sig) {
        Some(p) => p,
        None => {
            return Err(AcpiError::MadtNotFound);
        },
    };
    if madt == 0 {
        return Err(AcpiError::MadtNotFound);
    }
    match parse_madt_table(m, madt) {
        Ok(info) => {
            s.lapic_phys_base = info.lapic_phys_base;
            s.ioapic_phys_base = info.ioapic_phys_base;
            record_topology(s, &info);
            Ok(info)
        },
        Err(e) => Err(e),
    }
}

} // verus!
