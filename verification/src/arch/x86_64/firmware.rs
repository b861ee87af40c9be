//! Firmware tables as firmware lays them out, and that reading gives back what was laid
//! out.

use crate::arch::x86_64::acpi;
use crate::arch::x86_64::acpi::{CpuInfo, Rsdp, Topology, MAX_CPUS};
use crate::arch::x86_64::iommu;
use crate::arch::x86_64::phys::PhysMem;
use crate::bytes;
use vstd::prelude::*;

verus! {

/// The bytes `b` stand at `p`.
pub open spec fn stands(m: PhysMem, p: int, b: Seq<u8>) -> bool {
    forall|i: int| 0 <= i < b.len() ==> m.at(p + i) == #[trigger] b[i]
}

proof fn lemma_part_stands(m: PhysMem, p: int, a: Seq<u8>, b: Seq<u8>)
    requires
        stands(m, p, a + b),
    ensures
        stands(m, p, a),
        stands(m, p + a.len(), b),
{
    assert forall|i: int| 0 <= i < a.len() implies m.at(p + i) == #[trigger] a[i] by {
        assert((a + b)[i] == a[i]);
    }
    assert forall|i: int| 0 <= i < b.len() implies m.at(p + a.len() + i) == #[trigger] b[i] by {
        assert((a + b)[a.len() + i] == b[i]);
        assert(p + (a.len() + i) == p + a.len() + i);
    }
}

proof fn lemma_word(m: PhysMem, p: int, o: int, n: nat, v: u32)
    requires
        stands(m, p + o, bytes::le32_bytes(v as int)),
        0 <= o,
        o + 4 <= n,
    ensures
        bytes::le32(m.window(p, n), o) == v,
{
    let b = bytes::le32_bytes(v as int);
    let w = m.window(p, n);
    assert(b.len() == 4);
    assert(m.at(p + o + 0) == b[0] && m.at(p + o + 1) == b[1] && m.at(p + o + 2) == b[2] && m.at(
        p + o + 3,
    ) == b[3]);
    assert(w[o] == b[0] && w[o + 1] == b[1] && w[o + 2] == b[2] && w[o + 3] == b[3]);
    bytes::lemma_round_trip32(v);
}

proof fn lemma_long(m: PhysMem, p: int, o: int, n: nat, v: u64)
    requires
        stands(m, p + o, bytes::le64_bytes(v as int)),
        0 <= o,
        o + 8 <= n,
    ensures
        bytes::le64(m.window(p, n), o) == v,
{
    let lo = (v as int % 0x1_0000_0000) as u32;
    let hi = (v as int / 0x1_0000_0000) as u32;
    let (a, b) = (bytes::le32_bytes(lo as int), bytes::le32_bytes(hi as int));
    lemma_part_stands(m, p + o, a, b);
    lemma_word(m, p, o, n, lo);
    lemma_word(m, p, o + 4, n, hi);
}

// The table of interrupt controllers.

/// An entry of the table of interrupt controllers.
#[allow(inconsistent_fields)]
pub enum MadtEntry {
    LocalApic { uid: u8, id: u8, flags: u32 },
    IoApic { id: u8, address: u32, first: u32 },
    Address { address: u64 },
    X2Apic { id: u32, flags: u32, uid: u32 },
    Other { kind: u8, body: Seq<u8> },
}

pub open spec fn is_entry(e: MadtEntry) -> bool {
    e matches MadtEntry::Other { kind, body } ==> kind != 0 && kind != 1 && kind != 5 && kind != 9
        && body.len() <= 253
}

/// An entry as it is laid out: kind, length, and what the kind has.
pub open spec fn entry_bytes(e: MadtEntry) -> Seq<u8> {
    match e {
        MadtEntry::LocalApic { uid, id, flags } => seq![0u8, 8, uid, id] + bytes::le32_bytes(
            flags as int,
        ),
        MadtEntry::IoApic { id, address, first } => seq![1u8, 12, id, 0] + bytes::le32_bytes(
            address as int,
        ) + bytes::le32_bytes(first as int),
        MadtEntry::Address { address } => seq![5u8, 12, 0, 0] + bytes::le64_bytes(address as int),
        MadtEntry::X2Apic { id, flags, uid } => seq![9u8, 16, 0, 0] + bytes::le32_bytes(id as int)
            + bytes::le32_bytes(flags as int) + bytes::le32_bytes(uid as int),
        MadtEntry::Other { kind, body } => seq![kind, (2 + body.len()) as u8] + body,
    }
}

/// Entries one after the other.
pub open spec fn entries_bytes(es: Seq<MadtEntry>) -> Seq<u8>
    decreases es.len(),
{
    if es.len() == 0 {
        Seq::empty()
    } else {
        entry_bytes(es[0]) + entries_bytes(es.skip(1))
    }
}

/// The processor that an entry reports.
pub open spec fn reports(e: MadtEntry) -> Option<CpuInfo> {
    match e {
        MadtEntry::LocalApic { uid, id, flags } => Some(
            CpuInfo { apic_id: id as u32, enabled: flags % 2 == 1 },
        ),
        MadtEntry::X2Apic { id, flags, uid } => Some(
            CpuInfo { apic_id: id, enabled: flags % 2 == 1 },
        ),
        _ => None,
    }
}

/// A topology with one more entry.
spec fn with_one(e: MadtEntry, t: Topology) -> Topology {
    match e {
        MadtEntry::IoApic { id, address, first } => if t.ioapic == 0 {
            Topology { ioapic: address as u64, ..t }
        } else {
            t
        },
        MadtEntry::Address { address } => Topology { lapic: address, overridden: true, ..t },
        _ => match reports(e) {
            Some(c) => Topology { cpus: acpi::with_cpu(t.cpus, c.apic_id, c.enabled), ..t },
            None => t,
        },
    }
}

spec fn with_all(es: Seq<MadtEntry>, t: Topology) -> Topology
    decreases es.len(),
{
    if es.len() == 0 {
        t
    } else {
        with_all(es.skip(1), with_one(es[0], t))
    }
}

proof fn lemma_one_entry(m: PhysMem, p: int, e: MadtEntry, t: Topology)
    requires
        is_entry(e),
        stands(m, p, entry_bytes(e)),
    ensures
        acpi::with_entry(m, p, t) == with_one(e, t),
        m.at(p + 1) == entry_bytes(e).len(),
        entry_bytes(e).len() >= 2,
{
    let b = entry_bytes(e);
    let w = m.window(p, 16);
    assert(b.len() >= 2);
    assert(m.at(p + 0) == b[0] && m.at(p + 1) == b[1]);
    assert(w[0] == b[0]);
    match e {
        MadtEntry::LocalApic { uid, id, flags } => {
            let h = seq![0u8, 8, uid, id];
            lemma_part_stands(m, p, h, bytes::le32_bytes(flags as int));
            lemma_word(m, p, 4, 16, flags);
            assert(m.at(p + 3) == b[3] && b[3] == id);
            assert(w[3] == id);
        },
        MadtEntry::IoApic { id, address, first } => {
            let h = seq![1u8, 12, id, 0];
            let x = bytes::le32_bytes(address as int);
            lemma_part_stands(m, p, h + x, bytes::le32_bytes(first as int));
            lemma_part_stands(m, p, h, x);
            lemma_word(m, p, 4, 16, address);
        },
        MadtEntry::Address { address } => {
            let h = seq![5u8, 12, 0, 0];
            lemma_part_stands(m, p, h, bytes::le64_bytes(address as int));
            lemma_long(m, p, 4, 16, address);
        },
        MadtEntry::X2Apic { id, flags, uid } => {
            let h = seq![9u8, 16, 0, 0];
            let x = bytes::le32_bytes(id as int);
            let y = bytes::le32_bytes(flags as int);
            lemma_part_stands(m, p, h + x + y, bytes::le32_bytes(uid as int));
            lemma_part_stands(m, p, h + x, y);
            lemma_part_stands(m, p, h, x);
            lemma_word(m, p, 4, 16, id);
            lemma_word(m, p, 8, 16, flags);
        },
        MadtEntry::Other { kind, body } => {},
    }
}

proof fn lemma_entries(m: PhysMem, p: int, off: int, es: Seq<MadtEntry>, t: Topology)
    requires
        forall|i: int| 0 <= i < es.len() ==> is_entry(#[trigger] es[i]),
        stands(m, p + off, entries_bytes(es)),
    ensures
        acpi::madt_from(m, p, off + entries_bytes(es).len(), off, t) == Ok::<
            Topology,
            acpi::AcpiError,
        >(with_all(es, t)),
    decreases es.len(),
{
    let total = off + entries_bytes(es).len();
    if es.len() > 0 {
        let rest = es.skip(1);
        let b = entry_bytes(es[0]);
        lemma_part_stands(m, p + off, b, entries_bytes(rest));
        lemma_one_entry(m, p + off, es[0], t);
        assert forall|i: int| 0 <= i < rest.len() implies is_entry(#[trigger] rest[i]) by {
            assert(rest[i] == es[i + 1]);
        }
        assert(p + off + b.len() == p + (off + b.len()));
        lemma_entries(m, p, off + b.len(), rest, with_one(es[0], t));
        assert(off + b.len() + entries_bytes(rest).len() == total);
    }
}

/// A table of interrupt controllers with its fixed part: the length, the address of the
/// local controllers, and the entries.
pub open spec fn is_madt(m: PhysMem, p: int, lapic: u32, es: Seq<MadtEntry>) -> bool {
    &&& 44 + entries_bytes(es).len() <= u32::MAX
    &&& stands(m, p + 4, bytes::le32_bytes((44 + entries_bytes(es).len()) as int))
    &&& stands(m, p + 36, bytes::le32_bytes(lapic as int))
    &&& stands(m, p + 44, entries_bytes(es))
    &&& forall|i: int| 0 <= i < es.len() ==> is_entry(#[trigger] es[i])
}

/// Entry `i` is the last that gives the address of the local controllers.
pub open spec fn last_address(es: Seq<MadtEntry>, i: int) -> bool {
    &&& 0 <= i < es.len()
    &&& es[i] is Address
    &&& forall|j: int| i < j < es.len() ==> !((#[trigger] es[j]) is Address)
}

pub open spec fn gives_ioapic(e: MadtEntry) -> bool {
    e matches MadtEntry::IoApic { address, .. } && address != 0
}

/// Entry `i` is the first that gives the address of an I/O controller.
pub open spec fn first_ioapic(es: Seq<MadtEntry>, i: int) -> bool {
    &&& 0 <= i < es.len()
    &&& gives_ioapic(es[i])
    &&& forall|j: int| 0 <= j < i ==> !gives_ioapic(#[trigger] es[j])
}

/// Some entry reports the processor, as enabled where that is asked.
pub open spec fn reported(es: Seq<MadtEntry>, id: u32, enabled: bool) -> bool {
    exists|i: int|
        0 <= i < es.len() && (reports(#[trigger] es[i]) matches Some(c) && c.apic_id == id && (
        enabled ==> c.enabled))
}

/// The processor is among those found, as enabled where that is asked.
pub open spec fn found(cpus: Seq<CpuInfo>, id: u32, enabled: bool) -> bool {
    exists|i: int|
        0 <= i < cpus.len() && (#[trigger] cpus[i]).apic_id == id && (enabled ==> cpus[i].enabled)
}

proof fn lemma_addresses(es: Seq<MadtEntry>, t: Topology)
    ensures
        ({
            let r = with_all(es, t);
            &&& forall|i: int|
                #[trigger] last_address(es, i) ==> r.overridden && es[i]->Address_address == r.lapic
            &&& (forall|i: int| 0 <= i < es.len() ==> !((#[trigger] es[i]) is Address))
                ==> r.overridden == t.overridden && r.lapic == t.lapic
            &&& t.ioapic != 0 ==> r.ioapic == t.ioapic
            &&& forall|i: int|
                t.ioapic == 0 && #[trigger] first_ioapic(es, i) ==> r.ioapic
                    == es[i]->IoApic_address
            &&& t.ioapic == 0 && (forall|i: int|
                0 <= i < es.len() ==> !gives_ioapic(#[trigger] es[i])) ==> r.ioapic == 0
        }),
    decreases es.len(),
{
    if es.len() > 0 {
        let rest = es.skip(1);
        let t1 = with_one(es[0], t);
        let r = with_all(es, t);
        lemma_addresses(rest, t1);
        assert forall|i: int| #[trigger] last_address(es, i) implies r.overridden
            && es[i]->Address_address == r.lapic by {
            if i > 0 {
                assert forall|j: int| i - 1 < j < rest.len() implies !((
                #[trigger] rest[j]) is Address) by {
                    assert(rest[j] == es[j + 1]);
                }
                assert(rest[i - 1] == es[i]);
                assert(last_address(rest, i - 1));
            } else {
                assert forall|j: int| 0 <= j < rest.len() implies !((
                #[trigger] rest[j]) is Address) by {
                    assert(rest[j] == es[j + 1]);
                }
            }
        }
        if forall|i: int| 0 <= i < es.len() ==> !((#[trigger] es[i]) is Address) {
            assert forall|j: int| 0 <= j < rest.len() implies !((
            #[trigger] rest[j]) is Address) by {
                assert(rest[j] == es[j + 1]);
            }
            assert(!(es[0] is Address));
        }
        assert forall|i: int| t.ioapic == 0 && #[trigger] first_ioapic(es, i) implies r.ioapic
            == es[i]->IoApic_address by {
            if i > 0 {
                assert(!gives_ioapic(es[0]));
                assert forall|j: int| 0 <= j < i - 1 implies !gives_ioapic(
                    #[trigger] rest[j],
                ) by {
                    assert(rest[j] == es[j + 1]);
                }
                assert(rest[i - 1] == es[i]);
                assert(first_ioapic(rest, i - 1));
            }
        }
        if t.ioapic == 0 && (forall|i: int| 0 <= i < es.len() ==> !gives_ioapic(#[trigger] es[i])) {
            assert(!gives_ioapic(es[0]));
            assert forall|j: int| 0 <= j < rest.len() implies !gives_ioapic(#[trigger] rest[j]) by {
                assert(rest[j] == es[j + 1]);
            }
        }
    }
}

/// Entries that report a processor.
pub open spec fn report_count(es: Seq<MadtEntry>) -> nat
    decreases es.len(),
{
    if es.len() == 0 {
        0
    } else {
        report_count(es.skip(1)) + (if reports(es[0]) is Some {
            1nat
        } else {
            0
        })
    }
}

proof fn lemma_with_cpu_finds(cpus: Seq<CpuInfo>, id: u32, enabled: bool, x: u32, on: bool)
    requires
        cpus.len() < MAX_CPUS,
    ensures
        acpi::with_cpu(cpus, id, enabled).len() <= cpus.len() + 1,
        found(acpi::with_cpu(cpus, id, enabled), x, on) == (found(cpus, x, on) || x == id && (on
            ==> enabled)),
{
    acpi::lemma_cpu_index(cpus, id, 0);
    let r = acpi::with_cpu(cpus, id, enabled);
    match acpi::cpu_index(cpus, id, 0) {
        Some(k) => {
            if found(cpus, x, on) {
                let i = choose|i: int|
                    0 <= i < cpus.len() && (#[trigger] cpus[i]).apic_id == x && (on
                        ==> cpus[i].enabled);
                assert(r[i].apic_id == x && (on ==> r[i].enabled));
            }
            if x == id && (on ==> enabled) {
                assert(r[k].apic_id == x && (on ==> r[k].enabled));
            }
            if found(r, x, on) {
                let i = choose|i: int|
                    0 <= i < r.len() && (#[trigger] r[i]).apic_id == x && (on ==> r[i].enabled);
                assert(cpus[i].apic_id == x);
            }
        },
        None => {
            let n = cpus.len() as int;
            assert(r[n].apic_id == id && r[n].enabled == enabled);
            if found(cpus, x, on) {
                let i = choose|i: int|
                    0 <= i < cpus.len() && (#[trigger] cpus[i]).apic_id == x && (on
                        ==> cpus[i].enabled);
                assert(r[i] == cpus[i]);
            }
            if found(r, x, on) {
                let i = choose|i: int|
                    0 <= i < r.len() && (#[trigger] r[i]).apic_id == x && (on ==> r[i].enabled);
                if i < n {
                    assert(r[i] == cpus[i]);
                }
            }
        },
    }
}

proof fn lemma_cpus(es: Seq<MadtEntry>, t: Topology, x: u32, on: bool)
    requires
        t.cpus.len() + report_count(es) <= MAX_CPUS,
    ensures
        found(with_all(es, t).cpus, x, on) == (found(t.cpus, x, on) || reported(es, x, on)),
    decreases es.len(),
{
    if es.len() > 0 {
        let rest = es.skip(1);
        let t1 = with_one(es[0], t);
        if let Some(c) = reports(es[0]) {
            lemma_with_cpu_finds(t.cpus, c.apic_id, c.enabled, x, on);
        }
        lemma_cpus(rest, t1, x, on);
        if reported(rest, x, on) {
            let i = choose|i: int|
                0 <= i < rest.len() && (reports(#[trigger] rest[i]) matches Some(c) && c.apic_id
                    == x && (on ==> c.enabled));
            assert(rest[i] == es[i + 1]);
        }
        if reported(es, x, on) {
            let i = choose|i: int|
                0 <= i < es.len() && (reports(#[trigger] es[i]) matches Some(c) && c.apic_id == x
                    && (on ==> c.enabled));
            if i > 0 {
                assert(rest[i - 1] == es[i]);
            }
        }
    }
}

/// Reading a table of interrupt controllers gives back what was laid out: the address
/// of the local controllers from the last entry that gives one, else from the fixed
/// part; that of the I/O controller from the first that gives one; and, while there is
/// room, exactly the processors that entries report, enabled where any report says so.
pub proof fn lemma_madt_reads_back(
    m: PhysMem,
    p: int,
    lapic: u32,
    es: Seq<MadtEntry>,
    x: u32,
    on: bool,
)
    requires
        is_madt(m, p, lapic, es),
    ensures
        acpi::madt_topology(m, p) matches Ok(t) && {
            &&& forall|i: int|
                #[trigger] last_address(es, i) ==> t.overridden && t.lapic
                    == es[i]->Address_address
            &&& (forall|i: int| 0 <= i < es.len() ==> !((#[trigger] es[i]) is Address))
                ==> !t.overridden && t.lapic == lapic
            &&& forall|i: int| #[trigger] first_ioapic(es, i) ==> t.ioapic == es[i]->IoApic_address
            &&& (forall|i: int| 0 <= i < es.len() ==> !gives_ioapic(#[trigger] es[i]))
                ==> t.ioapic == 0
            &&& report_count(es) <= MAX_CPUS ==> found(t.cpus, x, on) == reported(es, x, on)
        },
{
    let total = 44 + entries_bytes(es).len();
    let t0 = Topology {
        lapic: lapic as u64,
        ioapic: 0,
        overridden: false,
        cpus: Seq::empty(),
    };
    lemma_word(m, p, 4, 44, total as u32);
    lemma_word(m, p, 36, 44, lapic);
    lemma_entries(m, p, 44, es, t0);
    lemma_addresses(es, t0);
    if report_count(es) <= MAX_CPUS {
        lemma_cpus(es, t0, x, on);
    }
}

// The root pointer and the table of tables.

/// A root pointer as it is laid out.
pub open spec fn rsdp_bytes(r: Rsdp, sum: u8, oem: Seq<u8>, full_sum: u8) -> Seq<u8> {
    seq![0x52u8, 0x53, 0x44, 0x20, 0x50, 0x54, 0x52, 0x20] + seq![sum] + oem + seq![r.revision]
        + bytes::le32_bytes(r.rsdt_address as int) + bytes::le32_bytes(r.length as int)
        + bytes::le64_bytes(r.xsdt_address as int) + seq![full_sum]
}

/// A root pointer reads back as it was laid out, and is taken where its bytes sum to
/// zero.
pub proof fn lemma_rsdp_reads_back(
    m: PhysMem,
    p: int,
    r: Rsdp,
    sum: u8,
    oem: Seq<u8>,
    full_sum: u8,
)
    requires
        oem.len() == 6,
        stands(m, p, rsdp_bytes(r, sum, oem, full_sum)),
    ensures
        acpi::rsdp_at(m, p) == r,
        acpi::valid_rsdp(m, p) <==> m.sums_to_zero(p, 20) && (r.revision >= 2 && r.length >= 36
            ==> m.sums_to_zero(p, r.length as nat)),
{
    let sig = seq![0x52u8, 0x53, 0x44, 0x20, 0x50, 0x54, 0x52, 0x20];
    let head = sig + seq![sum] + oem;
    let a = bytes::le32_bytes(r.rsdt_address as int);
    let b = bytes::le32_bytes(r.length as int);
    let c = bytes::le64_bytes(r.xsdt_address as int);
    lemma_part_stands(m, p, head + seq![r.revision] + a + b + c, seq![full_sum]);
    lemma_part_stands(m, p, head + seq![r.revision] + a + b, c);
    lemma_part_stands(m, p, head + seq![r.revision] + a, b);
    lemma_part_stands(m, p, head + seq![r.revision], a);
    lemma_part_stands(m, p, head, seq![r.revision]);
    lemma_part_stands(m, p, sig + seq![sum], oem);
    lemma_part_stands(m, p, sig, seq![sum]);
    assert(m.at(p + 15 + 0) == seq![r.revision][0]);
    lemma_word(m, p, 16, 36, r.rsdt_address);
    lemma_word(m, p, 20, 36, r.length);
    lemma_long(m, p, 24, 36, r.xsdt_address);
    let w = m.window(p, 8);
    assert forall|i: int| 0 <= i < 8 implies w[i] == acpi::rsdp_signature()[i] by {
        assert(m.at(p + i) == sig[i]);
    }
    assert(w =~= acpi::rsdp_signature());
}

/// The address in an entry of the table of tables.
pub open spec fn address_bytes(r: Rsdp, address: u64) -> Seq<u8> {
    if r.revision >= 2 && r.xsdt_address != 0 {
        bytes::le64_bytes(address as int)
    } else {
        bytes::le32_bytes(address as int)
    }
}

/// The table of tables of `r`, with these addresses: eight bytes each where the root
/// pointer is of revision two and names such a table, four bytes each elsewhere.
pub open spec fn is_root_table(m: PhysMem, r: Rsdp, addresses: Seq<u64>) -> bool {
    let extended = r.revision >= 2 && r.xsdt_address != 0;
    let p = if extended {
        r.xsdt_address as int
    } else {
        r.rsdt_address as int
    };
    let size: int = if extended {
        8
    } else {
        4
    };
    &&& 36 + size * addresses.len() <= u32::MAX
    &&& stands(m, p + 4, bytes::le32_bytes(36 + size * addresses.len()))
    &&& forall|i: int|
        0 <= i < addresses.len() ==> stands(
            m,
            p + 36 + size * i,
            address_bytes(r, #[trigger] addresses[i]),
        ) && (!extended ==> addresses[i] <= u32::MAX)
}

/// The table at `p` is sound and has the signature.
pub open spec fn answers(m: PhysMem, p: u64, signature: Seq<u8>) -> bool {
    acpi::sound_table(m, p as int) && m.window(p as int, 4) == signature
}

proof fn lemma_entry_reads_back(m: PhysMem, r: Rsdp, addresses: Seq<u64>, i: int)
    requires
        is_root_table(m, r, addresses),
        0 <= i < addresses.len(),
    ensures
        acpi::entry_at(m, r, i) == addresses[i],
        acpi::entry_count(m, r) == addresses.len(),
{
    let v = addresses[i];
    let n = addresses.len() as int;
    if r.revision >= 2 && r.xsdt_address != 0 {
        let p = r.xsdt_address as int;
        lemma_long(m, p + 36 + 8 * i, 0, 8, v);
        lemma_word(m, p, 4, 36, (36 + 8 * n) as u32);
        assert(p + 36 + i * 8 == p + 36 + 8 * i);
        assert((8 * n) / 8 == n);
    } else {
        let p = r.rsdt_address as int;
        lemma_word(m, p + 36 + 4 * i, 0, 4, v as u32);
        lemma_word(m, p, 4, 36, (36 + 4 * n) as u32);
        assert(p + 36 + i * 4 == p + 36 + 4 * i);
        assert((4 * n) / 4 == n);
    }
}

proof fn lemma_lookup(m: PhysMem, r: Rsdp, addresses: Seq<u64>, signature: Seq<u8>, i: int)
    requires
        is_root_table(m, r, addresses),
        0 <= i <= addresses.len(),
        acpi::entry_count(m, r) == addresses.len(),
    ensures
        match acpi::table_from(m, r, signature, i) {
            Some(p) => exists|k: int|
                i <= k < addresses.len() && p == #[trigger] addresses[k] && answers(
                    m,
                    p,
                    signature,
                ) && forall|j: int|
                    i <= j < k ==> !answers(m, #[trigger] addresses[j], signature),
            None => forall|j: int|
                i <= j < addresses.len() ==> !answers(m, #[trigger] addresses[j], signature),
        },
    decreases addresses.len() - i,
{
    if i < addresses.len() {
        lemma_entry_reads_back(m, r, addresses, i);
        if !answers(m, addresses[i], signature) {
            lemma_lookup(m, r, addresses, signature, i + 1);
        } else {
            assert(acpi::table_from(m, r, signature, i) == Some(addresses[i]));
        }
    }
}

/// Looking up a signature gives the first table of the list that is sound and has it,
/// and nothing only where none is.
pub proof fn lemma_first_table(m: PhysMem, r: Rsdp, addresses: Seq<u64>, signature: Seq<u8>)
    requires
        is_root_table(m, r, addresses),
    ensures
        match acpi::table_from(m, r, signature, 0) {
            Some(p) => exists|k: int|
                0 <= k < addresses.len() && p == #[trigger] addresses[k] && answers(
                    m,
                    p,
                    signature,
                ) && forall|j: int|
                    0 <= j < k ==> !answers(m, #[trigger] addresses[j], signature),
            None => forall|j: int|
                0 <= j < addresses.len() ==> !answers(m, #[trigger] addresses[j], signature),
        },
{
    if addresses.len() > 0 {
        lemma_entry_reads_back(m, r, addresses, 0);
    } else if r.revision >= 2 && r.xsdt_address != 0 {
        lemma_word(m, r.xsdt_address as int, 4, 36, 36);
    } else {
        lemma_word(m, r.rsdt_address as int, 4, 36, 36);
    }
    lemma_lookup(m, r, addresses, signature, 0);
}

/// A root pointer stands on step `j` of sixteen bytes behind `base`.
pub open spec fn on_step(m: PhysMem, base: int, j: int) -> bool {
    acpi::valid_rsdp(m, base + 16 * j)
}

/// Step `k` of sixteen bytes is the first in the `len` bytes at `base` where a whole root
/// pointer stands.
pub open spec fn first_rsdp(m: PhysMem, base: int, len: int, k: int) -> bool {
    &&& 0 <= k
    &&& 16 * k + 36 <= len
    &&& on_step(m, base, k)
    &&& forall|j: int| 0 <= j < k ==> !#[trigger] on_step(m, base, j)
}

proof fn lemma_search_from(m: PhysMem, base: int, len: int, i: int)
    requires
        0 <= i,
        forall|j: int| 0 <= j < i ==> !#[trigger] on_step(m, base, j),
    ensures
        match acpi::rsdp_in(m, base, len, 16 * i) {
            Some(r) => exists|k: int|
                #[trigger] first_rsdp(m, base, len, k) && r == acpi::rsdp_at(m, base + 16 * k),
            None => forall|k: int| !#[trigger] first_rsdp(m, base, len, k),
        },
    decreases len - 16 * i,
{
    if 16 * i + 36 > len {
        assert forall|k: int| !#[trigger] first_rsdp(m, base, len, k) by {
            if first_rsdp(m, base, len, k) {
                assert(k < i);
                assert(!on_step(m, base, k));
            }
        }
    } else if acpi::valid_rsdp(m, base + 16 * i) {
        assert(first_rsdp(m, base, len, i));
    } else {
        assert(!on_step(m, base, i));
        assert(16 * i + 16 == 16 * (i + 1));
        lemma_search_from(m, base, len, i + 1);
    }
}

/// Searching a stretch of memory gives the first root pointer on a step of sixteen bytes
/// that lies in it, and none only where there is none.
pub proof fn lemma_first_root_pointer(m: PhysMem, base: int, len: int)
    ensures
        match acpi::rsdp_in(m, base, len, 0) {
            Some(r) => exists|k: int|
                #[trigger] first_rsdp(m, base, len, k) && r == acpi::rsdp_at(m, base + 16 * k),
            None => forall|k: int| !#[trigger] first_rsdp(m, base, len, k),
        },
{
    lemma_search_from(m, base, len, 0);
}

/// From the root pointer to the topology: what is read is the table of interrupt
/// controllers that the list of tables names first, the first sound one with its
/// signature, and nothing else.
pub proof fn lemma_topology_found(
    m: PhysMem,
    bootloader: Option<u64>,
    r: Rsdp,
    addresses: Seq<u64>,
    k: int,
)
    requires
        acpi::rsdp_of(m, bootloader) == Some(r),
        is_root_table(m, r, addresses),
        acpi::sound_table(
            m,
            if r.revision >= 2 && r.xsdt_address != 0 {
                r.xsdt_address as int
            } else {
                r.rsdt_address as int
            },
        ),
        0 <= k < addresses.len(),
        addresses[k] != 0,
        answers(m, addresses[k], seq![0x41u8, 0x50, 0x49, 0x43]),
        forall|j: int|
            0 <= j < k ==> !answers(m, #[trigger] addresses[j], seq![0x41u8, 0x50, 0x49, 0x43]),
    ensures
        acpi::topology_of(m, bootloader) == acpi::madt_topology(m, addresses[k] as int),
{
    let sig = seq![0x41u8, 0x50, 0x49, 0x43];
    assert(acpi::madt_signature() =~= sig);
    lemma_first_table(m, r, addresses, sig);
    match acpi::table_from(m, r, sig, 0) {
        Some(p) => {
            let q = choose|q: int|
                0 <= q < addresses.len() && p == #[trigger] addresses[q] && answers(m, p, sig)
                    && forall|j: int| 0 <= j < q ==> !answers(m, #[trigger] addresses[j], sig);
            if q < k {
                assert(!answers(m, addresses[q], sig));
            } else if k < q {
                assert(!answers(m, addresses[k], sig));
            }
        },
        None => {
            assert(!answers(m, addresses[k], sig));
        },
    }
}

// The table of translation units.

/// An entry of the table of translation units.
pub struct IvrsEntry {
    pub kind: u8,
    pub flags: u8,
    pub device: u16,
    pub capability: u16,
    pub base: u64,
    /// What comes behind.
    pub rest: Seq<u8>,
}

pub open spec fn word_bytes(v: u16) -> Seq<u8> {
    seq![(v as int % 256) as u8, (v as int / 256) as u8]
}

pub open spec fn unit_bytes(e: IvrsEntry) -> Seq<u8> {
    seq![e.kind, e.flags] + word_bytes((16 + e.rest.len()) as u16) + word_bytes(e.device)
        + word_bytes(e.capability) + bytes::le64_bytes(e.base as int) + e.rest
}

pub open spec fn units_bytes(es: Seq<IvrsEntry>) -> Seq<u8>
    decreases es.len(),
{
    if es.len() == 0 {
        Seq::empty()
    } else {
        unit_bytes(es[0]) + units_bytes(es.skip(1))
    }
}

/// The bases of the entries that describe a unit, in order. Kinds 0x10, 0x11 and 0x40
/// do, with a base that is not zero.
pub open spec fn bases(es: Seq<IvrsEntry>) -> Seq<u64> {
    es.filter(|e: IvrsEntry| (e.kind == 0x10 || e.kind == 0x11 || e.kind == 0x40) && e.base != 0)
        .map_values(|e: IvrsEntry| e.base)
}

proof fn lemma_bases_first(es: Seq<IvrsEntry>)
    requires
        es.len() > 0,
    ensures
        bases(es) == bases(seq![es[0]]) + bases(es.skip(1)),
{
    let f = |e: IvrsEntry|
        (e.kind == 0x10 || e.kind == 0x11 || e.kind == 0x40) && e.base != 0;
    let one = seq![es[0]];
    Seq::filter_distributes_over_add(one, es.skip(1), f);
    assert(one + es.skip(1) =~= es);
    assert(bases(es) =~= bases(one) + bases(es.skip(1)));
}

proof fn lemma_unit(m: PhysMem, p: int, e: IvrsEntry)
    requires
        e.rest.len() <= 0xFFEF,
        stands(m, p, unit_bytes(e)),
    ensures
        ({
            let w = m.window(p, 16);
            &&& w[0] == e.kind
            &&& bytes::le16(w, 2) == unit_bytes(e).len()
            &&& bytes::le64(w, 8) == e.base
            &&& unit_bytes(e).len() == 16 + e.rest.len()
        }),
{
    let h = seq![e.kind, e.flags];
    let n = (16 + e.rest.len()) as u16;
    let (x, y, z) = (word_bytes(n), word_bytes(e.device), word_bytes(e.capability));
    let b = bytes::le64_bytes(e.base as int);
    assert(b.len() == 8);
    lemma_part_stands(m, p, h + x + y + z + b, e.rest);
    lemma_part_stands(m, p, h + x + y + z, b);
    lemma_part_stands(m, p, h + x + y, z);
    lemma_part_stands(m, p, h + x, y);
    lemma_part_stands(m, p, h, x);
    lemma_long(m, p, 8, 16, e.base);
    let w = m.window(p, 16);
    assert(m.at(p + 0) == h[0]);
    assert(m.at(p + 2 + 0) == x[0] && m.at(p + 2 + 1) == x[1]);
    assert(w[2] == x[0] && w[3] == x[1]);
}

proof fn lemma_units(m: PhysMem, p: int, off: int, es: Seq<IvrsEntry>)
    requires
        forall|i: int| 0 <= i < es.len() ==> (#[trigger] es[i]).rest.len() <= 0xFFEF,
        stands(m, p + off, units_bytes(es)),
    ensures
        iommu::ivhds_from(m, p, off + units_bytes(es).len(), off) == (bases(es), true),
    decreases es.len(),
{
    if es.len() == 0 {
        assert(bases(es) =~= Seq::<u64>::empty()) by {
            reveal(Seq::filter);
        }
    } else {
        let rest = es.skip(1);
        let e = es[0];
        let b = unit_bytes(e);
        lemma_part_stands(m, p + off, b, units_bytes(rest));
        lemma_unit(m, p + off, e);
        assert forall|i: int| 0 <= i < rest.len() implies (#[trigger] rest[i]).rest.len()
            <= 0xFFEF by {
            assert(rest[i] == es[i + 1]);
        }
        assert(p + off + b.len() == p + (off + b.len()));
        lemma_units(m, p, off + b.len(), rest);
        lemma_bases_first(es);
        let one = seq![e];
        assert(bases(one) =~= if (e.kind == 0x10 || e.kind == 0x11 || e.kind == 0x40) && e.base
            != 0 {
            seq![e.base]
        } else {
            Seq::empty()
        }) by {
            reveal(Seq::filter);
            assert(one.drop_last() =~= Seq::<IvrsEntry>::empty());
            reveal_with_fuel(Seq::filter, 2);
        }
        assert(bases(one) + bases(rest) =~= bases(es));
        assert(Seq::<u64>::empty() + bases(rest) =~= bases(rest));
    }
}

/// Walking a table of translation units gives the base of every entry that describes
/// one, in order, and gets to the end.
pub proof fn lemma_ivrs_reads_back(m: PhysMem, p: int, es: Seq<IvrsEntry>)
    requires
        forall|i: int| 0 <= i < es.len() ==> (#[trigger] es[i]).rest.len() <= 0xFFEF,
        48 + units_bytes(es).len() <= u32::MAX,
        stands(m, p + 4, bytes::le32_bytes((48 + units_bytes(es).len()) as int)),
        stands(m, p + 48, units_bytes(es)),
    ensures
        iommu::ivhds_of(m, p) == (bases(es), true),
{
    lemma_word(m, p, 4, 36, (48 + units_bytes(es).len()) as u32);
    lemma_units(m, p, 48, es);
}

} // verus!
