use zero_kernel::arch::x86_64::acpi::{
    find_rsdp, ioapic_phys_base, is_walkable, lapic_phys_base, parse_madt, parse_madt_table,
    read_sdt_header, record_cpu, record_topology, recorded_cpu, recorded_summary, root_table,
    AcpiError, AcpiInfo, AcpiState, CpuInfo, MAX_CPUS,
};
use zero_kernel::arch::x86_64::iommu::{
    disable_amd_vi, disabled_control, find_ivrs, walk_ivhds, IommuError, IommuProgress,
};
use zero_kernel::arch::x86_64::phys::{PhysMem, Region};

fn fix(bytes: &mut [u8], at: usize) {
    bytes[at] = 0;
    let mut sum = 0u8;
    for b in bytes.iter() {
        sum = sum.wrapping_add(*b);
    }
    bytes[at] = 0u8.wrapping_sub(sum);
}

fn rsdp(revision: u8, rsdt: u32, xsdt: u64) -> Vec<u8> {
    let mut v = b"RSD PTR ".to_vec();
    v.push(0);
    v.extend_from_slice(b"ZEROOS");
    v.push(revision);
    v.extend_from_slice(&rsdt.to_le_bytes());
    fix(&mut v, 8);
    v.extend_from_slice(&36u32.to_le_bytes());
    v.extend_from_slice(&xsdt.to_le_bytes());
    v.extend_from_slice(&[0, 0, 0, 0]);
    fix(&mut v, 32);
    v
}

fn sdt(sig: &[u8; 4], body: &[u8]) -> Vec<u8> {
    let mut v = sig.to_vec();
    v.extend_from_slice(&(36 + body.len() as u32).to_le_bytes());
    v.extend_from_slice(&[0; 28]);
    v.extend_from_slice(body);
    fix(&mut v, 9);
    v
}

fn mem(parts: Vec<(u64, Vec<u8>)>) -> PhysMem {
    let mut regions = vec![Region { base: 0x40E, bytes: vec![0, 0] }];
    for (base, bytes) in parts {
        regions.push(Region { base, bytes });
    }
    PhysMem { regions }
}

fn lapic(id: u8, flags: u32) -> Vec<u8> {
    let mut v = vec![0, 8, 9, id];
    v.extend_from_slice(&flags.to_le_bytes());
    v
}

fn x2apic(id: u32, flags: u32) -> Vec<u8> {
    let mut v = vec![9, 16, 0, 0];
    v.extend_from_slice(&id.to_le_bytes());
    v.extend_from_slice(&flags.to_le_bytes());
    v.extend_from_slice(&[0; 4]);
    v
}

fn madt(entries: &[Vec<u8>]) -> Vec<u8> {
    let mut body = 0xFEE0_0000u32.to_le_bytes().to_vec();
    body.extend_from_slice(&[1, 0, 0, 0]);
    for e in entries {
        body.extend_from_slice(e);
    }
    sdt(b"APIC", &body)
}

fn ioapic(addr: u32) -> Vec<u8> {
    let mut v = vec![1, 12, 7, 0];
    v.extend_from_slice(&addr.to_le_bytes());
    v.extend_from_slice(&[0; 4]);
    v
}

fn override_to(addr: u64) -> Vec<u8> {
    let mut v = vec![5, 12, 0, 0];
    v.extend_from_slice(&addr.to_le_bytes());
    v
}

fn machine(table: Vec<u8>) -> PhysMem {
    let xsdt = sdt(b"XSDT", &0x5000u64.to_le_bytes());
    mem(vec![(0xE0010, rsdp(2, 0, 0x4000)), (0x4000, xsdt), (0x5000, table)])
}

#[test]
fn memory_reads_and_gaps() {
    let m = mem(vec![(0x100, vec![1, 2, 3])]);
    assert_eq!(m.byte(0x101), 2);
    assert_eq!(m.byte(0x103), 0xFF);
    assert_eq!(m.read(0xFF, 5), vec![0xFF, 1, 2, 3, 0xFF]);
    assert!(!m.checksum_ok(0x100, 3));
    let mut t = vec![5, 6, 7, 0];
    fix(&mut t, 3);
    assert!(mem(vec![(0x100, t)]).checksum_ok(0x100, 4));
}

#[test]
fn madt_lists_processors() {
    let table = madt(&[
        lapic(4, 1),
        ioapic(0xFEC0_0000),
        ioapic(0xFEC1_0000),
        vec![2, 10, 0, 0, 0, 0, 0, 0, 0, 0],
        x2apic(300, 0),
        override_to(0x1_2345_6000),
    ]);
    let m = machine(table);
    assert!(is_walkable(&m, None));
    let mut s = AcpiState::new();
    let info = parse_madt(&mut s, &m, None).unwrap();
    assert_eq!(info.cpu_count, 2);
    assert_eq!(info.cpus[0], CpuInfo { apic_id: 4, enabled: true });
    assert_eq!(info.cpus[1], CpuInfo { apic_id: 300, enabled: false });
    assert_eq!(info.ioapic_phys_base, 0xFEC0_0000);
    assert_eq!(info.lapic_phys_base, 0x1_2345_6000);
    assert!(info.lapic_override_applied);
    assert_eq!(lapic_phys_base(&s), 0x1_2345_6000);
    assert_eq!(ioapic_phys_base(&s), 0xFEC0_0000);
    assert_eq!(recorded_summary(&s), (2, 0x1_2345_6000, 0xFEC0_0000, true));
    assert_eq!(recorded_cpu(&s, 0), Some(CpuInfo { apic_id: 4, enabled: true }));
    assert_eq!(recorded_cpu(&s, 1), Some(CpuInfo { apic_id: 300, enabled: false }));
    assert_eq!(recorded_cpu(&s, 2), None);
    assert_eq!(recorded_cpu(&s, 64), None);
}

#[test]
fn older_root_table_is_used() {
    let rsdt = sdt(b"RSDT", &0x5000u32.to_le_bytes());
    let m = mem(vec![(0xE0000, rsdp(0, 0x4000, 0)), (0x4000, rsdt), (0x5000, madt(&[lapic(1, 1)]))]);
    let mut s = AcpiState::new();
    assert_eq!(parse_madt(&mut s, &m, None).unwrap().cpu_count, 1);
}

#[test]
fn anchor_in_the_extended_area_and_from_the_loader() {
    let xsdt = sdt(b"XSDT", &0x5000u64.to_le_bytes());
    let mut m = mem(vec![(0x9FC00, rsdp(2, 0, 0x4000)), (0x4000, xsdt), (0x5000, madt(&[]))]);
    assert!(find_rsdp(&m, None).0.is_none());
    let (r, line) = find_rsdp(&m, Some(0x9FC00));
    assert_eq!(r.unwrap().xsdt_address, 0x4000);
    assert_eq!(line.unwrap(), "ACPI: RSDP found via bootloader at 0x9fc00");
    // The segment word at 0x40E points there.
    m.regions[0].bytes = vec![0xC0, 0x9F];
    let (r, line) = find_rsdp(&m, None);
    assert!(r.is_some());
    assert!(line.is_none());
}

#[test]
fn table_errors() {
    let mut s = AcpiState::new();
    let m = mem(vec![]);
    assert_eq!(parse_madt(&mut s, &m, None).err(), Some(AcpiError::RsdpNotFound));
    assert!(is_walkable(&m, None));

    let mut xsdt = sdt(b"XSDT", &0x5000u64.to_le_bytes());
    xsdt[20] ^= 1;
    let m = mem(vec![(0xE0000, rsdp(2, 0, 0x4000)), (0x4000, xsdt)]);
    assert_eq!(parse_madt(&mut s, &m, None).err(), Some(AcpiError::SdtChecksumBad));
    assert_eq!(root_table(&m, None).err(), Some(AcpiError::SdtChecksumBad));
    assert_eq!(read_sdt_header(&m, 0x4000).err(), Some(AcpiError::SdtChecksumBad));

    let m = machine(sdt(b"FACP", &[0; 8]));
    assert_eq!(parse_madt(&mut s, &m, None).err(), Some(AcpiError::MadtNotFound));

    let m = machine(madt(&[vec![0, 0, 0, 0]]));
    assert_eq!(parse_madt(&mut s, &m, None).err(), Some(AcpiError::MadtTruncated));
    let m = machine(madt(&[vec![0, 200]]));
    assert_eq!(parse_madt(&mut s, &m, None).err(), Some(AcpiError::MadtTruncated));
    assert_eq!(recorded_summary(&s).0, 0);

    // A root table shorter than its own header cannot be walked.
    let mut short = sdt(b"XSDT", &[]);
    short[4] = 10;
    let mut sum = 0u8;
    for b in short[..9].iter() {
        sum = sum.wrapping_add(*b);
    }
    short[9] = 0u8.wrapping_sub(sum);
    let m = mem(vec![(0xE0000, rsdp(2, 0, 0x4000)), (0x4000, short)]);
    assert!(!is_walkable(&m, None));
}

#[test]
fn damaged_anchor_is_passed_over() {
    let mut bad = rsdp(2, 0, 0x4000);
    bad[30] ^= 1;
    let xsdt = sdt(b"XSDT", &0x5000u64.to_le_bytes());
    let m = mem(vec![
        (0xE0000, bad),
        (0xE0030, rsdp(2, 0, 0x6000)),
        (0x4000, xsdt),
    ]);
    assert_eq!(find_rsdp(&m, None).0.unwrap().xsdt_address, 0x6000);
}

#[test]
fn processors_beyond_the_limit_are_dropped() {
    let mut info = AcpiInfo::empty();
    for i in 0..MAX_CPUS as u32 + 3 {
        record_cpu(&mut info, i, i % 2 == 0);
    }
    assert_eq!(info.cpu_count, 64);
    assert_eq!(info.cpus[63], CpuInfo { apic_id: 63, enabled: false });
    let mut s = AcpiState::new();
    assert_eq!(recorded_cpu(&s, 0), None);
    record_topology(&mut s, &info);
    assert_eq!(recorded_cpu(&s, 62), Some(CpuInfo { apic_id: 62, enabled: true }));
    // A smaller topology clears what stood behind it.
    let mut one = AcpiInfo::empty();
    record_cpu(&mut one, 7, true);
    record_topology(&mut s, &one);
    assert_eq!(recorded_cpu(&s, 0), Some(CpuInfo { apic_id: 7, enabled: true }));
    assert_eq!(recorded_cpu(&s, 1), None);
    assert!(parse_madt_table(&machine(madt(&[])), 0x5000).unwrap().cpu_count == 0);
}

fn ivhd(kind: u8, base: u64) -> Vec<u8> {
    let mut v = vec![kind, 0, 24, 0, 0, 0, 0, 0];
    v.extend_from_slice(&base.to_le_bytes());
    v.extend_from_slice(&[0; 8]);
    v
}

fn ivrs(entries: &[Vec<u8>]) -> Vec<u8> {
    let mut body = vec![0; 12];
    for e in entries {
        body.extend_from_slice(e);
    }
    sdt(b"IVRS", &body)
}

#[test]
fn units_are_found_by_kind() {
    let m = machine(ivrs(&[
        ivhd(0x10, 0xFD00_0000),
        ivhd(0x20, 0xDEAD_0000),
        ivhd(0x11, 0),
        ivhd(0x40, 0xFD20_0000),
        ivhd(0x11, 0xFD10_0000),
    ]));
    assert_eq!(find_ivrs(&m), Ok(0x5000));
    let (bases, whole) = walk_ivhds(&m, 0x5000);
    assert_eq!(bases, vec![0xFD00_0000, 0xFD20_0000, 0xFD10_0000]);
    assert!(whole);
    assert_eq!(disabled_control(0xFFFF_0003), 0xFFFF_0002);
    assert_eq!(disabled_control(6), 6);
}

#[test]
fn units_are_turned_off_in_turn() {
    let m = machine(ivrs(&[ivhd(0x10, 0xA000), ivhd(0x10, 0xB000), ivhd(0x10, 0xC000)]));
    let mut outcomes: Vec<Result<(u64, u64), IommuError>> = Vec::new();
    let replies = [Ok((3, 2)), Err(IommuError::MmioMapFailed), Ok((1, 1))];
    let mut asked = Vec::new();
    for r in replies {
        match disable_amd_vi(&m, &outcomes) {
            IommuProgress::TurnOff(base) => asked.push(base),
            IommuProgress::Finished { .. } => panic!("units are left"),
        }
        outcomes.push(r);
    }
    assert_eq!(asked, vec![0xA000, 0xB000, 0xC000]);
    match disable_amd_vi(&m, &outcomes) {
        IommuProgress::TurnOff(_) => panic!("no unit is left"),
        IommuProgress::Finished { result, lines } => {
            let report = result.unwrap();
            assert_eq!(report.count, 2);
            assert_eq!(report.iommus[0].base_phys, 0xA000);
            assert_eq!(report.iommus[1].base_phys, 0xC000);
            assert_eq!(report.iommus[1].ctrl_after, 1);
            assert_eq!(lines[0], "iommu: IVRS table found at phys 0x0000000000005000");
            assert_eq!(
                lines[1],
                "iommu: AMD-Vi @0x000000000000a000 \u{2014} IommuEn was ON, now off (CTRL 0x0000000000000003 \u{2192} 0x0000000000000002)"
            );
            assert_eq!(
                lines[2],
                "iommu: disable failed for IOMMU @0x000000000000b000 (MmioMapFailed)"
            );
            assert!(lines[3].contains("now ON (write rejected)"));
            assert_eq!(lines.len(), 4);
        },
    }
}

#[test]
fn no_unit_and_broken_tables() {
    match disable_amd_vi(&machine(ivrs(&[])), &Vec::new()) {
        IommuProgress::Finished { result, lines } => {
            assert_eq!(result.unwrap().count, 0);
            assert_eq!(lines[1], "iommu: IVRS present but no IVHD entries \u{2014} nothing to disable");
        },
        IommuProgress::TurnOff(_) => panic!("there is no unit"),
    }
    let failed = |m: &PhysMem| match disable_amd_vi(m, &Vec::new()) {
        IommuProgress::Finished { result, .. } => result.err(),
        IommuProgress::TurnOff(_) => None,
    };
    assert_eq!(failed(&mem(vec![])), Some(IommuError::RsdpNotFound));
    assert_eq!(failed(&machine(madt(&[]))), Some(IommuError::IvrsNotFound));
    assert_eq!(failed(&machine(ivrs(&[vec![0x10, 0, 0, 0]]))), Some(IommuError::IvrsTruncated));
    let mut xsdt = sdt(b"XSDT", &0x5000u64.to_le_bytes());
    xsdt[20] ^= 1;
    let m = mem(vec![(0xE0000, rsdp(2, 0, 0x4000)), (0x4000, xsdt)]);
    assert_eq!(failed(&m), Some(IommuError::SdtChecksumBad));
    assert_eq!(IommuError::PhysOffsetMissing.label(), "PhysOffsetMissing");
}

#[test]
fn only_eight_units_are_kept() {
    let units: Vec<Vec<u8>> = (1..=10).map(|i| ivhd(0x10, i * 0x1000)).collect();
    let m = machine(ivrs(&units));
    let outcomes: Vec<Result<(u64, u64), IommuError>> = vec![Ok((0, 0)); 8];
    match disable_amd_vi(&m, &outcomes) {
        IommuProgress::Finished { result, lines } => {
            assert_eq!(result.unwrap().count, 8);
            assert_eq!(
                lines[9],
                "iommu: IVHD limit reached (8) \u{2014} skipping IOMMU @0x0000000000009000"
            );
        },
        IommuProgress::TurnOff(_) => panic!("eight are enough"),
    }
}
