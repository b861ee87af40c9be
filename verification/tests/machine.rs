use zero_kernel::arch::x86_64::apic::{
    current_apic_id, delay_microseconds, enable_current_core, tsc_cycles_per_us,
    x2apic_msr_for_mmio_offset, Apic, ApicMode, ApicOp, ApicState, MSR_IA32_APIC_BASE,
    MSR_X2APIC_ESR, MSR_X2APIC_ICR, MSR_X2APIC_SVR, MSR_X2APIC_TPR, REG_EOI, REG_ESR,
    REG_ICR_HIGH, REG_ICR_LOW, REG_ID, REG_SVR, REG_TPR, REG_VERSION,
};
use zero_kernel::arch::x86_64::cpuinfo::{
    detect, enable_fpu_simd, plan_fpu_simd, print_info, topology_ids, x2apic_supported, Cpuid,
    CpuidLeaf,
};
use zero_kernel::arch::x86_64::cycles::{tsc_hz, FALLBACK_TSC_HZ};
use zero_kernel::arch::x86_64::interrupts::{
    handler_for, on_exception, on_irq, report, report_with_code, Frame, Handler,
};
use zero_kernel::arch::x86_64::pcie::{
    config_address, config_read16, config_read32, config_write16, config_write32, find_by_vendor,
    push, read_bar, scan_all_buses, scan_bus0, zero_bar_line, ConfigSpace, FunctionRegs, PciDevice,
    PciScan,
    CONFIG_ADDRESS, CONFIG_DATA, MAX_DEVICES,
};
use zero_kernel::arch::x86_64::pit::{PitState, DIVISOR, HZ, PIT_HZ};
use zero_kernel::arch::x86_64::port::PortOp;
use zero_kernel::arch::x86_64::serial::{println as serial_line, Serial, COM1};
use zero_kernel::arch::x86_64::{
    enable_and_hlt, hlt, interrupts, interrupts_disable, interrupts_enable, pcie, pic, pit, serial,
    without_interrupts, IntOp,
};

fn leaf(eax: u32, ebx: u32, ecx: u32, edx: u32) -> CpuidLeaf {
    CpuidLeaf { eax, ebx, ecx, edx }
}

fn zen() -> Cpuid {
    let word = |s: &[u8]| u32::from_le_bytes([s[0], s[1], s[2], s[3]]);
    let name = |s: &[u8; 16]| leaf(word(&s[0..]), word(&s[4..]), word(&s[8..]), word(&s[12..]));
    Cpuid {
        leaf_0: leaf(0x16, word(b"Auth"), word(b"cAMD"), word(b"enti")),
        leaf_1: leaf(0, 16 << 16, 1 << 21 | 1 << 26 | 1 << 28, 1 << 25 | 1 << 26),
        leaf_7: leaf(0, 1 << 5 | 1 << 16, 0, 0),
        leaf_d: leaf(0xE7, 0, 0, 0),
        leaf_15: leaf(2, 6, 1_000_000, 0),
        leaf_16: leaf(3250, 3800, 0, 0),
        ext_0: leaf(0x8000_001e, 0, 0, 0),
        ext_2: name(b"AMD EPYC 9354P  "),
        ext_3: name(b"                "),
        ext_4: name(b"\0\0\0\0\0\0\0\0\0\0\0\0\0\0\0\0"),
        ext_1e: leaf(0, 0x1_02, 0x3_04, 0),
    }
}

#[test]
fn interrupt_brackets() {
    let b = without_interrupts(true);
    assert_eq!((b.before, b.after), (Some(IntOp::Disable), Some(IntOp::Enable)));
    let b = without_interrupts(false);
    assert_eq!((b.before, b.after), (None, None));
    assert_eq!(enable_and_hlt(), IntOp::EnableAndHalt);
    assert_eq!(interrupts_disable(), IntOp::Disable);
    assert_eq!(interrupts_enable(), IntOp::Enable);
    assert_eq!(hlt(), IntOp::Halt);
}

#[test]
fn processor_is_described() {
    let info = detect(&zen());
    assert_eq!(&info.vendor, b"AuthenticAMD");
    assert_eq!(&info.brand[..info.brand_len], b"AMD EPYC 9354P");
    assert_eq!((info.base_freq_mhz, info.max_freq_mhz), (3250, 3800));
    assert!(info.has_sse && info.has_sse2 && info.has_avx && info.has_avx2);
    assert!(info.has_avx512f && info.has_xsave && info.has_x2apic);
    assert_eq!(info.logical_cores, 16);
    assert_eq!(
        print_info(&info),
        "\n=== CPU Information ===\nVendor:   AuthenticAMD\nModel:    AMD EPYC 9354P\n\
         Base:     3250 MHz\nMax:      3800 MHz\nCores:    16 logical\n\
         Features: SSE SSE2 AVX AVX2 AVX-512F XSAVE x2APIC \n\
         CPUID:    max_leaf=0x16, max_ext=0x8000001e\n===========================\n\n"
    );
    let t = topology_ids(&zen());
    assert!(t.valid);
    assert_eq!((t.compute_unit_id, t.node_id), (2, 4));
}

#[test]
fn bare_processor() {
    let mut c = zen();
    c.leaf_0.eax = 0;
    c.ext_0.eax = 0x8000_0003;
    let info = detect(&c);
    assert_eq!(info.logical_cores, 1);
    assert_eq!(info.brand_len, 0);
    assert_eq!(info.base_freq_mhz, 0);
    assert!(!info.has_sse && !info.has_avx512f);
    assert!(!x2apic_supported(&c));
    assert!(!topology_ids(&c).valid);
    assert!(x2apic_supported(&zen()));
    assert!(!print_info(&info).contains("MHz"));
    c = zen();
    c.leaf_1.ebx = 0;
    assert_eq!(detect(&c).logical_cores, 1);
}

#[test]
fn vector_state_is_switched_on() {
    let p = plan_fpu_simd(0x8000_001D, 0x20, &zen());
    assert_eq!(p.cr0, 0x8000_0013);
    assert_eq!(p.cr4, 0x4_0620);
    assert_eq!(p.xcr0_write, Some(0xE7));
    let s = enable_fpu_simd(&p, 0xE7);
    assert!(s.avx_enabled && s.avx512_enabled);
    assert_eq!(s.xcr0, 0xE7);
    // The register reads back less than was written.
    let s = enable_fpu_simd(&p, 0x7);
    assert!(s.avx_enabled && !s.avx512_enabled);

    let mut c = zen();
    c.leaf_1.ecx = 1 << 28;
    let p = plan_fpu_simd(0, 0, &c);
    assert_eq!((p.cr4, p.xcr0_write), (0x600, None));
    let s = enable_fpu_simd(&p, 0xE7);
    assert_eq!(s.xcr0, 3);
    assert!(!s.avx_enabled);

    let mut c = zen();
    c.leaf_d.eax = 1;
    let p = plan_fpu_simd(0, 0, &c);
    assert_eq!((p.cr4, p.xcr0_write), (0x4_0600, None));
    let s = enable_fpu_simd(&p, 0xE7);
    assert_eq!(s.xcr0, 0xE7);
    assert!(!s.avx_enabled && !s.avx512_enabled);

    let mut c = zen();
    c.leaf_0.eax = 7;
    assert_eq!(plan_fpu_simd(0, 0, &c).xcr0_write, Some(3));
}

#[test]
fn clock_rate_sources() {
    assert_eq!(tsc_hz(&zen()), 3_000_000);
    let mut c = zen();
    c.leaf_15.ecx = 0;
    assert_eq!(tsc_hz(&c), 3_250_000_000);
    c.leaf_16.eax = 0x1_0000;
    assert_eq!(tsc_hz(&c), FALLBACK_TSC_HZ);
    c = zen();
    c.leaf_0.eax = 0x14;
    assert_eq!(tsc_hz(&c), 2_500_000_000);
    c = zen();
    c.leaf_15 = leaf(u32::MAX, 1, 1, 0);
    assert_eq!(tsc_hz(&c), 3_250_000_000);
}

#[test]
fn apic_in_memory_mode() {
    let mut s = ApicState { lapic_virt_base: 0, mode: None, tsc_cycles_per_us: 0 };
    assert!(Apic::current(&s).is_none());
    assert_eq!(current_apic_id(&s, 0x7700_0000), 0);
    let (a, ops) = Apic::init(&mut s, true, 0xFEE0_0000, 0x1000_0000, 0xFF, None, 0xFEE0_0D00);
    assert_eq!(a.mode, ApicMode::XApic);
    assert_eq!(a.mmio_base_virt, 0x1_0EE0_0000);
    assert_eq!(
        ops,
        vec![
            ApicOp::WriteMsr { msr: MSR_IA32_APIC_BASE, value: 0xFEE0_0100 },
            ApicOp::WriteMsr { msr: MSR_IA32_APIC_BASE, value: 0xFEE0_0900 },
            ApicOp::WriteMmio { addr: 0x1_0EE0_00F0, value: 0x1FF },
            ApicOp::WriteMmio { addr: 0x1_0EE0_0080, value: 0 },
        ]
    );
    assert_eq!(a.mode_label(), "xAPIC");
    assert!(a.can_address(0xFF));
    assert!(!a.can_address(0x100));
    assert_eq!(a.id(0x1234_5678), 0x12);
    assert_eq!(a.version(0x5_0014), 0x5_0014);
    assert_eq!(current_apic_id(&s, 0x7700_0000), 0x77);
    assert_eq!(Apic::current(&s).unwrap().mmio_base_virt, 0x1_0EE0_0000);
    assert_eq!(a.read(REG_ID), ApicOp::ReadMmio { addr: 0x1_0EE0_0020 });
    let mut ops = Vec::new();
    a.send_ipi_raw(&mut ops, 0x1_23, 0x42);
    assert_eq!(
        ops,
        vec![
            ApicOp::PollClear { addr: 0x1_0EE0_0300, mask: 0x1000 },
            ApicOp::WriteMmio { addr: 0x1_0EE0_0310, value: 0x2300_0000 },
            ApicOp::WriteMmio { addr: 0x1_0EE0_0300, value: 0x42 },
        ]
    );
    // An already plain base is written once.
    let (_, ops) = Apic::init(&mut s, false, 0, 0, 9, Some(0x5000), 0x900);
    assert_eq!(ops.len(), 3);
    assert_eq!(ops[0], ApicOp::WriteMsr { msr: 0x1B, value: 0x900 });
    assert_eq!(enable_current_core(&s, 0xC00).len(), 4);
}

#[test]
fn apic_in_register_mode() {
    let mut s = ApicState { lapic_virt_base: 0, mode: None, tsc_cycles_per_us: 0 };
    let (a, ops) = Apic::init(&mut s, true, 0, 0, 0x100, None, 0xFEE0_0100);
    assert_eq!(a.mode_label(), "x2APIC");
    assert_eq!(
        ops,
        vec![
            ApicOp::WriteMsr { msr: MSR_IA32_APIC_BASE, value: 0xFEE0_0D00 },
            ApicOp::WriteMsr { msr: MSR_X2APIC_SVR, value: 0x1FF },
            ApicOp::WriteMsr { msr: MSR_X2APIC_TPR, value: 0 },
        ]
    );
    assert!(a.can_address(u32::MAX));
    assert_eq!(a.id(0x1_0000_0005), 5);
    assert_eq!(a.esr(0x1_0000_0006), 6);
    assert_eq!(current_apic_id(&s, 300), 300);
    let ops = a.boot_ap(300, 8);
    assert_eq!(
        ops,
        vec![
            ApicOp::WriteMsr { msr: MSR_X2APIC_ESR, value: 0 },
            ApicOp::WriteMsr { msr: MSR_X2APIC_ICR, value: 300 << 32 | 0xC500 },
            ApicOp::Delay { us: 10_000 },
            ApicOp::WriteMsr { msr: MSR_X2APIC_ICR, value: 300 << 32 | 0x8500 },
            ApicOp::WriteMsr { msr: MSR_X2APIC_ESR, value: 0 },
            ApicOp::WriteMsr { msr: MSR_X2APIC_ICR, value: 300 << 32 | 0x608 },
            ApicOp::Delay { us: 200 },
            ApicOp::WriteMsr { msr: MSR_X2APIC_ESR, value: 0 },
            ApicOp::WriteMsr { msr: MSR_X2APIC_ICR, value: 300 << 32 | 0x608 },
            ApicOp::Delay { us: 200 },
        ]
    );
    assert_eq!(enable_current_core(&s, 0)[0], ApicOp::WriteMsr { msr: 0x1B, value: 0xC00 });
    let mut fresh = ApicState { lapic_virt_base: 0, mode: None, tsc_cycles_per_us: 0 };
    assert_eq!(enable_current_core(&fresh, 0).len(), 0);
    assert_eq!(tsc_cycles_per_us(&mut fresh, 10), 1);
    assert_eq!(tsc_cycles_per_us(&mut fresh, 5_000_000), 1);
    assert_eq!(tsc_cycles_per_us(&mut s, 2_500_000_000), 2500);
}

#[test]
fn register_numbers_follow_offsets() {
    for off in [REG_ID, REG_VERSION, REG_TPR, REG_EOI, REG_SVR, REG_ESR, REG_ICR_LOW] {
        assert_eq!(x2apic_msr_for_mmio_offset(off), 0x800 + (off as u32) / 16);
    }
    assert_eq!(x2apic_msr_for_mmio_offset(REG_ICR_HIGH), MSR_X2APIC_ICR);
    assert_eq!(x2apic_msr_for_mmio_offset(0x400), MSR_X2APIC_ESR);
}

#[test]
fn delays_count_cycles() {
    assert!(!delay_microseconds(2500, 200, 0, 499_999));
    assert!(delay_microseconds(2500, 200, 0, 500_000));
    assert!(delay_microseconds(2500, 200, u64::MAX, 500_000));
    assert!(delay_microseconds(1, 0, 5, 5));
    assert!(!delay_microseconds(u64::MAX, 2, 0, u64::MAX - 1));
}

fn function(bus: u8, device: u8, function: u8, id: u32, class: u32, header: u8) -> FunctionRegs {
    FunctionRegs {
        bus,
        device,
        function,
        id,
        class_reg: class,
        header_reg: (header as u32) << 16,
    }
}

#[test]
fn bus_scan() {
    let cs = ConfigSpace {
        functions: vec![
            function(0, 0, 0, 0x1480_1022, 0x0600_0000, 0x80),
            function(0, 0, 3, 0x1481_1022, 0x0806_0000, 0),
            function(0, 2, 0, 0x1234_8086, 0x0200_0000, 0),
            function(0, 2, 1, 0x5678_8086, 0x0200_0000, 0),
            function(0x41, 5, 0, 0x2684_10DE, 0x0300_00A1, 0),
            function(0x41, 5, 1, 0x22BA_10DE, 0x0403_0000, 0),
        ],
    };
    let s0 = scan_bus0(&cs);
    // The second function of a single-function device is not looked at.
    assert_eq!(s0.count(), 3);
    let scan = scan_all_buses(&cs);
    assert_eq!(scan.count(), 4);
    assert_eq!(scan.max_bus_seen(), 0x41);
    assert_eq!(scan.nvidia_count(), 1);
    let gpu = find_by_vendor(&scan, 0x10DE).unwrap();
    assert!(gpu.is_nvidia() && gpu.is_display_controller());
    assert_eq!((gpu.bus, gpu.device_id, gpu.class_code, gpu.prog_if), (0x41, 0x2684, 3, 0));
    assert!(find_by_vendor(&scan, 0xFFFF).is_none());
    assert!(cs.probe_function(9, 9, 0).is_none());
    assert_eq!(
        pcie::report(&scan),
        "PCIe: all-bus scan complete, 4 function(s) responded (highest populated bus = 0x41)\n\
         PCIe: NVIDIA devices found = 1 (vendor 0x10DE)\n  \
         00:00.0  vendor=0x1022 device=0x1480 class=0x06 subclass=0x00 (device)\n  \
         00:00.3  vendor=0x1022 device=0x1481 class=0x08 subclass=0x06 (device)\n  \
         00:02.0  vendor=0x8086 device=0x1234 class=0x02 subclass=0x00 (device)\n  \
         41:05.0  vendor=0x10de device=0x2684 class=0x03 subclass=0x00 (NVIDIA-GPU)\n"
    );
    let none = pcie::report(&PciScan::empty());
    assert!(none.contains("PCIe: no NVIDIA device found \u{2014} Stage 12 HAL stays mock-only\n"));
}

#[test]
fn scan_keeps_at_most_its_limit() {
    let mut scan = PciScan::empty();
    let d = PciDevice {
        bus: 0,
        device: 0,
        function: 0,
        vendor_id: 1,
        device_id: 2,
        class_code: 3,
        subclass: 0,
        prog_if: 0,
        header_type: 0,
    };
    for _ in 0..MAX_DEVICES + 4 {
        push(&mut scan, d);
    }
    assert_eq!(scan.count(), MAX_DEVICES);
    assert_eq!(scan.iter().len(), MAX_DEVICES);
}

#[test]
fn configuration_words() {
    assert_eq!(config_address(0x12, 0x1F, 7, 0xFF), 0x8012_FFFC);
    assert_eq!(config_address(0, 0x3F, 0xF, 0), 0x8000_FF00);
    assert_eq!(
        config_read32(1, 2, 3, 0x10),
        vec![
            PortOp::Out32 { port: CONFIG_ADDRESS, value: 0x8001_1310 },
            PortOp::In32 { port: CONFIG_DATA },
        ]
    );
    assert_eq!(
        config_write32(1, 2, 3, 4, 77)[1],
        PortOp::Out32 { port: CONFIG_DATA, value: 77 }
    );
    assert_eq!(config_read16(0xAABB_CCDD, 4), 0xCCDD);
    assert_eq!(config_read16(0xAABB_CCDD, 6), 0xAABB);
    assert_eq!(config_write16(0xAABB_CCDD, 4, 0x1122), 0xAABB_1122);
    assert_eq!(config_write16(0xAABB_CCDD, 6, 0x1122), 0x1122_CCDD);
}

#[test]
fn base_registers() {
    let bars = [0xFE00_0008, 0xD000_0004, 0x12, 0x1001, 0, 0xC000_0004];
    assert_eq!(read_bar(&bars, 0), Some(0xFE00_0000));
    assert_eq!(read_bar(&bars, 1), Some(0x12_D000_0000));
    // Reserved type, port, absent, half of a pair at the end, out of range.
    assert_eq!(read_bar(&bars, 2), None);
    assert_eq!(read_bar(&bars, 3), None);
    assert_eq!(read_bar(&bars, 4), None);
    assert_eq!(read_bar(&bars, 5), None);
    assert_eq!(read_bar(&bars, 6), None);
    assert_eq!(read_bar(&[8, 0, 0, 0, 0, 0], 0), None);
}

#[test]
fn zero_base_registers() {
    let d = PciDevice {
        bus: 0x1A,
        device: 3,
        function: 1,
        vendor_id: 0x8086,
        device_id: 1,
        class_code: 2,
        subclass: 0,
        prog_if: 0,
        header_type: 0,
    };
    let line = |bars: &[u32; 6], bar| zero_bar_line(&d, bars, bar);
    assert_eq!(
        line(&[0, 0, 8, 0, 0, 0], 2),
        Some(String::from("PCIe: BAR2 at 1a:03.1 is zero, skipping"))
    );
    assert!(line(&[0xC, 0, 0, 0, 0, 0], 0).is_some());
    assert_eq!(line(&[0xC, 1, 0, 0, 0, 0], 0), None);
    assert_eq!(line(&[0, 0, 0, 0, 0, 0], 0), None);
    assert_eq!(line(&[0x1001, 0, 0, 0, 0, 0], 0), None);
    assert_eq!(line(&[0, 0, 0, 0, 0, 0xC], 5), None);
    assert_eq!(line(&[8, 0, 0, 0, 0, 0], 6), None);
}

#[test]
fn interrupt_controller_is_remapped() {
    let ops = pic::init();
    let mut offsets = Vec::new();
    for op in ops.iter() {
        if let PortOp::Out8 { port, byte } = op {
            if *port == 0x21 || *port == 0xA1 {
                offsets.push((*port, *byte));
            }
        }
    }
    assert!(offsets.contains(&(0x21, 0x20)));
    assert!(offsets.contains(&(0xA1, 0x28)));
    assert_eq!(pic::send_eoi_master(), vec![PortOp::Out8 { port: 0x20, byte: 0x20 }]);
    assert_eq!(
        pic::send_eoi_slave(),
        vec![PortOp::Out8 { port: 0xA0, byte: 0x20 }, PortOp::Out8 { port: 0x20, byte: 0x20 }]
    );
}

#[test]
fn timer_rate_and_ticks() {
    let ops = pit::init();
    assert_eq!(ops[0], PortOp::Out8 { port: 0x43, byte: 0x36 });
    assert_eq!(ops[1], PortOp::Out8 { port: 0x40, byte: (DIVISOR & 0xFF) as u8 });
    assert_eq!(ops[2], PortOp::Out8 { port: 0x40, byte: (DIVISOR >> 8) as u8 });
    let error = (PIT_HZ as f64 / DIVISOR as f64 - HZ as f64).abs();
    assert!(error < 0.01);
    let mut s = PitState { ticks: 0 };
    pit::tick(&mut s);
    pit::tick(&mut s);
    assert_eq!(pit::ticks(&s), 2);
    s.ticks = u64::MAX;
    pit::tick(&mut s);
    assert_eq!(pit::ticks(&s), 0);
}

#[test]
fn serial_line_sends_every_byte() {
    let mut ops = Vec::new();
    Serial.write_str(&mut ops, "A\n\u{e9}");
    let sent: Vec<u8> = ops
        .iter()
        .filter_map(|op| match op {
            PortOp::Out8 { port, byte } if *port == COM1 => Some(*byte),
            _ => None,
        })
        .collect();
    assert_eq!(sent, "A\n\u{e9}".as_bytes());
    assert_eq!(ops[0], PortOp::PollSet8 { port: COM1 + 5, mask: 0x20 });
    assert_eq!(ops.len(), 2 * sent.len());
    assert!(serial::init().len() >= 7);
    let line = serial_line("ok");
    let last = line.last().unwrap();
    assert_eq!(*last, PortOp::Out8 { port: COM1, byte: b'\n' });
}

#[test]
fn interrupt_table() {
    assert_eq!(interrupts::init().len(), interrupts::init_ap_exception_table().len());
    let gates = interrupts::init();
    for g in gates.iter() {
        assert_eq!(handler_for(g.vector), Some(g.handler));
        assert_eq!(g.ist.is_some(), g.vector == 8);
    }
    assert_eq!(handler_for(0), Some(Handler::DivideError));
    assert_eq!(handler_for(14), Some(Handler::PageFault));
    assert_eq!(handler_for(9), None);
    assert_eq!(handler_for(32), Some(Handler::Timer));
    assert_eq!(handler_for(39), Some(Handler::SpuriousMaster));
    assert_eq!(handler_for(40), Some(Handler::IrqSlave));
    assert_eq!(handler_for(47), Some(Handler::SpuriousSlave));
    assert_eq!(handler_for(48), None);
}

#[test]
fn exception_reports() {
    let f = Frame { rip: 0x1234, rsp: 0xFFFF_8000_0000_0000, cs: "CS", flags: "FL", ss: "SS" };
    let text = report("DEBUG (#DB)", &f);
    assert_eq!(
        text,
        "\r\nEXCEPTION: DEBUG (#DB)\r\n  RIP    = 0x0000000000001234\r\n  CS     = CS\r\n  RFLAGS = FL\r\n  RSP    = 0xffff800000000000\r\n  SS     = SS\n"
    );
    assert_eq!(
        report_with_code("X", &f, 0x1f),
        format!("{}  ERROR  = 0x1f\n", report("X", &f))
    );
    let (t, resumes) = on_exception(Handler::Breakpoint, &f, 0, 0, "");
    assert!(t.contains("[breakpoint handler reached"));
    let (t2, resumes2) = on_exception(Handler::GeneralProtectionFault, &f, 7, 0, "");
    assert_eq!(t2, report_with_code("GENERAL PROTECTION FAULT (#GP)", &f, 7));
    assert!(resumes != resumes2);
    let (t, _) = on_exception(Handler::PageFault, &f, 0, 0xdead, "PROTECTION");
    assert!(t.ends_with("  CR2    = 0x000000000000dead\r\n  ERROR  = PROTECTION\n"));
    let (t, _) = on_exception(Handler::DoubleFault, &f, 0x10, 0, "");
    assert_eq!(
        t,
        "\r\nEXCEPTION: DOUBLE FAULT (#DF)\n  RIP    = 0x0000000000001234\r\n  ERROR  = 0x10\n"
    );
    let (t, _) = on_exception(Handler::MachineCheck, &f, 0, 0, "");
    assert_eq!(t, "\r\nEXCEPTION: MACHINE CHECK (#MC)\n  RIP = 0x0000000000001234\n");
    let (t, _) = on_exception(Handler::Nmi, &f, 0, 0, "");
    assert!(t.starts_with("\r\nNMI received \u{2014} RIP = 0x0000000000001234\n"));
}

#[test]
fn interrupt_requests() {
    let mut s = PitState { ticks: 4 };
    let r = on_irq(Handler::Timer, &mut s);
    assert_eq!(s.ticks, 5);
    assert!(r.poll_net);
    assert_eq!(r.ops, pic::send_eoi_master());
    let r = on_irq(Handler::IrqSlave, &mut s);
    assert_eq!(r.ops, pic::send_eoi_slave());
    assert!(!r.poll_net);
    assert_eq!(on_irq(Handler::SpuriousMaster, &mut s).ops.len(), 0);
    assert_eq!(on_irq(Handler::SpuriousSlave, &mut s).ops, pic::send_eoi_master());
    assert_eq!(on_irq(Handler::IrqMaster, &mut s).ops, pic::send_eoi_master());
    assert_eq!(s.ticks, 5);
}
