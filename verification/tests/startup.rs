use zero_kernel::arch::x86_64::acpi::CpuInfo;
use zero_kernel::arch::x86_64::apic::{Apic, ApicMode};
use zero_kernel::arch::x86_64::fb_console::{
    clear_frame, draw_glyph, init, new_page, scroll, write_str, BootFrame, FbConsole, FbInfo,
    PixelFormat, FONT_LEN,
};
use zero_kernel::arch::x86_64::gdt::{
    double_fault_stack_top, kernel_gdt, SegmentLoad, KERNEL_CODE, KERNEL_DATA,
};
use zero_kernel::arch::x86_64::gdt;
use zero_kernel::arch::x86_64::trampoline::image::{
    check_image, patch_image, read_dword_le, read_qword_le, trampoline_image,
    trampoline_self_check, Patches, PATCH_BOOTSTRAP_CR3_OFFSET, PATCH_LME_ENTRY_OFFSET,
    PATCH_REAL_CR0_OFFSET, PATCH_REAL_CR3_OFFSET, PATCH_REAL_CR4_OFFSET, PATCH_STACK_SLOT_OFFSET,
    TRAMPOLINE_GDTR_OFFSET, TRAMPOLINE_PHYS, TRAMPOLINE_PROBE_MODE_OFFSET,
};
use zero_kernel::arch::x86_64::trampoline::{
    ap_long_mode_entry_trampoline_target, ap_stack_top_for, ap_wait_over, boot_all_aps,
    build_low_bootstrap_page_tables, claim_next_ap_slot, ensure_low_identity_page,
    ensure_trampoline_identity_mapped, install_trampoline, prepare_next_ap_stack, read_cr3_value,
    status, ApOutcome, ApStep, BootRegs, IdentityMapOutcome, InstallStep, LowFrames, MemWrite,
    ProbeModes, ProbeStage, TrampolineState, WakeStep, AP_STACK_SIZE, TRAMPOLINE_SIPI_VECTOR,
};

fn font() -> Vec<u8> {
    // Glyph `n` has the byte `n` in every row.
    let mut f = Vec::new();
    for n in 0..95u8 {
        for _ in 0..16 {
            f.push(n);
        }
    }
    assert_eq!(f.len(), FONT_LEN);
    f
}

fn screen(width: usize, height: usize, bpp: usize, format: PixelFormat) -> (FbInfo, Vec<u8>) {
    let f = FbInfo { width, height, stride_bytes: width * bpp, bpp_bytes: bpp, format };
    (f, vec![0x55; width * bpp * height])
}

fn console(width: usize, height: usize, page_mode: bool) -> (FbConsole, Vec<u8>) {
    let mut buf = vec![0x55; width * height];
    let mut con = FbConsole::new(page_mode);
    let frame = BootFrame {
        width,
        height,
        stride: width,
        bytes_per_pixel: 1,
        pixel_format: PixelFormat::U8,
    };
    init(&mut con, Some(frame), &mut buf);
    (con, buf)
}

/// The character code that stands in a cell of the test font.
fn cell(buf: &[u8], width: usize, col: usize, row: usize) -> u8 {
    let mut bits = 0u8;
    for x in 0..8 {
        bits = bits << 1 | (buf[row * 16 * width + col * 8 + x] & 1);
    }
    bits + 0x20
}

#[test]
fn glyph_is_drawn_in_its_cell() {
    let (f, mut buf) = screen(16, 32, 4, PixelFormat::Bgr);
    draw_glyph(&mut buf, &f, &font(), 8, 16, b'A');
    // 'A' is glyph 33, bits 00100001.
    let row = 20 * 64;
    assert_eq!(&buf[row + 8 * 4..row + 8 * 4 + 4], &[0, 0, 0, 0x55]);
    assert_eq!(&buf[row + 10 * 4..row + 10 * 4 + 4], &[0xFF, 0xFF, 0xFF, 0x55]);
    assert_eq!(&buf[row + 15 * 4..row + 15 * 4 + 3], &[0xFF, 0xFF, 0xFF]);
    assert!(buf[..16 * 64].iter().all(|b| *b == 0x55));
    assert!(buf[row..row + 32].iter().all(|b| *b == 0x55));
    // What cannot be shown is drawn as a blank.
    draw_glyph(&mut buf, &f, &font(), 8, 16, 7);
    assert_eq!(buf[row + 10 * 4], 0);
    clear_frame(&mut buf, &f);
    assert!(buf.iter().all(|b| *b == 0));
}

#[test]
fn picture_moves_up_by_one_line() {
    let (f, mut buf) = screen(8, 48, 1, PixelFormat::U8);
    for (i, b) in buf.iter_mut().enumerate() {
        *b = (i / 8) as u8;
    }
    scroll(&mut buf, &f);
    assert_eq!(buf[0], 16);
    assert_eq!(buf[31 * 8], 47);
    assert!(buf[32 * 8..].iter().all(|b| *b == 0));
    let (f, mut buf) = screen(8, 16, 1, PixelFormat::U8);
    scroll(&mut buf, &f);
    assert!(buf.iter().all(|b| *b == 0x55));
}

#[test]
fn text_flows_over_cells() {
    let (mut con, mut buf) = console(32, 48, false);
    assert!(con.ready);
    assert!(buf.iter().all(|b| *b == 0));
    write_str(&mut con, &mut buf, &font(), "abc\r!\nxyzwQ\t");
    assert_eq!(cell(&buf, 32, 0, 0), b'!');
    assert_eq!(cell(&buf, 32, 1, 0), b'b');
    assert_eq!(cell(&buf, 32, 2, 0), b'c');
    assert_eq!(cell(&buf, 32, 3, 1), b'w');
    assert_eq!(cell(&buf, 32, 0, 2), b'Q');
    assert_eq!((con.col, con.row), (4, 2));
    // The line feed on the last row scrolls.
    write_str(&mut con, &mut buf, &font(), "\nR");
    assert_eq!(cell(&buf, 32, 0, 1), b'Q');
    assert_eq!(cell(&buf, 32, 0, 2), b'R');
    assert_eq!((con.col, con.row), (1, 2));
    new_page(&mut con, &mut buf);
    assert_eq!((con.col, con.row), (0, 0));
    assert!(buf.iter().all(|b| *b == 0));
}

#[test]
fn pages_start_over() {
    let (mut con, mut buf) = console(32, 32, true);
    write_str(&mut con, &mut buf, &font(), "a\nb\nc");
    assert_eq!(cell(&buf, 32, 0, 0), b'c');
    assert_eq!(cell(&buf, 32, 0, 1), b' ');
    assert_eq!((con.col, con.row), (1, 0));
}

#[test]
fn a_smaller_frame_takes_over_at_the_old_cursor() {
    let (mut con, mut buf) = console(64, 64, false);
    write_str(&mut con, &mut buf, &font(), "a\nb\nc\ndefgh");
    assert_eq!((con.col, con.row), (5, 3));
    let small = BootFrame {
        width: 32,
        height: 32,
        stride: 32,
        bytes_per_pixel: 1,
        pixel_format: PixelFormat::U8,
    };
    let mut buf = vec![0x55; 32 * 32];
    init(&mut con, Some(small), &mut buf);
    assert!(buf.iter().all(|b| *b == 0));
    let at = (con.col, con.row);
    write_str(&mut con, &mut buf, &font(), "");
    assert_eq!((con.col, con.row), at);
    write_str(&mut con, &mut buf, &font(), "z");
    assert!(con.col <= 4 && con.row < 2);
}

#[test]
fn console_without_a_frame_is_silent() {
    let mut con = FbConsole::new(false);
    let mut buf = vec![1u8; 4];
    init(&mut con, None, &mut buf);
    write_str(&mut con, &mut buf, &font(), "abc");
    new_page(&mut con, &mut buf);
    assert_eq!(buf, vec![1u8; 4]);
    assert!(!con.ready);
}

#[test]
fn startup_image_is_sound() {
    assert_eq!(trampoline_self_check(), Ok(()));
    let img = trampoline_image();
    assert_eq!(img.len(), 512);
    assert_eq!(&img[0x2e..0x30], &[0x18, 0x00]);
    assert_eq!(read_dword_le(&img, 0x99), 0x900);
    assert_eq!(read_dword_le(&img, TRAMPOLINE_GDTR_OFFSET + 2), 0x8180);
    let faults = [
        (0x2e, "real-mode far jump must target 32-bit protected selector 0x18"),
        (0x8a, "protected-mode entry must load bootstrap CR3 from patch slot"),
        (0xd5, "protected-mode far jump must target 64-bit kernel selector 0x08"),
        (0x99, "protected-mode EFER setup must enable LME|NXE"),
        (0x1b8, "bootstrap CR3 patch slot non-zero in source image"),
        (0x1b7, "LME-entry patch slot non-zero in source image"),
        (0x1c0, "stack patch slot non-zero in source image"),
        (0x1c8, "real CR3 patch slot non-zero in source image"),
        (0x1d0, "real CR4 patch slot non-zero in source image"),
        (0x1d8, "real CR0 patch slot non-zero in source image"),
        (0x1e1, "raw probe control bytes non-zero in source image"),
        (0x1a3, "GDTR base does not match expected GDT offset"),
    ];
    for (at, message) in faults {
        let mut bad = img.clone();
        bad[at] ^= 0x40;
        assert_eq!(check_image(&bad), Err(message));
    }
}

#[test]
fn slots_hold_what_was_patched() {
    let p = Patches {
        entry: 0xFFFF_8000_1234_5678,
        bootstrap_cr3: 0x9000,
        stack: 0,
        real_cr3: 0x1000,
        real_cr4: 0x2_0000,
        real_cr0: 0x8000_0011,
        probe_mode: 3,
        probe_stage: 4,
    };
    let img = patch_image(&p);
    assert_eq!(read_qword_le(&img, PATCH_LME_ENTRY_OFFSET), p.entry);
    assert_eq!(read_qword_le(&img, PATCH_BOOTSTRAP_CR3_OFFSET), 0x9000);
    assert_eq!(read_qword_le(&img, PATCH_STACK_SLOT_OFFSET), 0);
    assert_eq!(read_qword_le(&img, PATCH_REAL_CR3_OFFSET), 0x1000);
    assert_eq!(read_qword_le(&img, PATCH_REAL_CR4_OFFSET), 0x2_0000);
    assert_eq!(read_qword_le(&img, PATCH_REAL_CR0_OFFSET), 0x8000_0011);
    assert_eq!(img[TRAMPOLINE_PROBE_MODE_OFFSET], 3);
    assert_eq!(img[TRAMPOLINE_PROBE_MODE_OFFSET + 1], 4);
    let plain = trampoline_image();
    assert_eq!(&img[..0x1b0], &plain[..0x1b0]);
    assert_eq!(&img[0x1e2..], &plain[0x1e2..]);
}

#[test]
fn stacks_lie_apart() {
    assert_eq!(ap_stack_top_for(0x10_0000, 0), 0x11_0000);
    for i in 0..63 {
        let gap = ap_stack_top_for(0x10_0000, i + 1) - ap_stack_top_for(0x10_0000, i);
        assert_eq!(gap, AP_STACK_SIZE as u64);
    }
    let mut s = TrampolineState::new();
    // The first slot is the boot core's.
    for i in 1..64 {
        assert_eq!(claim_next_ap_slot(&mut s), Some(i));
    }
    assert_eq!(claim_next_ap_slot(&mut s), None);
    let w = prepare_next_ap_stack(&mut s, 0x10_0000, 2, 300, 1);
    assert_eq!(s.stack_handoff, 0x13_0000);
    assert_eq!(
        w,
        vec![
            MemWrite::Byte { addr: 0x81E0, value: 255 },
            MemWrite::Byte { addr: 0x81E1, value: 1 },
            MemWrite::Word { addr: 0x81C0, value: 0x13_0000 },
        ]
    );
}

#[test]
fn low_tables() {
    let good = LowFrames { pml4: 0x1000, pdpt: 0x2000, pd: 0x3000 };
    let t = build_low_bootstrap_page_tables(Some(good)).unwrap();
    assert_eq!((t.root, t.pml4_0, t.pdpt_0, t.pd_0), (0x1000, 0x2003, 0x3003, 0x83));
    let err = |f| build_low_bootstrap_page_tables(f).err();
    assert_eq!(err(None), Some("low bootstrap frames unavailable"));
    assert_eq!(
        err(Some(LowFrames { pml4: 0x1000, pdpt: 0x2001, pd: 0x3000 })),
        Some("low bootstrap frame is not page-aligned")
    );
    assert_eq!(
        err(Some(LowFrames { pml4: 0x1000, pdpt: 0x2000, pd: 0x1_0000_0000 })),
        Some("low bootstrap frame above 4 GiB")
    );
    assert_eq!(ensure_low_identity_page(0x8000, true), Ok(()));
    assert_eq!(ensure_low_identity_page(0x8001, true), Err("low identity page is not page-aligned"));
    assert_eq!(ensure_low_identity_page(0x8000, false), Err("low identity page map failed"));
    assert_eq!(read_cr3_value(0x1234_5678), 0x1234_5000);
}

#[test]
fn installation_asks_for_its_pages() {
    let regs = BootRegs { cr3: 0x7007, cr4: 4, cr0: 5, entry: 6, full_mode: 9, idle_stage: 8 };
    let frames = Some(LowFrames { pml4: 0x1000, pdpt: 0x2000, pd: 0x3000 });
    let mut s = TrampolineState::new();
    let mut mapped = Vec::new();
    let mut asked = Vec::new();
    loop {
        match install_trampoline(&mut s, &regs, frames, &mapped) {
            InstallStep::MapPage(p) => {
                assert!(!s.installed);
                asked.push(p);
                mapped.push(true);
            },
            InstallStep::Done(r) => {
                let done = r.unwrap();
                assert_eq!(done.tables.root, 0x1000);
                assert_eq!(read_qword_le(&done.image, PATCH_REAL_CR3_OFFSET), 0x7000);
                break;
            },
        }
    }
    assert_eq!(asked, vec![TRAMPOLINE_PHYS, 0x1000, 0x2000, 0x3000]);
    let st = status(&s, 9, 8);
    assert!(st.installed);
    assert_eq!(st.sipi_vector, TRAMPOLINE_SIPI_VECTOR);
    assert_eq!(st.phys, TRAMPOLINE_SIPI_VECTOR as u64 * 4096);
    assert_eq!((st.bootstrap_cr3, st.real_cr3, st.real_cr4, st.real_cr0), (0x1000, 0x7000, 4, 5));
    assert_eq!((st.raw_probe_mode, st.raw_probe_stage), (9, 8));
    let fresh = TrampolineState::new();
    assert_eq!(status(&fresh, 9, 8).raw_probe_mode, 0);

    let mut s = TrampolineState::new();
    match install_trampoline(&mut s, &regs, frames, &vec![true, false]) {
        InstallStep::Done(Err(e)) => assert_eq!(e, "low identity page map failed"),
        _ => panic!("the page could not be mapped"),
    }
    match install_trampoline(&mut s, &regs, None, &vec![true]) {
        InstallStep::Done(Err(e)) => assert_eq!(e, "low bootstrap frames unavailable"),
        _ => panic!("there are no frames"),
    }
    assert!(!s.installed);
}

#[test]
fn identity_map_report() {
    let (ok, line) = ensure_trampoline_identity_mapped(Ok(IdentityMapOutcome::Verified));
    assert!(ok);
    assert_eq!(line, "ADR-029 P3: trampoline identity map at 0x8000: verified");
    let (_, line) = ensure_trampoline_identity_mapped(Ok(IdentityMapOutcome::Installed));
    assert!(line.contains(": installed"));
    let (ok, line) = ensure_trampoline_identity_mapped(Err("NoFrame"));
    assert!(!ok);
    assert!(line.contains("FAILED (NoFrame)"));
}

#[test]
fn core_entry_stops_at_probes() {
    let m = ProbeModes { entry: 1, idt: 2, apic: 3, simd: 4 };
    assert_eq!(
        ap_long_mode_entry_trampoline_target(1, &m, true),
        vec![ApStep::Mark(ProbeStage::Entry), ApStep::Park]
    );
    assert_eq!(
        ap_long_mode_entry_trampoline_target(3, &m, true),
        vec![
            ApStep::LoadExceptionTable,
            ApStep::EnableApic,
            ApStep::Mark(ProbeStage::Apic),
            ApStep::Park,
        ]
    );
    assert_eq!(ap_long_mode_entry_trampoline_target(2, &m, true).len(), 3);
    assert_eq!(ap_long_mode_entry_trampoline_target(4, &m, true).len(), 5);
    assert_eq!(
        ap_long_mode_entry_trampoline_target(0, &m, false),
        vec![
            ApStep::LoadExceptionTable,
            ApStep::EnableApic,
            ApStep::EnableSimd,
            ApStep::Join { with_topology: false },
        ]
    );
}

fn wake_all(
    cpus: &[CpuInfo],
    apic: &Apic,
    max: u32,
    first: usize,
    registers: &dyn Fn(u32) -> bool,
) -> (Vec<(u32, usize)>, u32, usize, Vec<String>) {
    let mut outcomes = Vec::new();
    let mut woken = Vec::new();
    loop {
        match boot_all_aps(cpus, 0, apic, max, first, &outcomes) {
            WakeStep::Wake { apic_id, slot, ops, lines } => {
                assert!(!lines.is_empty());
                assert!(ops.len() > 0);
                woken.push((apic_id, slot));
                outcomes.push(ApOutcome { registered: registers(apic_id), raw_stage: 7 });
            },
            WakeStep::Finished { active, next_slot, lines } => {
                return (woken, active, next_slot, lines);
            },
        }
    }
}

#[test]
fn cores_are_woken() {
    let cpu = |apic_id, enabled| CpuInfo { apic_id, enabled };
    let cpus = [cpu(0, true), cpu(2, true), cpu(3, false), cpu(300, true), cpu(4, true), cpu(6, true)];
    let apic = Apic { mmio_base_virt: 0x1000, mode: ApicMode::XApic };
    let (woken, active, next, lines) = wake_all(&cpus, &apic, 10, 0, &|id| id != 4);
    assert_eq!(woken, vec![(2, 0), (4, 1), (6, 2)]);
    assert_eq!(active, 3);
    assert_eq!(next, 3);
    assert_eq!(
        lines,
        vec![
            "ADR-029 P3: waking 3 AP(s) via INIT-SIPI-SIPI (3 eligible, BSP apic_id=0, mode=xAPIC)",
            "ADR-029 P3: AP apic_id=300 cannot be addressed in xAPIC mode \u{2014} skipped",
            "ADR-029 P3: AP apic_id=4 (slot 1) did not register within 100 ms \u{2014} skipped (raw_stage=7)",
            "ADR-029 P3: AP wake-up loop complete \u{2014} booted=2 failed=1 of 3 eligible",
        ]
    );
    // The limit on cores, and the limit on slots.
    let (woken, active, _, _) = wake_all(&cpus, &apic, 1, 0, &|_| true);
    assert_eq!((woken.len(), active), (1, 2));
    let (woken, active, next, _) = wake_all(&cpus, &apic, 10, 63, &|_| true);
    assert_eq!((woken, active), (vec![(2, 63)], 2));
    assert!(next >= 64);
    let x2 = Apic { mmio_base_virt: 0, mode: ApicMode::X2Apic };
    assert_eq!(wake_all(&cpus, &x2, 10, 0, &|_| true).0.len(), 4);
}

#[test]
fn waiting_for_a_core() {
    assert_eq!(ap_wait_over(1, 2, 0, 0, 1000), Some(true));
    assert_eq!(ap_wait_over(1, 1, 0, 99, 1000), None);
    assert_eq!(ap_wait_over(1, 1, 0, 100, 1000), Some(false));
    assert_eq!(ap_wait_over(1, 1, u64::MAX, 98, 1000), None);
}

#[test]
fn segment_table() {
    let g = kernel_gdt(0x0000_8900_1234_0067, 0xFFFF_8000);
    let raw: Vec<u64> = g.table.entries().iter().map(|e| e.raw()).collect();
    assert_eq!(raw, vec![0, KERNEL_CODE, KERNEL_DATA, 0x0000_8900_1234_0067, 0xFFFF_8000]);
    assert_eq!((g.code_selector, g.data_selector, g.tss_selector), (0x08, 0x10, 0x18));
    assert_eq!(kernel_gdt(3 << 45, 0).tss_selector, 0x1B);
    assert_eq!(
        gdt::init(&g),
        vec![
            SegmentLoad::Table,
            SegmentLoad::Cs(0x08),
            SegmentLoad::Ss(0x10),
            SegmentLoad::Ds(0x10),
            SegmentLoad::Es(0x10),
            SegmentLoad::Task(0x18),
        ]
    );
    assert_eq!(double_fault_stack_top(0x1000), 0x6000);
}
