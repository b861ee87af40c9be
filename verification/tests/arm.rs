use zero_kernel::arch::aarch64::boot::{early_stack_top, EARLY_STACK_LEN};
use zero_kernel::arch::aarch64::dtb::{
    dtb_info, is_parsable, is_valid_fdt, parse, parse_dtb_u64_prop, read_parts, DtbError, DtbParts,
};
use zero_kernel::arch::aarch64::exceptions::{
    decode_exception_class, handle_irq_rust, report_and_halt, vector_label, ExceptionState,
};
use zero_kernel::arch::aarch64::gic::{
    acknowledge_irq, enable_interrupt, end_of_interrupt, GicState, GICC_SPURIOUS,
};
use zero_kernel::arch::aarch64::lfb::{
    dma_poll, entry_selector, find_fwcfg_file, fwcfg_dma_write, init_ramfb, ramfb_config,
    RamfbStep, FB_PHYS_ADDR, FB_SIZE, MAX_POLLS,
};
use zero_kernel::arch::aarch64::mmio::MmioOp;
use zero_kernel::arch::aarch64::mmu::{
    enable_mmu, init_tables, map_initrd_high_half, verify_model_at_virt, PageTable, TableAddrs,
    BLOCK_DEVICE, BLOCK_NORMAL, BOOT_LLM_VIRT_BASE, MAIR_EL1_VALUE, TCR_EL1_VALUE,
};
use zero_kernel::arch::aarch64::serial::{
    current_base, init_early, set_base, Pl011, Serial, EARLY_UART_BASE,
};
use zero_kernel::arch::aarch64::timer::{handle_tick, TimerState, TIMER_INTID};
use zero_kernel::arch::aarch64::{
    enable_and_hlt, gic, hlt, interrupts_disable, interrupts_enable, serial, timer,
    without_interrupts, DaifOp,
};

struct Tree {
    body: Vec<u8>,
    strings: Vec<u8>,
}

impl Tree {
    fn new() -> Tree {
        Tree { body: Vec::new(), strings: Vec::new() }
    }

    fn word(&mut self, w: u32) {
        self.body.extend_from_slice(&w.to_be_bytes());
    }

    fn pad(&mut self) {
        while self.body.len() % 4 != 0 {
            self.body.push(0);
        }
    }

    fn open(&mut self, name: &str) {
        self.word(1);
        self.body.extend_from_slice(name.as_bytes());
        self.body.push(0);
        self.pad();
    }

    fn prop(&mut self, name: &str, value: &[u8]) {
        let at = self.strings.len() as u32;
        self.strings.extend_from_slice(name.as_bytes());
        self.strings.push(0);
        self.word(3);
        self.word(value.len() as u32);
        self.word(at);
        self.body.extend_from_slice(value);
        self.pad();
    }

    fn close(&mut self) {
        self.word(2);
    }

    fn done(mut self, claimed: Option<u32>) -> Vec<u8> {
        self.word(9);
        let off_struct = 56u32;
        let off_strings = off_struct + self.body.len() as u32;
        let total = off_strings + self.strings.len() as u32;
        let head = [
            0xd00d_feed,
            claimed.unwrap_or(total),
            off_struct,
            off_strings,
            40,
            17,
            16,
            0,
            self.strings.len() as u32,
            self.body.len() as u32,
        ];
        let mut v = Vec::new();
        for w in head {
            v.extend_from_slice(&w.to_be_bytes());
        }
        v.extend_from_slice(&[0; 16]);
        v.extend_from_slice(&self.body);
        v.extend_from_slice(&self.strings);
        v
    }
}

fn words(w: &[u32]) -> Vec<u8> {
    let mut v = Vec::new();
    for x in w {
        v.extend_from_slice(&x.to_be_bytes());
    }
    v
}

fn board(memory: Option<&[u32]>, devices: bool, initrd: bool, claimed: Option<u32>) -> Vec<u8> {
    let mut t = Tree::new();
    t.open("");
    t.prop("#address-cells", &words(&[2]));
    t.prop("#size-cells", &words(&[2]));
    if let Some(reg) = memory {
        t.open("memory@40000000");
        t.prop("device_type", b"memory\0");
        t.prop("reg", &words(reg));
        t.close();
    }
    if initrd {
        t.open("chosen");
        t.prop("linux,initrd-end", &words(&[0, 0x4A00_0000]));
        t.prop("linux,initrd-start", &words(&[0x4800_0000]));
        t.close();
    }
    if devices {
        t.open("pl011@9040000");
        t.prop("compatible", b"arm,pl011\0arm,primecell\0");
        t.prop("reg", &words(&[0, 0x0904_0000, 0, 0x1000]));
        t.close();
        t.open("intc@8000000");
        t.prop("compatible", b"arm,cortex-a15-gic\0");
        t.prop("reg", &words(&[0, 0x0810_0000, 0, 0x1_0000, 0, 0x0811_0000, 0, 0x1_0000]));
        t.close();
    }
    t.close();
    t.done(claimed)
}

#[test]
fn device_tree_is_read() {
    let d = board(Some(&[0, 0x4000_0000, 0, 0x8000_0000]), true, true, None);
    assert!(is_valid_fdt(&d));
    assert!(is_parsable(&d));
    let (r, text) = parse(&d);
    let info = r.ok().unwrap();
    assert_eq!((info.ram_base, info.ram_size), (0x4000_0000, 0x8000_0000));
    assert_eq!(info.initrd_start, Some(0x4800_0000));
    assert_eq!(info.initrd_end, Some(0x4A00_0000));
    assert_eq!(info.uart_base, 0x0904_0000);
    assert_eq!((info.gic_dist_base, info.gic_cpu_base), (0x0810_0000, 0x0811_0000));
    let n = d.len();
    assert_eq!(
        text,
        format!(
            "  DTB: totalsize={:#x}, actual={:#x} ({} bytes)",
            n, n, n
        )
    );
    let p = read_parts(&d);
    assert_eq!(p.memory, Some(Some((0x4000_0000, Some(0x8000_0000)))));
    assert_eq!(p.initrd_end, Some(words(&[0, 0x4A00_0000])));
    assert_eq!(p.uart, Some((Some(0x0904_0000), None)));
}

#[test]
fn claimed_size_is_not_trusted() {
    let mut d = board(Some(&[0, 0x4000_0000, 0, 0x1000]), false, false, Some(0x10_0000));
    let n = d.len();
    d.extend_from_slice(&[0xAA; 64]);
    assert!(is_parsable(&d));
    let (r, text) = parse(&d);
    let info = r.ok().unwrap();
    assert_eq!(info.ram_size, 0x1000);
    assert_eq!(info.initrd_start, None);
    // Absent devices have the addresses of the virtual board.
    assert_eq!(info.uart_base, 0x0900_0000);
    assert_eq!((info.gic_dist_base, info.gic_cpu_base), (0x0800_0000, 0x0801_0000));
    assert!(text.starts_with(&format!("  DTB: totalsize=0x100000, actual={:#x} ({} bytes)", n, n)));
}

#[test]
fn device_tree_errors() {
    let mut d = board(Some(&[0, 0, 0, 1]), false, false, None);
    d[3] = 0;
    let (r, text) = parse(&d);
    assert!(r.err() == Some(DtbError::InvalidMagic(0xd00d_fe00)));
    assert_eq!(text, "  DTB: invalid magic 0xd00dfe00");

    let d = board(None, true, true, None);
    assert!(parse(&d).0.err() == Some(DtbError::NoMemoryNode));
    let d = board(Some(&[]), false, false, None);
    assert!(is_parsable(&d));
    assert!(parse(&d).0.err() == Some(DtbError::NoMemoryRegion));

    let no_size = DtbParts {
        memory: Some(Some((1, None))),
        initrd_start: None,
        initrd_end: None,
        uart: None,
        gic: None,
    };
    assert!(dtb_info(&no_size).err() == Some(DtbError::NoMemorySize));
}

#[test]
fn broken_trees_are_refused() {
    let d = board(Some(&[0, 0, 0, 1]), true, true, None);
    assert!(!is_valid_fdt(&d[..d.len() - 1]) || d.len() < 40);
    assert!(!is_parsable(&d[..39]));
    let mut bad = d.clone();
    bad[56] = 0xFF;
    assert!(!is_valid_fdt(&bad));
    assert!(!is_parsable(&bad));
    let mut open = Tree::new();
    open.open("");
    assert!(!is_valid_fdt(&open.done(None)));
}

#[test]
fn trees_that_lose_the_reader_are_refused() {
    // No-op words are skipped in front of the root, and refused in front of a property.
    let mut t = Tree::new();
    t.word(4);
    t.open("");
    t.prop("a", b"1234");
    t.open("b");
    t.close();
    t.close();
    t.word(4);
    assert!(is_valid_fdt(&t.done(None)));
    let mut t = Tree::new();
    t.open("");
    t.open("a");
    t.word(4);
    for _ in 0..400 {
        t.word(3);
        t.word(1);
        t.word(0);
        t.word(1);
    }
    t.close();
    t.close();
    assert!(!is_valid_fdt(&t.done(None)));
    // A property behind a child.
    let mut t = Tree::new();
    t.open("");
    t.open("a");
    t.close();
    t.prop("b", b"1234");
    t.close();
    assert!(!is_valid_fdt(&t.done(None)));
    // A name that is not ASCII.
    let mut t = Tree::new();
    t.open("");
    t.open("\u{e9}");
    t.close();
    t.close();
    assert!(!is_valid_fdt(&t.done(None)));
    // A no-op word between two children.
    let mut t = Tree::new();
    t.open("");
    t.open("a");
    t.close();
    t.word(4);
    t.open("b");
    t.close();
    t.close();
    assert!(!is_valid_fdt(&t.done(None)));
}

#[test]
fn fillers_that_the_reader_skips_are_accepted() {
    let mut t = Tree::new();
    t.open("");
    t.prop("#address-cells", &words(&[2]));
    t.prop("#size-cells", &words(&[1]));
    t.open("chosen");
    t.prop("linux,initrd-start", &words(&[0x4800_0000]));
    // Padding that is not zero.
    t.prop("note", b"1");
    let last = t.body.len() - 1;
    t.body[last] = 1;
    t.close();
    t.open("pl011@9040000");
    t.prop("compatible", b"arm,pl011\0");
    t.prop("reg", &words(&[0, 0x0904_0000, 0x1000]));
    t.close();
    t.open("memory@0");
    t.prop("reg", &words(&[0, 0x4000_0000, 0x2000]));
    // No-op words in front of the end of a node.
    t.word(4);
    t.word(4);
    t.close();
    t.word(4);
    t.close();
    let d = t.done(None);
    assert!(is_parsable(&d));
    let info = parse(&d).0.ok().unwrap();
    assert_eq!((info.ram_base, info.ram_size), (0x4000_0000, 0x2000));
    assert_eq!(info.initrd_start, Some(0x4800_0000));
    assert_eq!(info.uart_base, 0x0904_0000);
}

#[test]
fn incomplete_controller_falls_back() {
    let p = DtbParts {
        memory: Some(Some((1, Some(2)))),
        initrd_start: Some(vec![1, 2, 3]),
        initrd_end: Some(vec![0, 0, 1, 0]),
        uart: Some((None, None)),
        gic: Some((Some(7), None)),
    };
    let info = dtb_info(&p).ok().unwrap();
    assert_eq!(info.initrd_start, None);
    assert_eq!(info.initrd_end, Some(256));
    assert_eq!(info.uart_base, 0x0900_0000);
    assert_eq!((info.gic_dist_base, info.gic_cpu_base), (0x0800_0000, 0x0801_0000));
    assert_eq!(parse_dtb_u64_prop(&[0, 0, 0, 0, 0, 0, 1, 2]), Some(258));
    assert_eq!(parse_dtb_u64_prop(&[]), None);
}

#[test]
fn interrupt_masks() {
    assert_eq!(without_interrupts(0x3C0), (DaifOp::MaskAll, DaifOp::Restore(0x3C0)));
    assert_eq!(enable_and_hlt(), (DaifOp::UnmaskAll, DaifOp::Wait));
    assert_eq!(interrupts_disable(), DaifOp::MaskAll);
    assert_eq!(interrupts_enable(), DaifOp::UnmaskAll);
    assert_eq!(hlt(), DaifOp::Wait);
    assert_eq!(early_stack_top(0x1000), 0x1000 + EARLY_STACK_LEN);
}

#[test]
fn serial_writes_wait_and_send() {
    let s = Serial::new();
    assert_eq!(current_base(&s), EARLY_UART_BASE);
    let mut ops = Vec::new();
    s.write_str(&mut ops, "a\n");
    assert_eq!(
        ops,
        vec![
            MmioOp::PollClear32 { addr: 0x0900_0018, mask: 0x20 },
            MmioOp::Write32 { addr: 0x0900_0000, value: 97 },
            MmioOp::PollClear32 { addr: 0x0900_0018, mask: 0x20 },
            MmioOp::Write32 { addr: 0x0900_0000, value: 13 },
            MmioOp::PollClear32 { addr: 0x0900_0018, mask: 0x20 },
            MmioOp::Write32 { addr: 0x0900_0000, value: 10 },
        ]
    );
    let mut s = s;
    set_base(&mut s, 0x5000);
    init_early(&mut s);
    serial::init(&mut s);
    assert_eq!(current_base(&s), 0x5000);
    let line = serial::println(&s, "x");
    assert_eq!(line.len(), 6);
    assert_eq!(line[5], MmioOp::Write32 { addr: 0x5000, value: 10 });
    let mut one = Vec::new();
    let mut two = Vec::new();
    Pl011::new(0x5000).write_str(&mut one, "q\r\n");
    s.write_str(&mut two, "q\r\n");
    assert_eq!(one, two);
}

#[test]
fn interrupt_controller() {
    let mut g = GicState { dist: 0, cpu: 0 };
    let r = gic::init(&mut g, 0x0800_0000, 0x0801_0000, 0x22);
    assert_eq!((g.dist, g.cpu), (0x0800_0000, 0x0801_0000));
    assert_eq!(r.first, "Stage 8: GICv2 init dist=0x8000000 cpu=0x8010000");
    assert_eq!(r.second, "  GICD_TYPER=0x22, max INTID=96");
    assert_eq!(r.last, "  GICD + GICC enabled");
    assert_eq!(
        r.ops,
        vec![
            MmioOp::Write32 { addr: 0x0800_0000, value: 0 },
            MmioOp::Write32 { addr: 0x0800_0184, value: u32::MAX },
            MmioOp::Write32 { addr: 0x0800_0188, value: u32::MAX },
            MmioOp::Write32 { addr: 0x0801_0004, value: 0xFF },
            MmioOp::Write32 { addr: 0x0801_0008, value: 0 },
            MmioOp::Write32 { addr: 0x0800_0000, value: 1 },
            MmioOp::Write32 { addr: 0x0801_0000, value: 1 },
        ]
    );
    assert_eq!(acknowledge_irq(0xFFFF_F41B), 27);
    assert_eq!(end_of_interrupt(&g, 27), MmioOp::Write32 { addr: 0x0801_0010, value: 27 });
    assert_eq!(
        enable_interrupt(&g, 37),
        MmioOp::Write32 { addr: 0x0800_0104, value: 32 }
    );
}

#[test]
fn timer_beats() {
    let g = GicState { dist: 0x0800_0000, cpu: 0x0801_0000 };
    let mut s = TimerState { tick_count: 0, ticks_per_period: 0 };
    let r = timer::init(&mut s, &g, 62_500_000);
    assert_eq!((r.tval, r.ctl), (625_000, 1));
    assert_eq!(r.enable, MmioOp::Write32 { addr: 0x0800_0100, value: 1 << TIMER_INTID });
    assert_eq!(r.lines.0, "Stage 9: Generic Timer init (Virtual, INTID 27)");
    assert_eq!(r.lines.1, "  CNTFRQ=62500000 Hz (62 MHz), 100 Hz, ticks/period=625000");
    assert_eq!(r.lines.2, "  CNTV enabled, INTID 27 unmasked at GICD");
    assert_eq!(handle_tick(&mut s), (625_000, None));
    s.tick_count = 299;
    assert_eq!(
        handle_tick(&mut s),
        (625_000, Some(String::from("Heartbeat: tick=300 (~3s uptime)")))
    );
    let a = handle_irq_rust(&g, &mut s, TIMER_INTID);
    assert_eq!(a.timer_value, Some(625_000));
    assert_eq!(a.end, Some(MmioOp::Write32 { addr: 0x0801_0010, value: 27 }));
    assert_eq!(s.tick_count, 301);
    let a = handle_irq_rust(&g, &mut s, 40);
    assert_eq!(a.line, Some(String::from("IRQ: unhandled INTID=40")));
    assert_eq!(a.timer_value, None);
    let a = handle_irq_rust(&g, &mut s, GICC_SPURIOUS);
    assert!(a.end.is_none() && a.line.is_none());
    assert_eq!(s.tick_count, 301);
}

#[test]
fn exceptions_are_named() {
    assert_eq!(decode_exception_class(0x25), "Data Abort, same EL");
    assert_eq!(decode_exception_class(0x3C), "BRK instruction (AArch64)");
    assert_eq!(decode_exception_class(0x02), "Reserved/Unknown");
    assert_eq!(vector_label(0), Some("Synchronous (Current EL, SP_EL0)"));
    assert_eq!(vector_label(1), None);
    assert_eq!(vector_label(7), Some("SError (Current EL, SP_ELx)"));
    assert_eq!(vector_label(10), Some("FIQ (Lower EL, AArch64)"));
    assert_eq!(vector_label(15), Some("SError (Lower EL, AArch32)"));
    let e = ExceptionState { esr: 0x9600_0045, elr: 0x4008_1234, far: 0xdead, spsr: 5 };
    assert_eq!(
        report_and_halt("FIQ", &e),
        "\n===============================================\nAARCH64 EXCEPTION: FIQ\n  ESR_EL1  = 0x0000000096000045\n  ELR_EL1  = 0x0000000040081234\n  FAR_EL1  = 0x000000000000dead\n  SPSR_EL1 = 0x0000000000000005\n  EC       = 0x25 (Data Abort, same EL)\n===============================================\n"
    );
}

#[test]
fn translation_tables() {
    let t = TableAddrs { l0: 0x1000, l1: 0x2000, l2: 0x3000, high_l0: 0x4000 };
    let r = init_tables(0x0900_0000, 0x0800_0000, 0x0801_0000, &t);
    assert_eq!(r.tables.l0.0[0], 0x2003);
    assert_eq!(r.tables.l1.0[0], 0x3003);
    assert_eq!(r.tables.l1.0[1], 0x4000_0000 | BLOCK_NORMAL);
    assert_eq!(r.tables.l1.0[2], 0x8000_0000 | BLOCK_NORMAL);
    assert_eq!(r.tables.l2.0[64], 0x0800_0000 | BLOCK_DEVICE);
    assert_eq!(r.tables.l2.0[72], 0x0900_0000 | BLOCK_DEVICE);
    assert_eq!(r.tables.l2.0.iter().filter(|e| **e != 0).count(), 2);
    assert_eq!((r.regs.mair, r.regs.tcr), (MAIR_EL1_VALUE, TCR_EL1_VALUE));
    assert_eq!((r.regs.ttbr0, r.regs.ttbr1), (0x1000, 0x4000));
    assert_eq!(r.device_line, "  L2 Device: GIC dist@idx=64, cpu@idx=64, UART+fwcfg@idx=72");
    assert_eq!(r.tables_line, "  Tables: L0=0x1000 L1=0x2000 L2=0x3000");
    assert_eq!(enable_mmu(0x30D0_0800), 0x30D0_1805);
    assert!(PageTable::zeroed().0.iter().all(|e| *e == 0));
    let (h, line) = map_initrd_high_half(0x5000);
    assert_eq!(h.l0.0[0], 0x5003);
    assert_eq!(h.l1.0[1], 0x4000_0000 | BLOCK_NORMAL);
    assert_eq!(h.l1.0[2], 0x8000_0000 | BLOCK_NORMAL);
    assert!(line.contains(&format!("{:#x}", BOOT_LLM_VIRT_BASE)));
}

#[test]
fn model_magic() {
    let (ok, line, verdict) = verify_model_at_virt(b"GGUF");
    assert!(ok);
    assert_eq!(line, "  Bytes at 0xffff000048000000: 0x47 0x47 0x55 0x46");
    assert_eq!(verdict, "  GGUF magic VERIFIED at virtual address");
    assert_eq!(verify_model_at_virt(b"SILM").2, "  .smodel magic VERIFIED at virtual address");
    let (ok, line, verdict) = verify_model_at_virt(&[0, 1, 2, 255]);
    assert!(!ok);
    assert!(line.ends_with("0x00 0x01 0x02 0xff"));
    assert_eq!(verdict, "  model magic NOT FOUND (expected GGUF or SILM)");
}

fn entry(sel: u16, name: &str) -> Vec<u8> {
    let mut e = vec![0, 0, 0, 28];
    e.extend_from_slice(&sel.to_be_bytes());
    e.extend_from_slice(&[0, 0]);
    e.extend_from_slice(name.as_bytes());
    e.resize(64, 0);
    e
}

#[test]
fn firmware_files() {
    let mut dir = vec![0, 0, 0, 3];
    dir.extend_from_slice(&entry(0x20, "etc/ramfb2"));
    dir.extend_from_slice(&entry(0x25, "etc/ramfb"));
    dir.extend_from_slice(&entry(0x26, "etc/ramfb"));
    assert_eq!(find_fwcfg_file(&dir, b"etc/ramfb"), Some(0x25));
    assert_eq!(find_fwcfg_file(&dir, b"etc/none"), None);
    dir[3] = 1;
    assert_eq!(find_fwcfg_file(&dir, b"etc/ramfb"), None);
    let long = "n".repeat(56);
    assert_eq!(entry_selector(&entry(9, &long), long.as_bytes()), Some(9));
    assert_eq!(entry_selector(&entry(9, &long), "n".repeat(57).as_bytes()), None);
}

#[test]
fn frame_buffer_request() {
    let c = ramfb_config();
    assert_eq!(c.len(), 28);
    assert_eq!(&c[..8], &(FB_PHYS_ADDR as u64).to_be_bytes());
    assert_eq!(&c[8..16], &[0x34, 0x32, 0x52, 0x58, 0, 0, 0, 0]);
    assert_eq!(&c[16..], &[0, 0, 4, 0, 0, 0, 3, 0, 0, 0, 16, 0]);
    assert_eq!(
        fwcfg_dma_write(0x25, 0x1_0203, 28),
        vec![0, 0x25, 0, 0x18, 0, 0, 0, 28, 0, 0, 0, 0, 0, 1, 2, 3]
    );
    assert_eq!(dma_poll(0, 0), Some(true));
    assert_eq!(dma_poll(0, 0x19), Some(false));
    assert_eq!(dma_poll(0, 0x18), None);
    assert_eq!(dma_poll(MAX_POLLS - 1, 0x18), None);
    assert_eq!(dma_poll(MAX_POLLS, 0x18), Some(false));
    match init_ramfb(None, None) {
        RamfbStep::Missing { reason } => {
            assert_eq!(reason, "[LFB] etc/ramfb NOT found \u{2014} no ramfb device?");
        },
        _ => panic!("there is no device"),
    }
    match init_ramfb(Some(0x25), None) {
        RamfbStep::Configure { selector, lines } => {
            assert_eq!(selector, 0x25);
            assert_eq!(lines.0, "[LFB] Found etc/ramfb at selector 0x0025");
            assert_eq!(lines.1, "[LFB] Clearing FB at phys 0x95000000 (3145728 bytes)");
        },
        _ => panic!("the device is there"),
    }
    match init_ramfb(Some(0x25), Some(true)) {
        RamfbStep::Ready { frame, line } => {
            assert_eq!((frame.width, frame.height, frame.stride, frame.bpp), (1024, 768, 4096, 32));
            assert_eq!(frame.size, FB_SIZE);
            assert_eq!(line, "[LFB] ramfb configured: 1024x768 XRGB8888 at 0x95000000");
        },
        _ => panic!("the write succeeded"),
    }
    match init_ramfb(Some(0x25), Some(false)) {
        RamfbStep::Missing { reason } => assert_eq!(reason, "[LFB] fw-cfg DMA write FAILED"),
        _ => panic!("the write failed"),
    }
}
