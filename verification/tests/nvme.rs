use zero_kernel::arch::x86_64::pcie::{PciDevice, PciScan};
use zero_kernel::drivers::nvme::{
    alloc_dma_page, bind_gguf_data_drive, bind_largest_data_drive, bind_model_data_drive, can_plan,
    command_result, discover, disk_magic, doorbell_end, nvme_controllers, plan_reads, poll_checks_csts,
    poll_completion, probe_gguf_magic, probe_model_magic, submit, wait_csts_clear, wait_csts_set,
    BindAnswers, BindProgress, BindQuery, BindWrite, Capabilities, DmaPage, DriveOutcome,
    DriveSearch, ModelDiskMagic, NamespaceInfo, NamespaceProbe, NvmeCommand, NvmeController,
    NvmeError, PollStep, PrpPlan, QueuePair, ReadChunk, WaitStep, CSTS_CFS, CSTS_RDY, SPIN_LIMIT,
};
use zero_kernel::drivers::nvme_report::{
    bound_line, capability_line, doorbell_line, marker_line, namespace_line, scanning_line,
    CapabilityReport,
};

fn page(n: u64) -> DmaPage {
    DmaPage { va: 0xFFFF_8000_0000_0000 + n * 4096, phys: n * 4096 }
}

fn dev(bus: u8, class: u8, sub: u8) -> PciDevice {
    PciDevice {
        bus,
        device: 1,
        function: 0,
        vendor_id: 0x144D,
        device_id: 0xA80A,
        class_code: class,
        subclass: sub,
        prog_if: 2,
        header_type: 0,
    }
}

fn scan(buses: &[u8]) -> PciScan {
    let mut devices = vec![dev(0, 2, 0)];
    for b in buses {
        devices.push(dev(*b, 1, 8));
    }
    PciScan { devices, max_bus_seen: 9 }
}

fn cap() -> Capabilities {
    Capabilities { dstrd: 0, mpsmin: 0, min_page_size: 4096, enable_timeout_ms: 500 }
}

fn answers() -> BindAnswers {
    BindAnswers {
        command: Some(0x0002),
        bar0: Some(Some(0xF000_0000)),
        mapped: Some(true),
        cap: Some(cap()),
        config: Some(1),
        disabled: Some(true),
        admin_sq: Some(Ok(page(1))),
        admin_cq: Some(Ok(page(2))),
        enabled: Some(true),
        ident: Some(Ok(page(3))),
        ident_controller: Some(Ok(())),
        io_sq: Some(Ok(page(4))),
        io_cq: Some(Ok(page(5))),
        create_cq: Some(Ok(())),
        create_sq: Some(Ok(())),
        ident_namespace: Some(Ok(())),
        namespace: Some(Some((1000, 512))),
    }
}

fn controller() -> NvmeController {
    match NvmeController::bind(&answers(), 32, 64) {
        BindProgress::Ready(c) => c,
        _ => panic!("a healthy controller is bound"),
    }
}

fn failure(a: &BindAnswers) -> NvmeError {
    match NvmeController::bind(a, 32, 64) {
        BindProgress::Failed(e) => e,
        _ => panic!("the controller is not healthy"),
    }
}

fn query(a: &BindAnswers) -> (Vec<BindWrite>, BindQuery) {
    match NvmeController::bind(a, 32, 64) {
        BindProgress::Ask { writes, query } => (writes, query),
        _ => panic!("an answer is missing"),
    }
}

#[test]
fn healthy_controller_binds() {
    let c = controller();
    assert_eq!(*c.namespace(), NamespaceInfo { nsid: 1, nlba: 1000, lba_size: 512 });
    assert_eq!(*c.capabilities(), cap());
    assert_eq!((c.adminq.qid, c.adminq.depth), (0, 32));
    assert_eq!((c.ioq.qid, c.ioq.depth, c.ioq.sq, c.ioq.cq), (1, 64, page(4), page(5)));
    assert_eq!(c.max_read_lbas(), 4096);
    assert!(c.prp_list.is_none());
}

#[test]
fn binding_asks_in_order() {
    let mut a = answers();
    a.command = None;
    assert_eq!(query(&a), (vec![], BindQuery::Command));
    let mut a = answers();
    a.bar0 = None;
    assert_eq!(query(&a), (vec![BindWrite::Command(0x0006)], BindQuery::Bar0));
    a.command = Some(0x0407);
    assert_eq!(query(&a), (vec![], BindQuery::Bar0));
    let mut a = answers();
    a.mapped = None;
    assert_eq!(query(&a).1, BindQuery::MapRegisters { phys: 0xF000_0000, bytes: 524_288 });
    let mut a = answers();
    a.disabled = None;
    a.config = Some(0x0046_0001);
    assert_eq!(
        query(&a),
        (vec![BindWrite::Config(0x0046_0000)], BindQuery::WaitDisabled { timeout_ms: 1500 })
    );
    a.config = Some(0x0046_0000);
    a.admin_sq = None;
    assert_eq!(query(&a), (vec![], BindQuery::Page));
    let mut a = answers();
    a.enabled = None;
    assert_eq!(
        query(&a),
        (
            vec![
                BindWrite::ZeroPage(page(2)),
                BindWrite::AdminQueues { depth: 32, sq_phys: 4096, cq_phys: 8192 },
                BindWrite::Enable { mpsmin: 0 },
            ],
            BindQuery::WaitEnabled { timeout_ms: 1500 },
        )
    );
    let mut a = answers();
    a.create_sq = None;
    match query(&a).1 {
        BindQuery::Admin { queue, command } => {
            assert_eq!(queue.qid, 0);
            match command {
                NvmeCommand::CreateIoSq { qid, depth, phys, cqid, .. } => {
                    assert_eq!((qid, depth, phys, cqid), (1, 64, 4 * 4096, 1));
                },
                _ => panic!("the submission queue is created"),
            }
        },
        _ => panic!("the submission queue is created"),
    }
    let mut a = answers();
    a.namespace = None;
    assert_eq!(query(&a).1, BindQuery::Namespace { page: page(3) });
}

#[test]
fn binding_failures() {
    let mut a = answers();
    a.bar0 = Some(None);
    assert_eq!(failure(&a), NvmeError::Bar0Invalid);
    a = answers();
    a.mapped = Some(false);
    assert_eq!(failure(&a), NvmeError::MmioMapFailed);
    a = answers();
    a.cap = Some(Capabilities { min_page_size: 8192, ..cap() });
    assert_eq!(failure(&a), NvmeError::UnsupportedPageSize);
    // The doorbells must lie within the mapped registers.
    a.cap = Some(Capabilities { dstrd: 16, ..cap() });
    assert_eq!(failure(&a), NvmeError::UnsupportedPageSize);
    a.cap = Some(Capabilities { dstrd: 15, ..cap() });
    assert!(matches!(NvmeController::bind(&a, 32, 64), BindProgress::Ready(_)));
    a = answers();
    a.disabled = Some(false);
    assert_eq!(failure(&a), NvmeError::ControllerDisableTimeout);
    a = answers();
    a.enabled = Some(false);
    assert_eq!(failure(&a), NvmeError::ControllerEnableTimeout);
    a = answers();
    a.io_cq = Some(Err(NvmeError::OutOfMemory));
    assert_eq!(failure(&a), NvmeError::OutOfMemory);
    a = answers();
    a.create_cq = Some(Err(NvmeError::CommandFailed { status: 7 }));
    assert_eq!(failure(&a), NvmeError::CommandFailed { status: 7 });
    a = answers();
    a.namespace = Some(None);
    assert_eq!(failure(&a), NvmeError::BadIdentify);
}

#[test]
fn rings_wrap() {
    let mut q = QueuePair::allocate(1, 3, page(1), page(2));
    assert!(q.phase);
    for i in 0..7u16 {
        let s = submit(&mut q, 1);
        assert_eq!(s.slot, i % 3);
        assert_eq!(s.tail, (i + 1) % 3);
        assert_eq!((s.sq_doorbell, s.cq_doorbell), (0x1000 + 16, 0x1000 + 24));
    }
    for i in 1..7u16 {
        q.advance_cq_head();
        assert_eq!(q.cq_head, i % 3);
        assert_eq!(q.phase, (i / 3) % 2 == 0);
    }
}

#[test]
fn completions_are_polled() {
    let mut q = QueuePair::allocate(0, 2, page(1), page(2));
    assert_eq!(poll_completion(&mut q, false, 0, 0), PollStep::Again(1));
    assert_eq!(
        poll_completion(&mut q, false, CSTS_CFS, 0x1_0000),
        PollStep::Failed(NvmeError::ControllerFatal)
    );
    assert_eq!(poll_completion(&mut q, false, CSTS_CFS, 5), PollStep::Again(6));
    assert_eq!(
        poll_completion(&mut q, false, 0, SPIN_LIMIT - 1),
        PollStep::Failed(NvmeError::CommandTimeout)
    );
    assert_eq!(q.cq_head, 0);
    assert_eq!(poll_completion(&mut q, true, CSTS_CFS, 0), PollStep::Taken);
    assert_eq!(q.cq_head, 1);
    assert!(poll_checks_csts(0) && !poll_checks_csts(1));
    assert_eq!(command_result(0), Ok(()));
    assert_eq!(command_result(2), Err(NvmeError::CommandFailed { status: 2 }));
}

#[test]
fn waits_end() {
    assert_eq!(wait_csts_set(CSTS_RDY, CSTS_RDY, 0, 10), WaitStep::Reached);
    assert_eq!(wait_csts_set(0, CSTS_RDY, 0, 10), WaitStep::Again(1));
    assert_eq!(wait_csts_set(0, CSTS_RDY, 9, 10), WaitStep::Failed);
    assert_eq!(wait_csts_set(CSTS_CFS, CSTS_RDY, 0, 10), WaitStep::Failed);
    assert_eq!(wait_csts_clear(0, CSTS_RDY, 0, 10), WaitStep::Reached);
    assert_eq!(wait_csts_clear(CSTS_RDY, CSTS_RDY, 3, 10), WaitStep::Again(4));
    assert_eq!(wait_csts_clear(CSTS_RDY, CSTS_RDY, 9, 10), WaitStep::Failed);
}

#[test]
fn pages_for_transfers() {
    assert_eq!(alloc_dma_page(Some(0x1000), Some(0x5000)), Ok(DmaPage { va: 0x1000, phys: 0x5000 }));
    assert_eq!(alloc_dma_page(None, Some(0x5000)), Err(NvmeError::OutOfMemory));
    assert!(alloc_dma_page(Some(0x1000), None).is_err());
}

#[test]
fn reads_are_split() {
    let ns = NamespaceInfo { nsid: 1, nlba: 100_000, lba_size: 512 };
    let mib2 = 2 * 1024 * 1024;
    let r = plan_reads(&ns, 7, mib2 * 2 + 1024, 0x1000).unwrap();
    assert_eq!(
        r,
        vec![
            ReadChunk { slba: 7, nlb: 4096, dst_va: 0x1000 },
            ReadChunk { slba: 7 + 4096, nlb: 4096, dst_va: 0x1000 + mib2 as u64 },
            ReadChunk { slba: 7 + 8192, nlb: 2, dst_va: 0x1000 + 2 * mib2 as u64 },
        ]
    );
    assert_eq!(plan_reads(&ns, 0, 0, 3), Ok(vec![]));
    assert_eq!(plan_reads(&ns, 0, 512, 0x1001), Err(NvmeError::BadDmaBuffer));
    assert_eq!(plan_reads(&ns, 0, 513, 0x1000), Err(NvmeError::OutOfRange));
    assert_eq!(plan_reads(&ns, 99_999, 1024, 0x1000), Err(NvmeError::OutOfRange));
    assert!(plan_reads(&ns, 99_999, 512, 0x1000).is_ok());
    let bad = NamespaceInfo { nsid: 1, nlba: 9, lba_size: 0 };
    assert_eq!(plan_reads(&bad, 0, 512, 0x1000), Err(NvmeError::BadIdentify));
    // A refusal comes before any address is formed.
    let top = u64::MAX - 4095;
    assert_eq!(plan_reads(&bad, 0, 8192, top), Err(NvmeError::BadIdentify));
    assert_eq!(plan_reads(&ns, 0, 8192, top + 1), Err(NvmeError::BadDmaBuffer));
    assert_eq!(plan_reads(&ns, 99_999, 8192, top), Err(NvmeError::OutOfRange));
    assert!(can_plan(&ns, 99_999, 8192, top));
    assert!(!can_plan(&ns, 0, 8192, top));
    assert!(can_plan(&ns, 0, 4096, 0x1000));
}

#[test]
fn reads_bring_whole_blocks() {
    // 2 MiB hold 4032 blocks of 520 bytes and a rest. 512 blocks are 65 pages.
    let ns = NamespaceInfo { nsid: 1, nlba: 100_000, lba_size: 520 };
    assert_eq!(
        plan_reads(&ns, 5, 4032 * 520, 0x1000).unwrap(),
        vec![ReadChunk { slba: 5, nlb: 4032, dst_va: 0x1000 }]
    );
    let r = plan_reads(&ns, 5, 4033 * 520, 0x1000).unwrap();
    assert_eq!(
        r,
        vec![
            ReadChunk { slba: 5, nlb: 3584, dst_va: 0x1000 },
            ReadChunk { slba: 5 + 3584, nlb: 449, dst_va: 0x1000 + 3584 * 520 },
        ]
    );
    assert_eq!(r[1].dst_va % 4096, 0);
    // A command counts 65535 blocks.
    let ns = NamespaceInfo { nsid: 1, nlba: 1_000_000, lba_size: 16 };
    assert_eq!(
        plan_reads(&ns, 0, 70_000 * 16, 0x1000).unwrap(),
        vec![
            ReadChunk { slba: 0, nlb: 65280, dst_va: 0x1000 },
            ReadChunk { slba: 65280, nlb: 4720, dst_va: 0x1000 + 65280 * 16 },
        ]
    );
    // No number of these blocks within a read is a whole number of pages.
    let ns = NamespaceInfo { nsid: 1, nlba: 1000, lba_size: 4097 };
    assert_eq!(
        plan_reads(&ns, 0, 512 * 4097, 0x1000).unwrap(),
        vec![
            ReadChunk { slba: 0, nlb: 511, dst_va: 0x1000 },
            ReadChunk { slba: 511, nlb: 1, dst_va: 0x1000 + 511 * 4097 },
        ]
    );
}

#[test]
fn one_read() {
    let mut c = controller();
    let first = c.next_cid;
    let plan = Some(PrpPlan { prp1: 0x8000, prp2: 0x9000, list_entries: 2 });
    let pages = vec![Some(0xA000), Some(0xB000)];
    let r = c.read_one(5, 3, Some(0x8000), plan, &pages).ok().unwrap();
    assert_eq!(r.list, vec![0xA000, 0xB000]);
    assert_eq!(
        r.command,
        NvmeCommand::Read { cid: first, nsid: 1, slba: 5, nlb: 3, prp1: 0x8000, prp2: 0x9000 }
    );
    assert_eq!(c.read_one(5, 0, Some(0x8000), plan, &pages).err(), Some(NvmeError::OutOfRange));
    assert_eq!(c.read_one(5, 1, None, plan, &pages).err(), Some(NvmeError::BadDmaBuffer));
    assert_eq!(c.read_one(5, 1, Some(8), plan, &pages).err(), Some(NvmeError::BadDmaBuffer));
    assert_eq!(c.read_one(5, 1, Some(0x8000), None, &pages).err(), Some(NvmeError::BadDmaBuffer));
    assert_eq!(
        c.read_one(5, 1, Some(0x8000), plan, &vec![Some(1), None]).err(),
        Some(NvmeError::BadDmaBuffer)
    );
    // Identifiers run around and leave out zero.
    c.next_cid = u16::MAX;
    assert_eq!(c.allocate_cid(), u16::MAX);
    assert_eq!(c.allocate_cid(), 1);
}

#[test]
fn bulk_reads_need_a_list_page() {
    let mut c = controller();
    assert_eq!(
        c.bulk_read(0, 512, 0x1000, Err(NvmeError::OutOfMemory)),
        Err(NvmeError::OutOfMemory)
    );
    assert!(c.needs_list_page(0, 1024, 0x1000));
    assert!(!c.needs_list_page(0, 0, 0x1000));
    assert!(!c.needs_list_page(0, 1024, 0x1001));
    assert_eq!(c.bulk_read(0, 1024, 0x1000, Ok(page(9))).unwrap().len(), 1);
    assert!(!c.needs_list_page(0, 1024, 0x1000));
    assert_eq!(c.prp_list, Some(page(9)));
    assert_eq!(c.ensure_prp_list(Err(NvmeError::OutOfMemory)), Ok(()));
    assert!(c.bulk_read(0, 512, 0x1000, Err(NvmeError::OutOfMemory)).is_ok());
}

#[test]
fn controllers_are_found() {
    let s = scan(&[4, 7]);
    let cs = nvme_controllers(&s);
    assert_eq!(cs.iter().map(|d| d.bus).collect::<Vec<u8>>(), vec![4, 7]);
    assert_eq!(discover(&s).len(), 2);
    assert_eq!(NvmeController::bind_first(&s).unwrap().bus, 4);
    assert_eq!(NvmeController::bind_first(&scan(&[])), Err(NvmeError::ControllerNotFound));
}

fn ns(nlba: u64) -> NamespaceInfo {
    NamespaceInfo { nsid: 1, nlba, lba_size: 512 }
}

#[test]
fn largest_drive() {
    let s = scan(&[1, 2, 3, 4]);
    let outcomes = vec![Ok(ns(10)), Err(NvmeError::Bar0Invalid), Ok(ns(30)), Ok(ns(30))];
    let r = bind_largest_data_drive(&s, &outcomes, 4);
    // Of two equal drives the first stays.
    assert_eq!(r.best.unwrap().controller, 2);
    assert_eq!(r.failures.len(), 1);
    assert_eq!((r.failures[0].bus, r.failures[0].err), (2, NvmeError::Bar0Invalid));
    let none = vec![Err(NvmeError::Bar0Invalid); 4];
    let r = bind_largest_data_drive(&s, &none, 2);
    assert_eq!(r.best, Err(NvmeError::ControllerNotFound));
    assert_eq!(r.failures.len(), 2);
    let p = NamespaceProbe { pci_bus: 0, pci_device: 0, pci_function: 0, nlba: u64::MAX, lba_size: 2 };
    assert_eq!(p.total_bytes(), u64::MAX);
}

#[test]
fn drive_markers() {
    assert_eq!(disk_magic(b"GGUF"), ModelDiskMagic::Gguf);
    assert_eq!(disk_magic(b"SILM...."), ModelDiskMagic::Smodel);
    assert_eq!(disk_magic(&[0xEB, 0x63, 0x90, 0]), ModelDiskMagic::Other);
    assert!(ModelDiskMagic::Gguf.is_supported() && ModelDiskMagic::Smodel.is_supported());
    assert!(!ModelDiskMagic::Other.is_supported());
    let ok = Ok(page(1));
    assert_eq!(probe_model_magic(512, ok, Ok(()), b"GGUF"), Ok(ModelDiskMagic::Gguf));
    assert_eq!(probe_model_magic(0, ok, Ok(()), b"GGUF"), Err(NvmeError::BadIdentify));
    assert_eq!(probe_model_magic(520, ok, Ok(()), b"GGUF"), Err(NvmeError::OutOfRange));
    assert_eq!(
        probe_model_magic(512, ok, Err(NvmeError::CommandTimeout), b"GGUF"),
        Err(NvmeError::CommandTimeout)
    );
    assert_eq!(
        probe_model_magic(512, Err(NvmeError::OutOfMemory), Ok(()), b"GGUF"),
        Err(NvmeError::OutOfMemory)
    );
    assert_eq!(probe_gguf_magic(Ok(ModelDiskMagic::Gguf)), Ok(true));
    assert_eq!(probe_gguf_magic(Ok(ModelDiskMagic::Other)), Ok(false));
}

#[test]
fn model_drive_is_searched() {
    let s = scan(&[1, 2, 3]);
    let found = |bound, magic| DriveOutcome { bound, magic };
    match bind_model_data_drive(&s, &vec![], 4) {
        DriveSearch::Next(d) => assert_eq!(d.bus, 1),
        DriveSearch::Finished(_) => panic!("no drive was looked at"),
    }
    let mut outcomes = vec![
        found(Ok(ns(50)), Ok(ModelDiskMagic::Other)),
        found(Ok(ns(10)), Ok(ModelDiskMagic::Smodel)),
    ];
    match bind_model_data_drive(&s, &outcomes, 4) {
        DriveSearch::Finished(c) => assert_eq!(c.best.unwrap().controller, 1),
        DriveSearch::Next(_) => panic!("the drive with the marker is taken"),
    }
    outcomes[1].magic = Err(NvmeError::CommandTimeout);
    outcomes.push(found(Err(NvmeError::Bar0Invalid), Ok(ModelDiskMagic::Other)));
    match bind_model_data_drive(&s, &outcomes, 4) {
        DriveSearch::Finished(c) => {
            assert_eq!(c.failures.len(), 2);
            assert_eq!(c.failures[0].err, NvmeError::CommandTimeout);
            assert_eq!(c.best.unwrap().controller, 0);
        },
        DriveSearch::Next(_) => panic!("all drives were looked at"),
    }
    // A drive whose marker could not be read still counts for the fallback.
    outcomes[1].bound = Ok(ns(80));
    match bind_model_data_drive(&s, &outcomes, 4) {
        DriveSearch::Finished(c) => assert_eq!(c.best.unwrap().controller, 1),
        DriveSearch::Next(_) => panic!("all drives were looked at"),
    }
    let unread = vec![found(Ok(ns(7)), Err(NvmeError::CommandTimeout))];
    match bind_model_data_drive(&scan(&[1]), &unread, 4) {
        DriveSearch::Finished(c) => assert_eq!(c.best.unwrap().controller, 0),
        DriveSearch::Next(_) => panic!("all drives were looked at"),
    }
    match bind_gguf_data_drive(&scan(&[]), &vec![], 4) {
        DriveSearch::Finished(c) => assert_eq!(c.best, Err(NvmeError::ControllerNotFound)),
        DriveSearch::Next(_) => panic!("there is no drive"),
    }
}

#[test]
fn drive_lines() {
    let d = dev(0x0C, 1, 8);
    assert_eq!(
        scanning_line(&d),
        "NVMe probe: scanning 0c:01.0 vendor=0x144d device=0xa80a"
    );
    let n = NamespaceInfo { nsid: 1, nlba: 8192, lba_size: 512 };
    assert_eq!(bound_line(&d, &Ok(n)), "NVMe probe: 0c:01.0 = 8192 LBAs × 512 B = 4 MiB");
    assert_eq!(
        bound_line(&d, &Err(NvmeError::CommandFailed { status: 7 })),
        "NVMe probe: 0c:01.0 bind FAILED: CommandFailed { status: 7 }"
    );
    for e in [
        NvmeError::ControllerNotFound,
        NvmeError::Bar0Invalid,
        NvmeError::MmioMapFailed,
        NvmeError::UnsupportedPageSize,
        NvmeError::ControllerEnableTimeout,
        NvmeError::ControllerDisableTimeout,
        NvmeError::ControllerFatal,
        NvmeError::CommandTimeout,
        NvmeError::OutOfRange,
        NvmeError::OutOfMemory,
        NvmeError::BadDmaBuffer,
        NvmeError::BadIdentify,
    ] {
        assert_eq!(
            marker_line(&d, &Err(e)),
            format!("NVMe probe: 0c:01.0 model-marker probe read failed: {:?}", e)
        );
    }
    assert_eq!(
        marker_line(&d, &Ok(ModelDiskMagic::Gguf)),
        "NVMe probe: 0c:01.0 GGUF marker FOUND at LBA 0 — selecting as model drive"
    );
    assert_eq!(
        marker_line(&d, &Ok(ModelDiskMagic::Smodel)),
        "NVMe probe: 0c:01.0 SILM marker FOUND at LBA 0 — selecting as model drive"
    );
    assert_eq!(
        marker_line(&d, &Ok(ModelDiskMagic::Other)),
        "NVMe probe: 0c:01.0 no supported model marker at LBA 0 (saw unknown) — likely boot drive, skipping"
    );
    let c = CapabilityReport {
        bar0_phys: 0xF000_0000,
        cap_raw: 0x20_0100_03FF,
        mqes: 1023,
        dstrd: 0,
        mpsmin: 0,
        enable_timeout_ms: 500,
    };
    assert_eq!(
        capability_line(&d, &c),
        "NVMe: bind 0c:01.0 BAR0=0xf0000000 CAP=0x00000020010003ff (mqes=1023, dstrd=0, mpsmin=0, to=500ms)"
    );
    let cap = |dstrd: u8, page: u64| Capabilities {
        dstrd,
        mpsmin: 0,
        min_page_size: page,
        enable_timeout_ms: 500,
    };
    assert_eq!(
        doorbell_line(&cap(16, 4096)).unwrap(),
        "NVMe: BAR0 map (524288 B) too small for DSTRD=16 doorbell at offset 0xc1004"
    );
    assert_eq!(doorbell_line(&cap(15, 4096)), None);
    assert_eq!(doorbell_line(&cap(16, 8192)), None);
    assert_eq!(doorbell_end(0), 0x1010);
    let huge = NamespaceInfo { nsid: 2, nlba: u64::MAX, lba_size: 4096 };
    assert_eq!(
        namespace_line(&huge),
        "NVMe: namespace 2 → 18446744073709551615 LBAs × 4096 B = 17592186044415 MiB"
    );
}
