use zero_kernel::arch::x86_64::cpuinfo::CpuInfo;
use zero_kernel::bench::llm_report::{clean, detail, LlmReport, DETAIL_CAP};
use zero_kernel::bench::{
    anchor_mode_label, anchor_snapshot, arena_step, arena_walk, bench_arena_alloc,
    bench_context_switch, bench_ipc_throughput, boot_delta_cycles, calibrate_tsc,
    capture_pre_llm_baseline, cycles_to_ns, ipc_round, llm_failure_recorded, mark_boot_ready,
    print_summary, record_llm_anchor, record_llm_failure, record_llm_failure_args,
    record_llm_inference, recorded_llm_tok_per_sec_x10, report_boot_time, run_all_benchmarks,
    bench_step, run_bench, Anchor, Baseline, BenchAction, BenchState, NetReport, Sample, Samples, ANCHOR_MODE_BETA,
    ANCHOR_MODE_CAPTURE, ANCHOR_MODE_MISSING, ANCHOR_MODE_NONE, ANCHOR_MODE_STRICT, ARENA_SIZE,
};

fn cpu(mhz: u32) -> CpuInfo {
    let mut brand = [0u8; 48];
    brand[..8].copy_from_slice(b"Zen \x014 9");
    CpuInfo {
        vendor: *b"AuthenticAMD",
        brand,
        brand_len: 8,
        base_freq_mhz: mhz,
        max_freq_mhz: mhz,
        max_leaf: 16,
        max_ext_leaf: 0x8000_0008,
        has_sse: true,
        has_sse2: true,
        has_avx: true,
        has_avx2: true,
        has_avx512f: true,
        has_xsave: true,
        has_x2apic: true,
        logical_cores: 64,
    }
}

fn samples() -> Samples {
    Samples {
        ctx: Sample { start: 100, end: 100 + 38_000_000 },
        alloc: Sample { start: 0, end: 3_000_000 },
        ipc: Sample { start: 7, end: 7 + 38_000_000 },
    }
}

#[test]
fn cycles_convert_at_the_calibrated_rate() {
    let mut s = BenchState::new(0);
    assert_eq!(s.tsc_mhz, 3800);
    assert_eq!(cycles_to_ns(&s, 3800), 1000);
    assert_eq!(cycles_to_ns(&s, 3), 0);
    // The order of the steps changes at this count.
    let edge = u64::MAX / 1000;
    assert_eq!(cycles_to_ns(&s, edge - 1), (edge - 1) * 1000 / 3800);
    assert_eq!(cycles_to_ns(&s, edge), edge / 3800 * 1000);
    assert_eq!(calibrate_tsc(&mut s, &cpu(2000)), "[BENCH] TSC calibrated from CPUID: 2000 MHz\n");
    assert_eq!(cycles_to_ns(&s, 2000), 1000);
    assert_eq!(calibrate_tsc(&mut s, &cpu(0)), "[BENCH] No freq info, using default 2000 MHz\n");
    assert_eq!(calibrate_tsc(&mut s, &cpu(10_000)), "[BENCH] No freq info, using default 2000 MHz\n");
    assert_eq!(s.tsc_mhz, 2000);
}

#[test]
fn longer_runs_take_longer() {
    let s = BenchState::new(0);
    let mut last = 0;
    for c in [0u64, 1, 3800, 1_000_000, u64::MAX / 1000 - 1] {
        let ns = cycles_to_ns(&s, c);
        assert!(ns >= last);
        last = ns;
    }
}

#[test]
fn boot_marker_is_set_once() {
    let mut s = BenchState::new(1000);
    assert_eq!(boot_delta_cycles(&s, 5000), 4000);
    mark_boot_ready(&mut s, 3000);
    mark_boot_ready(&mut s, 9000);
    assert_eq!(boot_delta_cycles(&s, 50_000), 2000);
    s.boot_tsc_t0 = 4000;
    assert_eq!(boot_delta_cycles(&s, 0), u64::MAX - 999);
}

#[test]
fn boot_report() {
    let s = BenchState::new(0);
    assert_eq!(
        report_boot_time(&s, 3800 * 1_234_567),
        "\n=== Zero Benchmark Suite ===\n\n[BENCH] Boot Time: 1234.567ms (4691354600 cycles)\n\
         [BENCH]   Linux ref: 15,000-25,000ms (Ubuntu Server)\n"
    );
}

#[test]
fn inference_clears_failure_only_with_tokens() {
    let mut s = BenchState::new(0);
    assert_eq!(
        record_llm_failure(&mut s, "layer 3"),
        "[BENCH] LLM Inference: FAILED \u{2014} layer 3\n"
    );
    assert!(llm_failure_recorded(&s));
    record_llm_inference(&mut s, 0, 50);
    assert!(llm_failure_recorded(&s));
    record_llm_inference(&mut s, 4, 3_800_000_000);
    assert!(!llm_failure_recorded(&s));
    assert_eq!(recorded_llm_tok_per_sec_x10(&s), (40, 4, 3_800_000_000));
    record_llm_inference(&mut s, 4, 0);
    assert_eq!(recorded_llm_tok_per_sec_x10(&s), (0, 4, 0));
    record_llm_inference(&mut s, 4, 1);
    assert_eq!(recorded_llm_tok_per_sec_x10(&s), (0, 4, 1));
    let line = record_llm_failure_args(&mut s, "x");
    assert_eq!(line, "[BENCH] LLM Inference: FAILED \u{2014} x\n");
    assert_eq!(recorded_llm_tok_per_sec_x10(&s), (0, 0, 0));
}

#[test]
fn anchors_read_back() {
    let mut s = BenchState::new(0);
    assert_eq!(anchor_snapshot(&s), None);
    record_llm_anchor(&mut s, 25, 0x414a_6497, ANCHOR_MODE_BETA);
    assert_eq!(anchor_snapshot(&s), Some((25, 0x414a_6497, ANCHOR_MODE_BETA)));
    assert!(s.anchor == Some(Anchor { token: 25, logit_bits: 0x414a_6497, mode: 4 }));
    let labels = [
        (ANCHOR_MODE_NONE, "n/a"),
        (ANCHOR_MODE_CAPTURE, "capture"),
        (ANCHOR_MODE_STRICT, "strict"),
        (ANCHOR_MODE_MISSING, "no-manifest"),
        (ANCHOR_MODE_BETA, "beta"),
        (5, "n/a"),
    ];
    for (m, l) in labels {
        assert_eq!(anchor_mode_label(m), l);
    }
}

#[test]
fn failure_detail_is_cut_and_cleaned() {
    let mut r = LlmReport::new();
    let mut buf = [b'.'; 64];
    assert_eq!(detail(&r, &mut buf), 0);
    assert_eq!(buf[0], b'.');
    zero_kernel::bench::llm_report::set(&mut r, "a\u{2014}b\n");
    let n = detail(&r, &mut buf);
    assert_eq!(&buf[..n], b"a???b?");
    assert_eq!(buf[n], b'.');
    let long = "z".repeat(100);
    zero_kernel::bench::llm_report::set(&mut r, &long);
    assert_eq!(detail(&r, &mut buf), DETAIL_CAP);
    assert_eq!(clean(0x1f), b'?');
    assert_eq!(clean(0x20), 0x20);
    assert_eq!(clean(0x7e), 0x7e);
    assert_eq!(clean(0x7f), b'?');
}

#[test]
fn generic_run() {
    let s = BenchState::new(0);
    let r = run_bench(&s, "probe", 10, Sample { start: 0, end: 38_000 });
    assert_eq!((r.total, r.per_iter), (38_000, 3800));
    assert_eq!(
        r.text,
        "[BENCH] probe \u{2014} 10 iterations (+ 1000 warmup)...\n\
         [BENCH] probe: total=38000 cycles (10000ns), per_iter=3800 cycles (1000ns)\n"
    );
}

#[test]
fn generic_run_calls() {
    let (mut warm, mut counted, mut done) = (0, 0, 0u64);
    let mut started = false;
    loop {
        match bench_step(done, 7) {
            BenchAction::Call if started => counted += 1,
            BenchAction::Call => warm += 1,
            BenchAction::ReadStart => started = true,
            BenchAction::ReadEnd => assert_eq!((warm, counted), (1000, 7)),
            BenchAction::Finish => break,
        }
        done += 1;
    }
    assert_eq!((warm, counted, done), (1000, 7, 1009));
    assert_eq!(bench_step(1001, 0), BenchAction::ReadEnd);
}

#[test]
fn single_benchmarks() {
    let s = BenchState::new(0);
    let m = samples();
    let r = bench_context_switch(&s, m.ctx);
    assert_eq!((r.total, r.per_iter), (38_000_000, 38));
    assert!(r.text.contains("[BENCH] Context Switch: 38 cycles/switch (10ns)\n"));
    let r = bench_arena_alloc(&s, m.alloc);
    assert_eq!((r.total, r.per_iter), (3_000_000, 3));
    assert!(r.text.contains("[BENCH] Arena Alloc: 3 cycles/alloc (0.7ns)\n"));
    let r = bench_ipc_throughput(&s, m.ipc);
    assert_eq!((r.total, r.per_iter), (38_000_000, 4));
    assert!(r.text.contains("[BENCH] IPC Throughput: 4194.3 GB/s (41943040 bytes in 10000000ns)\n"));
    let r = bench_ipc_throughput(&s, Sample { start: 0, end: 0 });
    assert_eq!(r.per_iter, 41_943_040);
    assert!(r.text.contains("0.0 GB/s"));
}

#[test]
fn arena_cursor_wraps() {
    assert_eq!(arena_step(0), 64);
    assert_eq!(arena_step(1), 72);
    assert_eq!(arena_step(ARENA_SIZE - 64), 0);
    assert_eq!(arena_walk(3), 192);
    assert_eq!(arena_walk(ARENA_SIZE as u64 / 64), 0);
    assert_eq!(arena_walk(1_000_000), (1_000_000 % 262_144) * 64);
}

#[test]
fn ipc_round_fills_and_sums() {
    let mut buf = vec![9u8; 1024];
    assert_eq!(ipc_round(&mut buf, 0x1_03), 3 * 1024);
    assert_eq!(buf, vec![3u8; 1024]);
}

#[test]
fn summary_box() {
    let mut s = BenchState::new(0);
    let text = print_summary(&s, &cpu(1), 12, 5, 10, 0, 7, 4, 1, 15, 3, &NetReport::NotReached);
    // The byte that cannot be printed is left out.
    assert!(text.contains("║  CPU: Zen 4 9\n"));
    assert!(text.contains("║  Boot Time:       12.5ms                         ║\n"));
    assert!(text.contains("║  Context Switch:  10ns                            ║\n"));
    assert!(text.contains("║  Arena Alloc:     0.7ns                           ║\n"));
    assert!(text.contains("║  IPC Throughput:  4.1 GB/s                      ║\n"));
    assert!(text.contains("║  LLM Inference:   15.3 tok/s                     ║\n"));
    assert!(text.contains("║  NET: bring-up not reached                       ║\n"));
    assert!(!text.contains("Anchor"));
    assert!(!text.contains("LLM: FAILED"));
    assert!(text.ends_with("╚══════════════════════════════════════════════════╝\n\n"));

    record_llm_anchor(&mut s, 25, 0xab, ANCHOR_MODE_STRICT);
    record_llm_failure(&mut s, "no memory");
    let net = NetReport::Online(b"10.0.0.2".to_vec());
    let text = print_summary(&s, &cpu(1), 0, 0, 0, 0, 0, 0, 0, 0, 0, &net);
    assert!(text.contains("║  Anchor (mode: strict):                          ║\n"));
    assert!(text.contains("║    next-token ID = 25                            ║\n"));
    assert!(text.contains("║    logit_bits    = 0x000000ab                    ║\n"));
    assert!(text.contains("║  NET: online 10.0.0.2                            ║\n"));
    assert!(text.contains("║  LLM: FAILED no memory                           ║\n"));
    let net = NetReport::Failed(vec![b'q'; 60]);
    let text = print_summary(&s, &cpu(1), 0, 0, 0, 0, 0, 0, 0, 0, 0, &net);
    assert!(text.contains("║  NET: FAILED qqqqqqqqqqqqqqqqqqqqqqqqqqqqqqqqqqqq║\n"));
    // Every row of the box that pads its text is fifty columns wide.
    for line in text.lines().filter(|l| l.starts_with("║  NET") || l.starts_with("║  LLM: ")) {
        assert_eq!(line.chars().count(), 52);
    }
}

#[test]
fn baseline_is_taken_once_and_reused() {
    let mut s = BenchState::new(0);
    let text = capture_pre_llm_baseline(&mut s, &cpu(0), 3_800_000, &samples());
    assert!(text.contains("\n[BENCH] Pre-LLM baseline snapshot (control-plane ready)\n"));
    assert!(s.baseline == Some(Baseline { ctx_per_switch: 38, alloc_per: 3, ipc_total: 38_000_000 }));
    assert_eq!(s.boot_ready_tsc, 3_800_000);
    let again = Samples {
        ctx: Sample { start: 0, end: 1 },
        alloc: Sample { start: 0, end: 1 },
        ipc: Sample { start: 0, end: 1 },
    };
    let text = capture_pre_llm_baseline(&mut s, &cpu(0), 9, &again);
    assert_eq!(text, "[BENCH] No freq info, using default 3800 MHz\n");
    assert!(s.baseline == Some(Baseline { ctx_per_switch: 38, alloc_per: 3, ipc_total: 38_000_000 }));
    record_llm_inference(&mut s, 4, 3_800_000_000);
    let text = run_all_benchmarks(&mut s, &cpu(0), 77, 78, &again, &NetReport::NotReached);
    assert!(text.contains("[BENCH] Context Switch: using pre-LLM baseline (38 cycles/switch)\n"));
    assert!(text.contains("[BENCH] Arena Alloc: using pre-LLM baseline (3 cycles/alloc)\n"));
    assert!(text.contains("[BENCH] IPC Throughput: using pre-LLM baseline (38000000 cycles)\n"));
    assert!(text.contains(
        "[BENCH] LLM Inference: 4.0 tok/s (4 generated token(s), 3800000000 cycles)\n"
    ));
    assert!(text.contains("║  Boot Time:       1.0ms                         ║\n"));
    assert!(text.contains("║  IPC Throughput:  4194.3 GB/s                      ║\n"));
}

#[test]
fn full_run_without_baseline() {
    let mut s = BenchState::new(0);
    let text = run_all_benchmarks(&mut s, &cpu(3800), 3800, 7600, &samples(), &NetReport::NotReached);
    assert!(text.contains("[BENCH] TSC calibrated from CPUID: 3800 MHz\n"));
    assert!(text.contains("[BENCH] Context Switch: 38 cycles/switch (10ns)\n"));
    assert!(text.contains("LLM Inference: unavailable"));
    // The kernel was not marked ready: each boot time is that of its own reading.
    assert!(text.contains("[BENCH] Boot Time: 0.2ms (7600 cycles)\n"));
    assert!(text.contains("║  Boot Time:       0.1ms "));
    record_llm_failure(&mut s, "gone");
    let text = run_all_benchmarks(&mut s, &cpu(3800), 3800, 7600, &samples(), &NetReport::NotReached);
    assert!(text.contains("[BENCH] LLM Inference: FAILED (Stage 11"));
}
