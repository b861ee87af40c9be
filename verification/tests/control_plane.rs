use zero_kernel::control_plane::{
    arm_boot_llm_gate, boot_llm_gate_active, boot_llm_start_requested, llm_profile_snapshot,
    mark_completed, mark_loading, mark_running, mark_unavailable, model_region_snapshot,
    model_source_label, record_llm_profile, record_model_region, request_boot_llm_start,
    reset_llm_profile, status, status_label, ControlPlane, LlmProfile, ModelRegion,
    STATUS_BOOTING, STATUS_COMPLETED, STATUS_LOADING, STATUS_REQUESTED, STATUS_RUNNING,
    STATUS_UNAVAILABLE, STATUS_WAITING,
};
use zero_kernel::nvme_layout::{emit_kimi_nvme_layout, parse_number, DEFAULT_MODEL_BYTES};

#[test]
fn gate_follows_the_boot() {
    let mut c = ControlPlane::new();
    assert_eq!(status(&c), STATUS_BOOTING);
    assert!(!boot_llm_gate_active(&c));
    arm_boot_llm_gate(&mut c);
    assert_eq!(status(&c), STATUS_WAITING);
    assert!(boot_llm_gate_active(&c));
    assert!(!boot_llm_start_requested(&c));
    request_boot_llm_start(&mut c);
    assert_eq!(status(&c), STATUS_REQUESTED);
    assert!(boot_llm_start_requested(&c));
    mark_loading(&mut c);
    assert_eq!(status(&c), STATUS_LOADING);
    assert!(!boot_llm_gate_active(&c));
    mark_running(&mut c);
    assert_eq!(status(&c), STATUS_RUNNING);
    mark_completed(&mut c);
    assert_eq!(status(&c), STATUS_COMPLETED);
    mark_unavailable(&mut c);
    assert_eq!(status(&c), STATUS_UNAVAILABLE);
}

#[test]
fn request_without_gate_keeps_status() {
    let mut c = ControlPlane::new();
    request_boot_llm_start(&mut c);
    assert!(boot_llm_start_requested(&c));
    assert_eq!(status(&c), STATUS_BOOTING);
    // Arming forgets an earlier request.
    arm_boot_llm_gate(&mut c);
    assert!(!boot_llm_start_requested(&c));
}

#[test]
fn status_labels() {
    let labels = [
        "booting",
        "waiting-for-start",
        "start-requested",
        "loading",
        "running",
        "completed",
        "unavailable",
        "unknown",
    ];
    for (i, l) in labels.iter().enumerate() {
        assert_eq!(status_label(i as u32), *l);
    }
    assert_eq!(status_label(u32::MAX), "unknown");
}

#[test]
fn model_region_reads_back() {
    let mut c = ControlPlane::new();
    assert_eq!(model_region_snapshot(&c).present, false);
    assert_eq!(model_source_label(model_region_snapshot(&c).source_id), "absent");
    for (source, id) in [("ramdisk", 1), ("direct-memory", 2), ("nvme", 3), ("tape", 4)] {
        record_model_region(&mut c, 0x1000, 77, source);
        let r = model_region_snapshot(&c);
        assert!(r == ModelRegion { present: true, virt_addr: 0x1000, len_bytes: 77, source_id: id });
        let label = if id == 4 { "other" } else { source };
        assert_eq!(model_source_label(id), label);
    }
    record_model_region(&mut c, 0, 77, "nvme");
    assert!(!model_region_snapshot(&c).present);
    record_model_region(&mut c, 1, 0, "nvme");
    assert!(!model_region_snapshot(&c).present);
    assert_eq!(model_source_label(5), "absent");
}

#[test]
fn profile_keeps_its_run_id() {
    let mut c = ControlPlane::new();
    let mut p = LlmProfile::default();
    p.run_id = 99;
    p.prompt_tokens = 4;
    p.generation_render_cycles = 5;
    reset_llm_profile(&mut c);
    reset_llm_profile(&mut c);
    assert!(!llm_profile_snapshot(&c).valid);
    record_llm_profile(&mut c, p);
    let q = llm_profile_snapshot(&c);
    assert!(q.valid);
    assert_eq!(q.run_id, 2);
    assert_eq!(q.prompt_tokens, 4);
    assert_eq!(q.generation_render_cycles, 5);
    reset_llm_profile(&mut c);
    let q = llm_profile_snapshot(&c);
    assert!(!q.valid);
    assert_eq!(q.run_id, 3);
    assert_eq!(q.prompt_tokens, 0);
}

#[test]
fn numbers_as_written() {
    assert_eq!(parse_number("0"), Some(0));
    assert_eq!(parse_number("+12"), Some(12));
    assert_eq!(parse_number("18446744073709551615"), Some(u64::MAX));
    assert_eq!(parse_number("18446744073709551616"), None);
    assert_eq!(parse_number(""), None);
    assert_eq!(parse_number("+"), None);
    assert_eq!(parse_number("-1"), None);
    assert_eq!(parse_number("1 "), None);
    for n in [0u64, 9, 10, 627_065_225_216, u64::MAX] {
        assert_eq!(parse_number(&format!("{}", n)), Some(n));
    }
}

#[test]
fn layout_defaults_and_overrides() {
    let (l, text) = emit_kimi_nvme_layout(None, None, None, None);
    assert_eq!(l.bytes, 584 * 1024 * 1024 * 1024);
    assert_eq!(l.bytes, DEFAULT_MODEL_BYTES);
    assert_eq!(l.lba_offset, 0);
    assert_eq!(
        text,
        "pub const KIMI_K26_NVME_BYTES: usize = 627065225216usize;\n\
         pub const KIMI_K26_NVME_LBA_OFFSET: u64 = 0u64;\n"
    );
    let (l, text) = emit_kimi_nvme_layout(Some("4096"), Some("1"), None, Some("9"));
    assert_eq!(l.bytes, 4096);
    assert_eq!(l.lba_offset, 9);
    assert!(text.contains("4096usize"));
    assert!(text.contains("9u64"));
    // A zero or unreadable size falls back; the older name is not consulted.
    assert_eq!(emit_kimi_nvme_layout(Some("0"), Some("7"), None, None).0.bytes, DEFAULT_MODEL_BYTES);
    assert_eq!(emit_kimi_nvme_layout(Some("x"), Some("7"), Some("y"), Some("3")).0.lba_offset, 0);
    assert_eq!(emit_kimi_nvme_layout(None, Some("7"), None, None).0.bytes, 7);
}
