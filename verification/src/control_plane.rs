//! Control-plane state: the boot gate that holds the boot processor before
//! inference, the coarse lifecycle status, where the model lies, and the
//! profile of the last run.

use crate::text::str_eq;
use vstd::prelude::*;

verus! {

pub const STATUS_BOOTING: u32 = 0;

pub const STATUS_WAITING: u32 = 1;

pub const STATUS_REQUESTED: u32 = 2;

pub const STATUS_LOADING: u32 = 3;

pub const STATUS_RUNNING: u32 = 4;

pub const STATUS_COMPLETED: u32 = 5;

pub const STATUS_UNAVAILABLE: u32 = 6;

/// Cycle and token counts of one inference run.
#[derive(Clone, Copy, Debug, PartialEq, Eq, Structural)]
pub struct LlmProfile {
    pub valid: bool,
    pub run_id: u64,
    pub prompt_tokens: u64,
    pub generated_tokens: u64,
    pub prefill_wall_cycles: u64,
    pub prefill_forward_cycles: u64,
    pub prefill_lm_head_cycles: u64,
    pub prefill_logit_scan_cycles: u64,
    pub generation_wall_cycles: u64,
    pub generation_compute_cycles: u64,
    pub generation_forward_cycles: u64,
    pub generation_lm_head_cycles: u64,
    pub generation_sample_cycles: u64,
    pub generation_logit_scan_cycles: u64,
    pub generation_render_cycles: u64,
}

/// A profile in which every count is zero.
pub open spec fn zero_profile(run_id: u64) -> LlmProfile {
    LlmProfile {
        valid: false,
        run_id,
        prompt_tokens: 0,
        generated_tokens: 0,
        prefill_wall_cycles: 0,
        prefill_forward_cycles: 0,
        prefill_lm_head_cycles: 0,
        prefill_logit_scan_cycles: 0,
        generation_wall_cycles: 0,
        generation_compute_cycles: 0,
        generation_forward_cycles: 0,
        generation_lm_head_cycles: 0,
        generation_sample_cycles: 0,
        generation_logit_scan_cycles: 0,
        generation_render_cycles: 0,
    }
}

impl LlmProfile {
    fn zeroed(run_id: u64) -> (p: LlmProfile)
        ensures
            p == zero_profile(run_id),
    {
        LlmProfile {
            valid: false,
            run_id,
            prompt_tokens: 0,
            generated_tokens: 0,
            prefill_wall_cycles: 0,
            prefill_forward_cycles: 0,
            prefill_lm_head_cycles: 0,
            prefill_logit_scan_cycles: 0,
            generation_wall_cycles: 0,
            generation_compute_cycles: 0,
            generation_forward_cycles: 0,
            generation_lm_head_cycles: 0,
            generation_sample_cycles: 0,
            generation_logit_scan_cycles: 0,
            generation_render_cycles: 0,
        }
    }
}

impl Default for LlmProfile {
    fn default() -> (p: LlmProfile)
        ensures
            p == zero_profile(0),
    {
        LlmProfile::zeroed(0)
    }
}

/// Where the model lies in memory.
#[derive(Clone, Copy, Debug, PartialEq, Eq, Structural)]
pub struct ModelRegion {
    pub present: bool,
    pub virt_addr: u64,
    pub len_bytes: u64,
    pub source_id: u32,
}

impl Default for ModelRegion {
    fn default() -> (r: ModelRegion)
        ensures
            r == (ModelRegion { present: false, virt_addr: 0, len_bytes: 0, source_id: 0 }),
    {
        ModelRegion { present: false, virt_addr: 0, len_bytes: 0, source_id: 0 }
    }
}

/// All that the control plane holds.
#[derive(Clone, Copy, Debug, PartialEq, Eq, Structural)]
pub struct ControlPlane {
    pub gate_active: bool,
    pub start_requested: bool,
    pub status: u32,
    pub profile: LlmProfile,
    pub model_virt_addr: u64,
    pub model_len_bytes: u64,
    pub model_source_id: u32,
}

impl ControlPlane {
    /// The state at power-on.
    pub fn new() -> (c: ControlPlane)
        ensures
            !c.gate_active,
            !c.start_requested,
            c.status == STATUS_BOOTING,
            c.profile == zero_profile(0),
            c.model_virt_addr == 0,
            c.model_len_bytes == 0,
            c.model_source_id == 0,
            gate_of(c) == gate_after(Seq::empty()),
    {
        ControlPlane {
            gate_active: false,
            start_requested: false,
            status: STATUS_BOOTING,
            profile: LlmProfile::zeroed(0),
            model_virt_addr: 0,
            model_len_bytes: 0,
            model_source_id: 0,
        }
    }
}

/// Holds the boot processor until a start is requested.
pub fn arm_boot_llm_gate(c: &mut ControlPlane)
    ensures
        *final(c) == (ControlPlane {
            gate_active: true,
            start_requested: false,
            status: STATUS_WAITING,
            ..*old(c)
        }),
        gate_of(*final(c)) == gate_step(gate_of(*old(c)), GateCall::Arm),
{
    c.start_requested = false;
    c.status = STATUS_WAITING;
    c.gate_active = true;
}

/// Requests the start. The status follows only while the boot gate holds.
pub fn request_boot_llm_start(c: &mut ControlPlane)
    ensures
        *final(c) == (ControlPlane {
            start_requested: true,
            status: if old(c).gate_active {
                STATUS_REQUESTED
            } else {
                old(c).status
            },
            ..*old(c)
        }),
        gate_of(*final(c)) == gate_step(gate_of(*old(c)), GateCall::RequestStart),
{
    c.start_requested = true;
    if c.gate_active {
        c.status = STATUS_REQUESTED;
    }
}

pub fn boot_llm_start_requested(c: &ControlPlane) -> (b: bool)
    ensures
        b == c.start_requested,
{
    c.start_requested
}

pub fn boot_llm_gate_active(c: &ControlPlane) -> (b: bool)
    ensures
        b == c.gate_active,
{
    c.gate_active
}

pub fn mark_loading(c: &mut ControlPlane)
    ensures
        *final(c) == (ControlPlane { gate_active: false, status: STATUS_LOADING, ..*old(c) }),
        gate_of(*final(c)) == gate_step(gate_of(*old(c)), GateCall::Loading),
{
    c.gate_active = false;
    c.status = STATUS_LOADING;
}

pub fn mark_running(c: &mut ControlPlane)
    ensures
        *final(c) == (ControlPlane { status: STATUS_RUNNING, ..*old(c) }),
        gate_of(*final(c)) == gate_step(gate_of(*old(c)), GateCall::Running),
{
    c.status = STATUS_RUNNING;
}

pub fn mark_completed(c: &mut ControlPlane)
    ensures
        *final(c) == (ControlPlane { gate_active: false, status: STATUS_COMPLETED, ..*old(c) }),
        gate_of(*final(c)) == gate_step(gate_of(*old(c)), GateCall::Completed),
{
    c.gate_active = false;
    c.status = STATUS_COMPLETED;
}

pub fn mark_unavailable(c: &mut ControlPlane)
    ensures
        *final(c) == (ControlPlane { gate_active: false, status: STATUS_UNAVAILABLE, ..*old(c) }),
        gate_of(*final(c)) == gate_step(gate_of(*old(c)), GateCall::Unavailable),
{
    c.gate_active = false;
    c.status = STATUS_UNAVAILABLE;
}

pub fn status(c: &ControlPlane) -> (s: u32)
    ensures
        s == c.status,
{
    c.status
}

pub open spec fn label_of_status(status: u32) -> Seq<char> {
    if status == STATUS_BOOTING {
        "booting"@
    } else if status == STATUS_WAITING {
        "waiting-for-start"@
    } else if status == STATUS_REQUESTED {
        "start-requested"@
    } else if status == STATUS_LOADING {
        "loading"@
    } else if status == STATUS_RUNNING {
        "running"@
    } else if status == STATUS_COMPLETED {
        "completed"@
    } else if status == STATUS_UNAVAILABLE {
        "unavailable"@
    } else {
        "unknown"@
    }
}

pub fn status_label(status: u32) -> (l: &'static str)
    ensures
        l@ == label_of_status(status),
{
    match status {
        STATUS_BOOTING => "booting",
        STATUS_WAITING => "waiting-for-start",
        STATUS_REQUESTED => "start-requested",
        STATUS_LOADING => "loading",
        STATUS_RUNNING => "running",
        STATUS_COMPLETED => "completed",
        STATUS_UNAVAILABLE => "unavailable",
        _ => "unknown",
    }
}

/// The number under which a model source is kept.
pub open spec fn source_number(source: Seq<char>) -> u32 {
    if source == "ramdisk"@ {
        1
    } else if source == "direct-memory"@ {
        2
    } else if source == "nvme"@ {
        3
    } else {
        4
    }
}

pub open spec fn label_of_source(id: u32) -> Seq<char> {
    if id == 1 {
        "ramdisk"@
    } else if id == 2 {
        "direct-memory"@
    } else if id == 3 {
        "nvme"@
    } else if id == 4 {
        "other"@
    } else {
        "absent"@
    }
}

/// Records where the model lies and where it came from.
pub fn record_model_region(c: &mut ControlPlane, virt_addr: u64, len_bytes: u64, source: &str)
    ensures
        *final(c) == (ControlPlane {
            model_virt_addr: virt_addr,
            model_len_bytes: len_bytes,
            model_source_id: source_number(source@),
            ..*old(c)
        }),
{
    let source_id: u32 = if str_eq(source, "ramdisk") {
        1
    } else if str_eq(source, "direct-memory") {
        2
    } else if str_eq(source, "nvme") {
        3
    } else {
        4
    };
    c.model_virt_addr = virt_addr;
    c.model_len_bytes = len_bytes;
    c.model_source_id = source_id;
}

pub fn model_source_label(source_id: u32) -> (l: &'static str)
    ensures
        l@ == label_of_source(source_id),
{
    match source_id {
        1 => "ramdisk",
        2 => "direct-memory",
        3 => "nvme",
        4 => "other",
        _ => "absent",
    }
}

/// A known source is labelled by its own name again, and any other as "other".
pub proof fn lemma_source_labels(source: Seq<char>)
    ensures
        source == "ramdisk"@ || source == "direct-memory"@ || source == "nvme"@ ==> label_of_source(
            source_number(source),
        ) == source,
        source != "ramdisk"@ && source != "direct-memory"@ && source != "nvme"@ ==> label_of_source(
            source_number(source),
        ) == "other"@,
{
}

/// The recorded model region. It counts as present once it has an address and a length.
pub fn model_region_snapshot(c: &ControlPlane) -> (r: ModelRegion)
    ensures
        r == (ModelRegion {
            present: c.model_virt_addr != 0 && c.model_len_bytes != 0,
            virt_addr: c.model_virt_addr,
            len_bytes: c.model_len_bytes,
            source_id: c.model_source_id,
        }),
{
    ModelRegion {
        present: c.model_virt_addr != 0 && c.model_len_bytes != 0,
        virt_addr: c.model_virt_addr,
        len_bytes: c.model_len_bytes,
        source_id: c.model_source_id,
    }
}

/// Starts a new run: every count back to zero, the run number one higher.
pub fn reset_llm_profile(c: &mut ControlPlane)
    ensures
        *final(c) == (ControlPlane {
            profile: zero_profile(old(c).profile.run_id.wrapping_add(1)),
            ..*old(c)
        }),
{
    let run_id: u64 = c.profile.run_id.wrapping_add(1);
    c.profile = LlmProfile::zeroed(run_id);
}

/// Keeps the counts of `profile` under the current run number.
pub fn record_llm_profile(c: &mut ControlPlane, profile: LlmProfile)
    ensures
        *final(c) == (ControlPlane {
            profile: LlmProfile { valid: true, run_id: old(c).profile.run_id, ..profile },
            ..*old(c)
        }),
{
    let run_id: u64 = c.profile.run_id;
    c.profile = LlmProfile { valid: true, run_id, ..profile };
}

pub fn llm_profile_snapshot(c: &ControlPlane) -> (p: LlmProfile)
    ensures
        p == c.profile,
{
    c.profile
}

/// One call on the boot gate.
#[derive(Clone, Copy, Debug, PartialEq, Eq, Structural)]
pub enum GateCall {
    Arm,
    RequestStart,
    Loading,
    Running,
    Completed,
    Unavailable,
}

/// The boot gate, the request flag and the status.
pub open spec fn gate_of(c: ControlPlane) -> (bool, bool, u32) {
    (c.gate_active, c.start_requested, c.status)
}

/// What one call makes of the boot gate, the request flag and the status.
pub open spec fn gate_step(g: (bool, bool, u32), call: GateCall) -> (bool, bool, u32) {
    match call {
        GateCall::Arm => (true, false, STATUS_WAITING),
        GateCall::RequestStart => (g.0, true, if g.0 {
            STATUS_REQUESTED
        } else {
            g.2
        }),
        GateCall::Loading => (false, g.1, STATUS_LOADING),
        GateCall::Running => (g.0, g.1, STATUS_RUNNING),
        GateCall::Completed => (false, g.1, STATUS_COMPLETED),
        GateCall::Unavailable => (false, g.1, STATUS_UNAVAILABLE),
    }
}

/// The boot gate after a sequence of calls from power-on.
pub open spec fn gate_after(calls: Seq<GateCall>) -> (bool, bool, u32)
    decreases calls.len(),
{
    if calls.len() == 0 {
        (false, false, STATUS_BOOTING)
    } else {
        gate_step(gate_after(calls.drop_last()), calls.last())
    }
}

/// Whatever the sequence of calls, a status of waiting or start-requested means
/// that the boot gate holds, and start-requested means that the request flag is up.
pub proof fn lemma_gate_status(calls: Seq<GateCall>)
    ensures
        gate_after(calls).2 == STATUS_WAITING ==> gate_after(calls).0 && !gate_after(calls).1,
        gate_after(calls).2 == STATUS_REQUESTED ==> gate_after(calls).0 && gate_after(calls).1,
        gate_after(calls).2 <= STATUS_UNAVAILABLE,
    decreases calls.len(),
{
    if calls.len() > 0 {
        lemma_gate_status(calls.drop_last());
    }
}

} // verus!
