//! Dispatch rules of the AVX-512 inference path: which kernel runs on which
//! rows, when heads fan out over cores, what is counted and what is traced.

use crate::arch::x86_64::math::linear::Layout;
use crate::inference_avx512::argmax::RowRange;
use crate::inference_avx512::f32bits::{gt, infinite, nan};
use crate::text;
use crate::text::{push_dec, push_dec2, push_hex_padded};
use vstd::prelude::*;

pub mod announce;
pub mod argmax;
pub mod dispatch;
pub mod exact;
pub mod f32bits;
pub mod forward;
pub mod fused;
pub mod mla;
pub mod pass_trace;
pub mod plan;
pub mod value;
pub mod value_mla;
pub mod value_pass;
pub mod value_trace;

verus! {

/// Bytes that are kept of the first non-finite report.
pub const FIRST_NF_CAP: usize = 32;

/// Most projections that one fused dispatch carries.
pub const FUSED_MAX_SEGMENTS: usize = 3;

/// Context length from which heads fan out over cores.
pub const DEFAULT_ATTN_PARALLEL_MIN_TOKENS: usize = 64;

/// Calls and cycles of the dispatches.
#[derive(Clone, Copy, Debug, PartialEq, Eq, Structural)]
pub struct Avx512PerfCounters {
    pub q4k_calls: u64,
    pub q4k_cycles: u64,
    pub q6k_calls: u64,
    pub q6k_cycles: u64,
    pub lm_head_calls: u64,
    pub lm_head_cycles: u64,
    pub fused_calls: u64,
    pub fused_cycles: u64,
    pub attn_par_calls: u64,
    pub attn_par_cycles: u64,
}

/// `a - b`, at least zero.
pub open spec fn over(a: u64, b: u64) -> u64 {
    if a > b {
        (a - b) as u64
    } else {
        0
    }
}

pub open spec fn zero_counters() -> Avx512PerfCounters {
    Avx512PerfCounters {
        q4k_calls: 0,
        q4k_cycles: 0,
        q6k_calls: 0,
        q6k_cycles: 0,
        lm_head_calls: 0,
        lm_head_cycles: 0,
        fused_calls: 0,
        fused_cycles: 0,
        attn_par_calls: 0,
        attn_par_cycles: 0,
    }
}

impl Default for Avx512PerfCounters {
    fn default() -> (c: Avx512PerfCounters)
        ensures
            c == zero_counters(),
    {
        Avx512PerfCounters {
            q4k_calls: 0,
            q4k_cycles: 0,
            q6k_calls: 0,
            q6k_cycles: 0,
            lm_head_calls: 0,
            lm_head_cycles: 0,
            fused_calls: 0,
            fused_cycles: 0,
            attn_par_calls: 0,
            attn_par_cycles: 0,
        }
    }
}

impl Avx512PerfCounters {
    /// What was counted since `before`, each counter at least zero.
    pub fn delta_since(self, before: Avx512PerfCounters) -> (d: Avx512PerfCounters)
        ensures
            d == (Avx512PerfCounters {
                q4k_calls: over(self.q4k_calls, before.q4k_calls),
                q4k_cycles: over(self.q4k_cycles, before.q4k_cycles),
                q6k_calls: over(self.q6k_calls, before.q6k_calls),
                q6k_cycles: over(self.q6k_cycles, before.q6k_cycles),
                lm_head_calls: over(self.lm_head_calls, before.lm_head_calls),
                lm_head_cycles: over(self.lm_head_cycles, before.lm_head_cycles),
                fused_calls: over(self.fused_calls, before.fused_calls),
                fused_cycles: over(self.fused_cycles, before.fused_cycles),
                attn_par_calls: over(self.attn_par_calls, before.attn_par_calls),
                attn_par_cycles: over(self.attn_par_cycles, before.attn_par_cycles),
            }),
    {
        Avx512PerfCounters {
            q4k_calls: self.q4k_calls.saturating_sub(before.q4k_calls),
            q4k_cycles: self.q4k_cycles.saturating_sub(before.q4k_cycles),
            q6k_calls: self.q6k_calls.saturating_sub(before.q6k_calls),
            q6k_cycles: self.q6k_cycles.saturating_sub(before.q6k_cycles),
            lm_head_calls: self.lm_head_calls.saturating_sub(before.lm_head_calls),
            lm_head_cycles: self.lm_head_cycles.saturating_sub(before.lm_head_cycles),
            fused_calls: self.fused_calls.saturating_sub(before.fused_calls),
            fused_cycles: self.fused_cycles.saturating_sub(before.fused_cycles),
            attn_par_calls: self.attn_par_calls.saturating_sub(before.attn_par_calls),
            attn_par_cycles: self.attn_par_cycles.saturating_sub(before.attn_par_cycles),
        }
    }
}

/// Nothing was counted between a snapshot and itself.
pub proof fn lemma_no_delta(a: u64)
    ensures
        over(a, a) == 0,
{
}

/// What the inference path remembers between calls.
pub struct InferenceState {
    pub fused_dispatch: bool,
    pub trace: bool,
    /// The one-shot non-finite diagnostic has spoken.
    pub finite_diag_tripped: bool,
    /// The first non-finite stage was recorded.
    pub first_nf_latched: bool,
    /// Its report.
    pub first_nf: Vec<u8>,
    pub counters: Avx512PerfCounters,
    pub q4_0_calls: u64,
    pub q4_0_cycles: u64,
    pub q8_0_calls: u64,
    pub q8_0_cycles: u64,
    pub attn_min_tokens: usize,
}

impl InferenceState {
    pub open spec fn wf(&self) -> bool {
        self.first_nf@.len() <= FIRST_NF_CAP
    }

    /// Fused dispatch and tracing on, nothing counted.
    pub fn new() -> (s: InferenceState)
        ensures
            s.wf(),
            s.fused_dispatch,
            s.trace,
            !s.finite_diag_tripped,
            !s.first_nf_latched,
            s.first_nf@ == Seq::<u8>::empty(),
            s.counters == zero_counters(),
            s.q4_0_calls == 0,
            s.q4_0_cycles == 0,
            s.q8_0_calls == 0,
            s.q8_0_cycles == 0,
            s.attn_min_tokens == DEFAULT_ATTN_PARALLEL_MIN_TOKENS,
    {
        InferenceState {
            fused_dispatch: true,
            trace: true,
            finite_diag_tripped: false,
            first_nf_latched: false,
            first_nf: Vec::new(),
            counters: Avx512PerfCounters::default(),
            q4_0_calls: 0,
            q4_0_cycles: 0,
            q8_0_calls: 0,
            q8_0_cycles: 0,
            attn_min_tokens: DEFAULT_ATTN_PARALLEL_MIN_TOKENS,
        }
    }
}

/// Whether projections of one input are dispatched together.
pub fn fused_dispatch_enabled(s: &InferenceState) -> (b: bool)
    ensures
        b == s.fused_dispatch,
{
    s.fused_dispatch
}

/// Switches fused dispatch; returns the stored value.
pub fn set_fused_dispatch_enabled(s: &mut InferenceState, on: bool) -> (b: bool)
    ensures
        b == on,
        *final(s) == (InferenceState { fused_dispatch: on, ..*old(s) }),
{
    s.fused_dispatch = on;
    on
}

/// Whether value ranges of the first token are traced.
pub fn avx512_trace_enabled(s: &InferenceState) -> (b: bool)
    ensures
        b == s.trace,
{
    s.trace
}

/// Switches tracing; returns the stored value.
pub fn set_avx512_trace_enabled(s: &mut InferenceState, on: bool) -> (b: bool)
    ensures
        b == on,
        *final(s) == (InferenceState { trace: on, ..*old(s) }),
{
    s.trace = on;
    on
}

pub fn perf_counters_snapshot(s: &InferenceState) -> (c: Avx512PerfCounters)
    ensures
        c == s.counters,
{
    s.counters
}

/// Clears the counters of the snapshot. Those of plain Q4_0 and Q8_0 run on.
pub fn reset_perf_counters(s: &mut InferenceState)
    ensures
        *final(s) == (InferenceState { counters: zero_counters(), ..*old(s) }),
{
    s.counters = Avx512PerfCounters::default();
}

pub fn attn_parallel_min_tokens(s: &InferenceState) -> (n: usize)
    ensures
        n == s.attn_min_tokens,
{
    s.attn_min_tokens
}

/// Sets the context length from which heads fan out; returns the stored value.
pub fn set_attn_parallel_min_tokens(s: &mut InferenceState, tokens: usize) -> (n: usize)
    ensures
        n == tokens,
        *final(s) == (InferenceState { attn_min_tokens: tokens, ..*old(s) }),
{
    s.attn_min_tokens = tokens;
    tokens
}

pub fn reset_attn_parallel_min_tokens(s: &mut InferenceState) -> (n: usize)
    ensures
        n == DEFAULT_ATTN_PARALLEL_MIN_TOKENS,
        *final(s) == (InferenceState {
            attn_min_tokens: DEFAULT_ATTN_PARALLEL_MIN_TOKENS,
            ..*old(s)
        }),
{
    set_attn_parallel_min_tokens(s, DEFAULT_ATTN_PARALLEL_MIN_TOKENS)
}

/// The report of a non-finite stage, such as "L00 q_proj n2048 i0".
pub open spec fn nonfinite_text(layer: usize, stage: Seq<char>, nan: usize, inf: usize) -> Seq<char> {
    "L"@ + text::pad_start(text::dec(layer as nat), 2, '0') + " "@ + stage + " n"@ + text::dec(
        nan as nat,
    ) + " i"@ + text::dec(inf as nat)
}

/// The first bytes of the report, as many as are kept.
pub open spec fn nonfinite_bytes(layer: usize, stage: Seq<char>, nan: usize, inf: usize) -> Seq<u8> {
    let b = vstd::utf8::encode_utf8(nonfinite_text(layer, stage, nan, inf));
    b.take(if b.len() < FIRST_NF_CAP {
        b.len() as int
    } else {
        FIRST_NF_CAP as int
    })
}

/// What recording does to the state: the first report is kept, later ones change nothing.
pub open spec fn recorded(
    before: InferenceState,
    after: InferenceState,
    layer: usize,
    stage: Seq<char>,
    nan: usize,
    inf: usize,
) -> bool {
    &&& after == (InferenceState {
        first_nf_latched: true,
        first_nf: after.first_nf,
        ..before
    })
    &&& after.first_nf@ == (if before.first_nf_latched {
        before.first_nf@
    } else {
        nonfinite_bytes(layer, stage, nan, inf)
    })
}

/// Records the first stage that holds a value that is not finite.
pub fn record_first_nonfinite(
    s: &mut InferenceState,
    layer: usize,
    stage: &str,
    nan: usize,
    inf: usize,
)
    requires
        old(s).wf(),
    ensures
        final(s).wf(),
        recorded(*old(s), *final(s), layer, stage@, nan, inf),
{
    if s.first_nf_latched {
        return;
    }
    s.first_nf_latched = true;
    let mut line: String = "L".to_owned();
    push_dec2(&mut line, layer as u64);
    line.append(" ");
    line.append(stage);
    line.append(" n");
    push_dec(&mut line, nan as u64);
    line.append(" i");
    push_dec(&mut line, inf as u64);
    let bytes: &[u8] = line.as_str().as_bytes();
    let mut kept: Vec<u8> = Vec::new();
    let mut i: usize = 0;
    while i < bytes.len() && i < FIRST_NF_CAP
        invariant
            i <= bytes@.len(),
            i <= FIRST_NF_CAP,
            kept@ == bytes@.take(i as int),
        decreases FIRST_NF_CAP - i,
    {
        kept.push(bytes[i]);
        i = i + 1;
        assert(kept@ =~= bytes@.take(i as int));
    }
    s.first_nf = kept;
}

/// Copies the report into `buf` and returns its length, zero if there is none.
/// Bytes of `buf` behind it keep their values.
pub fn first_nonfinite_detail(s: &InferenceState, buf: &mut [u8; 32]) -> (n: usize)
    requires
        s.wf(),
    ensures
        n == s.first_nf@.len(),
        forall|i: int|
            0 <= i < 32 ==> #[trigger] final(buf)@[i] == (if i < n {
                s.first_nf@[i]
            } else {
                old(buf)@[i]
            }),
{
    let n: usize = s.first_nf.len();
    let mut i: usize = 0;
    while i < n
        invariant
            i <= n,
            n == s.first_nf@.len(),
            n <= 32,
            forall|j: int|
                0 <= j < 32 ==> #[trigger] buf@[j] == (if j < i {
                    s.first_nf@[j]
                } else {
                    old(buf)@[j]
                }),
        decreases n - i,
    {
        buf[i] = s.first_nf[i];
        i = i + 1;
    }
    n
}

/// `i` is the first element that is not finite.
pub open spec fn first_nonfinite(buf: Seq<u32>, i: int) -> bool {
    &&& 0 <= i < buf.len()
    &&& !f32bits::is_finite(buf[i])
    &&& forall|j: int| 0 <= j < i ==> f32bits::is_finite(#[trigger] buf[j])
}

pub open spec fn diag_line(layer: usize, stage: Seq<char>, idx: int, bits: u32, fused: bool) -> Seq<
    char,
> {
    "[MP3.0][FINITE-DIAG] first non-finite: layer="@ + text::dec(layer as nat) + " stage="@ + stage
        + " idx="@ + text::dec(idx as nat) + " bits=0x"@ + text::pad_start(
        text::hex(bits as nat),
        8,
        '0',
    ) + " (fused_dispatch="@ + (if fused {
        "true"@
    } else {
        "false"@
    }) + ")\n"@
}

/// Looks for the first element of `buf` that is not finite, until one was ever
/// found. Returns the line to print when it is found.
pub fn finite_diag(s: &mut InferenceState, buf: &[u32], layer: usize, stage: &str) -> (r: Option<
    String,
>)
    requires
        old(s).wf(),
    ensures
        final(s).wf(),
        old(s).finite_diag_tripped ==> r is None && *final(s) == *old(s),
        !old(s).finite_diag_tripped && (forall|j: int|
            0 <= j < buf@.len() ==> f32bits::is_finite(#[trigger] buf@[j])) ==> r is None
            && *final(s) == *old(s),
        forall|i: int|
            !old(s).finite_diag_tripped && #[trigger] first_nonfinite(buf@, i) ==> {
                &&& r is Some
                &&& r->Some_0@ == diag_line(layer, stage@, i, buf@[i], old(s).fused_dispatch)
                &&& final(s).finite_diag_tripped
                &&& recorded(
                    InferenceState { finite_diag_tripped: true, ..*old(s) },
                    *final(s),
                    layer,
                    stage@,
                    if f32bits::is_nan(buf@[i]) {
                        1
                    } else {
                        0
                    },
                    if f32bits::is_inf(buf@[i]) {
                        1
                    } else {
                        0
                    },
                )
            },
{
    if s.finite_diag_tripped {
        return None;
    }
    let mut idx: usize = 0;
    while idx < buf.len()
        invariant
            idx <= buf@.len(),
            s.wf(),
            *s == *old(s),
            !s.finite_diag_tripped,
            forall|j: int| 0 <= j < idx ==> f32bits::is_finite(#[trigger] buf@[j]),
        decreases buf@.len() - idx,
    {
        let v: u32 = buf[idx];
        let is_n: bool = nan(v);
        let is_i: bool = infinite(v);
        if is_n || is_i {
            assert(first_nonfinite(buf@, idx as int));
            assert forall|i: int| #[trigger] first_nonfinite(buf@, i) implies i == idx by {
                if i < idx {
                    assert(f32bits::is_finite(buf@[i]));
                }
                if i > idx {
                    assert(f32bits::is_finite(buf@[idx as int]));
                }
            }
            record_first_nonfinite(
                s,
                layer,
                stage,
                if is_n {
                    1
                } else {
                    0
                },
                if is_i {
                    1
                } else {
                    0
                },
            );
            s.finite_diag_tripped = true;
            let mut line: String = "[MP3.0][FINITE-DIAG] first non-finite: layer=".to_owned();
            push_dec(&mut line, layer as u64);
            line.append(" stage=");
            line.append(stage);
            line.append(" idx=");
            push_dec(&mut line, idx as u64);
            line.append(" bits=0x");
            push_hex_padded(&mut line, v as u64, 8);
            line.append(" (fused_dispatch=");
            if s.fused_dispatch {
                line.append("true");
            } else {
                line.append("false");
            }
            line.append(")\n");
            return Some(line);
        }
        idx = idx + 1;
    }
    assert forall|i: int| !(#[trigger] first_nonfinite(buf@, i)) by {
        if first_nonfinite(buf@, i) {
            assert(f32bits::is_finite(buf@[i]));
        }
    }
    None
}

/// Range and class counts of a buffer. The extremes are those of the finite
/// elements, positive zero where there is none.
#[derive(Clone, Copy, Debug, PartialEq, Eq, Structural)]
pub struct VecStats {
    pub min: u32,
    pub max: u32,
    pub finite: usize,
    pub nan: usize,
    pub inf: usize,
}

/// `m` is the bit pattern of a least finite element.
pub open spec fn least_finite(buf: Seq<u32>, m: u32) -> bool {
    &&& exists|i: int|
        0 <= i < buf.len() && #[trigger] buf[i] == m && f32bits::is_finite(buf[i])
    &&& forall|i: int|
        0 <= i < buf.len() && f32bits::is_finite(#[trigger] buf[i]) ==> f32bits::key(m)
            <= f32bits::key(buf[i])
}

/// `m` is the bit pattern of a greatest finite element.
pub open spec fn greatest_finite(buf: Seq<u32>, m: u32) -> bool {
    &&& exists|i: int|
        0 <= i < buf.len() && #[trigger] buf[i] == m && f32bits::is_finite(buf[i])
    &&& forall|i: int|
        0 <= i < buf.len() && f32bits::is_finite(#[trigger] buf[i]) ==> f32bits::key(m)
            >= f32bits::key(buf[i])
}

/// Elements among the first `n` that are of the class `c`: zero for finite,
/// one for not-a-number, two for infinite.
pub open spec fn class_count(buf: Seq<u32>, c: int, n: nat) -> nat
    decreases n,
{
    if n == 0 {
        0
    } else {
        let b = buf[n - 1];
        class_count(buf, c, (n - 1) as nat) + if (c == 0 && f32bits::is_finite(b)) || (c == 1
            && f32bits::is_nan(b)) || (c == 2 && f32bits::is_inf(b)) {
            1nat
        } else {
            0
        }
    }
}

/// Counts and extremes of `buf`.
pub fn vec_stats(buf: &[u32]) -> (r: VecStats)
    ensures
        r.finite == class_count(buf@, 0, buf@.len()),
        r.nan == class_count(buf@, 1, buf@.len()),
        r.inf == class_count(buf@, 2, buf@.len()),
        r.finite == 0 ==> r.min == 0 && r.max == 0,
        r.finite > 0 ==> least_finite(buf@, r.min) && greatest_finite(buf@, r.max),
{
    let mut r = VecStats { min: 0, max: 0, finite: 0, nan: 0, inf: 0 };
    let mut i: usize = 0;
    assert(buf.len() <= usize::MAX);
    while i < buf.len()
        invariant
            i <= buf@.len(),
            buf@.len() <= usize::MAX,
            r.finite <= i,
            r.nan <= i,
            r.inf <= i,
            r.finite == class_count(buf@, 0, i as nat),
            r.nan == class_count(buf@, 1, i as nat),
            r.inf == class_count(buf@, 2, i as nat),
            r.finite == 0 ==> r.min == 0 && r.max == 0,
            r.finite == 0 ==> forall|j: int|
                0 <= j < i ==> !f32bits::is_finite(#[trigger] buf@[j]),
            r.finite > 0 ==> least_finite(buf@.take(i as int), r.min) && greatest_finite(
                buf@.take(i as int),
                r.max,
            ),
        decreases buf@.len() - i,
    {
        let v: u32 = buf[i];
        let ghost before = buf@.take(i as int);
        let ghost after = buf@.take(i + 1);
        let ghost r0 = r;
        if nan(v) {
            r.nan = r.nan + 1;
        } else if infinite(v) {
            r.inf = r.inf + 1;
        } else {
            if r.finite == 0 || gt(r.min, v) {
                r.min = v;
            }
            if r.finite == 0 || gt(v, r.max) {
                r.max = v;
            }
            r.finite = r.finite + 1;
        }
        i = i + 1;
        proof {
            assert forall|j: int| 0 <= j < before.len() implies after[j] == before[j] by {}
            assert(after[i - 1] == v);
            if r.finite > 0 {
                if r0.finite > 0 {
                    let a = choose|a: int|
                        0 <= a < before.len() && #[trigger] before[a] == r0.min
                            && f32bits::is_finite(before[a]);
                    assert(after[a] == r0.min);
                    let b = choose|b: int|
                        0 <= b < before.len() && #[trigger] before[b] == r0.max
                            && f32bits::is_finite(before[b]);
                    assert(after[b] == r0.max);
                    assert forall|j: int|
                        0 <= j < after.len() && f32bits::is_finite(
                            #[trigger] after[j],
                        ) implies f32bits::key(r.min) <= f32bits::key(after[j]) && f32bits::key(
                        r.max,
                    ) >= f32bits::key(after[j]) by {
                        if j < i - 1 {
                            assert(after[j] == before[j]);
                        }
                    }
                } else {
                    assert forall|j: int| 0 <= j < i - 1 implies !f32bits::is_finite(
                        #[trigger] after[j],
                    ) by {
                        assert(after[j] == buf@[j]);
                    }
                }
            }
        }
    }
    assert(buf@.take(i as int) =~= buf@);
    r
}

/// Statistics of `buf` for the trace of the first token; none for later tokens
/// or with tracing off. Latches the first stage that holds a non-finite value.
pub fn trace_stats(
    s: &mut InferenceState,
    layer: usize,
    token_offset: usize,
    label: &str,
    buf: &[u32],
) -> (r: Option<VecStats>)
    requires
        old(s).wf(),
    ensures
        final(s).wf(),
        r is Some == (token_offset == 0 && old(s).trace),
        r is None ==> *final(s) == *old(s),
        r matches Some(v) ==> {
            &&& v.finite == class_count(buf@, 0, buf@.len())
            &&& v.nan == class_count(buf@, 1, buf@.len())
            &&& v.inf == class_count(buf@, 2, buf@.len())
            &&& v.finite == 0 ==> v.min == 0 && v.max == 0
            &&& v.finite > 0 ==> least_finite(buf@, v.min) && greatest_finite(buf@, v.max)
            &&& if v.nan > 0 || v.inf > 0 {
                recorded(*old(s), *final(s), layer, label@, v.nan, v.inf)
            } else {
                *final(s) == *old(s)
            }
        },
{
    if token_offset != 0 || !avx512_trace_enabled(s) {
        return None;
    }
    let v: VecStats = vec_stats(buf);
    if v.nan > 0 || v.inf > 0 {
        record_first_nonfinite(s, layer, label, v.nan, v.inf);
    }
    Some(v)
}

/// Whether the scores of a head are printed: those of the first head, and any with
/// a value that is not finite.
pub fn score_is_printed(head: usize, nan: usize, inf: usize) -> (b: bool)
    ensures
        b == (head == 0 || nan > 0 || inf > 0),
{
    head == 0 || nan > 0 || inf > 0
}

/// The tensor types that weights come in. `Other` holds the number of any type
/// without a kernel here.
#[derive(Clone, Copy, Debug, PartialEq, Eq, Structural)]
pub enum GgmlType {
    F32,
    Q4_0,
    Q8_0,
    Q4K,
    Q6K,
    Other(u32),
}

impl GgmlType {
    /// There are kernels for it.
    pub open spec fn has_kernel(self) -> bool {
        self is Q4_0 || self is Q8_0 || self is Q4K || self is Q6K
    }
}

/// Whether the fused kernel can route `quant`.
pub fn fused_quant_supported(quant: GgmlType) -> (b: bool)
    ensures
        b == quant.has_kernel(),
{
    match quant {
        GgmlType::Q4_0 => true,
        GgmlType::Q8_0 => true,
        GgmlType::Q4K => true,
        GgmlType::Q6K => true,
        _ => false,
    }
}

/// Whether the combined head kernel can route `quant`.
pub fn lm_head_argmax_quant_supported(quant: GgmlType) -> (b: bool)
    ensures
        b == quant.has_kernel(),
{
    fused_quant_supported(quant)
}

#[derive(Clone, Copy, Debug, PartialEq, Eq, Structural)]
pub enum LinearDispatchAvx512Error {
    /// There is no kernel for this tensor type.
    UnsupportedQuant(GgmlType),
}

/// The kernel for a tensor type, by whether its rows are interleaved.
pub open spec fn kernel_of(quant: GgmlType, interleave: u32) -> Option<Layout> {
    match quant {
        GgmlType::Q4K => Some(Layout::Q4K),
        GgmlType::Q6K => Some(Layout::Q6K),
        GgmlType::Q4_0 => Some(if interleave > 1 {
            Layout::Q4_0X4
        } else {
            Layout::Q4_0
        }),
        GgmlType::Q8_0 => Some(if interleave > 1 {
            Layout::Q8_0X4
        } else {
            Layout::Q8_0
        }),
        _ => None,
    }
}

/// A kernel reads blocks as the tensor type has them, interleaved only where the weights
/// are; and there is one for every type that has kernels.
pub proof fn lemma_kernel_reads_format(quant: GgmlType, interleave: u32)
    ensures
        kernel_of(quant, interleave) is Some <==> quant.has_kernel(),
        kernel_of(quant, interleave) matches Some(l) ==> {
            &&& (l.elements(), l.bytes()) == (match quant {
                GgmlType::Q4K => (256int, 144int),
                GgmlType::Q6K => (256, 210),
                GgmlType::Q4_0 => (32, 18),
                _ => (32, 34),
            })
            &&& l.grouped() <==> interleave > 1 && l.elements() == 32
        },
{
}

/// Picks the kernel for a projection. `interleave` is the row group of the
/// weights, one where they are plain.
pub fn linear_dispatch_avx512(quant: GgmlType, interleave: u32) -> (r: Result<
    Layout,
    LinearDispatchAvx512Error,
>)
    ensures
        r == (match kernel_of(quant, interleave) {
            Some(l) => Ok(l),
            None => Err(LinearDispatchAvx512Error::UnsupportedQuant(quant)),
        }),
{
    match quant {
        GgmlType::Q4K => Ok(Layout::Q4K),
        GgmlType::Q6K => Ok(Layout::Q6K),
        GgmlType::Q4_0 => Ok(
            if interleave > 1 {
                Layout::Q4_0X4
            } else {
                Layout::Q4_0
            },
        ),
        GgmlType::Q8_0 => Ok(
            if interleave > 1 {
                Layout::Q8_0X4
            } else {
                Layout::Q8_0
            },
        ),
        other => Err(LinearDispatchAvx512Error::UnsupportedQuant(other)),
    }
}

/// What is counted.
#[derive(Clone, Copy, Debug, PartialEq, Eq, Structural)]
pub enum Counted {
    Kernel(Layout),
    Fused,
    LmHead,
    ParallelAttention,
}

/// The state after one more dispatch of the kind `what` that took `cycles`.
pub open spec fn counted(s: InferenceState, what: Counted, cycles: u64) -> InferenceState {
    let c = s.counters;
    match what {
        Counted::Kernel(Layout::Q4K) => InferenceState {
            counters: Avx512PerfCounters {
                q4k_calls: c.q4k_calls.wrapping_add(1),
                q4k_cycles: c.q4k_cycles.wrapping_add(cycles),
                ..c
            },
            ..s
        },
        Counted::Kernel(Layout::Q6K) => InferenceState {
            counters: Avx512PerfCounters {
                q6k_calls: c.q6k_calls.wrapping_add(1),
                q6k_cycles: c.q6k_cycles.wrapping_add(cycles),
                ..c
            },
            ..s
        },
        Counted::Kernel(l) => if l is Q4_0 || l is Q4_0X4 {
            InferenceState {
                q4_0_calls: s.q4_0_calls.wrapping_add(1),
                q4_0_cycles: s.q4_0_cycles.wrapping_add(cycles),
                ..s
            }
        } else {
            InferenceState {
                q8_0_calls: s.q8_0_calls.wrapping_add(1),
                q8_0_cycles: s.q8_0_cycles.wrapping_add(cycles),
                ..s
            }
        },
        Counted::Fused => InferenceState {
            counters: Avx512PerfCounters {
                fused_calls: c.fused_calls.wrapping_add(1),
                fused_cycles: c.fused_cycles.wrapping_add(cycles),
                ..c
            },
            ..s
        },
        Counted::LmHead => InferenceState {
            counters: Avx512PerfCounters {
                lm_head_calls: c.lm_head_calls.wrapping_add(1),
                lm_head_cycles: c.lm_head_cycles.wrapping_add(cycles),
                ..c
            },
            ..s
        },
        Counted::ParallelAttention => InferenceState {
            counters: Avx512PerfCounters {
                attn_par_calls: c.attn_par_calls.wrapping_add(1),
                attn_par_cycles: c.attn_par_cycles.wrapping_add(cycles),
                ..c
            },
            ..s
        },
    }
}

/// The two are counted together: the same kind, and for a kernel the same format,
/// interleaved or not.
pub open spec fn same_counter(a: Counted, b: Counted) -> bool {
    match (a, b) {
        (Counted::Kernel(x), Counted::Kernel(y)) => x.elements() == y.elements() && x.bytes()
            == y.bytes(),
        _ => a == b,
    }
}

/// Dispatches counted so far, and their cycles.
pub open spec fn count_of(s: InferenceState, what: Counted) -> (u64, u64) {
    match what {
        Counted::Kernel(l) => match l {
            Layout::Q4K => (s.counters.q4k_calls, s.counters.q4k_cycles),
            Layout::Q6K => (s.counters.q6k_calls, s.counters.q6k_cycles),
            Layout::Q4_0 | Layout::Q4_0X4 => (s.q4_0_calls, s.q4_0_cycles),
            Layout::Q8_0 | Layout::Q8_0X4 => (s.q8_0_calls, s.q8_0_cycles),
        },
        Counted::Fused => (s.counters.fused_calls, s.counters.fused_cycles),
        Counted::LmHead => (s.counters.lm_head_calls, s.counters.lm_head_cycles),
        Counted::ParallelAttention => (s.counters.attn_par_calls, s.counters.attn_par_cycles),
    }
}

/// Counting adds one dispatch and its cycles to its own counter and to no other, and
/// changes nothing that is no counter.
pub proof fn lemma_counts_its_own(s: InferenceState, what: Counted, cycles: u64, other: Counted)
    ensures
        ({
            let r = counted(s, what, cycles);
            &&& same_counter(what, other) ==> count_of(r, other) == (
                count_of(s, other).0.wrapping_add(1),
                count_of(s, other).1.wrapping_add(cycles),
            )
            &&& !same_counter(what, other) ==> count_of(r, other) == count_of(s, other)
            &&& r == (InferenceState {
                counters: r.counters,
                q4_0_calls: r.q4_0_calls,
                q4_0_cycles: r.q4_0_cycles,
                q8_0_calls: r.q8_0_calls,
                q8_0_cycles: r.q8_0_cycles,
                ..s
            })
        }),
{
}

/// Counts one dispatch between the counter readings `t0` and `t1`.
pub fn count_dispatch(s: &mut InferenceState, what: Counted, t0: u64, t1: u64)
    ensures
        *final(s) == counted(*old(s), what, t1.wrapping_sub(t0)),
{
    let cycles: u64 = t1.wrapping_sub(t0);
    match what {
        Counted::Kernel(Layout::Q4K) => {
            s.counters.q4k_calls = s.counters.q4k_calls.wrapping_add(1);
            s.counters.q4k_cycles = s.counters.q4k_cycles.wrapping_add(cycles);
        },
        Counted::Kernel(Layout::Q6K) => {
            s.counters.q6k_calls = s.counters.q6k_calls.wrapping_add(1);
            s.counters.q6k_cycles = s.counters.q6k_cycles.wrapping_add(cycles);
        },
        Counted::Kernel(Layout::Q4_0) | Counted::Kernel(Layout::Q4_0X4) => {
            s.q4_0_calls = s.q4_0_calls.wrapping_add(1);
            s.q4_0_cycles = s.q4_0_cycles.wrapping_add(cycles);
        },
        Counted::Kernel(Layout::Q8_0) | Counted::Kernel(Layout::Q8_0X4) => {
            s.q8_0_calls = s.q8_0_calls.wrapping_add(1);
            s.q8_0_cycles = s.q8_0_cycles.wrapping_add(cycles);
        },
        Counted::Fused => {
            s.counters.fused_calls = s.counters.fused_calls.wrapping_add(1);
            s.counters.fused_cycles = s.counters.fused_cycles.wrapping_add(cycles);
        },
        Counted::LmHead => {
            s.counters.lm_head_calls = s.counters.lm_head_calls.wrapping_add(1);
            s.counters.lm_head_cycles = s.counters.lm_head_cycles.wrapping_add(cycles);
        },
        Counted::ParallelAttention => {
            s.counters.attn_par_calls = s.counters.attn_par_calls.wrapping_add(1);
            s.counters.attn_par_cycles = s.counters.attn_par_cycles.wrapping_add(cycles);
        },
    }
}

} // verus!
