//! The benchmark suite's arithmetic, records and reports.
//!
//! Time is read from the time stamp counter by the caller. A [`Sample`] holds
//! the two readings around one measured loop.

use crate::arch::x86_64::cpuinfo;
use crate::arch::x86_64::cpuinfo::{push_printable, CpuInfo};
use crate::bench::llm_report::{clean, LlmReport};
use crate::text;
use crate::text::{push_dec, push_fill, push_hex_padded};
use vstd::prelude::*;

pub mod llm_report;

verus! {

/// Iterations of the context-switch and allocation benchmarks.
pub const BENCH_ITERATIONS: u64 = 1_000_000;

/// Iterations of medium-cost benchmarks.
pub const BENCH_ITERATIONS_MEDIUM: u64 = 100_000;

/// TSC frequency that is assumed until [`calibrate_tsc`] learns a better one.
pub const DEFAULT_TSC_MHZ: u64 = 3800;

/// No anchor was captured.
pub const ANCHOR_MODE_NONE: u64 = 0;

/// Values were printed for promotion.
pub const ANCHOR_MODE_CAPTURE: u64 = 1;

/// Values were validated against the manifest.
pub const ANCHOR_MODE_STRICT: u64 = 2;

/// No matching manifest anchor is present.
pub const ANCHOR_MODE_MISSING: u64 = 3;

/// The fixed reference anchor was verified.
pub const ANCHOR_MODE_BETA: u64 = 4;

/// Size of the simulated arena of [`bench_arena_alloc`].
pub const ARENA_SIZE: usize = 16_777_216;

/// Size of one simulated allocation.
pub const ALLOC_SIZE: usize = 64;

/// Buffer of one producer/consumer round.
pub const IPC_BUF_SIZE: usize = 262_144;

/// Producer/consumer rounds.
pub const IPC_ROUNDS: u64 = 160;

/// Bytes that all rounds move together.
pub const IPC_TOTAL_BYTES: u64 = 41_943_040;

/// Columns between the borders of the summary box.
pub const BOX_BODY: usize = 50;

/// Columns behind "  NET: " in the box.
pub const NET_WIDTH: usize = 43;

/// Columns behind "  LLM: FAILED " in the box.
pub const LLM_WIDTH: usize = 36;

/// Results from one benchmark run.
#[derive(Clone, Copy, Debug)]
pub struct BenchResult {
    pub name: &'static str,
    pub iterations: u64,
    pub total_cycles: u64,
    pub median_ns: u64,
    pub p99_ns: u64,
    pub linux_ref: &'static str,
    pub unit: &'static str,
}

/// Counter readings before and after a measured loop.
#[derive(Clone, Copy, Debug, PartialEq, Eq, Structural)]
pub struct Sample {
    pub start: u64,
    pub end: u64,
}

impl Sample {
    /// Cycles between the two readings, also where the counter wrapped.
    pub open spec fn cycles(&self) -> u64 {
        self.end.wrapping_sub(self.start)
    }
}

/// Counter readings of the three micro-benchmarks.
#[derive(Clone, Copy, Debug, PartialEq, Eq, Structural)]
pub struct Samples {
    pub ctx: Sample,
    pub alloc: Sample,
    pub ipc: Sample,
}

/// Cycle counts of the three micro-benchmarks, taken before inference started.
#[derive(Clone, Copy, Debug, PartialEq, Eq, Structural)]
pub struct Baseline {
    pub ctx_per_switch: u64,
    pub alloc_per: u64,
    pub ipc_total: u64,
}

/// The forward-pass anchor that the operator reads off the held screen.
#[derive(Clone, Copy, Debug, PartialEq, Eq, Structural)]
pub struct Anchor {
    pub token: u32,
    pub logit_bits: u32,
    pub mode: u64,
}

/// How far network bring-up came.
pub enum NetReport {
    Online(Vec<u8>),
    Failed(Vec<u8>),
    NotReached,
}

/// Everything that the benchmark suite remembers between calls.
pub struct BenchState {
    /// Counter reading at kernel entry.
    pub boot_tsc_t0: u64,
    /// Counter reading when the kernel was ready, zero while it is not.
    pub boot_ready_tsc: u64,
    /// TSC frequency in MHz.
    pub tsc_mhz: u64,
    pub llm_generated_tokens: u64,
    pub llm_generation_cycles: u64,
    pub llm_failed: bool,
    pub baseline: Option<Baseline>,
    pub anchor: Option<Anchor>,
    pub report: LlmReport,
}

impl BenchState {
    /// The frequency is usable as a divisor and the failure reason is printable.
    pub open spec fn wf(&self) -> bool {
        self.tsc_mhz > 0 && self.report.wf()
    }

    /// The state at kernel entry.
    pub fn new(boot_tsc_t0: u64) -> (s: BenchState)
        ensures
            s.wf(),
            s.boot_tsc_t0 == boot_tsc_t0,
            s.boot_ready_tsc == 0,
            s.tsc_mhz == DEFAULT_TSC_MHZ,
            s.llm_generated_tokens == 0,
            s.llm_generation_cycles == 0,
            !s.llm_failed,
            s.baseline == None::<Baseline>,
            s.anchor == None::<Anchor>,
            s.report.text@ == Seq::<u8>::empty(),
    {
        BenchState {
            boot_tsc_t0,
            boot_ready_tsc: 0,
            tsc_mhz: DEFAULT_TSC_MHZ,
            llm_generated_tokens: 0,
            llm_generation_cycles: 0,
            llm_failed: false,
            baseline: None,
            anchor: None,
            report: LlmReport::new(),
        }
    }
}

/// Records how long generation took. A run with tokens clears an earlier failure.
pub fn record_llm_inference(s: &mut BenchState, generated_tokens: u64, generation_cycles: u64)
    ensures
        *final(s) == (BenchState {
            llm_generated_tokens: generated_tokens,
            llm_generation_cycles: generation_cycles,
            llm_failed: old(s).llm_failed && generated_tokens == 0,
            ..*old(s)
        }),
{
    s.llm_generated_tokens = generated_tokens;
    s.llm_generation_cycles = generation_cycles;
    if generated_tokens > 0 {
        s.llm_failed = false;
    }
}

/// Records the forward-pass anchor.
pub fn record_llm_anchor(s: &mut BenchState, token: u32, logit_bits: u32, mode: u64)
    ensures
        *final(s) == (BenchState {
            anchor: Some(Anchor { token, logit_bits, mode }),
            ..*old(s)
        }),
{
    s.anchor = Some(Anchor { token, logit_bits, mode });
}

/// The recorded anchor as `(token, logit_bits, mode)`.
pub fn anchor_snapshot(s: &BenchState) -> (r: Option<(u32, u32, u64)>)
    ensures
        r == (match s.anchor {
            Some(a) => Some((a.token, a.logit_bits, a.mode)),
            None => None,
        }),
{
    match s.anchor {
        Some(a) => Some((a.token, a.logit_bits, a.mode)),
        None => None,
    }
}

pub open spec fn mode_label(mode: u64) -> Seq<char> {
    if mode == ANCHOR_MODE_CAPTURE {
        "capture"@
    } else if mode == ANCHOR_MODE_STRICT {
        "strict"@
    } else if mode == ANCHOR_MODE_MISSING {
        "no-manifest"@
    } else if mode == ANCHOR_MODE_BETA {
        "beta"@
    } else {
        "n/a"@
    }
}

pub fn anchor_mode_label(mode: u64) -> (l: &'static str)
    ensures
        l@ == mode_label(mode),
{
    if mode == ANCHOR_MODE_CAPTURE {
        "capture"
    } else if mode == ANCHOR_MODE_STRICT {
        "strict"
    } else if mode == ANCHOR_MODE_MISSING {
        "no-manifest"
    } else if mode == ANCHOR_MODE_BETA {
        "beta"
    } else {
        "n/a"
    }
}

/// What a failure for `reason` makes of the state `s`.
pub open spec fn failed_with(s: BenchState, f: BenchState, reason: &str) -> bool {
    &&& f == (BenchState {
        llm_generated_tokens: 0,
        llm_generation_cycles: 0,
        llm_failed: true,
        report: f.report,
        ..s
    })
    &&& f.report.text@ == llm_report::clean_detail(vstd::utf8::encode_utf8(reason@))
    &&& f.report.wf()
}

/// Records that inference aborted, and returns the line that says so.
pub fn record_llm_failure(s: &mut BenchState, reason: &str) -> (line: String)
    ensures
        failed_with(*old(s), *final(s), reason),
        line@ == "[BENCH] LLM Inference: FAILED — "@ + reason@ + "\n"@,
{
    record_llm_failure_args(s, reason)
}

/// [`record_llm_failure`] for a reason that was formatted from several parts.
pub fn record_llm_failure_args(s: &mut BenchState, reason: &str) -> (line: String)
    ensures
        failed_with(*old(s), *final(s), reason),
        line@ == "[BENCH] LLM Inference: FAILED — "@ + reason@ + "\n"@,
{
    s.llm_generated_tokens = 0;
    s.llm_generation_cycles = 0;
    s.llm_failed = true;
    llm_report::set(&mut s.report, reason);
    let mut line: String = "[BENCH] LLM Inference: FAILED — ".to_owned();
    line.append(reason);
    line.append("\n");
    line
}

/// Whether a failure was recorded since the last successful run.
pub fn llm_failure_recorded(s: &BenchState) -> (b: bool)
    ensures
        b == s.llm_failed,
{
    s.llm_failed
}

/// Marks the kernel as ready at the counter reading `now`. Only the first mark counts.
pub fn mark_boot_ready(s: &mut BenchState, now: u64)
    ensures
        *final(s) == (BenchState {
            boot_ready_tsc: if old(s).boot_ready_tsc == 0 {
                now
            } else {
                old(s).boot_ready_tsc
            },
            ..*old(s)
        }),
{
    if s.boot_ready_tsc == 0 {
        s.boot_ready_tsc = now;
    }
}

/// Cycles from kernel entry to the ready mark, or to `now` where there is no mark.
pub open spec fn boot_cycles(s: BenchState, now: u64) -> u64 {
    if s.boot_ready_tsc != 0 {
        s.boot_ready_tsc.wrapping_sub(s.boot_tsc_t0)
    } else {
        now.wrapping_sub(s.boot_tsc_t0)
    }
}

pub fn boot_delta_cycles(s: &BenchState, now: u64) -> (d: u64)
    ensures
        d == boot_cycles(*s, now),
{
    let end: u64 = if s.boot_ready_tsc != 0 {
        s.boot_ready_tsc
    } else {
        now
    };
    end.wrapping_sub(s.boot_tsc_t0)
}

/// The frequency that holds after calibration with the reported base frequency.
pub open spec fn calibrated(mhz: u64, base: u32) -> u64 {
    if 0 < base < 10000 {
        base as u64
    } else {
        mhz
    }
}

pub open spec fn calibrate_text(mhz: u64, base: u32) -> Seq<char> {
    if 0 < base < 10000 {
        "[BENCH] TSC calibrated from CPUID: "@ + text::dec(base as nat) + " MHz\n"@
    } else {
        "[BENCH] No freq info, using default "@ + text::dec(mhz as nat) + " MHz\n"@
    }
}

/// Takes the TSC frequency from the CPU information where that is plausible.
pub fn calibrate_tsc(s: &mut BenchState, cpu: &CpuInfo) -> (text: String)
    ensures
        *final(s) == (BenchState {
            tsc_mhz: calibrated(old(s).tsc_mhz, cpu.base_freq_mhz),
            ..*old(s)
        }),
        text@ == calibrate_text(old(s).tsc_mhz, cpu.base_freq_mhz),
        old(s).wf() ==> final(s).wf(),
{
    if cpu.base_freq_mhz > 0 && cpu.base_freq_mhz < 10000 {
        s.tsc_mhz = cpu.base_freq_mhz as u64;
        let mut text: String = "[BENCH] TSC calibrated from CPUID: ".to_owned();
        push_dec(&mut text, cpu.base_freq_mhz as u64);
        text.append(" MHz\n");
        text
    } else {
        let mut text: String = "[BENCH] No freq info, using default ".to_owned();
        push_dec(&mut text, s.tsc_mhz);
        text.append(" MHz\n");
        text
    }
}

/// Nanoseconds of `cycles` at `mhz`: exact down to the nanosecond below the
/// point where `cycles * 1000` could overflow, to the microsecond above it.
pub open spec fn ns_of(mhz: u64, cycles: u64) -> int {
    if cycles < u64::MAX / 1000 {
        cycles * 1000 / mhz as int
    } else {
        cycles as int / mhz as int * 1000
    }
}

/// The nanoseconds of `cycles` fit 64 bits. That fails only for cycle counts
/// of hours on a clock below 1 GHz.
pub open spec fn ns_fits(mhz: u64, cycles: u64) -> bool {
    ns_of(mhz, cycles) <= u64::MAX
}

/// Converts cycles to nanoseconds with the calibrated TSC frequency.
pub fn cycles_to_ns(s: &BenchState, cycles: u64) -> (ns: u64)
    requires
        s.wf(),
        ns_fits(s.tsc_mhz, cycles),
    ensures
        ns == ns_of(s.tsc_mhz, cycles),
{
    if cycles < u64::MAX / 1000 {
        cycles * 1000 / s.tsc_mhz
    } else {
        cycles / s.tsc_mhz * 1000
    }
}

/// Every cycle count has a nanosecond count that fits, on a clock of at least 1 GHz.
pub proof fn lemma_ns_fits(mhz: u64, cycles: u64)
    requires
        mhz >= 1000,
    ensures
        ns_fits(mhz, cycles),
{
    let c = cycles as int;
    let m = mhz as int;
    assert(c / m * 1000 <= c) by (nonlinear_arith)
        requires
            m >= 1000,
            c >= 0,
    ;
    assert(0 <= c * 1000 / m <= c) by (nonlinear_arith)
        requires
            m >= 1000,
            c >= 0,
    ;
}

/// More cycles never give fewer nanoseconds, within each of the two ranges of
/// the conversion.
pub proof fn lemma_ns_monotone(mhz: u64, a: u64, b: u64)
    requires
        mhz > 0,
        a <= b,
        (a < u64::MAX / 1000) == (b < u64::MAX / 1000),
    ensures
        ns_of(mhz, a) <= ns_of(mhz, b),
{
    let m = mhz as int;
    let (x, y) = (a as int, b as int);
    assert(x * 1000 / m <= y * 1000 / m && x / m * 1000 <= y / m * 1000) by (nonlinear_arith)
        requires
            m > 0,
            0 <= x <= y,
    ;
}

/// Generation speed in tenths of a token per second; zero where nothing was
/// generated or no time passed.
pub open spec fn tok_per_sec_x10(mhz: u64, tokens: u64, cycles: u64) -> int {
    if tokens == 0 || cycles == 0 || ns_of(mhz, cycles) == 0 {
        0
    } else if tokens * 10_000_000_000 > u64::MAX {
        u64::MAX as int / ns_of(mhz, cycles)
    } else {
        tokens * 10_000_000_000 / ns_of(mhz, cycles)
    }
}

/// `(speed in tenths of a token per second, tokens, cycles)` of the recorded run.
pub fn recorded_llm_tok_per_sec_x10(s: &BenchState) -> (r: (u64, u64, u64))
    requires
        s.wf(),
        ns_fits(s.tsc_mhz, s.llm_generation_cycles),
    ensures
        r.0 == tok_per_sec_x10(s.tsc_mhz, s.llm_generated_tokens, s.llm_generation_cycles),
        r.1 == s.llm_generated_tokens,
        r.2 == s.llm_generation_cycles,
{
    let tokens: u64 = s.llm_generated_tokens;
    let cycles: u64 = s.llm_generation_cycles;
    if tokens == 0 || cycles == 0 {
        return (0, tokens, cycles);
    }
    let ns: u64 = cycles_to_ns(s, cycles);
    if ns == 0 {
        return (0, tokens, cycles);
    }
    let scaled: u64 = match tokens.checked_mul(10_000_000_000) {
        Some(x) => x,
        None => u64::MAX,
    };
    (scaled / ns, tokens, cycles)
}

/// Total and per-iteration cycles of one run, with the text that reports it.
pub struct BenchRun {
    pub total: u64,
    pub per_iter: u64,
    pub text: String,
}

pub open spec fn run_bench_text(mhz: u64, name: Seq<char>, iterations: u64, total: u64) -> Seq<
    char,
> {
    "[BENCH] "@ + name + " — "@ + text::dec(iterations as nat)
        + " iterations (+ 1000 warmup)...\n[BENCH] "@ + name + ": total="@ + text::dec(total as nat)
        + " cycles ("@ + text::dec(ns_of(mhz, total) as nat) + "ns), per_iter="@ + text::dec(
        (total / iterations) as nat,
    ) + " cycles ("@ + text::dec(ns_of(mhz, total / iterations) as nat) + "ns)\n"@
}

/// What a benchmark does next.
#[derive(Clone, Copy, Debug, PartialEq, Eq, Structural)]
pub enum BenchAction {
    /// Call what is measured.
    Call,
    /// Read the counter for the start of the sample.
    ReadStart,
    /// Read the counter for the end of the sample.
    ReadEnd,
    /// Report the sample.
    Finish,
}

/// Calls before the counter is read.
pub const WARMUP_CALLS: u64 = 1000;

/// A whole benchmark up to its report: the warm-up calls, the first reading, the
/// counted calls, the second reading.
pub open spec fn bench_schedule(iterations: nat) -> Seq<BenchAction> {
    Seq::new(WARMUP_CALLS as nat, |i: int| BenchAction::Call) + seq![BenchAction::ReadStart]
        + Seq::new(iterations, |i: int| BenchAction::Call) + seq![BenchAction::ReadEnd]
}

/// The action of a benchmark of `iterations` counted calls, when `done` actions are
/// behind it.
pub fn bench_step(done: u64, iterations: u64) -> (a: BenchAction)
    ensures
        a == (if done < bench_schedule(iterations as nat).len() {
            bench_schedule(iterations as nat)[done as int]
        } else {
            BenchAction::Finish
        }),
{
    if done < WARMUP_CALLS {
        BenchAction::Call
    } else if done == WARMUP_CALLS {
        BenchAction::ReadStart
    } else {
        let counted: u64 = done - WARMUP_CALLS - 1;
        if counted < iterations {
            BenchAction::Call
        } else if counted == iterations {
            BenchAction::ReadEnd
        } else {
            BenchAction::Finish
        }
    }
}

/// Calls among the first `n` actions.
pub open spec fn calls_before(actions: Seq<BenchAction>, n: int) -> int
    decreases n,
{
    if n <= 0 {
        0
    } else {
        calls_before(actions, n - 1) + if actions[n - 1] is Call {
            1int
        } else {
            0
        }
    }
}

proof fn lemma_calls_before(iterations: nat, n: int)
    requires
        0 <= n <= bench_schedule(iterations).len(),
    ensures
        calls_before(bench_schedule(iterations), n) == (if n <= WARMUP_CALLS {
            n
        } else if n <= WARMUP_CALLS + 1 + iterations {
            n - 1
        } else {
            n - 2
        }),
    decreases n,
{
    if n > 0 {
        lemma_calls_before(iterations, n - 1);
        let a = bench_schedule(iterations)[n - 1];
        if n - 1 == WARMUP_CALLS {
            assert(a is ReadStart);
        } else if n - 1 == WARMUP_CALLS + 1 + iterations {
            assert(a is ReadEnd);
        } else {
            assert(a is Call);
        }
    }
}

/// What is measured is called a thousand times before the counter is first read,
/// `iterations` times between the two readings, and not again.
pub proof fn lemma_bench_calls(iterations: nat)
    ensures
        bench_schedule(iterations).len() == WARMUP_CALLS + iterations + 2,
        bench_schedule(iterations)[WARMUP_CALLS as int] is ReadStart,
        bench_schedule(iterations)[WARMUP_CALLS + iterations + 1] is ReadEnd,
        calls_before(bench_schedule(iterations), WARMUP_CALLS as int) == 1000,
        calls_before(bench_schedule(iterations), WARMUP_CALLS + iterations + 1) == 1000
            + iterations,
        calls_before(bench_schedule(iterations), WARMUP_CALLS + iterations + 2) == 1000
            + iterations,
{
    lemma_calls_before(iterations, WARMUP_CALLS as int);
    lemma_calls_before(iterations, WARMUP_CALLS + iterations + 1);
    lemma_calls_before(iterations, WARMUP_CALLS + iterations + 2);
}

/// Reports a run of `iterations` calls, measured by `sample`: the two readings that
/// [`bench_step`] asks for.
pub fn run_bench(s: &BenchState, name: &str, iterations: u64, sample: Sample) -> (r: BenchRun)
    requires
        s.wf(),
        iterations > 0,
        ns_fits(s.tsc_mhz, sample.cycles()),
        ns_fits(s.tsc_mhz, sample.cycles() / iterations),
    ensures
        r.total == sample.cycles(),
        r.per_iter == sample.cycles() / iterations,
        r.text@ == run_bench_text(s.tsc_mhz, name@, iterations, sample.cycles()),
{
    let total: u64 = sample.end.wrapping_sub(sample.start);
    let per_iter: u64 = total / iterations;
    let total_ns: u64 = cycles_to_ns(s, total);
    let per_iter_ns: u64 = cycles_to_ns(s, per_iter);
    let mut text: String = "[BENCH] ".to_owned();
    text.append(name);
    text.append(" — ");
    push_dec(&mut text, iterations);
    text.append(" iterations (+ 1000 warmup)...\n[BENCH] ");
    text.append(name);
    text.append(": total=");
    push_dec(&mut text, total);
    text.append(" cycles (");
    push_dec(&mut text, total_ns);
    text.append("ns), per_iter=");
    push_dec(&mut text, per_iter);
    text.append(" cycles (");
    push_dec(&mut text, per_iter_ns);
    text.append("ns)\n");
    BenchRun { total, per_iter, text }
}

/// The shown numbers are the quantities rounded down: nanoseconds of cycles, in whole
/// microseconds where the count is too large; tenths of nanoseconds; tenths of tokens in
/// a second, while they can be counted in 64 bits; and milliseconds with the
/// microseconds that are left.
pub proof fn lemma_shown_numbers(mhz: u64, cycles: u64, tokens: u64)
    requires
        mhz > 0,
    ensures
        ({
            let ns = ns_of(mhz, cycles);
            &&& cycles < u64::MAX / 1000 ==> ns * mhz <= cycles * 1000 < (ns + 1) * mhz
            &&& cycles >= u64::MAX / 1000 ==> ns % 1000 == 0 && ns / 1000 * mhz <= cycles < (ns
                / 1000 + 1) * mhz
            &&& ns_x10(mhz, cycles) * mhz <= cycles * 10_000 < (ns_x10(mhz, cycles) + 1) * mhz
        }),
        ({
            let ns = ns_of(mhz, cycles);
            let r = tok_per_sec_x10(mhz, tokens, cycles);
            &&& tokens > 0 && ns > 0 && tokens * 10_000_000_000 <= u64::MAX ==> r * ns <= tokens
                * 10_000_000_000 < (r + 1) * ns
            &&& tokens == 0 || ns <= 0 ==> r == 0
        }),
        ({
            let ns = ns_of(mhz, cycles);
            let (ms, us) = boot_ms_us(mhz, cycles);
            &&& 0 <= us < 1000
            &&& ms * 1_000_000 + us * 1000 <= ns < ms * 1_000_000 + us * 1000 + 1000
        }),
        ({
            let ns = ns_of(mhz, cycles);
            let r = gbps_x10(ns);
            ns > 0 ==> r * ns <= IPC_TOTAL_BYTES * 10_000 < (r + 1) * ns
        }),
{
    let c = cycles as int;
    let m = mhz as int;
    let ns = ns_of(mhz, cycles);
    lemma_quotient(c * 1000, m);
    lemma_quotient(c, m);
    lemma_quotient(c * 10_000, m);
    if c < u64::MAX as int / 1000 {
        assert(0 <= ns);
    } else {
        assert((c / m * 1000) % 1000 == 0 && c / m * 1000 / 1000 == c / m);
    }
    if ns > 0 {
        lemma_quotient(tokens * 10_000_000_000, ns);
        lemma_quotient(419_430_400_000int, ns);
    }
    lemma_tail(ns);
}

proof fn lemma_tail(ns: int)
    requires
        0 <= ns,
    ensures
        ({
            let (ms, us) = (ns / 1_000_000, ns % 1_000_000 / 1000);
            &&& 0 <= us < 1000
            &&& ms * 1_000_000 + us * 1000 <= ns < ms * 1_000_000 + us * 1000 + 1000
        }),
{
}

proof fn lemma_quotient(a: int, b: int)
    requires
        0 <= a,
        0 < b,
    ensures
        0 <= a / b,
        a / b * b <= a < (a / b + 1) * b,
{
    vstd::arithmetic::div_mod::lemma_fundamental_div_mod(a, b);
    let q = a / b;
    assert(0 <= q) by (nonlinear_arith)
        requires
            0 <= a,
            0 < b,
            q == a / b,
    ;
    assert(q * b == b * q && (q + 1) * b == b * q + b) by (nonlinear_arith);
}

/// Milliseconds and the microseconds left over.
pub open spec fn boot_ms_us(mhz: u64, cycles: u64) -> (int, int) {
    (ns_of(mhz, cycles) / 1_000_000, ns_of(mhz, cycles) % 1_000_000 / 1000)
}

pub open spec fn boot_text(mhz: u64, cycles: u64) -> Seq<char> {
    "\n=== Zero Benchmark Suite ===\n\n[BENCH] Boot Time: "@ + text::dec(boot_ms_us(mhz, cycles).0 as nat)
        + "."@ + text::dec(boot_ms_us(mhz, cycles).1 as nat) + "ms ("@ + text::dec(cycles as nat)
        + " cycles)\n[BENCH]   Linux ref: 15,000-25,000ms (Ubuntu Server)\n"@
}

/// The boot-time report, as of the counter reading `now`.
pub fn report_boot_time(s: &BenchState, now: u64) -> (text: String)
    requires
        s.wf(),
        ns_fits(s.tsc_mhz, boot_cycles(*s, now)),
    ensures
        text@ == boot_text(s.tsc_mhz, boot_cycles(*s, now)),
{
    let delta: u64 = boot_delta_cycles(s, now);
    let delta_ns: u64 = cycles_to_ns(s, delta);
    let mut text: String = "\n=== Zero Benchmark Suite ===\n\n[BENCH] Boot Time: ".to_owned();
    push_dec(&mut text, delta_ns / 1_000_000);
    text.append(".");
    push_dec(&mut text, (delta_ns % 1_000_000) / 1000);
    text.append("ms (");
    push_dec(&mut text, delta);
    text.append(" cycles)\n[BENCH]   Linux ref: 15,000-25,000ms (Ubuntu Server)\n");
    text
}

pub open spec fn ctx_text(mhz: u64, total: u64) -> Seq<char> {
    "[BENCH] Context Switch (yield/resume) — "@ + text::dec(BENCH_ITERATIONS as nat)
        + " iterations...\n[BENCH] Context Switch: "@ + text::dec((total / BENCH_ITERATIONS) as nat)
        + " cycles/switch ("@ + text::dec(ns_of(mhz, total / BENCH_ITERATIONS) as nat)
        + "ns)\n[BENCH]   Linux ref: 1,200-5,500ns (lmbench)\n"@
}

/// Reports [`BENCH_ITERATIONS`] yield/resume pairs, measured by `sample`.
pub fn bench_context_switch(s: &BenchState, sample: Sample) -> (r: BenchRun)
    requires
        s.wf(),
        ns_fits(s.tsc_mhz, sample.cycles() / BENCH_ITERATIONS),
    ensures
        r.total == sample.cycles(),
        r.per_iter == sample.cycles() / BENCH_ITERATIONS,
        r.text@ == ctx_text(s.tsc_mhz, sample.cycles()),
{
    let total: u64 = sample.end.wrapping_sub(sample.start);
    let per_iter: u64 = total / BENCH_ITERATIONS;
    let per_ns: u64 = cycles_to_ns(s, per_iter);
    let mut text: String = "[BENCH] Context Switch (yield/resume) — ".to_owned();
    push_dec(&mut text, BENCH_ITERATIONS);
    text.append(" iterations...\n[BENCH] Context Switch: ");
    push_dec(&mut text, per_iter);
    text.append(" cycles/switch (");
    push_dec(&mut text, per_ns);
    text.append("ns)\n[BENCH]   Linux ref: 1,200-5,500ns (lmbench)\n");
    BenchRun { total, per_iter, text }
}

/// One bump allocation of [`ALLOC_SIZE`] bytes at eight-byte alignment, starting
/// over once the arena is full.
pub fn arena_step(cursor: usize) -> (next: usize)
    requires
        cursor < ARENA_SIZE,
    ensures
        next < ARENA_SIZE,
        next == {
            let end = (cursor + 7) / 8 * 8 + ALLOC_SIZE;
            if end >= ARENA_SIZE {
                0
            } else {
                end
            }
        },
{
    let sum: u64 = cursor as u64 + 7;
    assert(sum & !7u64 == sum / 8 * 8) by (bit_vector);
    let aligned: usize = (sum & !7u64) as usize;
    let end: usize = aligned + ALLOC_SIZE;
    if end >= ARENA_SIZE {
        0
    } else {
        end
    }
}

/// The cursor after `iterations` allocations from an empty arena. They stay on
/// multiples of the allocation size, so none of the arena is lost to alignment.
pub fn arena_walk(iterations: u64) -> (cursor: usize)
    ensures
        cursor == (iterations as int % 262_144) * 64,
{
    let mut cursor: usize = 0;
    let mut i: u64 = 0;
    while i < iterations
        invariant
            i <= iterations,
            cursor < ARENA_SIZE,
            cursor == (i as int % 262_144) * 64,
        decreases iterations - i,
    {
        cursor = arena_step(cursor);
        i = i + 1;
    }
    cursor
}

/// Tenths of a nanosecond of `cycles` at `mhz`.
pub open spec fn ns_x10(mhz: u64, cycles: u64) -> int {
    cycles * 10_000 / mhz as int
}

pub open spec fn alloc_text(mhz: u64, total: u64) -> Seq<char> {
    let per = total / BENCH_ITERATIONS;
    "[BENCH] Arena Allocation — "@ + text::dec(BENCH_ITERATIONS as nat)
        + " iterations (+ 1000 warmup)...\n[BENCH] Arena Alloc: "@ + text::dec(per as nat)
        + " cycles/alloc ("@ + text::dec((ns_x10(mhz, per) / 10) as nat) + "."@ + text::dec(
        (ns_x10(mhz, per) % 10) as nat,
    ) + "ns)\n[BENCH]   Linux ref: 50-5,000ns (glibc malloc)\n"@
}

/// Reports [`BENCH_ITERATIONS`] bump allocations, measured by `sample`.
pub fn bench_arena_alloc(s: &BenchState, sample: Sample) -> (r: BenchRun)
    requires
        s.wf(),
    ensures
        r.total == sample.cycles(),
        r.per_iter == sample.cycles() / BENCH_ITERATIONS,
        r.text@ == alloc_text(s.tsc_mhz, sample.cycles()),
{
    let total: u64 = sample.end.wrapping_sub(sample.start);
    let per_iter: u64 = total / BENCH_ITERATIONS;
    let x10: u64 = per_iter * 10_000 / s.tsc_mhz;
    let mut text: String = "[BENCH] Arena Allocation — ".to_owned();
    push_dec(&mut text, BENCH_ITERATIONS);
    text.append(" iterations (+ 1000 warmup)...\n[BENCH] Arena Alloc: ");
    push_dec(&mut text, per_iter);
    text.append(" cycles/alloc (");
    push_dec(&mut text, x10 / 10);
    text.append(".");
    push_dec(&mut text, x10 % 10);
    text.append("ns)\n[BENCH]   Linux ref: 50-5,000ns (glibc malloc)\n");
    BenchRun { total, per_iter, text }
}

/// One producer/consumer round: fills the buffer with the low byte of `round`
/// and returns the sum that the consumer reads.
pub fn ipc_round(buf: &mut Vec<u8>, round: u64) -> (sum: u64)
    requires
        old(buf)@.len() <= IPC_BUF_SIZE,
    ensures
        final(buf)@ == Seq::new(old(buf)@.len(), |i: int| (round % 256) as u8),
        sum == (round as int % 256) * old(buf)@.len(),
{
    assert(round & 0xFFu64 == round % 256) by (bit_vector);
    let value: u8 = (round & 0xFF) as u8;
    let n: usize = buf.len();
    let mut i: usize = 0;
    while i < n
        invariant
            i <= n,
            buf@.len() == n,
            n == old(buf)@.len(),
            forall|j: int| 0 <= j < i ==> buf@[j] == value,
        decreases n - i,
    {
        buf[i] = value;
        i = i + 1;
    }
    assert(buf@ =~= Seq::new(old(buf)@.len(), |i: int| (round % 256) as u8));
    let mut sum: u64 = 0;
    let mut k: usize = 0;
    while k < n
        invariant
            k <= n,
            n <= IPC_BUF_SIZE,
            buf@.len() == n,
            forall|j: int| 0 <= j < n ==> buf@[j] == value,
            sum == value * k,
            sum <= 255 * k,
        decreases n - k,
    {
        assert(value * k + value == value * (k + 1)) by (nonlinear_arith);
        sum = sum + buf[k] as u64;
        k = k + 1;
    }
    sum
}

/// Tenths of the rate that is shown for [`IPC_TOTAL_BYTES`] in `ns` nanoseconds. A
/// byte per nanosecond is shown as a thousand.
pub open spec fn gbps_x10(ns: int) -> int {
    if ns > 0 {
        419_430_400_000int / ns
    } else {
        0
    }
}

pub open spec fn ipc_text(mhz: u64, total: u64) -> Seq<char> {
    let ns = ns_of(mhz, total);
    "[BENCH] IPC Throughput (Zero-Copy) — 160 x 256 KiB...\n[BENCH] IPC Throughput: "@ + text::dec(
        (gbps_x10(ns) / 10) as nat,
    ) + "."@ + text::dec((gbps_x10(ns) % 10) as nat) + " GB/s (41943040 bytes in "@ + text::dec(ns as nat)
        + "ns)\n[BENCH]   Linux ref: 3-6 GB/s (pipe), 50-100 GB/s (mmap)\n"@
}

/// Reports all producer/consumer rounds, measured by `sample`. The second
/// number of the run is the rate in bytes per nanosecond.
pub fn bench_ipc_throughput(s: &BenchState, sample: Sample) -> (r: BenchRun)
    requires
        s.wf(),
        ns_fits(s.tsc_mhz, sample.cycles()),
    ensures
        r.total == sample.cycles(),
        r.per_iter == (if ns_of(s.tsc_mhz, sample.cycles()) > 0 {
            IPC_TOTAL_BYTES as int / ns_of(s.tsc_mhz, sample.cycles())
        } else {
            IPC_TOTAL_BYTES as int
        }),
        r.text@ == ipc_text(s.tsc_mhz, sample.cycles()),
{
    let total: u64 = sample.end.wrapping_sub(sample.start);
    let total_ns: u64 = cycles_to_ns(s, total);
    let x10: u64 = if total_ns > 0 {
        IPC_TOTAL_BYTES * 10_000 / total_ns
    } else {
        0
    };
    let mut text: String =
        "[BENCH] IPC Throughput (Zero-Copy) — 160 x 256 KiB...\n[BENCH] IPC Throughput: ".to_owned();
    push_dec(&mut text, x10 / 10);
    text.append(".");
    push_dec(&mut text, x10 % 10);
    text.append(" GB/s (41943040 bytes in ");
    push_dec(&mut text, total_ns);
    text.append("ns)\n[BENCH]   Linux ref: 3-6 GB/s (pipe), 50-100 GB/s (mmap)\n");
    let per_iter: u64 = IPC_TOTAL_BYTES / (if total_ns > 0 {
        total_ns
    } else {
        1
    });
    BenchRun { total, per_iter, text }
}

/// Head of the summary box, up to the brand string.
pub const SUMMARY_HEAD: &'static str = "\n╔══════════════════════════════════════════════════╗\n║        Zero Benchmark Results                 ║\n╠══════════════════════════════════════════════════╣\n║  CPU: ";

/// A line across the summary box.
pub const SUMMARY_RULE: &'static str = "╠══════════════════════════════════════════════════╣\n";

/// Everything below the measured values.
pub const SUMMARY_FOOT: &'static str = "╠══════════════════════════════════════════════════╣\n║  Linux Reference Values:                         ║\n║  Boot Time:       15,000-25,000ms                ║\n║  Context Switch:  1,200-5,500ns                  ║\n║  malloc/free:     50-5,000ns                     ║\n║  IPC (pipe):      3-6 GB/s                       ║\n║  LLM CPU target:  >=150 tok/s                    ║\n╠══════════════════════════════════════════════════╣\n║  Est. savings at 1,000 servers: $15.9-17.6M/yr   ║\n╚══════════════════════════════════════════════════╝\n\n";

/// The 50 columns between the borders: `s` cut to 50 bytes, cleaned, then spaces.
pub open spec fn box_body(s: Seq<u8>) -> Seq<char> {
    Seq::new(
        BOX_BODY as nat,
        |i: int|
            if i < s.len() {
                llm_report::clean_byte(s[i]) as char
            } else {
                ' '
            },
    )
}

/// One line of the box that holds the bytes `s`.
pub open spec fn box_line(s: Seq<u8>) -> Seq<char> {
    "║"@ + box_body(s) + "║\n"@
}

fn push_box_line(out: &mut String, content: &str)
    ensures
        final(out)@ == old(out)@ + box_line(vstd::utf8::encode_utf8(content@)),
{
    let bytes: &[u8] = content.as_bytes();
    let mut line: String = "║".to_owned();
    let ghost start = line@;
    let mut i: usize = 0;
    assert(line@ =~= start + box_body(bytes@).take(0));
    while i < BOX_BODY
        invariant
            i <= BOX_BODY,
            line@ == start + box_body(bytes@).take(i as int),
        decreases BOX_BODY - i,
    {
        if i < bytes.len() {
            line.push(clean(bytes[i]) as char);
        } else {
            line.push(' ');
        }
        i = i + 1;
        assert(line@ =~= start + box_body(bytes@).take(i as int));
    }
    assert(box_body(bytes@).take(50) =~= box_body(bytes@));
    line.append("║\n");
    out.append(line.as_str());
}

/// Byte values as characters of the same number.
pub open spec fn latin1(s: Seq<u8>) -> Seq<char> {
    Seq::new(s.len(), |i: int| s[i] as char)
}

/// The first `w` bytes of `s` as characters, then spaces up to the width `w`.
pub open spec fn cell(s: Seq<u8>, w: int) -> Seq<char> {
    latin1(s.take(if s.len() < w {
        s.len() as int
    } else {
        w
    })) + text::fill(' ', w - s.len())
}

fn push_cell(out: &mut String, s: &Vec<u8>, w: usize)
    ensures
        final(out)@ == old(out)@ + cell(s@, w as int),
{
    let n: usize = if s.len() < w {
        s.len()
    } else {
        w
    };
    let mut i: usize = 0;
    assert(out@ =~= old(out)@ + latin1(s@.take(0)));
    while i < n
        invariant
            i <= n <= s@.len(),
            out@ == old(out)@ + latin1(s@.take(i as int)),
        decreases n - i,
    {
        out.push(s[i] as char);
        i = i + 1;
        assert(out@ =~= old(out)@ + latin1(s@.take(i as int)));
    }
    push_fill(out, ' ', w - n);
    assert(out@ =~= old(out)@ + cell(s@, w as int));
}

/// "bring-up not reached"
pub open spec fn not_reached() -> Seq<u8> {
    seq![
        98u8, 114u8, 105u8, 110u8, 103u8, 45u8, 117u8, 112u8, 32u8, 110u8, 111u8, 116u8, 32u8,
        114u8, 101u8, 97u8, 99u8, 104u8, 101u8, 100u8,
    ]
}

/// The network row: a tag, then the detail in what is left of 43 columns.
pub open spec fn net_row(net: NetReport) -> Seq<char> {
    match net {
        NetReport::Online(d) => "║  NET: online "@ + cell(d@, 36) + "║\n"@,
        NetReport::Failed(d) => "║  NET: FAILED "@ + cell(d@, 36) + "║\n"@,
        NetReport::NotReached => "║  NET: "@ + cell(not_reached(), 43) + "║\n"@,
    }
}

fn push_net_row(out: &mut String, net: &NetReport)
    ensures
        final(out)@ == old(out)@ + net_row(*net),
{
    let mut line: String = match net {
        NetReport::Online(d) => {
            let mut l: String = "║  NET: online ".to_owned();
            push_cell(&mut l, d, 36);
            l
        },
        NetReport::Failed(d) => {
            let mut l: String = "║  NET: FAILED ".to_owned();
            push_cell(&mut l, d, 36);
            l
        },
        NetReport::NotReached => {
            let mut l: String = "║  NET: ".to_owned();
            let msg: Vec<u8> =
                vec![98, 114, 105, 110, 103, 45, 117, 112, 32, 110, 111, 116, 32, 114, 101, 97, 99,
                    104, 101, 100];
            assert(msg@ =~= not_reached());
            push_cell(&mut l, &msg, NET_WIDTH);
            l
        },
    };
    line.append("║\n");
    out.append(line.as_str());
}

/// The failure row, or nothing where no failure was recorded.
pub open spec fn llm_row(failed: bool, detail: Seq<u8>) -> Seq<char> {
    if failed {
        "║  LLM: FAILED "@ + cell(detail, 36) + "║\n"@
    } else {
        Seq::empty()
    }
}

fn push_llm_row(out: &mut String, s: &BenchState)
    ensures
        final(out)@ == old(out)@ + llm_row(s.llm_failed, s.report.text@),
{
    if s.llm_failed {
        let mut line: String = "║  LLM: FAILED ".to_owned();
        push_cell(&mut line, &s.report.text, LLM_WIDTH);
        line.append("║\n");
        out.append(line.as_str());
    }
    assert(out@ =~= old(out)@ + llm_row(s.llm_failed, s.report.text@));
}

pub open spec fn anchor_title(a: Anchor) -> Seq<char> {
    "  Anchor (mode: "@ + mode_label(a.mode) + "):"@
}

pub open spec fn anchor_token(a: Anchor) -> Seq<char> {
    "    next-token ID = "@ + text::dec(a.token as nat)
}

pub open spec fn anchor_bits(a: Anchor) -> Seq<char> {
    "    logit_bits    = 0x"@ + text::pad_start(text::hex(a.logit_bits as nat), 8, '0')
}

/// The anchor rows, or nothing where no anchor was recorded.
pub open spec fn anchor_rows(anchor: Option<Anchor>) -> Seq<char> {
    match anchor {
        Some(a) => SUMMARY_RULE@ + box_line(vstd::utf8::encode_utf8(anchor_title(a))) + box_line(
            vstd::utf8::encode_utf8(anchor_token(a)),
        ) + box_line(vstd::utf8::encode_utf8(anchor_bits(a))),
        None => Seq::empty(),
    }
}

fn push_anchor_rows(out: &mut String, s: &BenchState)
    ensures
        final(out)@ == old(out)@ + anchor_rows(s.anchor),
{
    if let Some(a) = s.anchor {
        let mut title: String = "  Anchor (mode: ".to_owned();
        title.append(anchor_mode_label(a.mode));
        title.append("):");
        let mut tok: String = "    next-token ID = ".to_owned();
        push_dec(&mut tok, a.token as u64);
        let mut bits: String = "    logit_bits    = 0x".to_owned();
        push_hex_padded(&mut bits, a.logit_bits as u64, 8);
        let mut rows: String = SUMMARY_RULE.to_owned();
        push_box_line(&mut rows, title.as_str());
        push_box_line(&mut rows, tok.as_str());
        push_box_line(&mut rows, bits.as_str());
        out.append(rows.as_str());
    }
    assert(out@ =~= old(out)@ + anchor_rows(s.anchor));
}

/// The measured values that the summary shows.
#[derive(Clone, Copy, Debug, PartialEq, Eq, Structural)]
pub struct SummaryValues {
    pub boot_ms: u64,
    pub boot_us: u64,
    pub ctx_switch_ns: u64,
    pub alloc_ns_int: u64,
    pub alloc_ns_frac: u64,
    pub ipc_gbps_int: u64,
    pub ipc_gbps_dec: u64,
    pub llm_toks: u64,
    pub llm_toks_dec: u64,
}

/// The whole summary box.
pub open spec fn summary_text(
    s: BenchState,
    cpu: CpuInfo,
    v: SummaryValues,
    net: NetReport,
) -> Seq<char> {
    SUMMARY_HEAD@ + cpuinfo::printable(cpu.brand@.take(cpu.brand_len as int)) + "\n"@ + SUMMARY_RULE@
        + "║  Boot Time:       "@ + text::dec(v.boot_ms as nat) + "."@ + text::dec(v.boot_us as nat)
        + "ms                         ║\n║  Context Switch:  "@ + text::dec(
        v.ctx_switch_ns as nat,
    ) + "ns                            ║\n║  Arena Alloc:     "@ + text::dec(
        v.alloc_ns_int as nat,
    ) + "."@ + text::dec(v.alloc_ns_frac as nat)
        + "ns                           ║\n║  IPC Throughput:  "@ + text::dec(
        v.ipc_gbps_int as nat,
    ) + "."@ + text::dec(v.ipc_gbps_dec as nat)
        + " GB/s                      ║\n║  LLM Inference:   "@ + text::dec(v.llm_toks as nat)
        + "."@ + text::dec(v.llm_toks_dec as nat) + " tok/s                     ║\n"@
        + anchor_rows(s.anchor) + net_row(net) + llm_row(s.llm_failed, s.report.text@)
        + SUMMARY_FOOT@
}

/// The final summary, as it stands on the held screen.
pub fn print_summary(
    s: &BenchState,
    cpu: &CpuInfo,
    boot_ms: u64,
    boot_us: u64,
    ctx_switch_ns: u64,
    alloc_ns_int: u64,
    alloc_ns_frac: u64,
    ipc_gbps_int: u64,
    ipc_gbps_dec: u64,
    llm_toks: u64,
    llm_toks_dec: u64,
    net: &NetReport,
) -> (out: String)
    requires
        cpu.wf(),
    ensures
        out@ == summary_text(
            *s,
            *cpu,
            (SummaryValues {
                boot_ms,
                boot_us,
                ctx_switch_ns,
                alloc_ns_int,
                alloc_ns_frac,
                ipc_gbps_int,
                ipc_gbps_dec,
                llm_toks,
                llm_toks_dec,
            }),
            *net,
        ),
{
    let mut out: String = SUMMARY_HEAD.to_owned();
    push_printable(&mut out, &cpu.brand, cpu.brand_len);
    out.append("\n");
    out.append(SUMMARY_RULE);
    out.append("║  Boot Time:       ");
    push_dec(&mut out, boot_ms);
    out.append(".");
    push_dec(&mut out, boot_us);
    out.append("ms                         ║\n║  Context Switch:  ");
    push_dec(&mut out, ctx_switch_ns);
    out.append("ns                            ║\n║  Arena Alloc:     ");
    push_dec(&mut out, alloc_ns_int);
    out.append(".");
    push_dec(&mut out, alloc_ns_frac);
    out.append("ns                           ║\n║  IPC Throughput:  ");
    push_dec(&mut out, ipc_gbps_int);
    out.append(".");
    push_dec(&mut out, ipc_gbps_dec);
    out.append(" GB/s                      ║\n║  LLM Inference:   ");
    push_dec(&mut out, llm_toks);
    out.append(".");
    push_dec(&mut out, llm_toks_dec);
    out.append(" tok/s                     ║\n");
    push_anchor_rows(&mut out, s);
    push_net_row(&mut out, net);
    push_llm_row(&mut out, s);
    out.append(SUMMARY_FOOT);
    out
}

/// Every row of the box with a variable text keeps the right border in place:
/// two borders around 50 columns, whatever the text.
pub proof fn lemma_rows_aligned(content: Seq<u8>, net: NetReport, detail: Seq<u8>)
    ensures
        box_line(content).len() == 53,
        net_row(net).len() == 53,
        llm_row(true, detail).len() == 53,
{
    reveal_strlit("║");
    reveal_strlit("║\n");
    reveal_strlit("║  NET: online ");
    reveal_strlit("║  NET: FAILED ");
    reveal_strlit("║  NET: ");
    reveal_strlit("║  LLM: FAILED ");
}

/// The baseline that the three samples give.
pub open spec fn baseline_of(m: Samples) -> Baseline {
    Baseline {
        ctx_per_switch: m.ctx.cycles() / BENCH_ITERATIONS,
        alloc_per: m.alloc.cycles() / BENCH_ITERATIONS,
        ipc_total: m.ipc.cycles(),
    }
}

/// The nanosecond counts of all three samples fit.
pub open spec fn samples_fit(mhz: u64, m: Samples) -> bool {
    &&& ns_fits(mhz, m.ctx.cycles() / BENCH_ITERATIONS)
    &&& ns_fits(mhz, m.ipc.cycles())
}

/// Captures the micro-benchmarks before inference starts, once. The kernel
/// counts as ready from the counter reading `now`. The samples are used only
/// where no baseline is held yet.
pub fn capture_pre_llm_baseline(s: &mut BenchState, cpu: &CpuInfo, now: u64, m: &Samples) -> (text:
    String)
    requires
        old(s).wf(),
        old(s).baseline is None ==> {
            let mhz = calibrated(old(s).tsc_mhz, cpu.base_freq_mhz);
            &&& samples_fit(mhz, *m)
            &&& ns_fits(
                mhz,
                boot_cycles(
                    BenchState {
                        boot_ready_tsc: if old(s).boot_ready_tsc == 0 {
                            now
                        } else {
                            old(s).boot_ready_tsc
                        },
                        ..*old(s)
                    },
                    now,
                ),
            )
        },
    ensures
        final(s).wf(),
        *final(s) == (BenchState {
            boot_ready_tsc: if old(s).boot_ready_tsc == 0 {
                now
            } else {
                old(s).boot_ready_tsc
            },
            tsc_mhz: calibrated(old(s).tsc_mhz, cpu.base_freq_mhz),
            baseline: if old(s).baseline is None {
                Some(baseline_of(*m))
            } else {
                old(s).baseline
            },
            ..*old(s)
        }),
        text@ == {
            let cal = calibrate_text(old(s).tsc_mhz, cpu.base_freq_mhz);
            if old(s).baseline is None {
                cal + "\n[BENCH] Pre-LLM baseline snapshot (control-plane ready)\n"@ + boot_text(
                    final(s).tsc_mhz,
                    boot_cycles(*final(s), now),
                ) + ctx_text(final(s).tsc_mhz, m.ctx.cycles()) + alloc_text(
                    final(s).tsc_mhz,
                    m.alloc.cycles(),
                ) + ipc_text(final(s).tsc_mhz, m.ipc.cycles())
            } else {
                cal
            }
        },
{
    mark_boot_ready(s, now);
    let mut text: String = calibrate_tsc(s, cpu);
    match s.baseline {
        Some(_) => {},
        None => {
            text.append("\n[BENCH] Pre-LLM baseline snapshot (control-plane ready)\n");
            let boot: String = report_boot_time(s, now);
            text.append(boot.as_str());
            let ctx: BenchRun = bench_context_switch(s, m.ctx);
            text.append(ctx.text.as_str());
            let alloc: BenchRun = bench_arena_alloc(s, m.alloc);
            text.append(alloc.text.as_str());
            let ipc: BenchRun = bench_ipc_throughput(s, m.ipc);
            text.append(ipc.text.as_str());
            s.baseline = Some(
                Baseline {
                    ctx_per_switch: ctx.per_iter,
                    alloc_per: alloc.per_iter,
                    ipc_total: ipc.total,
                },
            );
        },
    }
    text
}

/// The cycle counts that the final summary shows: the captured baseline where
/// there is one, else what the samples measured.
pub open spec fn shown_baseline(s: BenchState, m: Samples) -> Baseline {
    match s.baseline {
        Some(b) => b,
        None => baseline_of(m),
    }
}

pub open spec fn summary_values(s: BenchState, now: u64, m: Samples) -> SummaryValues {
    let mhz = s.tsc_mhz;
    let b = shown_baseline(s, m);
    let tok = tok_per_sec_x10(mhz, s.llm_generated_tokens, s.llm_generation_cycles);
    let gbps = gbps_x10(ns_of(mhz, b.ipc_total));
    SummaryValues {
        boot_ms: boot_ms_us(mhz, boot_cycles(s, now)).0 as u64,
        boot_us: boot_ms_us(mhz, boot_cycles(s, now)).1 as u64,
        ctx_switch_ns: ns_of(mhz, b.ctx_per_switch) as u64,
        alloc_ns_int: (ns_x10(mhz, b.alloc_per) / 10) as u64,
        alloc_ns_frac: (ns_x10(mhz, b.alloc_per) % 10) as u64,
        ipc_gbps_int: (gbps / 10) as u64,
        ipc_gbps_dec: (gbps % 10) as u64,
        llm_toks: (tok / 10) as u64,
        llm_toks_dec: (tok % 10) as u64,
    }
}

/// The three micro-benchmark reports: that the baseline is used, or the fresh runs.
pub open spec fn micro_text(s: BenchState, m: Samples) -> Seq<char> {
    match s.baseline {
        Some(b) => "[BENCH] Context Switch: using pre-LLM baseline ("@ + text::dec(b.ctx_per_switch as nat)
            + " cycles/switch)\n[BENCH] Arena Alloc: using pre-LLM baseline ("@ + text::dec(
            b.alloc_per as nat,
        ) + " cycles/alloc)\n[BENCH] IPC Throughput: using pre-LLM baseline ("@ + text::dec(
            b.ipc_total as nat,
        ) + " cycles)\n"@,
        None => ctx_text(s.tsc_mhz, m.ctx.cycles()) + alloc_text(s.tsc_mhz, m.alloc.cycles())
            + ipc_text(s.tsc_mhz, m.ipc.cycles()),
    }
}

/// The inference line: the speed, else that it failed, else that there is none.
pub open spec fn llm_line(s: BenchState) -> Seq<char> {
    let tok = tok_per_sec_x10(s.tsc_mhz, s.llm_generated_tokens, s.llm_generation_cycles);
    if tok > 0 {
        "[BENCH] LLM Inference: "@ + text::dec((tok / 10) as nat) + "."@ + text::dec((tok % 10) as nat)
            + " tok/s ("@ + text::dec(s.llm_generated_tokens as nat) + " generated token(s), "@ + text::dec(
            s.llm_generation_cycles as nat,
        ) + " cycles)\n"@
    } else if s.llm_failed {
        "[BENCH] LLM Inference: FAILED (Stage 11 forward pass aborted — see earlier [MoE]/[BENCH] lines)\n"@
    } else {
        "[BENCH] LLM Inference: unavailable (Stage 11 did not record generation timing)\n"@
    }
}

/// All conversions of [`run_all_benchmarks`] stay within 64 bits.
pub open spec fn all_fit(s: BenchState, now: u64, later: u64, m: Samples) -> bool {
    let b = shown_baseline(s, m);
    &&& ns_fits(s.tsc_mhz, boot_cycles(s, now))
    &&& ns_fits(s.tsc_mhz, boot_cycles(s, later))
    &&& ns_fits(s.tsc_mhz, b.ctx_per_switch)
    &&& ns_fits(s.tsc_mhz, b.ipc_total)
    &&& ns_fits(s.tsc_mhz, s.llm_generation_cycles)
    &&& b.alloc_per * 10_000 <= u64::MAX
}

fn micro_report(s: &BenchState, m: &Samples) -> (r: (Baseline, String))
    requires
        s.wf(),
        ns_fits(s.tsc_mhz, shown_baseline(*s, *m).ctx_per_switch),
        ns_fits(s.tsc_mhz, shown_baseline(*s, *m).ipc_total),
    ensures
        r.0 == shown_baseline(*s, *m),
        r.1@ == micro_text(*s, *m),
{
    match s.baseline {
        Some(b) => {
            let mut text: String = "[BENCH] Context Switch: using pre-LLM baseline (".to_owned();
            push_dec(&mut text, b.ctx_per_switch);
            text.append(" cycles/switch)\n[BENCH] Arena Alloc: using pre-LLM baseline (");
            push_dec(&mut text, b.alloc_per);
            text.append(" cycles/alloc)\n[BENCH] IPC Throughput: using pre-LLM baseline (");
            push_dec(&mut text, b.ipc_total);
            text.append(" cycles)\n");
            (b, text)
        },
        None => {
            let ctx: BenchRun = bench_context_switch(s, m.ctx);
            let alloc: BenchRun = bench_arena_alloc(s, m.alloc);
            let ipc: BenchRun = bench_ipc_throughput(s, m.ipc);
            let mut text: String = ctx.text;
            text.append(alloc.text.as_str());
            text.append(ipc.text.as_str());
            (
                Baseline {
                    ctx_per_switch: ctx.per_iter,
                    alloc_per: alloc.per_iter,
                    ipc_total: ipc.total,
                },
                text,
            )
        },
    }
}

fn llm_report_line(s: &BenchState, tok: u64) -> (text: String)
    requires
        tok == tok_per_sec_x10(s.tsc_mhz, s.llm_generated_tokens, s.llm_generation_cycles),
    ensures
        text@ == llm_line(*s),
{
    if tok > 0 {
        let mut text: String = "[BENCH] LLM Inference: ".to_owned();
        push_dec(&mut text, tok / 10);
        text.append(".");
        push_dec(&mut text, tok % 10);
        text.append(" tok/s (");
        push_dec(&mut text, s.llm_generated_tokens);
        text.append(" generated token(s), ");
        push_dec(&mut text, s.llm_generation_cycles);
        text.append(" cycles)\n");
        text
    } else if s.llm_failed {
        "[BENCH] LLM Inference: FAILED (Stage 11 forward pass aborted — see earlier [MoE]/[BENCH] lines)\n".to_owned()
    } else {
        "[BENCH] LLM Inference: unavailable (Stage 11 did not record generation timing)\n".to_owned()
    }
}

/// The whole benchmark output. The boot time in the summary is that of the counter
/// reading `now`, the one in its own report that of the reading `later`; both count
/// only where the kernel was not marked ready. The samples are used only where no
/// baseline was captured.
pub fn run_all_benchmarks(
    s: &mut BenchState,
    cpu: &CpuInfo,
    now: u64,
    later: u64,
    m: &Samples,
    net: &NetReport,
) -> (text: String)
    requires
        old(s).wf(),
        cpu.wf(),
        all_fit(
            BenchState { tsc_mhz: calibrated(old(s).tsc_mhz, cpu.base_freq_mhz), ..*old(s) },
            now,
            later,
            *m,
        ),
    ensures
        final(s).wf(),
        *final(s) == (BenchState {
            tsc_mhz: calibrated(old(s).tsc_mhz, cpu.base_freq_mhz),
            ..*old(s)
        }),
        text@ == calibrate_text(old(s).tsc_mhz, cpu.base_freq_mhz) + "\n"@ + boot_text(
            final(s).tsc_mhz,
            boot_cycles(*final(s), later),
        ) + micro_text(*final(s), *m) + "\n"@ + llm_line(*final(s)) + "\n"@ + summary_text(
            *final(s),
            *cpu,
            summary_values(*final(s), now, *m),
            *net,
        ),
{
    let mut text: String = calibrate_tsc(s, cpu);
    text.append("\n");
    let boot_ns: u64 = cycles_to_ns(s, boot_delta_cycles(s, now));
    let boot: String = report_boot_time(s, later);
    text.append(boot.as_str());
    let (b, micro) = micro_report(s, m);
    text.append(micro.as_str());
    let ctx_switch_ns: u64 = cycles_to_ns(s, b.ctx_per_switch);
    let alloc_x10: u64 = b.alloc_per * 10_000 / s.tsc_mhz;
    let ipc_ns: u64 = cycles_to_ns(s, b.ipc_total);
    let gbps: u64 = if ipc_ns > 0 {
        IPC_TOTAL_BYTES * 10_000 / ipc_ns
    } else {
        0
    };
    let (tok, _, _) = recorded_llm_tok_per_sec_x10(s);
    text.append("\n");
    let line: String = llm_report_line(s, tok);
    text.append(line.as_str());
    text.append("\n");
    let ghost v = summary_values(*s, now, *m);
    assert(v.boot_ms == boot_ns / 1_000_000 && v.boot_us == (boot_ns % 1_000_000) / 1000);
    let summary: String = print_summary(
        s,
        cpu,
        boot_ns / 1_000_000,
        (boot_ns % 1_000_000) / 1000,
        ctx_switch_ns,
        alloc_x10 / 10,
        alloc_x10 % 10,
        gbps / 10,
        gbps % 10,
        tok / 10,
        tok % 10,
        net,
    );
    text.append(summary.as_str());
    text
}

} // verus!
