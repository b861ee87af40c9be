//! Read-only, polling NVMe driver: the decisions.
//!
//! Registers, queues and DMA memory are touched by the caller. Controller
//! bring-up is a dialogue: [`NvmeController::bind`] looks at the answers given
//! so far and says what to write and what to ask next, or how bring-up ended.

use crate::arch::x86_64::pcie::{PciDevice, PciScan};
use crate::bits;
use crate::drivers::nvme_probe;
use crate::drivers::nvme_probe::{is_nvme, ControllerList};
use vstd::prelude::*;

verus! {

/// Largest single read, in bytes: its page list fits one page.
pub const MAX_READ_BYTES: usize = 2_097_152;

/// Added to the controller's own enable timeout.
pub const RDY_TIMEOUT_CUSHION_MS: u32 = 1000;

/// Memory page of the driver and of the controller.
pub const NVME_PAGE_SIZE: usize = 4096;

/// Size of the register mapping. Covers every doorbell of two queues for
/// every doorbell stride that the standard allows.
pub const BAR0_MMIO_BYTES: usize = 524_288;

/// Queue number of the one I/O queue pair.
pub const IO_QID: u16 = 1;

/// Namespace that holds the model.
pub const MODEL_NSID: u32 = 1;

/// CSTS: the controller is ready.
pub const CSTS_RDY: u32 = 0x1;

/// CSTS: the controller met a fatal condition.
pub const CSTS_CFS: u32 = 0x2;

/// Polls before a command counts as lost.
pub const SPIN_LIMIT: u64 = 1_000_000_000;

#[derive(Clone, Copy, Debug, PartialEq, Eq, Structural)]
pub enum NvmeError {
    /// No NVMe controller was found in the PCI scan.
    ControllerNotFound,
    /// BAR0 was unpopulated.
    Bar0Invalid,
    /// The registers could not be mapped.
    MmioMapFailed,
    /// The controller needs pages above 4 KiB, or doorbells beyond the mapping.
    UnsupportedPageSize,
    /// The controller did not become ready in time.
    ControllerEnableTimeout,
    /// The controller did not stop in time.
    ControllerDisableTimeout,
    /// The controller reported a fatal condition.
    ControllerFatal,
    /// A command completed with a non-zero status code.
    CommandFailed { status: u16 },
    /// A command did not complete within the polling window.
    CommandTimeout,
    /// The caller asked for more than the namespace holds, or for part of a block.
    OutOfRange,
    /// No memory for a queue.
    OutOfMemory,
    /// A DMA buffer has no usable physical address.
    BadDmaBuffer,
    /// Identify Namespace returned an unusable response.
    BadIdentify,
}

/// Size of the namespace in use.
#[derive(Clone, Copy, Debug, PartialEq, Eq, Structural)]
pub struct NamespaceInfo {
    pub nsid: u32,
    pub nlba: u64,
    pub lba_size: u32,
}

impl Default for NamespaceInfo {
    fn default() -> (n: NamespaceInfo)
        ensures
            n == (NamespaceInfo { nsid: 0, nlba: 0, lba_size: 0 }),
    {
        NamespaceInfo { nsid: 0, nlba: 0, lba_size: 0 }
    }
}

/// What the driver reads of the controller's capabilities.
#[derive(Clone, Copy, Debug, PartialEq, Eq, Structural)]
pub struct Capabilities {
    /// Doorbell stride exponent.
    pub dstrd: u8,
    /// Page size exponent that the enable word carries.
    pub mpsmin: u8,
    /// Smallest memory page, in bytes.
    pub min_page_size: u64,
    /// Time that enabling may take.
    pub enable_timeout_ms: u32,
}

/// One page of DMA memory.
#[derive(Clone, Copy, Debug, PartialEq, Eq, Structural)]
pub struct DmaPage {
    pub va: u64,
    pub phys: u64,
}

/// Turns an allocated page address and its translation into a DMA page.
/// `va` is none where the arena is absent or full.
pub fn alloc_dma_page(va: Option<u64>, phys: Option<u64>) -> (r: Result<DmaPage, NvmeError>)
    ensures
        r == (match (va, phys) {
            (None, _) => Err(NvmeError::OutOfMemory),
            (Some(v), _) if v % 4096 != 0 => Err(NvmeError::BadDmaBuffer),
            (Some(_), None) => Err(NvmeError::BadDmaBuffer),
            (Some(v), Some(p)) => Ok(DmaPage { va: v, phys: p }),
        }),
{
    match va {
        None => Err(NvmeError::OutOfMemory),
        Some(v) => {
            proof {
                bits::lemma_u64(v);
            }
            if v & (NVME_PAGE_SIZE as u64 - 1) != 0 {
                return Err(NvmeError::BadDmaBuffer);
            }
            match phys {
                None => Err(NvmeError::BadDmaBuffer),
                Some(p) => Ok(DmaPage { va: v, phys: p }),
            }
        },
    }
}

/// Bytes between two doorbells: four, doubled `dstrd` times.
pub open spec fn stride(dstrd: nat) -> nat
    decreases dstrd,
{
    if dstrd == 0 {
        4
    } else {
        2 * stride((dstrd - 1) as nat)
    }
}

proof fn lemma_stride_grows(a: nat, b: nat)
    requires
        a <= b,
    ensures
        stride(a) <= stride(b),
    decreases b,
{
    if a < b {
        lemma_stride_grows(a, (b - 1) as nat);
    }
}

proof fn lemma_stride_values()
    ensures
        stride(15) == 131_072,
        stride(16) == 262_144,
{
    reveal_with_fuel(stride, 17);
}

fn doorbell_stride(dstrd: u8) -> (s: u32)
    requires
        dstrd <= 15,
    ensures
        s == stride(dstrd as nat),
        s <= 131_072,
{
    let mut s: u32 = 4;
    let mut i: u8 = 0;
    proof {
        lemma_stride_values();
        lemma_stride_grows(dstrd as nat, 15);
    }
    while i < dstrd
        invariant
            i <= dstrd <= 15,
            s == stride(i as nat),
            stride(15) == 131_072,
        decreases dstrd - i,
    {
        proof {
            lemma_stride_grows(i as nat, 15);
        }
        s = 2 * s;
        i = i + 1;
    }
    proof {
        lemma_stride_grows(i as nat, 15);
    }
    s
}

/// Register offset of the submission doorbell of queue `qid`.
pub open spec fn sq_doorbell(qid: int, dstrd: nat) -> int {
    0x1000 + 2 * qid * stride(dstrd)
}

/// Register offset of the completion doorbell of queue `qid`.
pub open spec fn cq_doorbell(qid: int, dstrd: nat) -> int {
    0x1000 + (2 * qid + 1) * stride(dstrd)
}

/// The doorbells stand in a row from 0x1000 on, `step` bytes apart, where `step` is four
/// without a stride and doubles with each: for each queue the submission doorbell, and
/// behind it the completion doorbell.
pub proof fn lemma_doorbells_in_a_row(qid: int, dstrd: nat, step: int)
    requires
        step == cq_doorbell(0, dstrd) - sq_doorbell(0, dstrd),
    ensures
        sq_doorbell(0, dstrd) == 0x1000,
        cq_doorbell(qid, dstrd) == sq_doorbell(qid, dstrd) + step,
        sq_doorbell(qid + 1, dstrd) == cq_doorbell(qid, dstrd) + step,
        dstrd == 0 ==> step == 4,
        cq_doorbell(0, dstrd + 1) - sq_doorbell(0, dstrd + 1) == 2 * step,
{
    let s = stride(dstrd) as int;
    assert((2 * qid + 1) * s == 2 * qid * s + s && 2 * (qid + 1) * s == (2 * qid + 1) * s + s)
        by (nonlinear_arith);
    assert((2 * 0int + 1) * s == s && 2 * 0int * s == 0) by (nonlinear_arith);
    let t = stride(dstrd + 1) as int;
    assert(t == 2 * s);
    assert((2 * 0int + 1) * t == t && 2 * 0int * t == 0) by (nonlinear_arith);
}

/// Where the last doorbell of the two queues ends.
pub fn doorbell_end(dstrd: u8) -> (end: u64)
    requires
        dstrd < 60,
    ensures
        end == cq_doorbell(IO_QID as int, dstrd as nat) + 4,
{
    let mut s: u64 = 4;
    let mut i: u8 = 0;
    assert(stride(59) == 0x2000_0000_0000_0000) by {
        reveal_with_fuel(stride, 60);
    }
    while i < dstrd
        invariant
            i <= dstrd < 60,
            s == stride(i as nat),
            stride(59) == 0x2000_0000_0000_0000,
        decreases dstrd - i,
    {
        proof {
            lemma_stride_grows((i + 1) as nat, 59);
        }
        s = 2 * s;
        i = i + 1;
    }
    proof {
        lemma_stride_grows(i as nat, 59);
        let step = stride(dstrd as nat);
        assert((2 * 1int + 1) * step == 3 * step) by (nonlinear_arith);
    }
    0x1000 + 3 * s + 4
}

/// One queue pair: a submission and a completion ring.
#[derive(Clone, Copy, Debug, PartialEq, Eq, Structural)]
pub struct QueuePair {
    pub qid: u16,
    pub depth: u16,
    pub sq: DmaPage,
    pub cq: DmaPage,
    pub sq_tail: u16,
    pub cq_head: u16,
    /// Phase tag that marks the next completion as new.
    pub phase: bool,
}

impl QueuePair {
    pub open spec fn wf(&self) -> bool {
        self.sq_tail < self.depth && self.cq_head < self.depth
    }

    /// An empty pair of rings on two pages.
    pub fn allocate(qid: u16, depth: u16, sq: DmaPage, cq: DmaPage) -> (q: QueuePair)
        requires
            depth > 0,
        ensures
            q.wf(),
            q == fresh_queue(qid, depth, sq, cq),
    {
        QueuePair { qid, depth, sq, cq, sq_tail: 0, cq_head: 0, phase: true }
    }

    /// Takes the slot for the next submission and moves the tail on.
    pub fn write_sqe(&mut self) -> (slot: u16)
        requires
            old(self).wf(),
        ensures
            final(self).wf(),
            slot == old(self).sq_tail,
            *final(self) == submitted(*old(self)),
    {
        let slot: u16 = self.sq_tail;
        self.sq_tail = (self.sq_tail + 1) % self.depth;
        slot
    }

    /// Moves the completion head on. The expected phase flips at each wrap.
    pub fn advance_cq_head(&mut self)
        requires
            old(self).wf(),
        ensures
            final(self).wf(),
            *final(self) == completed(*old(self)),
    {
        self.cq_head = (self.cq_head + 1) % self.depth;
        if self.cq_head == 0 {
            self.phase = !self.phase;
        }
    }
}

pub open spec fn fresh_queue(qid: u16, depth: u16, sq: DmaPage, cq: DmaPage) -> QueuePair {
    QueuePair { qid, depth, sq, cq, sq_tail: 0, cq_head: 0, phase: true }
}

/// The pair after one more submission.
pub open spec fn submitted(q: QueuePair) -> QueuePair {
    QueuePair { sq_tail: ((q.sq_tail + 1) % q.depth as int) as u16, ..q }
}

/// The pair after one more completion was taken.
pub open spec fn completed(q: QueuePair) -> QueuePair {
    let head = ((q.cq_head + 1) % q.depth as int) as u16;
    QueuePair {
        cq_head: head,
        phase: if head == 0 {
            !q.phase
        } else {
            q.phase
        },
        ..q
    }
}

/// The pair after `n` commands, each submitted and completed.
pub open spec fn after_commands(q: QueuePair, n: nat) -> QueuePair
    decreases n,
{
    if n == 0 {
        q
    } else {
        completed(submitted(after_commands(q, (n - 1) as nat)))
    }
}

/// After `n` commands on fresh rings, tail and head both stand at `n` modulo the
/// depth, and the expected phase has flipped once per wrap.
pub proof fn lemma_ring_position(qid: u16, depth: u16, sq: DmaPage, cq: DmaPage, n: nat)
    requires
        depth > 0,
    ensures
        after_commands(fresh_queue(qid, depth, sq, cq), n) == (QueuePair {
            sq_tail: (n as int % depth as int) as u16,
            cq_head: (n as int % depth as int) as u16,
            phase: n as int / depth as int % 2 == 0,
            ..fresh_queue(qid, depth, sq, cq)
        }),
    decreases n,
{
    let d = depth as int;
    if n == 0 {
        assert(0int % d == 0 && 0int / d == 0) by (nonlinear_arith)
            requires
                d > 0,
        ;
    } else {
        let m = n - 1;
        lemma_ring_position(qid, depth, sq, cq, m as nat);
        assert((m % d + 1) % d == (m + 1) % d && ((m % d + 1) % d == 0 ==> (m + 1) / d == m / d + 1)
            && ((m % d + 1) % d != 0 ==> (m + 1) / d == m / d) && 0 <= m % d < d)
            by (nonlinear_arith)
            requires
                d > 0,
                m >= 0,
        {
            vstd::arithmetic::div_mod::lemma_fundamental_div_mod(m, d);
            let q = m / d;
            let r = m % d;
            if r + 1 < d {
                vstd::arithmetic::div_mod::lemma_fundamental_div_mod_converse(m + 1, d, q, r + 1);
                vstd::arithmetic::div_mod::lemma_small_mod((r + 1) as nat, d as nat);
            } else {
                assert(m + 1 == d * (q + 1));
                vstd::arithmetic::div_mod::lemma_fundamental_div_mod_converse(m + 1, d, q + 1, 0);
                vstd::arithmetic::div_mod::lemma_mod_self_0(d);
            }
        }
    }
}

/// A command, ready to be encoded for the submission ring.
#[derive(Clone, Copy, Debug, PartialEq, Eq, Structural)]
pub enum NvmeCommand {
    IdentifyController { cid: u16, data_phys: u64 },
    IdentifyNamespace { cid: u16, nsid: u32, data_phys: u64 },
    /// Interrupts stay off.
    CreateIoCq { cid: u16, qid: u16, depth: u16, phys: u64 },
    CreateIoSq { cid: u16, qid: u16, depth: u16, phys: u64, cqid: u16 },
    /// `nlb` counts blocks from one.
    Read { cid: u16, nsid: u32, slba: u64, nlb: u16, prp1: u64, prp2: u64 },
}

/// Where one command goes and which doorbells are rung around it.
#[derive(Clone, Copy, Debug, PartialEq, Eq, Structural)]
pub struct Submission {
    /// Slot of the submission ring.
    pub slot: u16,
    /// Register offset of the submission doorbell.
    pub sq_doorbell: u32,
    /// Value for the submission doorbell.
    pub tail: u16,
    /// Register offset of the completion doorbell, rung once the completion was taken.
    pub cq_doorbell: u32,
}

/// Places the next command on queue `q`.
pub fn submit(q: &mut QueuePair, dstrd: u8) -> (s: Submission)
    requires
        old(q).wf(),
        old(q).qid <= IO_QID,
        dstrd <= 15,
    ensures
        final(q).wf(),
        *final(q) == submitted(*old(q)),
        s.slot == old(q).sq_tail,
        s.tail == final(q).sq_tail,
        s.sq_doorbell == sq_doorbell(old(q).qid as int, dstrd as nat),
        s.cq_doorbell == cq_doorbell(old(q).qid as int, dstrd as nat),
{
    let step: u32 = doorbell_stride(dstrd);
    let qid: u32 = q.qid as u32;
    assert(2 * qid * step <= 2 * step && (2 * qid + 1) * step <= 3 * step) by (nonlinear_arith)
        requires
            qid <= 1,
    ;
    let slot: u16 = q.write_sqe();
    Submission {
        slot,
        sq_doorbell: 0x1000 + 2 * qid * step,
        tail: q.sq_tail,
        cq_doorbell: 0x1000 + (2 * qid + 1) * step,
    }
}

/// One look at the completion ring.
#[derive(Clone, Copy, Debug, PartialEq, Eq, Structural)]
pub enum PollStep {
    /// A new completion is there and was taken off the ring.
    Taken,
    /// Give up with this error.
    Failed(NvmeError),
    /// Look again, with this poll count.
    Again(u64),
}

/// Whether CSTS is looked at in poll number `spin`.
pub fn poll_checks_csts(spin: u64) -> (b: bool)
    ensures
        b == (spin % 0x1_0000 == 0),
{
    proof {
        bits::lemma_u64(spin);
    }
    spin & 0xFFFF == 0
}

/// Poll number `spin` of queue `q`: `entry_phase` is the phase tag of the
/// entry at its head. `csts` counts only in every 65536th poll.
pub fn poll_completion(q: &mut QueuePair, entry_phase: bool, csts: u32, spin: u64) -> (r: PollStep)
    requires
        old(q).wf(),
        spin < SPIN_LIMIT,
    ensures
        final(q).wf(),
        r == (if entry_phase == old(q).phase {
            PollStep::Taken
        } else if spin % 0x1_0000 == 0 && csts & CSTS_CFS != 0 {
            PollStep::Failed(NvmeError::ControllerFatal)
        } else if spin + 1 >= SPIN_LIMIT {
            PollStep::Failed(NvmeError::CommandTimeout)
        } else {
            PollStep::Again((spin + 1) as u64)
        }),
        *final(q) == (if entry_phase == old(q).phase {
            completed(*old(q))
        } else {
            *old(q)
        }),
{
    if entry_phase == q.phase {
        q.advance_cq_head();
        return PollStep::Taken;
    }
    if poll_checks_csts(spin) {
        if csts & CSTS_CFS != 0 {
            return PollStep::Failed(NvmeError::ControllerFatal);
        }
    }
    let next: u64 = spin + 1;
    if next >= SPIN_LIMIT {
        return PollStep::Failed(NvmeError::CommandTimeout);
    }
    PollStep::Again(next)
}

/// The result of a command whose completion carries the status code `status`.
pub fn command_result(status: u16) -> (r: Result<(), NvmeError>)
    ensures
        r == (if status != 0 {
            Err(NvmeError::CommandFailed { status })
        } else {
            Ok(())
        }),
{
    if status != 0 {
        return Err(NvmeError::CommandFailed { status });
    }
    Ok(())
}

/// One look at CSTS while waiting.
#[derive(Clone, Copy, Debug, PartialEq, Eq, Structural)]
pub enum WaitStep {
    Reached,
    Failed,
    /// Look again, with this poll count.
    Again(u64),
}

pub open spec fn wait_step(reached: bool, csts: u32, spin: u64, limit: u64) -> WaitStep {
    if reached {
        WaitStep::Reached
    } else if csts & CSTS_CFS != 0 || spin + 1 >= limit {
        WaitStep::Failed
    } else {
        WaitStep::Again((spin + 1) as u64)
    }
}

/// Poll number `spin` of the wait for a bit of `mask` to be set.
pub fn wait_csts_set(csts: u32, mask: u32, spin: u64, limit: u64) -> (r: WaitStep)
    requires
        spin < u64::MAX,
    ensures
        r == wait_step(csts & mask != 0, csts, spin, limit),
{
    if csts & mask != 0 {
        return WaitStep::Reached;
    }
    if csts & CSTS_CFS != 0 {
        return WaitStep::Failed;
    }
    if spin + 1 >= limit {
        return WaitStep::Failed;
    }
    WaitStep::Again(spin + 1)
}

/// Poll number `spin` of the wait for all bits of `mask` to be clear.
pub fn wait_csts_clear(csts: u32, mask: u32, spin: u64, limit: u64) -> (r: WaitStep)
    requires
        spin < u64::MAX,
    ensures
        r == wait_step(csts & mask == 0, csts, spin, limit),
{
    if csts & mask == 0 {
        return WaitStep::Reached;
    }
    if csts & CSTS_CFS != 0 {
        return WaitStep::Failed;
    }
    if spin + 1 >= limit {
        return WaitStep::Failed;
    }
    WaitStep::Again(spin + 1)
}

/// The poll number after `n` looks at CSTS that all said to look again, none if one of them did not.
pub open spec fn waited(polls: Seq<(bool, u32)>, limit: u64) -> Option<u64>
    decreases polls.len(),
{
    if polls.len() == 0 {
        Some(0)
    } else {
        match waited(polls.drop_last(), limit) {
            None => None,
            Some(spin) => match wait_step(polls.last().0, polls.last().1, spin, limit) {
                WaitStep::Again(s) => Some(s),
                _ => None,
            },
        }
    }
}

/// No wait goes on for longer than its limit, whatever the controller shows.
pub proof fn lemma_wait_ends(polls: Seq<(bool, u32)>, limit: u64)
    ensures
        waited(polls, limit) matches Some(s) ==> s == polls.len() && (polls.len() > 0
            ==> polls.len() < limit),
    decreases polls.len(),
{
    if polls.len() > 0 {
        lemma_wait_ends(polls.drop_last(), limit);
    }
}

/// A register or memory write of bring-up.
#[derive(Clone, Copy, Debug, PartialEq, Eq, Structural)]
pub enum BindWrite {
    /// PCI command register.
    Command(u16),
    /// Controller configuration register.
    Config(u32),
    /// Fill one page with zeros.
    ZeroPage(DmaPage),
    /// Admin queue attributes and both admin queue addresses.
    AdminQueues { depth: u16, sq_phys: u64, cq_phys: u64 },
    /// Controller configuration that enables the controller.
    Enable { mpsmin: u8 },
}

/// What bring-up needs to know next.
#[derive(Clone, Copy, Debug, PartialEq, Eq, Structural)]
pub enum BindQuery {
    /// The PCI command register.
    Command,
    /// The physical base of BAR0.
    Bar0,
    /// Whether that many bytes of registers could be mapped.
    MapRegisters { phys: u64, bytes: usize },
    /// The capabilities.
    Cap,
    /// The controller configuration register.
    Config,
    /// Whether the ready bit was cleared in time.
    WaitDisabled { timeout_ms: u64 },
    /// A DMA page.
    Page,
    /// Whether the ready bit was set in time.
    WaitEnabled { timeout_ms: u64 },
    /// The result of a command on the admin queue, which stands as given.
    Admin { queue: QueuePair, command: NvmeCommand },
    /// Block count and block size that the identify page holds, none if it is unusable.
    Namespace { page: DmaPage },
}

/// The answers to [`BindQuery`] so far; none where a question was not put yet.
#[derive(Clone, Copy, Debug)]
pub struct BindAnswers {
    pub command: Option<u16>,
    pub bar0: Option<Option<u64>>,
    pub mapped: Option<bool>,
    pub cap: Option<Capabilities>,
    pub config: Option<u32>,
    pub disabled: Option<bool>,
    pub admin_sq: Option<Result<DmaPage, NvmeError>>,
    pub admin_cq: Option<Result<DmaPage, NvmeError>>,
    pub enabled: Option<bool>,
    pub ident: Option<Result<DmaPage, NvmeError>>,
    pub ident_controller: Option<Result<(), NvmeError>>,
    pub io_sq: Option<Result<DmaPage, NvmeError>>,
    pub io_cq: Option<Result<DmaPage, NvmeError>>,
    pub create_cq: Option<Result<(), NvmeError>>,
    pub create_sq: Option<Result<(), NvmeError>>,
    pub ident_namespace: Option<Result<(), NvmeError>>,
    pub namespace: Option<Option<(u64, u32)>>,
}

/// A controller whose queues exist and whose namespace is known.
#[derive(Clone, Copy, Debug, PartialEq, Eq, Structural)]
pub struct NvmeController {
    pub bar0_phys: u64,
    pub cap: Capabilities,
    pub adminq: QueuePair,
    pub ioq: QueuePair,
    pub next_cid: u16,
    pub ns: NamespaceInfo,
    /// Page for the page list of large reads, allocated on first use.
    pub prp_list: Option<DmaPage>,
}

/// How far bring-up is.
pub enum BindProgress {
    /// Carry out the writes in order, then answer the query.
    Ask { writes: Vec<BindWrite>, query: BindQuery },
    Ready(NvmeController),
    Failed(NvmeError),
}

/// [`BindProgress`] over sequences.
pub ghost enum BindView {
    Ask(Seq<BindWrite>, BindQuery),
    Ready(NvmeController),
    Failed(NvmeError),
}

impl View for BindProgress {
    type V = BindView;

    open spec fn view(&self) -> BindView {
        match *self {
            BindProgress::Ask { writes, query } => BindView::Ask(writes@, query),
            BindProgress::Ready(c) => BindView::Ready(c),
            BindProgress::Failed(e) => BindView::Failed(e),
        }
    }
}

pub open spec fn no_writes() -> Seq<BindWrite> {
    Seq::empty()
}

/// The PCI command word with memory space and bus mastering on.
pub open spec fn mastering(cmd: u16) -> u16 {
    cmd | 0x0006
}

pub open spec fn page_or(a: Option<Result<DmaPage, NvmeError>>, asked: BindView, then_view: spec_fn(
    DmaPage,
) -> BindView) -> BindView {
    match a {
        None => asked,
        Some(Err(e)) => BindView::Failed(e),
        Some(Ok(p)) => then_view(p),
    }
}

pub open spec fn done_or(
    a: Option<Result<(), NvmeError>>,
    asked: BindView,
    then_view: BindView,
) -> BindView {
    match a {
        None => asked,
        Some(Err(e)) => BindView::Failed(e),
        Some(Ok(_)) => then_view,
    }
}

/// Bring-up from the point where the controller is stopped.
pub open spec fn bind_from_stopped(
    a: BindAnswers,
    bar0: u64,
    cap: Capabilities,
    admin_depth: u16,
    io_depth: u16,
) -> BindView {
    page_or(
        a.admin_sq,
        BindView::Ask(no_writes(), BindQuery::Page),
        |sq: DmaPage|
            page_or(
                a.admin_cq,
                BindView::Ask(no_writes(), BindQuery::Page),
                |cq: DmaPage|
                    match a.enabled {
                        None => BindView::Ask(
                            seq![
                                BindWrite::ZeroPage(cq),
                                BindWrite::AdminQueues {
                                    depth: admin_depth,
                                    sq_phys: sq.phys,
                                    cq_phys: cq.phys,
                                },
                                BindWrite::Enable { mpsmin: cap.mpsmin },
                            ],
                            BindQuery::WaitEnabled {
                                timeout_ms: (cap.enable_timeout_ms + 1000) as u64,
                            },
                        ),
                        Some(false) => BindView::Failed(NvmeError::ControllerEnableTimeout),
                        Some(true) => bind_from_enabled(
                            a,
                            bar0,
                            cap,
                            fresh_queue(0, admin_depth, sq, cq),
                            io_depth,
                        ),
                    },
            ),
    )
}

/// Bring-up from the point where the controller runs with the admin queue `q`.
pub open spec fn bind_from_enabled(
    a: BindAnswers,
    bar0: u64,
    cap: Capabilities,
    q: QueuePair,
    io_depth: u16,
) -> BindView {
    page_or(
        a.ident,
        BindView::Ask(no_writes(), BindQuery::Page),
        |ident: DmaPage|
            done_or(
                a.ident_controller,
                BindView::Ask(
                    no_writes(),
                    BindQuery::Admin {
                        queue: q,
                        command: NvmeCommand::IdentifyController { cid: 1, data_phys: ident.phys },
                    },
                ),
                page_or(
                    a.io_sq,
                    BindView::Ask(no_writes(), BindQuery::Page),
                    |sq: DmaPage|
                        page_or(
                            a.io_cq,
                            BindView::Ask(no_writes(), BindQuery::Page),
                            |cq: DmaPage|
                                bind_from_queues(
                                    a,
                                    bar0,
                                    cap,
                                    q,
                                    ident,
                                    fresh_queue(IO_QID, io_depth, sq, cq),
                                ),
                        ),
                ),
            ),
    )
}

/// Bring-up from the point where the pages of the I/O queue pair `io` exist.
pub open spec fn bind_from_queues(
    a: BindAnswers,
    bar0: u64,
    cap: Capabilities,
    q: QueuePair,
    ident: DmaPage,
    io: QueuePair,
) -> BindView {
    done_or(
        a.create_cq,
        BindView::Ask(
            seq![BindWrite::ZeroPage(io.cq)],
            BindQuery::Admin {
                queue: after_commands(q, 1),
                command: NvmeCommand::CreateIoCq {
                    cid: 2,
                    qid: io.qid,
                    depth: io.depth,
                    phys: io.cq.phys,
                },
            },
        ),
        done_or(
            a.create_sq,
            BindView::Ask(
                no_writes(),
                BindQuery::Admin {
                    queue: after_commands(q, 2),
                    command: NvmeCommand::CreateIoSq {
                        cid: 3,
                        qid: io.qid,
                        depth: io.depth,
                        phys: io.sq.phys,
                        cqid: io.qid,
                    },
                },
            ),
            done_or(
                a.ident_namespace,
                BindView::Ask(
                    no_writes(),
                    BindQuery::Admin {
                        queue: after_commands(q, 3),
                        command: NvmeCommand::IdentifyNamespace {
                            cid: 4,
                            nsid: MODEL_NSID,
                            data_phys: ident.phys,
                        },
                    },
                ),
                match a.namespace {
                    None => BindView::Ask(no_writes(), BindQuery::Namespace { page: ident }),
                    Some(None) => BindView::Failed(NvmeError::BadIdentify),
                    Some(Some((nlba, lba_size))) => BindView::Ready(
                        NvmeController {
                            bar0_phys: bar0,
                            cap,
                            adminq: after_commands(q, 4),
                            ioq: io,
                            next_cid: 5,
                            ns: NamespaceInfo { nsid: MODEL_NSID, nlba, lba_size },
                            prp_list: None,
                        },
                    ),
                },
            ),
        ),
    )
}

/// The whole of bring-up: the first answer that is missing or bad decides.
pub open spec fn bind_view(a: BindAnswers, admin_depth: u16, io_depth: u16) -> BindView {
    match a.command {
        None => BindView::Ask(no_writes(), BindQuery::Command),
        Some(cmd) => match a.bar0 {
            None => BindView::Ask(
                if mastering(cmd) != cmd {
                    seq![BindWrite::Command(mastering(cmd))]
                } else {
                    no_writes()
                },
                BindQuery::Bar0,
            ),
            Some(None) => BindView::Failed(NvmeError::Bar0Invalid),
            Some(Some(bar0)) => match a.mapped {
                None => BindView::Ask(
                    no_writes(),
                    BindQuery::MapRegisters { phys: bar0, bytes: BAR0_MMIO_BYTES },
                ),
                Some(false) => BindView::Failed(NvmeError::MmioMapFailed),
                Some(true) => match a.cap {
                    None => BindView::Ask(no_writes(), BindQuery::Cap),
                    Some(cap) => if cap.min_page_size > NVME_PAGE_SIZE || cq_doorbell(
                        IO_QID as int,
                        cap.dstrd as nat,
                    ) + 4 > BAR0_MMIO_BYTES {
                        BindView::Failed(NvmeError::UnsupportedPageSize)
                    } else {
                        match a.config {
                            None => BindView::Ask(no_writes(), BindQuery::Config),
                            Some(cc) => if cc & 1 == 0 {
                                bind_from_stopped(a, bar0, cap, admin_depth, io_depth)
                            } else {
                                match a.disabled {
                                    None => BindView::Ask(
                                        seq![BindWrite::Config(cc & !1u32)],
                                        BindQuery::WaitDisabled {
                                            timeout_ms: (cap.enable_timeout_ms + 1000) as u64,
                                        },
                                    ),
                                    Some(false) => BindView::Failed(
                                        NvmeError::ControllerDisableTimeout,
                                    ),
                                    Some(true) => bind_from_stopped(
                                        a,
                                        bar0,
                                        cap,
                                        admin_depth,
                                        io_depth,
                                    ),
                                }
                            },
                        }
                    },
                },
            },
        },
    }
}

fn ask(query: BindQuery) -> (p: BindProgress)
    ensures
        p@ == BindView::Ask(no_writes(), query),
{
    BindProgress::Ask { writes: Vec::new(), query }
}

fn write_and_ask(write: BindWrite, query: BindQuery) -> (p: BindProgress)
    ensures
        p@ == BindView::Ask(seq![write], query),
{
    let writes: Vec<BindWrite> = vec![write];
    assert(writes@ =~= seq![write]);
    BindProgress::Ask { writes, query }
}

impl NvmeController {
    /// The controller is usable: its queues are in order, its doorbells are mapped.
    pub open spec fn wf(&self) -> bool {
        &&& self.adminq.wf() && self.adminq.qid == 0
        &&& self.ioq.wf() && self.ioq.qid == IO_QID
        &&& self.cap.dstrd <= 15
        &&& self.next_cid != 0
    }

    /// The controller of `dev` that bring-up starts with, the first of the scan.
    pub fn bind_first(scan: &PciScan) -> (r: Result<PciDevice, NvmeError>)
        ensures
            r == (if controllers(scan.devices@).len() > 0 {
                Ok(controllers(scan.devices@)[0])
            } else {
                Err(NvmeError::ControllerNotFound)
            }),
    {
        let list: Vec<PciDevice> = nvme_controllers(scan);
        if list.len() > 0 {
            Ok(list[0])
        } else {
            Err(NvmeError::ControllerNotFound)
        }
    }

    /// Bring-up with the answers so far. The queue depths are those of the
    /// admin and the I/O rings.
    pub fn bind(a: &BindAnswers, admin_depth: u16, io_depth: u16) -> (p: BindProgress)
        requires
            admin_depth > 0,
            io_depth > 0,
        ensures
            p@ == bind_view(*a, admin_depth, io_depth),
            p matches BindProgress::Ready(c) ==> c.wf(),
    {
        let cmd: u16 = match a.command {
            None => {
                return ask(BindQuery::Command);
            },
            Some(c) => c,
        };
        let bar0: u64 = match a.bar0 {
            None => {
                let new_cmd: u16 = cmd | 0x0006;
                if new_cmd != cmd {
                    return write_and_ask(BindWrite::Command(new_cmd), BindQuery::Bar0);
                }
                return ask(BindQuery::Bar0);
            },
            Some(None) => {
                return BindProgress::Failed(NvmeError::Bar0Invalid);
            },
            Some(Some(b)) => b,
        };
        match a.mapped {
            None => {
                return ask(BindQuery::MapRegisters { phys: bar0, bytes: BAR0_MMIO_BYTES });
            },
            Some(false) => {
                return BindProgress::Failed(NvmeError::MmioMapFailed);
            },
            Some(true) => {},
        }
        let cap: Capabilities = match a.cap {
            None => {
                return ask(BindQuery::Cap);
            },
            Some(c) => c,
        };
        proof {
            lemma_stride_values();
            if cap.dstrd >= 16 {
                lemma_stride_grows(16, cap.dstrd as nat);
            } else {
                lemma_stride_grows(cap.dstrd as nat, 15);
            }
            let step = stride(cap.dstrd as nat);
            assert((2 * 1int + 1) * step == 3 * step) by (nonlinear_arith);
        }
        if cap.min_page_size > NVME_PAGE_SIZE as u64 {
            return BindProgress::Failed(NvmeError::UnsupportedPageSize);
        }
        if cap.dstrd > 15 || 0x1000 + 3 * doorbell_stride(cap.dstrd) as usize + 4
            > BAR0_MMIO_BYTES {
            return BindProgress::Failed(NvmeError::UnsupportedPageSize);
        }
        let timeout_ms: u64 = cap.enable_timeout_ms as u64 + RDY_TIMEOUT_CUSHION_MS as u64;
        let cc: u32 = match a.config {
            None => {
                return ask(BindQuery::Config);
            },
            Some(c) => c,
        };
        if cc & 1 != 0 {
            match a.disabled {
                None => {
                    return write_and_ask(
                        BindWrite::Config(cc & !1u32),
                        BindQuery::WaitDisabled { timeout_ms },
                    );
                },
                Some(false) => {
                    return BindProgress::Failed(NvmeError::ControllerDisableTimeout);
                },
                Some(true) => {},
            }
        }
        let sq: DmaPage = match a.admin_sq {
            None => {
                return ask(BindQuery::Page);
            },
            Some(Err(e)) => {
                return BindProgress::Failed(e);
            },
            Some(Ok(p)) => p,
        };
        let cq: DmaPage = match a.admin_cq {
            None => {
                return ask(BindQuery::Page);
            },
            Some(Err(e)) => {
                return BindProgress::Failed(e);
            },
            Some(Ok(p)) => p,
        };
        match a.enabled {
            None => {
                let writes: Vec<BindWrite> = vec![
                    BindWrite::ZeroPage(cq),
                    BindWrite::AdminQueues {
                        depth: admin_depth,
                        sq_phys: sq.phys,
                        cq_phys: cq.phys,
                    },
                    BindWrite::Enable { mpsmin: cap.mpsmin },
                ];
                assert(writes@ =~= seq![
                    BindWrite::ZeroPage(cq),
                    BindWrite::AdminQueues {
                        depth: admin_depth,
                        sq_phys: sq.phys,
                        cq_phys: cq.phys,
                    },
                    BindWrite::Enable { mpsmin: cap.mpsmin },
                ]);
                return BindProgress::Ask { writes, query: BindQuery::WaitEnabled { timeout_ms } };
            },
            Some(false) => {
                return BindProgress::Failed(NvmeError::ControllerEnableTimeout);
            },
            Some(true) => {},
        }
        let adminq = QueuePair::allocate(0, admin_depth, sq, cq);
        NvmeController::bind_enabled(a, bar0, cap, adminq, io_depth)
    }

    fn bind_enabled(
        a: &BindAnswers,
        bar0: u64,
        cap: Capabilities,
        adminq: QueuePair,
        io_depth: u16,
    ) -> (p: BindProgress)
        requires
            adminq.wf(),
            adminq.qid == 0,
            cap.dstrd <= 15,
            io_depth > 0,
        ensures
            p@ == bind_from_enabled(*a, bar0, cap, adminq, io_depth),
            p matches BindProgress::Ready(c) ==> c.wf(),
    {
        let ident: DmaPage = match a.ident {
            None => {
                return ask(BindQuery::Page);
            },
            Some(Err(e)) => {
                return BindProgress::Failed(e);
            },
            Some(Ok(p)) => p,
        };
        let mut cid: u16 = 1;
        let mut q: QueuePair = adminq;
        match a.ident_controller {
            None => {
                return ask(
                    BindQuery::Admin {
                        queue: q,
                        command: NvmeCommand::IdentifyController { cid, data_phys: ident.phys },
                    },
                );
            },
            Some(Err(e)) => {
                return BindProgress::Failed(e);
            },
            Some(Ok(_)) => {},
        }
        proof {
            reveal_with_fuel(after_commands, 5);
        }
        q.write_sqe();
        q.advance_cq_head();
        cid = next_after(cid);
        let sq: DmaPage = match a.io_sq {
            None => {
                return ask(BindQuery::Page);
            },
            Some(Err(e)) => {
                return BindProgress::Failed(e);
            },
            Some(Ok(p)) => p,
        };
        let cq: DmaPage = match a.io_cq {
            None => {
                return ask(BindQuery::Page);
            },
            Some(Err(e)) => {
                return BindProgress::Failed(e);
            },
            Some(Ok(p)) => p,
        };
        let ioq = QueuePair::allocate(IO_QID, io_depth, sq, cq);
        match a.create_cq {
            None => {
                return write_and_ask(
                    BindWrite::ZeroPage(cq),
                    BindQuery::Admin {
                        queue: q,
                        command: NvmeCommand::CreateIoCq {
                            cid,
                            qid: ioq.qid,
                            depth: ioq.depth,
                            phys: ioq.cq.phys,
                        },
                    },
                );
            },
            Some(Err(e)) => {
                return BindProgress::Failed(e);
            },
            Some(Ok(_)) => {},
        }
        q.write_sqe();
        q.advance_cq_head();
        cid = next_after(cid);
        match a.create_sq {
            None => {
                return ask(
                    BindQuery::Admin {
                        queue: q,
                        command: NvmeCommand::CreateIoSq {
                            cid,
                            qid: ioq.qid,
                            depth: ioq.depth,
                            phys: ioq.sq.phys,
                            cqid: ioq.qid,
                        },
                    },
                );
            },
            Some(Err(e)) => {
                return BindProgress::Failed(e);
            },
            Some(Ok(_)) => {},
        }
        q.write_sqe();
        q.advance_cq_head();
        cid = next_after(cid);
        match a.ident_namespace {
            None => {
                return ask(
                    BindQuery::Admin {
                        queue: q,
                        command: NvmeCommand::IdentifyNamespace {
                            cid,
                            nsid: MODEL_NSID,
                            data_phys: ident.phys,
                        },
                    },
                );
            },
            Some(Err(e)) => {
                return BindProgress::Failed(e);
            },
            Some(Ok(_)) => {},
        }
        q.write_sqe();
        q.advance_cq_head();
        cid = next_after(cid);
        match a.namespace {
            None => ask(BindQuery::Namespace { page: ident }),
            Some(None) => BindProgress::Failed(NvmeError::BadIdentify),
            Some(Some((nlba, lba_size))) => BindProgress::Ready(
                NvmeController {
                    bar0_phys: bar0,
                    cap,
                    adminq: q,
                    ioq,
                    next_cid: cid,
                    ns: NamespaceInfo { nsid: MODEL_NSID, nlba, lba_size },
                    prp_list: None,
                },
            ),
        }
    }

    pub fn namespace(&self) -> (n: &NamespaceInfo)
        ensures
            *n == self.ns,
    {
        &self.ns
    }

    pub fn capabilities(&self) -> (c: &Capabilities)
        ensures
            *c == self.cap,
    {
        &self.cap
    }

    /// Most blocks that one read can bring.
    pub fn max_read_lbas(&self) -> (n: u32)
        requires
            self.ns.lba_size > 0,
        ensures
            n == MAX_READ_BYTES as int / self.ns.lba_size as int,
    {
        let n: usize = MAX_READ_BYTES / self.ns.lba_size as usize;
        assert(n <= MAX_READ_BYTES) by (nonlinear_arith)
            requires
                n == 2_097_152usize / (self.ns.lba_size as usize),
                self.ns.lba_size > 0,
        ;
        n as u32
    }

    /// A command number that is not zero, and not the one handed out before.
    pub fn allocate_cid(&mut self) -> (c: u16)
        ensures
            c == old(self).next_cid,
            *final(self) == (NvmeController { next_cid: cid_after(c), ..*old(self) }),
    {
        let c: u16 = self.next_cid;
        self.next_cid = next_after(c);
        c
    }

    /// Keeps `page` for page lists, unless there is one already.
    pub fn ensure_prp_list(&mut self, page: Result<DmaPage, NvmeError>) -> (r: Result<
        (),
        NvmeError,
    >)
        ensures
            match old(self).prp_list {
                Some(_) => r == Ok::<(), NvmeError>(()) && *final(self) == *old(self),
                None => match page {
                    Ok(p) => r == Ok::<(), NvmeError>(()) && *final(self) == (NvmeController {
                        prp_list: Some(p),
                        ..*old(self)
                    }),
                    Err(e) => r == Err::<(), NvmeError>(e) && *final(self) == *old(self),
                },
            },
    {
        match self.prp_list {
            Some(_) => Ok(()),
            None => match page {
                Ok(p) => {
                    self.prp_list = Some(p);
                    Ok(())
                },
                Err(e) => Err(e),
            },
        }
    }
}

/// The command number after `c`: one higher, past zero.
pub open spec fn cid_after(c: u16) -> u16 {
    if c == 0xFFFF {
        1
    } else {
        (c + 1) as u16
    }
}

fn next_after(c: u16) -> (n: u16)
    ensures
        n == cid_after(c),
        n != 0,
        n != c,
{
    let n: u16 = c.wrapping_add(1);
    if n == 0 {
        1
    } else {
        n
    }
}

/// The NVMe controllers among `ds`, in order.
pub open spec fn controllers(ds: Seq<PciDevice>) -> Seq<PciDevice> {
    ds.filter(|d: PciDevice| nvme_probe::nvme_class(d))
}

/// Every NVMe controller of the scan, in enumeration order.
pub fn nvme_controllers(scan: &PciScan) -> (v: Vec<PciDevice>)
    ensures
        v@ == controllers(scan.devices@),
{
    let ghost nv = |d: PciDevice| nvme_probe::nvme_class(d);
    let mut v: Vec<PciDevice> = Vec::new();
    let mut i: usize = 0;
    assert(scan.devices@.take(0).filter(nv) =~= Seq::<PciDevice>::empty()) by {
        reveal(Seq::filter);
    }
    while i < scan.devices.len()
        invariant
            i <= scan.devices@.len(),
            nv == (|d: PciDevice| nvme_probe::nvme_class(d)),
            v@ == scan.devices@.take(i as int).filter(nv),
        decreases scan.devices@.len() - i,
    {
        let d: PciDevice = scan.devices[i];
        assert(scan.devices@.take(i + 1).drop_last() =~= scan.devices@.take(i as int));
        assert(scan.devices@.take(i + 1).filter(nv) == (if nv(d) {
            v@.push(d)
        } else {
            v@
        })) by {
            reveal(Seq::filter);
        }
        if is_nvme(&d) {
            v.push(d);
        }
        i = i + 1;
    }
    assert(scan.devices@.take(i as int) =~= scan.devices@);
    v
}

/// The first controllers of the scan, as many as a list holds.
pub fn discover(scan: &PciScan) -> (out: ControllerList)
    ensures
        out.wf(),
        out.entries@ == controllers(scan.devices@).take(if controllers(scan.devices@).len()
            < nvme_probe::MAX_CONTROLLERS {
            controllers(scan.devices@).len() as int
        } else {
            nvme_probe::MAX_CONTROLLERS as int
        }),
{
    let all: Vec<PciDevice> = nvme_controllers(scan);
    let mut out = ControllerList::new();
    let mut i: usize = 0;
    while i < all.len()
        invariant
            i <= all@.len(),
            out.wf(),
            out.entries@ == all@.take(if i < nvme_probe::MAX_CONTROLLERS {
                i as int
            } else {
                nvme_probe::MAX_CONTROLLERS as int
            }),
        decreases all@.len() - i,
    {
        out.push(all[i]);
        i = i + 1;
        proof {
            if i <= nvme_probe::MAX_CONTROLLERS {
                assert(out.entries@ =~= all@.take(i as int));
            }
        }
    }
    out
}

/// One read of a bulk transfer.
#[derive(Clone, Copy, Debug, PartialEq, Eq, Structural)]
pub struct ReadChunk {
    pub slba: u64,
    /// Number of blocks, counted from one.
    pub nlb: u16,
    pub dst_va: u64,
}

/// Why a bulk transfer is refused, none if it is not.
pub open spec fn bulk_refused(ns: NamespaceInfo, slba: u64, byte_count: usize, dst_va: u64) -> Option<
    NvmeError,
> {
    let lba = ns.lba_size as int;
    if byte_count == 0 {
        None
    } else if lba == 0 {
        Some(NvmeError::BadIdentify)
    } else if dst_va % 4096 != 0 {
        Some(NvmeError::BadDmaBuffer)
    } else if byte_count as int % lba != 0 || lba > MAX_READ_BYTES {
        Some(NvmeError::OutOfRange)
    } else if slba + byte_count as int / lba > ns.nlba && ns.nlba < u64::MAX {
        Some(NvmeError::OutOfRange)
    } else {
        None
    }
}

/// A transfer that is not refused ends at an address and at a block number of 64 bits.
pub open spec fn ends_in_range(
    ns: NamespaceInfo,
    slba: u64,
    byte_count: usize,
    dst_va: u64,
) -> bool {
    bulk_refused(ns, slba, byte_count, dst_va) is None && byte_count > 0 ==> {
        &&& dst_va + byte_count <= u64::MAX
        &&& slba + byte_count as int / ns.lba_size as int <= u64::MAX
    }
}

/// Why a bulk transfer is refused, none if it is not.
pub fn refuse_bulk(ns: &NamespaceInfo, slba: u64, byte_count: usize, dst_va: u64) -> (e: Option<
    NvmeError,
>)
    ensures
        e == bulk_refused(*ns, slba, byte_count, dst_va),
{
    if byte_count == 0 {
        return None;
    }
    if ns.lba_size == 0 {
        return Some(NvmeError::BadIdentify);
    }
    let lba_size: usize = ns.lba_size as usize;
    proof {
        bits::lemma_u64(dst_va);
    }
    if dst_va & (NVME_PAGE_SIZE as u64 - 1) != 0 {
        return Some(NvmeError::BadDmaBuffer);
    }
    if byte_count % lba_size != 0 || lba_size > MAX_READ_BYTES {
        return Some(NvmeError::OutOfRange);
    }
    if slba.saturating_add((byte_count / lba_size) as u64) > ns.nlba {
        return Some(NvmeError::OutOfRange);
    }
    None
}

/// Whether a transfer can be handed to [`plan_reads`].
pub fn can_plan(ns: &NamespaceInfo, slba: u64, byte_count: usize, dst_va: u64) -> (b: bool)
    ensures
        b == ends_in_range(*ns, slba, byte_count, dst_va),
{
    if byte_count == 0 || refuse_bulk(ns, slba, byte_count, dst_va).is_some() {
        return true;
    }
    let total_lbas: u64 = (byte_count / ns.lba_size as usize) as u64;
    dst_va <= u64::MAX - byte_count as u64 && slba <= u64::MAX - total_lbas
}

/// Most blocks of one read: those that fit [`MAX_READ_BYTES`], and that a command
/// can count.
pub open spec fn most_blocks(lba: int) -> int {
    if MAX_READ_BYTES as int / lba < 65535 {
        MAX_READ_BYTES as int / lba
    } else {
        65535
    }
}

/// The largest number of blocks, up to `n`, that is a whole number of pages.
pub open spec fn paged_blocks(lba: int, n: int) -> int
    decreases n,
{
    if n <= 0 {
        0
    } else if n * lba % 4096 == 0 {
        n
    } else {
        paged_blocks(lba, n - 1)
    }
}

/// Blocks of a read that others follow: so many that the next one starts on a page.
/// Where no number of blocks within a read is a whole number of pages, the most.
pub open spec fn blocks_per_read(lba: int) -> int {
    let n = paged_blocks(lba, most_blocks(lba));
    if n > 0 {
        n
    } else {
        most_blocks(lba)
    }
}

/// Blocks of the first read of a transfer of `bytes` bytes: all of them if one read
/// can bring them.
pub open spec fn first_blocks(lba: int, bytes: int) -> int {
    if bytes / lba <= most_blocks(lba) {
        bytes / lba
    } else {
        blocks_per_read(lba)
    }
}

/// The largest paged number is one, and no number above it up to `n` is.
proof fn lemma_paged_blocks(lba: int, n: int)
    requires
        n >= 0,
    ensures
        0 <= paged_blocks(lba, n) <= n,
        paged_blocks(lba, n) * lba % 4096 == 0,
        forall|k: int|
            paged_blocks(lba, n) < k <= n ==> #[trigger] (k * lba) % 4096 != 0,
    decreases n,
{
    if n > 0 && n * lba % 4096 != 0 {
        lemma_paged_blocks(lba, n - 1);
        assert forall|k: int| paged_blocks(lba, n) < k <= n implies #[trigger] (k * lba) % 4096
            != 0 by {
            if k < n {
                assert((k * lba) % 4096 != 0);
            }
        }
    } else if n <= 0 {
        assert(0 * lba == 0) by (nonlinear_arith);
    }
}

/// The reads of a transfer of `bytes` bytes, until nothing is left.
pub open spec fn chunks(lba: int, slba: int, bytes: nat, va: int) -> Seq<ReadChunk>
    decreases bytes,
{
    let n = first_blocks(lba, bytes as int);
    if bytes == 0 || lba <= 0 || n <= 0 {
        Seq::empty()
    } else {
        proof {
            lemma_first_blocks(lba, bytes as int);
        }
        seq![ReadChunk { slba: slba as u64, nlb: n as u16, dst_va: va as u64 }] + chunks(
            lba,
            slba + n,
            (bytes - n * lba) as nat,
            va + n * lba,
        )
    }
}

/// The first read brings no more than the transfer, than [`MAX_READ_BYTES`], and
/// than a command can count.
pub proof fn lemma_first_blocks(lba: int, bytes: int)
    requires
        lba > 0,
        bytes >= 0,
    ensures
        0 <= first_blocks(lba, bytes) <= 65535,
        0 <= first_blocks(lba, bytes) * lba <= bytes,
        first_blocks(lba, bytes) * lba <= MAX_READ_BYTES,
        first_blocks(lba, bytes) > 0 ==> first_blocks(lba, bytes) * lba > 0,
{
    let n = first_blocks(lba, bytes);
    let a = bytes / lba;
    let b = MAX_READ_BYTES as int / lba;
    vstd::arithmetic::div_mod::lemma_div_pos_is_pos(MAX_READ_BYTES as int, lba);
    lemma_paged_blocks(lba, most_blocks(lba));
    vstd::arithmetic::div_mod::lemma_fundamental_div_mod(bytes, lba);
    vstd::arithmetic::div_mod::lemma_fundamental_div_mod(MAX_READ_BYTES as int, lba);
    vstd::arithmetic::div_mod::lemma_mod_bound(bytes, lba);
    vstd::arithmetic::div_mod::lemma_mod_bound(MAX_READ_BYTES as int, lba);
    vstd::arithmetic::div_mod::lemma_div_pos_is_pos(bytes, lba);
    assert(n * lba <= lba * a && n * lba <= lba * b && 0 <= n * lba && (n > 0 ==> n * lba > 0))
        by (nonlinear_arith)
        requires
            lba > 0,
            0 <= n <= a,
            n <= b,
    ;
}

/// The bytes that the chunks bring, in blocks of `lba` bytes.
pub open spec fn chunk_bytes(cs: Seq<ReadChunk>, lba: int) -> int
    decreases cs.len(),
{
    if cs.len() == 0 {
        0
    } else {
        chunk_bytes(cs.drop_last(), lba) + cs.last().nlb * lba
    }
}

/// The chunks follow each other: each starts at the block and at the address
/// where the one before it ends.
pub open spec fn contiguous(cs: Seq<ReadChunk>, lba: int, slba: int, va: int) -> bool {
    forall|i: int|
        0 <= i < cs.len() ==> {
            &&& (#[trigger] cs[i]).nlb >= 1
            &&& cs[i].slba * lba == slba * lba + chunk_bytes(cs.take(i), lba)
            &&& cs[i].dst_va == va + chunk_bytes(cs.take(i), lba)
        }
}

proof fn lemma_chunk_bytes_cons(c: ReadChunk, cs: Seq<ReadChunk>, lba: int)
    ensures
        chunk_bytes(seq![c] + cs, lba) == c.nlb * lba + chunk_bytes(cs, lba),
    decreases cs.len(),
{
    let all = seq![c] + cs;
    if cs.len() == 0 {
        assert(all.drop_last() =~= Seq::<ReadChunk>::empty());
        assert(chunk_bytes(all.drop_last(), lba) == 0);
    } else {
        assert(all.drop_last() =~= seq![c] + cs.drop_last());
        lemma_chunk_bytes_cons(c, cs.drop_last(), lba);
    }
}

/// `k` blocks of `lba` bytes are `k` blocks.
proof fn lemma_whole_blocks(k: int, lba: int)
    requires
        lba > 0,
        k >= 0,
    ensures
        k * lba / lba == k,
        k * lba % lba == 0,
        0 <= k * lba,
{
    vstd::arithmetic::div_mod::lemma_fundamental_div_mod_converse(k * lba, lba, k, 0);
    assert(0 <= k * lba) by (nonlinear_arith)
        requires
            k >= 0,
            lba > 0,
    ;
}

/// The reads of an accepted transfer bring every block of it exactly once, each
/// to its place in the buffer.
pub proof fn lemma_chunks_cover(lba: int, slba: int, bytes: nat, va: int)
    requires
        0 < lba <= MAX_READ_BYTES,
        bytes as int % lba == 0,
        0 <= slba,
        slba + bytes as int / lba <= u64::MAX,
        0 <= va,
        va + bytes <= u64::MAX,
    ensures
        chunk_bytes(chunks(lba, slba, bytes, va), lba) == bytes,
        contiguous(chunks(lba, slba, bytes, va), lba, slba, va),
    decreases bytes,
{
    if bytes > 0 {
        let n = first_blocks(lba, bytes as int);
        let k = bytes as int / lba;
        lemma_first_blocks(lba, bytes as int);
        vstd::arithmetic::div_mod::lemma_fundamental_div_mod(bytes as int, lba);
        assert(bytes == k * lba) by (nonlinear_arith)
            requires
                bytes == lba * k,
        ;
        assert(k >= 1) by (nonlinear_arith)
            requires
                bytes == k * lba,
                bytes > 0,
                lba > 0,
        ;
        vstd::arithmetic::div_mod::lemma_fundamental_div_mod(MAX_READ_BYTES as int, lba);
        vstd::arithmetic::div_mod::lemma_mod_bound(MAX_READ_BYTES as int, lba);
        let b = MAX_READ_BYTES as int / lba;
        assert(b >= 1) by (nonlinear_arith)
            requires
                MAX_READ_BYTES < lba * b + lba,
                lba <= MAX_READ_BYTES,
                lba > 0,
        ;
        lemma_paged_blocks(lba, most_blocks(lba));
        assert(n >= 1);
        let chunk = n * lba;
        let rest = (bytes - chunk) as nat;
        assert(rest == (k - n) * lba) by (nonlinear_arith)
            requires
                bytes == k * lba,
                chunk == n * lba,
                rest == bytes - chunk,
        ;
        lemma_whole_blocks(k - n, lba);
        lemma_chunks_cover(lba, slba + n, rest, va + chunk);
        let c = ReadChunk { slba: slba as u64, nlb: n as u16, dst_va: va as u64 };
        let tail = chunks(lba, slba + n, rest, va + chunk);
        let all = chunks(lba, slba, bytes, va);
        assert(all == seq![c] + tail);
        lemma_chunk_bytes_cons(c, tail, lba);
        assert((slba + n) * lba == slba * lba + chunk) by (nonlinear_arith)
            requires
                chunk == n * lba,
        ;
        assert forall|i: int| 0 <= i < all.len() implies {
            &&& (#[trigger] all[i]).nlb >= 1
            &&& all[i].slba * lba == slba * lba + chunk_bytes(all.take(i), lba)
            &&& all[i].dst_va == va + chunk_bytes(all.take(i), lba)
        } by {
            if i == 0 {
                assert(all.take(0) =~= Seq::<ReadChunk>::empty());
                assert(chunk_bytes(all.take(0), lba) == 0);
            } else {
                assert(all.take(i) =~= seq![c] + tail.take(i - 1));
                lemma_chunk_bytes_cons(c, tail.take(i - 1), lba);
                assert(tail[i - 1].nlb >= 1);
            }
        }
    }
}

/// Every read of a transfer into a page-aligned buffer starts on a page, if some
/// number of blocks within one read is a whole number of pages.
pub proof fn lemma_reads_start_on_pages(lba: int, slba: int, bytes: nat, va: int)
    requires
        0 < lba <= MAX_READ_BYTES,
        paged_blocks(lba, most_blocks(lba)) > 0,
        0 <= va,
        va % 4096 == 0,
        va + bytes <= u64::MAX,
    ensures
        forall|i: int|
            0 <= i < chunks(lba, slba, bytes, va).len() ==> (#[trigger] chunks(
                lba,
                slba,
                bytes,
                va,
            )[i]).dst_va % 4096 == 0,
    decreases bytes,
{
    let n = first_blocks(lba, bytes as int);
    let all = chunks(lba, slba, bytes, va);
    if bytes > 0 && n > 0 {
        lemma_first_blocks(lba, bytes as int);
        lemma_paged_blocks(lba, most_blocks(lba));
        let rest = (bytes - n * lba) as nat;
        let tail = chunks(lba, slba + n, rest, va + n * lba);
        if bytes as int / lba <= most_blocks(lba) {
            assert(first_blocks(lba, rest as int) <= 0) by {
                vstd::arithmetic::div_mod::lemma_fundamental_div_mod(bytes as int, lba);
                vstd::arithmetic::div_mod::lemma_mod_bound(bytes as int, lba);
                assert(rest == bytes as int % lba) by (nonlinear_arith)
                    requires
                        rest == bytes - n * lba,
                        bytes == lba * n + bytes as int % lba,
                ;
                vstd::arithmetic::div_mod::lemma_basic_div(rest as int, lba);
            }
            assert(tail.len() == 0);
        } else {
            lemma_reads_start_on_pages(lba, slba + n, rest, va + n * lba);
        }
        assert forall|i: int| 0 <= i < all.len() implies (#[trigger] all[i]).dst_va % 4096 == 0 by {
            if i > 0 {
                assert(all[i] == tail[i - 1]);
            }
        }
    }
}

/// Every read of a transfer of `blocks` blocks brings some of them and no other block,
/// to within the buffer, and no more than a read may bring.
pub proof fn lemma_reads_stay_inside(lba: int, slba: int, blocks: nat, va: int, i: int)
    requires
        0 < lba <= MAX_READ_BYTES,
        0 <= slba,
        slba + blocks <= u64::MAX,
        0 <= va,
        va + blocks * lba <= u64::MAX,
        0 <= i < chunks(lba, slba, (blocks * lba) as nat, va).len(),
    ensures
        ({
            let c = chunks(lba, slba, (blocks * lba) as nat, va)[i];
            &&& slba <= c.slba && c.slba + c.nlb <= slba + blocks
            &&& va <= c.dst_va && c.dst_va + c.nlb * lba <= va + blocks * lba
            &&& 1 <= c.nlb && c.nlb * lba <= MAX_READ_BYTES
        }),
    decreases blocks,
{
    assert(0 <= blocks * lba) by (nonlinear_arith)
        requires
            0 <= blocks,
            0 < lba,
    ;
    let bytes = (blocks * lba) as nat;
    let n = first_blocks(lba, bytes as int);
    let all = chunks(lba, slba, bytes, va);
    lemma_first_blocks(lba, bytes as int);
    if bytes > 0 && n > 0 {
        assert(n <= blocks) by (nonlinear_arith)
            requires
                n * lba <= blocks * lba,
                0 < lba,
        ;
        assert(bytes - n * lba == (blocks - n) * lba) by (nonlinear_arith)
            requires
                bytes == blocks * lba,
        ;
        let rest = (blocks - n) as nat;
        let tail = chunks(lba, slba + n, (rest * lba) as nat, va + n * lba);
        if i > 0 {
            assert(all[i] == tail[i - 1]);
            lemma_reads_stay_inside(lba, slba + n, rest, va + n * lba, i - 1);
        } else {
            assert(n * lba <= blocks * lba);
        }
    }
}

/// A transfer that is not refused reads nothing behind the end of the namespace.
pub proof fn lemma_no_read_past_the_end(
    ns: NamespaceInfo,
    slba: u64,
    byte_count: usize,
    dst_va: u64,
    i: int,
)
    requires
        bulk_refused(ns, slba, byte_count, dst_va) is None,
        ns.nlba < u64::MAX,
        dst_va + byte_count <= u64::MAX,
        0 <= i < chunks(
            ns.lba_size as int,
            slba as int,
            byte_count as nat,
            dst_va as int,
        ).len(),
    ensures
        ({
            let c = chunks(
                ns.lba_size as int,
                slba as int,
                byte_count as nat,
                dst_va as int,
            )[i];
            slba <= c.slba && c.slba + c.nlb <= ns.nlba
        }),
{
    let lba = ns.lba_size as int;
    let bytes = byte_count as int;
    if byte_count > 0 {
        let k = (bytes / lba) as nat;
        vstd::arithmetic::div_mod::lemma_fundamental_div_mod(bytes, lba);
        vstd::arithmetic::div_mod::lemma_div_pos_is_pos(bytes, lba);
        assert(k * lba == bytes) by (nonlinear_arith)
            requires
                bytes == lba * (bytes / lba) + bytes % lba,
                bytes % lba == 0,
                k == bytes / lba,
        ;
        lemma_reads_stay_inside(lba, slba as int, k, dst_va as int, i);
    }
}

/// Blocks that make up a page, or are made up of pages, always have such a number.
pub proof fn lemma_page_sized_blocks(lba: int)
    requires
        0 < lba <= MAX_READ_BYTES,
        4096int % lba == 0 || lba % 4096 == 0,
    ensures
        paged_blocks(lba, most_blocks(lba)) > 0,
{
    let most = most_blocks(lba);
    let b = MAX_READ_BYTES as int / lba;
    vstd::arithmetic::div_mod::lemma_fundamental_div_mod(MAX_READ_BYTES as int, lba);
    vstd::arithmetic::div_mod::lemma_mod_bound(MAX_READ_BYTES as int, lba);
    assert(b >= 1) by (nonlinear_arith)
        requires
            MAX_READ_BYTES < lba * b + lba,
            lba <= MAX_READ_BYTES,
            lba > 0,
    ;
    lemma_paged_blocks(lba, most);
    if lba % 4096 == 0 {
        assert((1 * lba) % 4096 == 0);
    } else {
        let k = 4096int / lba;
        vstd::arithmetic::div_mod::lemma_fundamental_div_mod(4096, lba);
        assert(k * lba == 4096 && 1 <= k <= 4096 && k <= b) by (nonlinear_arith)
            requires
                4096 == lba * k,
                lba > 0,
                MAX_READ_BYTES < lba * b + lba,
                MAX_READ_BYTES == 2_097_152,
        ;
        assert((k * lba) % 4096 == 0);
    }
}

/// [`blocks_per_read`], from the most blocks of a read.
fn mk_blocks_per_read(lba_size: usize, most: usize) -> (n: usize)
    requires
        0 < lba_size <= MAX_READ_BYTES,
        most == most_blocks(lba_size as int),
    ensures
        n == blocks_per_read(lba_size as int),
{
    let ghost lba = lba_size as int;
    proof {
        vstd::arithmetic::div_mod::lemma_fundamental_div_mod(MAX_READ_BYTES as int, lba);
        vstd::arithmetic::div_mod::lemma_mod_bound(MAX_READ_BYTES as int, lba);
        let b = MAX_READ_BYTES as int / lba;
        assert(most * lba <= lba * b) by (nonlinear_arith)
            requires
                most <= b,
                lba > 0,
        ;
    }
    let mut n: usize = most;
    while n > 0
        invariant
            n <= most,
            lba == lba_size,
            lba > 0,
            most * lba <= MAX_READ_BYTES,
            most == most_blocks(lba),
            paged_blocks(lba, most as int) == paged_blocks(lba, n as int),
        decreases n,
    {
        assert(0 <= n * lba <= most * lba) by (nonlinear_arith)
            requires
                n <= most,
                lba > 0,
        ;
        if n * lba_size % NVME_PAGE_SIZE == 0 {
            return n;
        }
        n = n - 1;
    }
    most
}

/// Splits a transfer of `byte_count` bytes from block `slba` into the page-aligned
/// buffer at `dst_va` into reads of at most [`MAX_READ_BYTES`].
pub fn plan_reads(ns: &NamespaceInfo, slba: u64, byte_count: usize, dst_va: u64) -> (r: Result<
    Vec<ReadChunk>,
    NvmeError,
>)
    requires
        ends_in_range(*ns, slba, byte_count, dst_va),
    ensures
        match bulk_refused(*ns, slba, byte_count, dst_va) {
            Some(e) => r is Err && r->Err_0 == e,
            None => r is Ok && r->Ok_0@ == chunks(
                ns.lba_size as int,
                slba as int,
                byte_count as nat,
                dst_va as int,
            ),
        },
{
    let mut out: Vec<ReadChunk> = Vec::new();
    match refuse_bulk(ns, slba, byte_count, dst_va) {
        Some(e) => {
            return Err(e);
        },
        None => {},
    }
    if byte_count == 0 {
        return Ok(out);
    }
    let lba_size: usize = ns.lba_size as usize;
    let total_lbas: usize = byte_count / lba_size;
    let ghost lba = ns.lba_size as int;
    let most: usize = if MAX_READ_BYTES / lba_size < 65535 {
        MAX_READ_BYTES / lba_size
    } else {
        65535
    };
    let per_read: usize = mk_blocks_per_read(lba_size, most);
    let mut left: usize = total_lbas;
    let mut cur_slba: u64 = slba;
    let mut cur_va: u64 = dst_va;
    proof {
        vstd::arithmetic::div_mod::lemma_fundamental_div_mod(byte_count as int, lba);
        vstd::arithmetic::div_mod::lemma_fundamental_div_mod(MAX_READ_BYTES as int, lba);
        vstd::arithmetic::div_mod::lemma_mod_bound(MAX_READ_BYTES as int, lba);
        let b = MAX_READ_BYTES as int / lba;
        assert(b >= 1) by (nonlinear_arith)
            requires
                MAX_READ_BYTES < lba * b + lba,
                lba <= MAX_READ_BYTES,
                lba > 0,
        ;
        assert(left * lba == byte_count) by (nonlinear_arith)
            requires
                byte_count == lba * left,
        ;
        lemma_paged_blocks(lba, most as int);
    }
    assert(out@ + chunks(lba, slba as int, byte_count as nat, dst_va as int) =~= chunks(
        lba,
        slba as int,
        byte_count as nat,
        dst_va as int,
    ));
    while left > 0
        invariant
            lba == lba_size,
            0 < lba <= MAX_READ_BYTES,
            most == most_blocks(lba),
            per_read == blocks_per_read(lba),
            1 <= per_read <= most <= 65535,
            cur_va + left * lba <= u64::MAX,
            cur_slba + left <= u64::MAX,
            0 <= left * lba,
            out@ + chunks(lba, cur_slba as int, (left * lba) as nat, cur_va as int) == chunks(
                lba,
                slba as int,
                byte_count as nat,
                dst_va as int,
            ),
        decreases left,
    {
        let n: usize = if left <= most {
            left
        } else {
            per_read
        };
        let ghost bytes = left * lba;
        let ghost before = out@;
        proof {
            lemma_whole_blocks(left as int, lba);
            assert(n == first_blocks(lba, bytes));
            lemma_first_blocks(lba, bytes);
            assert(n * lba_size == n * lba);
            assert(bytes > 0) by (nonlinear_arith)
                requires
                    bytes == left * lba,
                    left > 0,
                    lba > 0,
            ;
            assert((left - n) * lba == bytes - n * lba) by (nonlinear_arith)
                requires
                    bytes == left * lba,
            ;
            lemma_whole_blocks(left - n, lba);
        }
        let chunk: usize = n * lba_size;
        let nlb: u16 = n as u16;
        out.push(ReadChunk { slba: cur_slba, nlb, dst_va: cur_va });
        proof {
            let c = ReadChunk { slba: cur_slba, nlb, dst_va: cur_va };
            let tail = chunks(lba, cur_slba + n, (bytes - n * lba) as nat, cur_va + chunk);
            assert(before + (seq![c] + tail) =~= out@ + tail);
        }
        cur_slba = cur_slba + n as u64;
        cur_va = cur_va + chunk as u64;
        left = left - n;
    }
    assert(left * lba == 0);
    assert(out@ + Seq::<ReadChunk>::empty() =~= out@);
    Ok(out)
}

/// Page addresses of one read, as the wire layer lays them out.
#[derive(Clone, Copy, Debug, PartialEq, Eq, Structural)]
pub struct PrpPlan {
    pub prp1: u64,
    pub prp2: u64,
    /// Entries of the page list, for the pages behind the first.
    pub list_entries: usize,
}

/// A read that is ready to be submitted.
pub struct PreparedRead {
    /// The page list, entry by entry.
    pub list: Vec<u64>,
    pub command: NvmeCommand,
}

/// Why a single read is refused, none if it is not. `pages[i]` is the physical
/// address of page `i + 1` of the buffer, none where it has no translation.
pub open spec fn read_refused(
    nlb: u16,
    buf_phys: Option<u64>,
    plan: Option<PrpPlan>,
    pages: Seq<Option<u64>>,
) -> Option<NvmeError> {
    if nlb == 0 {
        Some(NvmeError::OutOfRange)
    } else {
        match (buf_phys, plan) {
            (Some(b), Some(p)) if b % 4096 == 0 && (forall|i: int|
                0 <= i < p.list_entries ==> #[trigger] pages[i] is Some) => None,
            _ => Some(NvmeError::BadDmaBuffer),
        }
    }
}

impl NvmeController {
    /// Whether [`NvmeController::bulk_read`] takes a page for the page list: there is
    /// none yet, and the transfer is neither empty nor refused.
    pub fn needs_list_page(&self, slba: u64, byte_count: usize, dst_va: u64) -> (b: bool)
        ensures
            b == (self.prp_list is None && byte_count > 0 && bulk_refused(
                self.ns,
                slba,
                byte_count,
                dst_va,
            ) is None),
    {
        self.prp_list.is_none() && byte_count > 0 && refuse_bulk(
            &self.ns,
            slba,
            byte_count,
            dst_va,
        ).is_none()
    }

    /// Plans a transfer of `byte_count` bytes from block `slba` into the
    /// page-aligned buffer at `dst_va`. `list_page` becomes the page-list page
    /// where the controller has none yet.
    pub fn bulk_read(
        &mut self,
        slba: u64,
        byte_count: usize,
        dst_va: u64,
        list_page: Result<DmaPage, NvmeError>,
    ) -> (r: Result<Vec<ReadChunk>, NvmeError>)
        requires
            ends_in_range(old(self).ns, slba, byte_count, dst_va),
        ensures
            match bulk_refused(old(self).ns, slba, byte_count, dst_va) {
                Some(e) => r is Err && r->Err_0 == e && *final(self) == *old(self),
                None => if byte_count > 0 && old(self).prp_list is None && list_page is Err {
                    r is Err && r->Err_0 == list_page->Err_0 && *final(self) == *old(self)
                } else {
                    &&& r is Ok
                    &&& r->Ok_0@ == chunks(
                        old(self).ns.lba_size as int,
                        slba as int,
                        byte_count as nat,
                        dst_va as int,
                    )
                    &&& *final(self) == (NvmeController {
                        prp_list: if byte_count > 0 && old(self).prp_list is None {
                            Some(list_page->Ok_0)
                        } else {
                            old(self).prp_list
                        },
                        ..*old(self)
                    })
                },
            },
    {
        let ns: NamespaceInfo = self.ns;
        match plan_reads(&ns, slba, byte_count, dst_va) {
            Err(e) => Err(e),
            Ok(v) => {
                if byte_count > 0 {
                    match self.ensure_prp_list(list_page) {
                        Err(e) => {
                            return Err(e);
                        },
                        Ok(_) => {},
                    }
                }
                Ok(v)
            },
        }
    }

    /// Prepares the read of `nlb` blocks from block `slba`.
    pub fn read_one(
        &mut self,
        slba: u64,
        nlb: u16,
        buf_phys: Option<u64>,
        plan: Option<PrpPlan>,
        pages: &Vec<Option<u64>>,
    ) -> (r: Result<PreparedRead, NvmeError>)
        requires
            plan matches Some(p) ==> p.list_entries <= pages@.len(),
        ensures
            match read_refused(nlb, buf_phys, plan, pages@) {
                Some(e) => r is Err && r->Err_0 == e && *final(self) == *old(self),
                None => {
                    let p = plan->Some_0;
                    &&& r is Ok
                    &&& r->Ok_0.list@ == Seq::new(
                        p.list_entries as nat,
                        |i: int| pages@[i]->Some_0,
                    )
                    &&& r->Ok_0.command == (NvmeCommand::Read {
                        cid: old(self).next_cid,
                        nsid: old(self).ns.nsid,
                        slba,
                        nlb,
                        prp1: p.prp1,
                        prp2: p.prp2,
                    })
                    &&& *final(self) == (NvmeController {
                        next_cid: cid_after(old(self).next_cid),
                        ..*old(self)
                    })
                },
            },
    {
        if nlb == 0 {
            return Err(NvmeError::OutOfRange);
        }
        match buf_phys {
            None => {
                return Err(NvmeError::BadDmaBuffer);
            },
            Some(b) => {
                proof {
                    bits::lemma_u64(b);
                }
                if b & (NVME_PAGE_SIZE as u64 - 1) != 0 {
                    return Err(NvmeError::BadDmaBuffer);
                }
            },
        }
        let p: PrpPlan = match plan {
            None => {
                return Err(NvmeError::BadDmaBuffer);
            },
            Some(p) => p,
        };
        let mut list: Vec<u64> = Vec::new();
        let mut i: usize = 0;
        while i < p.list_entries
            invariant
                i <= p.list_entries <= pages@.len(),
                list@.len() == i,
                forall|j: int| 0 <= j < i ==> #[trigger] pages@[j] == Some(list@[j]),
                *self == *old(self),
                nlb != 0,
                plan == Some(p),
            decreases p.list_entries - i,
        {
            match pages[i] {
                None => {
                    assert(pages@[i as int] is None);
                    return Err(NvmeError::BadDmaBuffer);
                },
                Some(phys) => {
                    list.push(phys);
                },
            }
            i = i + 1;
        }
        assert(list@ =~= Seq::new(p.list_entries as nat, |i: int| pages@[i]->Some_0));
        let cid: u16 = self.allocate_cid();
        Ok(
            PreparedRead {
                list,
                command: NvmeCommand::Read {
                    cid,
                    nsid: self.ns.nsid,
                    slba,
                    nlb,
                    prp1: p.prp1,
                    prp2: p.prp2,
                },
            },
        )
    }
}

/// Size and place of a namespace that was probed.
#[derive(Clone, Copy, Debug, PartialEq, Eq, Structural)]
pub struct NamespaceProbe {
    pub pci_bus: u8,
    pub pci_device: u8,
    pub pci_function: u8,
    pub nlba: u64,
    pub lba_size: u32,
}

/// Bytes of a namespace, at most what 64 bits hold.
pub open spec fn capacity(nlba: u64, lba_size: u32) -> int {
    if nlba * lba_size > u64::MAX {
        u64::MAX as int
    } else {
        nlba * lba_size
    }
}

impl NamespaceProbe {
    pub fn total_bytes(&self) -> (n: u64)
        ensures
            n == capacity(self.nlba, self.lba_size),
    {
        match self.nlba.checked_mul(self.lba_size as u64) {
            Some(n) => n,
            None => u64::MAX,
        }
    }
}

/// A drive that was brought up: its place among the controllers of the scan,
/// and its namespace.
#[derive(Clone, Copy, Debug, PartialEq, Eq, Structural)]
pub struct ProbedController {
    pub controller: usize,
    pub probe: NamespaceProbe,
}

/// A drive that could not be used.
#[derive(Clone, Copy, Debug, PartialEq, Eq, Structural)]
pub struct ProbeFailure {
    pub bus: u8,
    pub device: u8,
    pub function: u8,
    pub err: NvmeError,
}

/// What the first block of a drive starts with.
#[derive(Clone, Copy, Debug, PartialEq, Eq, Structural)]
pub enum ModelDiskMagic {
    Gguf,
    Smodel,
    Other,
}

impl ModelDiskMagic {
    pub open spec fn supported(self) -> bool {
        self is Gguf || self is Smodel
    }

    pub fn is_supported(self) -> (b: bool)
        ensures
            b == self.supported(),
    {
        match self {
            ModelDiskMagic::Gguf => true,
            ModelDiskMagic::Smodel => true,
            ModelDiskMagic::Other => false,
        }
    }

    pub fn label(self) -> (l: &'static str)
        ensures
            l@ == (match self {
                ModelDiskMagic::Gguf => "GGUF"@,
                ModelDiskMagic::Smodel => "SILM"@,
                ModelDiskMagic::Other => "unknown"@,
            }),
    {
        match self {
            ModelDiskMagic::Gguf => "GGUF",
            ModelDiskMagic::Smodel => "SILM",
            ModelDiskMagic::Other => "unknown",
        }
    }
}

/// "GGUF"
pub open spec fn gguf_magic() -> Seq<u8> {
    seq![0x47u8, 0x47u8, 0x55u8, 0x46u8]
}

/// "SILM"
pub open spec fn smodel_magic() -> Seq<u8> {
    seq![0x53u8, 0x49u8, 0x4Cu8, 0x4Du8]
}

pub open spec fn magic_of(first: Seq<u8>) -> ModelDiskMagic {
    if first.take(4) == gguf_magic() {
        ModelDiskMagic::Gguf
    } else if first.take(4) == smodel_magic() {
        ModelDiskMagic::Smodel
    } else {
        ModelDiskMagic::Other
    }
}

/// The marker at the start of a block.
pub fn disk_magic(first: &[u8]) -> (m: ModelDiskMagic)
    requires
        first@.len() >= 4,
    ensures
        m == magic_of(first@),
{
    let ghost t = first@.take(4);
    assert(t =~= seq![first@[0], first@[1], first@[2], first@[3]]);
    assert(gguf_magic()[0] == 0x47 && gguf_magic()[1] == 0x47 && gguf_magic()[2] == 0x55
        && gguf_magic()[3] == 0x46);
    assert(smodel_magic()[0] == 0x53 && smodel_magic()[1] == 0x49 && smodel_magic()[2] == 0x4C
        && smodel_magic()[3] == 0x4D);
    if first[0] == 0x47 && first[1] == 0x47 && first[2] == 0x55 && first[3] == 0x46 {
        assert(t =~= gguf_magic());
        ModelDiskMagic::Gguf
    } else if first[0] == 0x53 && first[1] == 0x49 && first[2] == 0x4C && first[3] == 0x4D {
        assert(t =~= smodel_magic());
        ModelDiskMagic::Smodel
    } else {
        ModelDiskMagic::Other
    }
}

/// The marker at the start of a drive with block size `lba_size`, from a page
/// that was allocated for it and the result of reading 4 KiB into it.
pub fn probe_model_magic(
    lba_size: u32,
    page: Result<DmaPage, NvmeError>,
    read: Result<(), NvmeError>,
    first: &[u8],
) -> (r: Result<ModelDiskMagic, NvmeError>)
    requires
        first@.len() >= 4,
    ensures
        r == (if lba_size == 0 {
            Err(NvmeError::BadIdentify)
        } else {
            match (page, read) {
                (Err(e), _) => Err(e),
                (Ok(_), _) if 4096u32 % lba_size != 0 => Err(NvmeError::OutOfRange),
                (Ok(_), Err(e)) => Err(e),
                (Ok(_), Ok(_)) => Ok(magic_of(first@)),
            }
        }),
{
    if lba_size == 0 {
        return Err(NvmeError::BadIdentify);
    }
    match page {
        Err(e) => {
            return Err(e);
        },
        Ok(_) => {},
    }
    if 4096 % lba_size != 0 {
        return Err(NvmeError::OutOfRange);
    }
    match read {
        Err(e) => {
            return Err(e);
        },
        Ok(_) => {},
    }
    Ok(disk_magic(first))
}

/// Whether a drive holds a raw GGUF model, from what its probe found.
pub fn probe_gguf_magic(probe: Result<ModelDiskMagic, NvmeError>) -> (r: Result<bool, NvmeError>)
    ensures
        r == (match probe {
            Ok(m) => Ok(m is Gguf),
            Err(e) => Err(e),
        }),
{
    match probe {
        Ok(ModelDiskMagic::Gguf) => Ok(true),
        Ok(_) => Ok(false),
        Err(e) => Err(e),
    }
}

/// What bring-up and the marker probe of one drive gave. The marker counts only
/// where bring-up succeeded.
#[derive(Clone, Copy, Debug)]
pub struct DriveOutcome {
    pub bound: Result<NamespaceInfo, NvmeError>,
    pub magic: Result<ModelDiskMagic, NvmeError>,
}

pub open spec fn probe_of(d: PciDevice, ns: NamespaceInfo) -> NamespaceProbe {
    NamespaceProbe {
        pci_bus: d.bus,
        pci_device: d.device,
        pci_function: d.function,
        nlba: ns.nlba,
        lba_size: ns.lba_size,
    }
}

fn probe_from(d: &PciDevice, ns: &NamespaceInfo) -> (p: NamespaceProbe)
    ensures
        p == probe_of(*d, *ns),
{
    NamespaceProbe {
        pci_bus: d.bus,
        pci_device: d.device,
        pci_function: d.function,
        nlba: ns.nlba,
        lba_size: ns.lba_size,
    }
}

/// `i` is the first candidate of the largest size. A size of none is no candidate.
pub open spec fn first_largest(sizes: Seq<Option<int>>, i: int) -> bool {
    &&& 0 <= i < sizes.len()
    &&& sizes[i] is Some
    &&& forall|j: int|
        0 <= j < sizes.len() && (#[trigger] sizes[j]) is Some ==> sizes[j]->Some_0
            <= sizes[i]->Some_0
    &&& forall|j: int|
        0 <= j < i && (#[trigger] sizes[j]) is Some ==> sizes[j]->Some_0 < sizes[i]->Some_0
}

/// No candidate at all.
pub open spec fn none_sized(sizes: Seq<Option<int>>) -> bool {
    forall|j: int| 0 <= j < sizes.len() ==> (#[trigger] sizes[j]) is None
}

/// The pick among the first drives: none, or the first of the largest size.
pub open spec fn picked(
    best: Option<ProbedController>,
    cs: Seq<PciDevice>,
    nss: Seq<NamespaceInfo>,
    sizes: Seq<Option<int>>,
) -> bool {
    match best {
        None => none_sized(sizes),
        Some(p) => first_largest(sizes, p.controller as int) && p.probe == probe_of(
            cs[p.controller as int],
            nss[p.controller as int],
        ),
    }
}

/// The failures of the first drives, in order.
pub open spec fn failure_of(d: PciDevice, e: NvmeError) -> ProbeFailure {
    ProbeFailure { bus: d.bus, device: d.device, function: d.function, err: e }
}

/// The namespace of a drive that came up; anything for one that did not.
pub open spec fn ns_of(o: Result<NamespaceInfo, NvmeError>) -> NamespaceInfo {
    match o {
        Ok(n) => n,
        Err(_) => NamespaceInfo { nsid: 0, nlba: 0, lba_size: 0 },
    }
}

pub open spec fn bound_sizes(outs: Seq<Result<NamespaceInfo, NvmeError>>) -> Seq<Option<int>> {
    Seq::new(
        outs.len(),
        |i: int|
            match outs[i] {
                Ok(n) => Some(capacity(n.nlba, n.lba_size)),
                Err(_) => None,
            },
    )
}

pub open spec fn bound_failures(
    cs: Seq<PciDevice>,
    outs: Seq<Result<NamespaceInfo, NvmeError>>,
) -> Seq<ProbeFailure>
    decreases outs.len(),
{
    if outs.len() == 0 {
        Seq::empty()
    } else {
        let before = bound_failures(cs, outs.drop_last());
        match outs.last() {
            Ok(_) => before,
            Err(e) => before.push(failure_of(cs[outs.len() - 1], e)),
        }
    }
}

/// At most `cap` failures.
pub open spec fn cut(fs: Seq<ProbeFailure>, cap: int) -> Seq<ProbeFailure> {
    if fs.len() <= cap {
        fs
    } else {
        fs.take(cap)
    }
}

fn note_failure(log: &mut Vec<ProbeFailure>, cap: usize, d: &PciDevice, e: NvmeError)
    requires
        old(log)@.len() <= cap,
    ensures
        final(log)@.len() <= cap,
        final(log)@ == cut(old(log)@.push(failure_of(*d, e)), cap as int),
{
    if log.len() < cap {
        log.push(ProbeFailure { bus: d.bus, device: d.device, function: d.function, err: e });
    } else {
        assert(log@.push(failure_of(*d, e)).take(cap as int) =~= log@);
    }
}

proof fn lemma_cut_push(fs: Seq<ProbeFailure>, f: ProbeFailure, cap: int)
    requires
        cap >= 0,
    ensures
        cut(cut(fs, cap).push(f), cap) == cut(fs.push(f), cap),
{
    if fs.len() > cap {
        assert(cut(fs, cap).push(f).take(cap) =~= fs.take(cap));
        assert(fs.push(f).take(cap) =~= fs.take(cap));
    }
}

/// Whether a size beats the pick so far.
fn beats(best: &Option<ProbedController>, bytes: u64) -> (b: bool)
    ensures
        b == (match *best {
            None => true,
            Some(p) => bytes > capacity(p.probe.nlba, p.probe.lba_size),
        }),
{
    match best {
        None => true,
        Some(p) => bytes > p.probe.total_bytes(),
    }
}

/// The pick and the failures of a drive search.
pub struct DriveChoice {
    pub best: Result<ProbedController, NvmeError>,
    pub failures: Vec<ProbeFailure>,
}

/// The pick among the drives `cs` by what bring-up gave: the one with the largest
/// namespace, the earliest of them on a tie; none only where none came up.
pub open spec fn largest_result(
    best: Result<ProbedController, NvmeError>,
    cs: Seq<PciDevice>,
    outs: Seq<Result<NamespaceInfo, NvmeError>>,
) -> bool {
    match best {
        Ok(p) => picked(
            Some(p),
            cs,
            outs.map_values(|o: Result<NamespaceInfo, NvmeError>| ns_of(o)),
            bound_sizes(outs),
        ),
        Err(e) => e == NvmeError::ControllerNotFound && none_sized(bound_sizes(outs)),
    }
}

/// Picks the drive with the largest namespace, the earliest of them on a tie.
/// `outcomes[i]` is what bring-up of controller `i` of the scan gave. At most
/// `failure_cap` failures are kept.
pub fn bind_largest_data_drive(
    scan: &PciScan,
    outcomes: &Vec<Result<NamespaceInfo, NvmeError>>,
    failure_cap: usize,
) -> (r: DriveChoice)
    requires
        outcomes@.len() == controllers(scan.devices@).len(),
    ensures
        largest_result(r.best, controllers(scan.devices@), outcomes@),
        r.failures@ == cut(
            bound_failures(controllers(scan.devices@), outcomes@),
            failure_cap as int,
        ),
{
    let cs: Vec<PciDevice> = nvme_controllers(scan);
    let mut best: Option<ProbedController> = None;
    let mut failures: Vec<ProbeFailure> = Vec::new();
    let ghost nss = outcomes@.map_values(|o: Result<NamespaceInfo, NvmeError>| ns_of(o));
    let mut i: usize = 0;
    while i < outcomes.len()
        invariant
            i <= outcomes@.len(),
            outcomes@.len() == cs@.len(),
            cs@ == controllers(scan.devices@),
            nss == outcomes@.map_values(|o: Result<NamespaceInfo, NvmeError>| ns_of(o)),
            failures@.len() <= failure_cap,
            failures@ == cut(bound_failures(cs@, outcomes@.take(i as int)), failure_cap as int),
            picked(best, cs@, nss, bound_sizes(outcomes@.take(i as int))),
        decreases outcomes@.len() - i,
    {
        let ghost sizes0 = bound_sizes(outcomes@.take(i as int));
        let ghost sizes1 = bound_sizes(outcomes@.take(i + 1));
        proof {
            assert(outcomes@.take(i + 1).drop_last() =~= outcomes@.take(i as int));
            assert forall|j: int| 0 <= j < i implies sizes1[j] == sizes0[j] by {}
        }
        match outcomes[i] {
            Ok(ns) => {
                let probe = probe_from(&cs[i], &ns);
                let bytes: u64 = probe.total_bytes();
                assert(sizes1[i as int] == Some(bytes as int));
                let ghost prev = best;
                if beats(&best, bytes) {
                    best = Some(ProbedController { controller: i, probe });
                }
                proof {
                    lemma_pick_step(prev, best, cs@, nss, sizes0, sizes1, i as int, bytes as int);
                }
            },
            Err(e) => {
                proof {
                    lemma_cut_push(
                        bound_failures(cs@, outcomes@.take(i as int)),
                        failure_of(cs@[i as int], e),
                        failure_cap as int,
                    );
                    assert(sizes1[i as int] is None);
                    lemma_pick_skip(best, cs@, nss, sizes0, sizes1, i as int);
                }
                note_failure(&mut failures, failure_cap, &cs[i], e);
            },
        }
        i = i + 1;
    }
    assert(outcomes@.take(i as int) =~= outcomes@);
    match best {
        Some(p) => DriveChoice { best: Ok(p), failures },
        None => DriveChoice { best: Err(NvmeError::ControllerNotFound), failures },
    }
}

proof fn lemma_pick_step(
    prev: Option<ProbedController>,
    next: Option<ProbedController>,
    cs: Seq<PciDevice>,
    nss: Seq<NamespaceInfo>,
    sizes0: Seq<Option<int>>,
    sizes1: Seq<Option<int>>,
    i: int,
    bytes: int,
)
    requires
        0 <= i < cs.len(),
        i <= usize::MAX,
        sizes0.len() == i,
        sizes1.len() == i + 1,
        forall|j: int| 0 <= j < i ==> sizes1[j] == sizes0[j],
        sizes1[i] == Some(bytes),
        picked(prev, cs, nss, sizes0),
        prev matches Some(p) ==> sizes0[p.controller as int] == Some(
            capacity(p.probe.nlba, p.probe.lba_size),
        ),
        next == (if prev is None || bytes > capacity(
            prev->Some_0.probe.nlba,
            prev->Some_0.probe.lba_size,
        ) {
            Some(ProbedController { controller: i as usize, probe: probe_of(cs[i], nss[i]) })
        } else {
            prev
        }),
    ensures
        picked(next, cs, nss, sizes1),
{
    assert forall|j: int| 0 <= j < sizes1.len() && (#[trigger] sizes1[j]) is Some implies
        sizes1[j]->Some_0 <= sizes1[next->Some_0.controller as int]->Some_0 by {
        if j < i {
            assert(sizes1[j] == sizes0[j]);
        }
    }
    assert forall|j: int|
        0 <= j < next->Some_0.controller && (#[trigger] sizes1[j]) is Some implies
        sizes1[j]->Some_0 < sizes1[next->Some_0.controller as int]->Some_0 by {
        assert(sizes1[j] == sizes0[j]);
    }
}

proof fn lemma_pick_skip(
    best: Option<ProbedController>,
    cs: Seq<PciDevice>,
    nss: Seq<NamespaceInfo>,
    sizes0: Seq<Option<int>>,
    sizes1: Seq<Option<int>>,
    i: int,
)
    requires
        sizes0.len() == i,
        sizes1.len() == i + 1,
        forall|j: int| 0 <= j < i ==> sizes1[j] == sizes0[j],
        sizes1[i] is None,
        picked(best, cs, nss, sizes0),
    ensures
        picked(best, cs, nss, sizes1),
{
    assert forall|j: int| 0 <= j < sizes1.len() && best is None implies (
    #[trigger] sizes1[j]) is None by {
        if j < i {
            assert(sizes1[j] == sizes0[j]);
        }
    }
    assert forall|j: int|
        best is Some && 0 <= j < sizes1.len() && (#[trigger] sizes1[j]) is Some implies
        sizes1[j]->Some_0 <= sizes1[best->Some_0.controller as int]->Some_0 by {
        assert(sizes1[j] == sizes0[j]);
    }
    assert forall|j: int|
        best is Some && 0 <= j < best->Some_0.controller && (#[trigger] sizes1[j]) is Some implies
        sizes1[j]->Some_0 < sizes1[best->Some_0.controller as int]->Some_0 by {
        assert(sizes1[j] == sizes0[j]);
    }
}

/// How far the search for the model drive is.
pub enum DriveSearch {
    /// Bring up this controller and probe its marker next.
    Next(PciDevice),
    Finished(DriveChoice),
}

/// What bring-up of the drives gave, as [`bind_largest_data_drive`] takes it.
pub open spec fn bound_of(outs: Seq<DriveOutcome>) -> Seq<Result<NamespaceInfo, NvmeError>> {
    outs.map_values(|o: DriveOutcome| o.bound)
}

/// The sizes of the drives that came up, whatever the probe of the marker gave:
/// the candidates for the fallback.
pub open spec fn fallback_sizes(outs: Seq<DriveOutcome>) -> Seq<Option<int>> {
    bound_sizes(bound_of(outs))
}

/// Drive `o` came up and carries a supported marker.
pub open spec fn is_model_drive(o: DriveOutcome) -> bool {
    o.bound is Ok && (o.magic matches Ok(m) && m.supported())
}

/// The failures of bring-up and of the marker probe, in order.
pub open spec fn search_failures(cs: Seq<PciDevice>, outs: Seq<DriveOutcome>) -> Seq<ProbeFailure>
    decreases outs.len(),
{
    if outs.len() == 0 {
        Seq::empty()
    } else {
        let before = search_failures(cs, outs.drop_last());
        match (outs.last().bound, outs.last().magic) {
            (Err(e), _) => before.push(failure_of(cs[outs.len() - 1], e)),
            (Ok(_), Err(e)) => before.push(failure_of(cs[outs.len() - 1], e)),
            _ => before,
        }
    }
}

pub open spec fn search_namespaces(outs: Seq<DriveOutcome>) -> Seq<NamespaceInfo> {
    outs.map_values(|o: DriveOutcome| ns_of(o.bound))
}

/// What the search says after the outcomes `outs` of the first controllers: the
/// first model drive wins at once; without one, the search goes on to the next
/// controller; at the end the fallback is the largest drive that came up.
pub open spec fn search_result(
    r: DriveSearch,
    cs: Seq<PciDevice>,
    outs: Seq<DriveOutcome>,
    cap: int,
) -> bool {
    if exists|i: int| 0 <= i < outs.len() && is_model_drive(#[trigger] outs[i]) {
        &&& r is Finished
        &&& r->Finished_0.best matches Ok(p) && {
            let i = p.controller as int;
            &&& 0 <= i < outs.len()
            &&& is_model_drive(outs[i])
            &&& forall|j: int| 0 <= j < i ==> !is_model_drive(#[trigger] outs[j])
            &&& p.probe == probe_of(cs[i], ns_of(outs[i].bound))
            &&& r->Finished_0.failures@ == cut(search_failures(cs, outs.take(i)), cap)
        }
    } else if outs.len() < cs.len() {
        r == DriveSearch::Next(cs[outs.len() as int])
    } else {
        &&& r is Finished
        &&& r->Finished_0.failures@ == cut(search_failures(cs, outs), cap)
        &&& match r->Finished_0.best {
            Ok(p) => picked(Some(p), cs, search_namespaces(outs), fallback_sizes(outs)),
            Err(e) => e == NvmeError::ControllerNotFound && none_sized(fallback_sizes(outs)),
        }
    }
}

/// Searches the drives of the scan for the one that carries a model.
/// `outcomes[i]` is what controller `i` gave, for the controllers tried so far.
pub fn bind_model_data_drive(
    scan: &PciScan,
    outcomes: &Vec<DriveOutcome>,
    failure_cap: usize,
) -> (r: DriveSearch)
    requires
        outcomes@.len() <= controllers(scan.devices@).len(),
    ensures
        search_result(r, controllers(scan.devices@), outcomes@, failure_cap as int),
{
    let cs: Vec<PciDevice> = nvme_controllers(scan);
    let mut fallback: Option<ProbedController> = None;
    let mut failures: Vec<ProbeFailure> = Vec::new();
    let ghost nss = search_namespaces(outcomes@);
    let mut i: usize = 0;
    while i < outcomes.len()
        invariant
            i <= outcomes@.len() <= cs@.len(),
            cs@ == controllers(scan.devices@),
            nss == search_namespaces(outcomes@),
            failures@.len() <= failure_cap,
            failures@ == cut(search_failures(cs@, outcomes@.take(i as int)), failure_cap as int),
            picked(fallback, cs@, nss, fallback_sizes(outcomes@.take(i as int))),
            forall|j: int| 0 <= j < i ==> !is_model_drive(#[trigger] outcomes@[j]),
        decreases outcomes@.len() - i,
    {
        let ghost sizes0 = fallback_sizes(outcomes@.take(i as int));
        let ghost sizes1 = fallback_sizes(outcomes@.take(i + 1));
        let ghost fails = search_failures(cs@, outcomes@.take(i as int));
        proof {
            assert(outcomes@.take(i + 1).drop_last() =~= outcomes@.take(i as int));
            assert forall|j: int| 0 <= j < i implies sizes1[j] == sizes0[j] by {}
        }
        let o: DriveOutcome = outcomes[i];
        match o.bound {
            Err(e) => {
                proof {
                    lemma_cut_push(fails, failure_of(cs@[i as int], e), failure_cap as int);
                    assert(sizes1[i as int] is None);
                    lemma_pick_skip(fallback, cs@, nss, sizes0, sizes1, i as int);
                }
                note_failure(&mut failures, failure_cap, &cs[i], e);
            },
            Ok(ns) => {
                let probe = probe_from(&cs[i], &ns);
                let bytes: u64 = probe.total_bytes();
                match o.magic {
                    Ok(kind) => {
                        if kind.is_supported() {
                            assert(is_model_drive(outcomes@[i as int]));
                            return DriveSearch::Finished(
                                DriveChoice {
                                    best: Ok(ProbedController { controller: i, probe }),
                                    failures,
                                },
                            );
                        }
                    },
                    Err(e) => {
                        proof {
                            lemma_cut_push(fails, failure_of(cs@[i as int], e), failure_cap as int);
                        }
                        note_failure(&mut failures, failure_cap, &cs[i], e);
                    },
                }
                assert(sizes1[i as int] == Some(bytes as int));
                let ghost prev = fallback;
                if beats(&fallback, bytes) {
                    fallback = Some(ProbedController { controller: i, probe });
                }
                proof {
                    lemma_pick_step(
                        prev,
                        fallback,
                        cs@,
                        nss,
                        sizes0,
                        sizes1,
                        i as int,
                        bytes as int,
                    );
                }
            },
        }
        i = i + 1;
    }
    assert(outcomes@.take(i as int) =~= outcomes@);
    if i < cs.len() {
        return DriveSearch::Next(cs[i]);
    }
    match fallback {
        Some(p) => DriveSearch::Finished(DriveChoice { best: Ok(p), failures }),
        None => DriveSearch::Finished(
            DriveChoice { best: Err(NvmeError::ControllerNotFound), failures },
        ),
    }
}

/// Where no drive carries a marker and all were tried, the search gives the answer of
/// [`bind_largest_data_drive`]: both fix the same drive, and both find none exactly
/// where none came up.
pub proof fn lemma_fallback_is_largest(
    r: DriveSearch,
    largest: Result<ProbedController, NvmeError>,
    cs: Seq<PciDevice>,
    outs: Seq<DriveOutcome>,
    cap: int,
)
    requires
        outs.len() == cs.len(),
        forall|i: int| 0 <= i < outs.len() ==> !is_model_drive(#[trigger] outs[i]),
        search_result(r, cs, outs, cap),
        largest_result(largest, cs, bound_of(outs)),
    ensures
        r is Finished,
        r->Finished_0.best == largest,
        largest is Err <==> forall|i: int| 0 <= i < outs.len() ==> (#[trigger] outs[i]).bound is Err,
{
    let b = bound_of(outs);
    assert(search_namespaces(outs) =~= b.map_values(
        |o: Result<NamespaceInfo, NvmeError>| ns_of(o),
    ));
    let sizes = bound_sizes(b);
    let best = r->Finished_0.best;
    assert forall|i: int| 0 <= i < outs.len() implies (sizes[i] is None <==> (
    #[trigger] outs[i]).bound is Err) by {}
    match (best, largest) {
        (Ok(p), Ok(q)) => {
            let i = p.controller as int;
            let j = q.controller as int;
            assert(sizes[i]->Some_0 <= sizes[j]->Some_0);
            assert(sizes[j]->Some_0 <= sizes[i]->Some_0);
            assert(i == j);
        },
        (Ok(p), Err(_)) => {
            assert(sizes[p.controller as int] is None);
        },
        (Err(_), Ok(q)) => {
            assert(sizes[q.controller as int] is None);
        },
        (Err(_), Err(_)) => {},
    }
    if largest is Ok {
        assert(outs[largest->Ok_0.controller as int].bound is Ok);
    } else {
        assert forall|i: int| 0 <= i < outs.len() implies (#[trigger] outs[i]).bound is Err by {
            assert(sizes[i] is None);
        }
    }
}

/// The same search under its older name.
pub fn bind_gguf_data_drive(
    scan: &PciScan,
    outcomes: &Vec<DriveOutcome>,
    failure_cap: usize,
) -> (r: DriveSearch)
    requires
        outcomes@.len() <= controllers(scan.devices@).len(),
    ensures
        search_result(r, controllers(scan.devices@), outcomes@, failure_cap as int),
{
    bind_model_data_drive(scan, outcomes, failure_cap)
}

/// The answers of a controller that does everything asked of it: it was stopped
/// before, its registers map, its pages are at hand, its commands succeed.
pub open spec fn healthy(
    a: BindAnswers,
    cap: Capabilities,
    admin: (DmaPage, DmaPage),
    io: (DmaPage, DmaPage),
    ident: DmaPage,
    bar0: u64,
    nlba: u64,
    lba_size: u32,
) -> bool {
    &&& a.command is Some
    &&& a.bar0 == Some(Some(bar0))
    &&& a.mapped == Some(true)
    &&& a.cap == Some(cap)
    &&& cap.min_page_size <= NVME_PAGE_SIZE && cap.dstrd <= 15
    &&& a.config matches Some(cc) && (cc & 1 != 0 ==> a.disabled == Some(true))
    &&& a.admin_sq == Some(Ok::<DmaPage, NvmeError>(admin.0))
    &&& a.admin_cq == Some(Ok::<DmaPage, NvmeError>(admin.1))
    &&& a.enabled == Some(true)
    &&& a.ident == Some(Ok::<DmaPage, NvmeError>(ident))
    &&& a.ident_controller == Some(Ok::<(), NvmeError>(()))
    &&& a.io_sq == Some(Ok::<DmaPage, NvmeError>(io.0))
    &&& a.io_cq == Some(Ok::<DmaPage, NvmeError>(io.1))
    &&& a.create_cq == Some(Ok::<(), NvmeError>(()))
    &&& a.create_sq == Some(Ok::<(), NvmeError>(()))
    &&& a.ident_namespace == Some(Ok::<(), NvmeError>(()))
    &&& a.namespace == Some(Some((nlba, lba_size)))
}

/// A healthy controller always comes up, with the namespace it reported, the
/// admin rings four commands on, and fresh I/O rings on the pages it was given.
pub proof fn lemma_healthy_binds(
    a: BindAnswers,
    cap: Capabilities,
    admin: (DmaPage, DmaPage),
    io: (DmaPage, DmaPage),
    ident: DmaPage,
    bar0: u64,
    nlba: u64,
    lba_size: u32,
    admin_depth: u16,
    io_depth: u16,
)
    requires
        healthy(a, cap, admin, io, ident, bar0, nlba, lba_size),
        admin_depth > 0,
        io_depth > 0,
    ensures
        bind_view(a, admin_depth, io_depth) == BindView::Ready(
            NvmeController {
                bar0_phys: bar0,
                cap,
                adminq: after_commands(fresh_queue(0, admin_depth, admin.0, admin.1), 4),
                ioq: fresh_queue(IO_QID, io_depth, io.0, io.1),
                next_cid: 5,
                ns: NamespaceInfo { nsid: MODEL_NSID, nlba, lba_size },
                prp_list: None,
            },
        ),
{
    lemma_stride_values();
    lemma_stride_grows(cap.dstrd as nat, 15);
    let step = stride(cap.dstrd as nat);
    assert((2 * 1int + 1) * step == 3 * step) by (nonlinear_arith);
}

/// Bring-up never ends in success unless both queue-creation commands and both
/// identify commands succeeded, and the completion queue was created before the
/// submission queue was asked for.
pub proof fn lemma_ready_means_created(a: BindAnswers, admin_depth: u16, io_depth: u16)
    ensures
        bind_view(a, admin_depth, io_depth) is Ready ==> {
            &&& a.ident_controller matches Some(Ok(_))
            &&& a.create_cq matches Some(Ok(_))
            &&& a.create_sq matches Some(Ok(_))
            &&& a.ident_namespace matches Some(Ok(_))
            &&& a.enabled == Some(true)
        },
        bind_view(a, admin_depth, io_depth) matches BindView::Ask(_, q) ==> (
        q matches BindQuery::Admin { command, .. } ==> (command is CreateIoSq ==> (a.create_cq matches Some(
            Ok(_),
        )))),
{
}

/// Admin commands that were answered.
pub open spec fn commands_done(a: BindAnswers) -> nat {
    (if a.ident_controller is Some {
        1nat
    } else {
        0
    }) + (if a.create_cq is Some {
        1nat
    } else {
        0
    }) + (if a.create_sq is Some {
        1nat
    } else {
        0
    }) + (if a.ident_namespace is Some {
        1nat
    } else {
        0
    })
}

/// The answer to a query is still missing.
pub open spec fn unanswered(a: BindAnswers, q: BindQuery) -> bool {
    match q {
        BindQuery::Command => a.command is None,
        BindQuery::Bar0 => a.bar0 is None,
        BindQuery::MapRegisters { .. } => a.mapped is None,
        BindQuery::Cap => a.cap is None,
        BindQuery::Config => a.config is None,
        BindQuery::WaitDisabled { .. } => a.disabled is None,
        BindQuery::Page => a.admin_sq is None || a.admin_cq is None || a.ident is None || a.io_sq
            is None || a.io_cq is None,
        BindQuery::WaitEnabled { .. } => a.enabled is None,
        BindQuery::Admin { queue, command } => match command {
            NvmeCommand::IdentifyController { .. } => a.ident_controller is None,
            NvmeCommand::CreateIoCq { .. } => a.create_cq is None,
            NvmeCommand::CreateIoSq { .. } => a.create_sq is None,
            NvmeCommand::IdentifyNamespace { .. } => a.ident_namespace is None,
            _ => false,
        },
        BindQuery::Namespace { .. } => a.namespace is None,
    }
}

/// The answers so far came one by one: an admin command is answered only where those
/// before it are.
pub open spec fn in_turn(a: BindAnswers) -> bool {
    &&& a.create_cq is Some ==> a.ident_controller is Some
    &&& a.create_sq is Some ==> a.create_cq is Some
    &&& a.ident_namespace is Some ==> a.create_sq is Some
}

/// The controller is not running: it never was, or it stopped.
pub open spec fn known_stopped(a: BindAnswers) -> bool {
    a.config matches Some(cc) && (cc & 1 == 0 || a.disabled == Some(true))
}

/// Every question that bring-up puts is a new one, so it ends. The controller is enabled
/// only while it is stopped, after its completion queue was cleared and its queues were
/// set. Each admin command stands on the queue made of the pages that were given, behind
/// the commands before it, with a number of its own; the completion queue of the I/O
/// pair is cleared and created before its submission queue, which names it.
pub proof fn lemma_bring_up_order(a: BindAnswers, admin_depth: u16, io_depth: u16)
    requires
        in_turn(a),
    ensures
        bind_view(a, admin_depth, io_depth) matches BindView::Ask(writes, q) ==> {
            &&& unanswered(a, q)
            &&& forall|i: int|
                0 <= i < writes.len() ==> match #[trigger] writes[i] {
                    BindWrite::Command(c) => a.command matches Some(cmd) && c == cmd | 6 && c != cmd
                        && a.bar0 is None,
                    BindWrite::Config(c) => a.config matches Some(cc) && cc & 1 != 0 && c == cc
                        & !1u32 && q is WaitDisabled,
                    BindWrite::ZeroPage(p) => a.admin_cq == Some(Ok::<DmaPage, NvmeError>(p))
                        && q is WaitEnabled || a.io_cq == Some(Ok::<DmaPage, NvmeError>(p)) && (
                    q matches BindQuery::Admin { command, .. } && command is CreateIoCq),
                    BindWrite::AdminQueues { depth, sq_phys, cq_phys } => {
                        &&& depth == admin_depth
                        &&& a.admin_sq matches Some(Ok(sq)) && sq.phys == sq_phys
                        &&& a.admin_cq matches Some(Ok(cq)) && cq.phys == cq_phys
                    },
                    BindWrite::Enable { mpsmin } => {
                        &&& q is WaitEnabled
                        &&& known_stopped(a)
                        &&& a.cap matches Some(cap) && cap.mpsmin == mpsmin
                        &&& i == 2 && writes[0] is ZeroPage && writes[1] is AdminQueues
                    },
                }
            &&& q matches BindQuery::WaitDisabled { timeout_ms } ==> a.cap matches Some(cap)
                && timeout_ms == (cap.enable_timeout_ms + 1000) as u64 && writes.len() == 1
                && writes[0] is Config
            &&& q matches BindQuery::WaitEnabled { timeout_ms } ==> a.cap matches Some(cap)
                && timeout_ms == (cap.enable_timeout_ms + 1000) as u64 && writes.len() == 3
                && writes[2] is Enable
            &&& q is Bar0 ==> (a.command matches Some(cmd) && (cmd & 6 != 6 ==> writes.len() == 1))
            &&& q matches BindQuery::MapRegisters { phys, bytes } ==> a.bar0 == Some(Some(phys))
                && bytes == BAR0_MMIO_BYTES
            &&& q matches BindQuery::Namespace { page } ==> a.ident == Some(
                Ok::<DmaPage, NvmeError>(page),
            )
            &&& q matches BindQuery::Admin { queue, command } ==> {
                &&& a.enabled == Some(true)
                &&& a.admin_sq matches Some(Ok(sq)) && a.admin_cq matches Some(Ok(cq)) && queue
                    == after_commands(fresh_queue(0, admin_depth, sq, cq), commands_done(a))
                &&& match command {
                    NvmeCommand::IdentifyController { cid, data_phys } => cid == commands_done(a)
                        + 1 && (a.ident matches Some(Ok(p)) && p.phys == data_phys),
                    NvmeCommand::CreateIoCq { cid, qid, depth, phys } => {
                        &&& cid == commands_done(a) + 1
                        &&& qid == IO_QID && depth == io_depth
                        &&& a.io_cq matches Some(Ok(p)) && p.phys == phys && writes == seq![
                            BindWrite::ZeroPage(p),
                        ]
                    },
                    NvmeCommand::CreateIoSq { cid, qid, depth, phys, cqid } => {
                        &&& cid == commands_done(a) + 1
                        &&& qid == IO_QID && cqid == IO_QID && depth == io_depth
                        &&& a.io_sq matches Some(Ok(p)) && p.phys == phys
                        &&& a.create_cq matches Some(Ok(_))
                    },
                    NvmeCommand::IdentifyNamespace { cid, nsid, data_phys } => cid == commands_done(
                        a,
                    ) + 1 && nsid == MODEL_NSID && (a.ident matches Some(Ok(p)) && p.phys
                        == data_phys),
                    _ => false,
                }
            }
        },
{
    if let Some(cmd) = a.command {
        assert(cmd & 6 != 6 ==> cmd | 6 != cmd) by (bit_vector);
        assert(cmd | 0x0006 == cmd | 6);
    }
}

/// Some step was answered with the error.
pub open spec fn answered_with(a: BindAnswers, e: NvmeError) -> bool {
    ||| a.admin_sq == Some(Err::<DmaPage, NvmeError>(e))
    ||| a.admin_cq == Some(Err::<DmaPage, NvmeError>(e))
    ||| a.ident == Some(Err::<DmaPage, NvmeError>(e))
    ||| a.io_sq == Some(Err::<DmaPage, NvmeError>(e))
    ||| a.io_cq == Some(Err::<DmaPage, NvmeError>(e))
    ||| a.ident_controller == Some(Err::<(), NvmeError>(e))
    ||| a.create_cq == Some(Err::<(), NvmeError>(e))
    ||| a.create_sq == Some(Err::<(), NvmeError>(e))
    ||| a.ident_namespace == Some(Err::<(), NvmeError>(e))
}

/// Bring-up fails only for a reason that an answer gave, and with the error of that
/// reason.
pub proof fn lemma_bring_up_failures(a: BindAnswers, admin_depth: u16, io_depth: u16)
    ensures
        bind_view(a, admin_depth, io_depth) matches BindView::Failed(e) ==> {
            ||| answered_with(a, e)
            ||| e == NvmeError::Bar0Invalid && a.bar0 == Some(None::<u64>)
            ||| e == NvmeError::MmioMapFailed && a.mapped == Some(false)
            ||| e == NvmeError::UnsupportedPageSize && (a.cap matches Some(cap) && (
            cap.min_page_size > NVME_PAGE_SIZE || cap.dstrd > 15 || cq_doorbell(
                IO_QID as int,
                cap.dstrd as nat,
            ) + 4 > BAR0_MMIO_BYTES))
            ||| e == NvmeError::ControllerDisableTimeout && a.disabled == Some(false) && (
            a.config matches Some(cc) && cc & 1 != 0)
            ||| e == NvmeError::ControllerEnableTimeout && a.enabled == Some(false)
            ||| e == NvmeError::BadIdentify && a.namespace == Some(None::<(u64, u32)>)
        },
{
}

} // verus!
