//! Finding the I/O memory management units that firmware reports, and turning
//! their translation off.

use crate::arch::x86_64::acpi;
use crate::arch::x86_64::acpi::{find_table, root_table, AcpiError};
use crate::arch::x86_64::phys::PhysMem;
use crate::bytes;
use crate::bytes::{u16_le, u32_le, u64_le};
use crate::text;
use crate::text::{push_hex_padded, push_line};
use vstd::prelude::*;

verus! {

/// Most units that are turned off.
pub const MAX_IOMMUS: usize = 8;

/// Offset of the control register.
pub const IOMMU_CTRL_REG_OFFSET: usize = 0x18;

/// Fixed bytes in front of the entries.
pub const IVRS_FIXED_HEADER_LEN: u64 = 48;

#[derive(Clone, Copy, Debug, PartialEq, Eq, Structural)]
pub enum IommuError {
    /// There is no root pointer.
    RsdpNotFound,
    /// The table of tables does not sum to zero.
    SdtChecksumBad,
    /// No table describes such units.
    IvrsNotFound,
    /// An entry has no length or runs beyond its table.
    IvrsTruncated,
    PhysOffsetMissing,
    /// The unit's registers could not be mapped.
    MmioMapFailed,
}

impl IommuError {
    pub open spec fn name(self) -> Seq<char> {
        match self {
            IommuError::RsdpNotFound => "RsdpNotFound"@,
            IommuError::SdtChecksumBad => "SdtChecksumBad"@,
            IommuError::IvrsNotFound => "IvrsNotFound"@,
            IommuError::IvrsTruncated => "IvrsTruncated"@,
            IommuError::PhysOffsetMissing => "PhysOffsetMissing"@,
            IommuError::MmioMapFailed => "MmioMapFailed"@,
        }
    }

    pub fn label(self) -> (l: &'static str)
        ensures
            l@ == self.name(),
    {
        match self {
            IommuError::RsdpNotFound => "RsdpNotFound",
            IommuError::SdtChecksumBad => "SdtChecksumBad",
            IommuError::IvrsNotFound => "IvrsNotFound",
            IommuError::IvrsTruncated => "IvrsTruncated",
            IommuError::PhysOffsetMissing => "PhysOffsetMissing",
            IommuError::MmioMapFailed => "MmioMapFailed",
        }
    }
}

/// One unit that was turned off.
#[derive(Clone, Copy, Debug, PartialEq, Eq, Default, Structural)]
pub struct IommuDisabled {
    pub base_phys: u64,
    /// The control register before.
    pub ctrl_before: u64,
    /// The control register as read back.
    pub ctrl_after: u64,
}

/// The units that were turned off.
#[derive(Clone, Copy, Debug)]
pub struct DisableReport {
    pub count: usize,
    /// The units; zero beyond `count`.
    pub iommus: [IommuDisabled; 8],
}

pub open spec fn no_unit() -> IommuDisabled {
    IommuDisabled { base_phys: 0, ctrl_before: 0, ctrl_after: 0 }
}

impl DisableReport {
    pub open spec fn wf(self) -> bool {
        &&& self.count <= MAX_IOMMUS
        &&& forall|i: int| self.count <= i < 8 ==> #[trigger] self.iommus@[i] == no_unit()
    }

    pub open spec fn view(self) -> Seq<IommuDisabled> {
        self.iommus@.take(self.count as int)
    }

    fn empty() -> (r: DisableReport)
        ensures
            r.wf(),
            r@ == Seq::<IommuDisabled>::empty(),
    {
        let none = IommuDisabled { base_phys: 0, ctrl_before: 0, ctrl_after: 0 };
        let r = DisableReport { count: 0, iommus: [none;8] };
        assert(r@ =~= Seq::<IommuDisabled>::empty());
        r
    }

    fn push(&mut self, unit: IommuDisabled)
        requires
            old(self).wf(),
            old(self).count < MAX_IOMMUS,
        ensures
            final(self).wf(),
            final(self)@ == old(self)@.push(unit),
    {
        self.iommus[self.count] = unit;
        self.count = self.count + 1;
        assert(self@ =~= old(self)@.push(unit));
    }
}

/// "IVRS".
pub open spec fn ivrs_signature() -> Seq<u8> {
    seq![0x49u8, 0x56, 0x52, 0x53]
}

/// Where the table of units is.
pub open spec fn ivrs_of(m: PhysMem) -> Result<u64, IommuError> {
    match acpi::rsdp_of(m, None) {
        None => Err(IommuError::RsdpNotFound),
        Some(r) => if !acpi::sound_table(m, acpi::root_address(r) as int) {
            Err(IommuError::SdtChecksumBad)
        } else {
            match acpi::table_from(m, r, ivrs_signature(), 0) {
                Some(p) => Ok(p),
                None => Err(IommuError::IvrsNotFound),
            }
        },
    }
}

/// Finds the table of units.
pub fn find_ivrs(m: &PhysMem) -> (r: Result<u64, IommuError>)
    requires
        acpi::walkable(*m, None),
    ensures
        r == ivrs_of(*m),
{
    let (rsdp, length) = match root_table(m, None) {
        Ok(p) => p,
        Err(AcpiError::RsdpNotFound) => {
            return Err(IommuError::RsdpNotFound);
        },
        Err(_) => {
            return Err(IommuError::SdtChecksumBad);
        },
    };
    let sig: [u8; 4] = [0x49, 0x56, 0x52, 0x53];
    assert(sig@ =~= ivrs_signature());
    match find_table(m, &rsdp, length, sig) {
        Some(p) => Ok(p),
        None => Err(IommuError::IvrsNotFound),
    }
}

/// The entry at `p` names a unit.
pub open spec fn names_unit(m: PhysMem, p: int) -> bool {
    let w = m.window(p, 16);
    (w[0] == 0x10 || w[0] == 0x11 || w[0] == 0x40) && bytes::le64(w, 8) != 0
}

/// The bases of the units of the entries from `off` on, and whether the walk
/// got to the end.
pub open spec fn ivhds_from(m: PhysMem, p: int, total: int, off: int) -> (Seq<u64>, bool)
    decreases total - off,
{
    if off + 4 > total {
        (Seq::empty(), true)
    } else {
        let w = m.window(p + off, 16);
        let length = bytes::le16(w, 2);
        if length <= 0 || off + length > total {
            (Seq::empty(), false)
        } else {
            let rest = ivhds_from(m, p, total, off + length);
            if names_unit(m, p + off) {
                (seq![bytes::le64(w, 8) as u64] + rest.0, rest.1)
            } else {
                rest
            }
        }
    }
}

pub open spec fn ivhds_of(m: PhysMem, p: int) -> (Seq<u64>, bool) {
    ivhds_from(m, p, acpi::table_length(m, p), 48)
}

/// The bases of the units, in the order of the table; and whether the walk got
/// to the end. The units in front of a bad entry are given all the same.
pub fn walk_ivhds(m: &PhysMem, ivrs_phys: u64) -> (r: (Vec<u64>, bool))
    ensures
        (r.0@, r.1) == ivhds_of(*m, ivrs_phys as int),
{
    let head: Vec<u8> = m.read(ivrs_phys as u128, 36);
    let total: u32 = u32_le(&head, 4);
    let mut bases: Vec<u64> = Vec::new();
    let mut off: u64 = IVRS_FIXED_HEADER_LEN;
    let ghost all = ivhds_of(*m, ivrs_phys as int);
    assert(all.0 =~= bases@ + all.0);
    while off + 4 <= total as u64
        invariant
            48 <= off,
            off <= total || off == 48,
            all == ivhds_of(*m, ivrs_phys as int),
            all.0 == bases@ + ivhds_from(*m, ivrs_phys as int, total as int, off as int).0,
            all.1 == ivhds_from(*m, ivrs_phys as int, total as int, off as int).1,
        decreases total - off,
    {
        let w: Vec<u8> = m.read(ivrs_phys as u128 + off as u128, 16);
        let length: u16 = u16_le(&w, 2);
        if length == 0 || off + length as u64 > total as u64 {
            assert(all.0 =~= bases@);
            return (bases, false);
        }
        let base: u64 = u64_le(&w, 8);
        if (w[0] == 0x10 || w[0] == 0x11 || w[0] == 0x40) && base != 0 {
            let ghost rest = ivhds_from(
                *m,
                ivrs_phys as int,
                total as int,
                off + length as int,
            ).0;
            assert(bases@ + (seq![base] + rest) =~= bases@.push(base) + rest);
            bases.push(base);
        }
        off = off + length as u64;
    }
    assert(all.0 =~= bases@);
    (bases, true)
}

/// The control register with translation off: bit zero clear, all else kept.
pub fn disabled_control(before: u64) -> (after: u64)
    ensures
        after == before - before % 2,
{
    before - before % 2
}

/// How turning one unit off went: the register before and after, or the error.
pub type DisableOutcome = Result<(u64, u64), IommuError>;

pub open spec fn on(ctrl: u64) -> bool {
    ctrl % 2 == 1
}

pub open spec fn hex16(v: u64) -> Seq<char> {
    text::pad_start(text::hex(v as nat), 16, '0')
}

pub open spec fn unit_line(base: u64, before: u64, after: u64) -> Seq<char> {
    "iommu: AMD-Vi @0x"@ + hex16(base) + " — IommuEn was "@ + (if on(before) {
        "ON"@
    } else {
        "off"@
    }) + ", now "@ + (if on(after) {
        "ON (write rejected)"@
    } else {
        "off"@
    }) + " (CTRL 0x"@ + hex16(before) + " → 0x"@ + hex16(after) + ")"@
}

pub open spec fn failed_line(base: u64, e: IommuError) -> Seq<char> {
    "iommu: disable failed for IOMMU @0x"@ + hex16(base) + " ("@ + e.name() + ")"@
}

pub open spec fn limit_line(base: u64) -> Seq<char> {
    "iommu: IVHD limit reached (8) — skipping IOMMU @0x"@ + hex16(base)
}

pub open spec fn found_line(ivrs: u64) -> Seq<char> {
    "iommu: IVRS table found at phys 0x"@ + hex16(ivrs)
}

pub open spec fn nothing_line() -> Seq<char> {
    "iommu: IVRS present but no IVHD entries — nothing to disable"@
}

/// The run over the units so far.
#[verifier::ext_equal]
pub struct RunView {
    pub units: Seq<IommuDisabled>,
    pub lines: Seq<Seq<char>>,
    /// Outcomes that were used.
    pub used: nat,
    /// The unit whose outcome is wanted next.
    pub pending: Option<u64>,
}

/// The run over the first `n` units.
pub open spec fn run_units(bases: Seq<u64>, outcomes: Seq<DisableOutcome>, n: nat) -> RunView
    decreases n,
{
    if n == 0 {
        RunView { units: Seq::empty(), lines: Seq::empty(), used: 0, pending: None }
    } else {
        let r = run_units(bases, outcomes, (n - 1) as nat);
        let base = bases[n - 1];
        if r.pending is Some {
            r
        } else if r.units.len() >= MAX_IOMMUS {
            RunView { lines: r.lines.push(limit_line(base)), ..r }
        } else if r.used >= outcomes.len() {
            RunView { pending: Some(base), ..r }
        } else {
            match outcomes[r.used as int] {
                Ok((before, after)) => RunView {
                    units: r.units.push(
                        IommuDisabled { base_phys: base, ctrl_before: before, ctrl_after: after },
                    ),
                    lines: r.lines.push(unit_line(base, before, after)),
                    used: r.used + 1,
                    ..r
                },
                Err(e) => RunView {
                    lines: r.lines.push(failed_line(base, e)),
                    used: r.used + 1,
                    ..r
                },
            }
        }
    }
}

/// What happens next.
pub enum IommuProgress {
    /// Turn the unit at this base off, add the outcome, and ask again.
    TurnOff(u64),
    /// The run is over. The lines report it.
    Finished { result: Result<DisableReport, IommuError>, lines: Vec<String> },
}

fn push_hex16(line: &mut String, v: u64)
    ensures
        final(line)@ == old(line)@ + hex16(v),
{
    push_hex_padded(line, v, 16);
}

fn mk_unit_line(base: u64, before: u64, after: u64) -> (line: String)
    ensures
        line@ == unit_line(base, before, after),
{
    let mut line = "iommu: AMD-Vi @0x".to_owned();
    push_hex16(&mut line, base);
    line.append(" — IommuEn was ");
    line.append(
        if before % 2 == 1 {
            "ON"
        } else {
            "off"
        },
    );
    line.append(", now ");
    line.append(
        if after % 2 == 1 {
            "ON (write rejected)"
        } else {
            "off"
        },
    );
    line.append(" (CTRL 0x");
    push_hex16(&mut line, before);
    line.append(" → 0x");
    push_hex16(&mut line, after);
    line.append(")");
    line
}

fn mk_failed_line(base: u64, e: IommuError) -> (line: String)
    ensures
        line@ == failed_line(base, e),
{
    let mut line = "iommu: disable failed for IOMMU @0x".to_owned();
    push_hex16(&mut line, base);
    line.append(" (");
    line.append(e.label());
    line.append(")");
    line
}

fn mk_limit_line(base: u64) -> (line: String)
    ensures
        line@ == limit_line(base),
{
    let mut line = "iommu: IVHD limit reached (8) — skipping IOMMU @0x".to_owned();
    push_hex16(&mut line, base);
    line
}

/// The lines of a finished run.
pub open spec fn finished_lines(ivrs: u64, run: RunView, complete: bool) -> Seq<Seq<char>> {
    let lines = seq![found_line(ivrs)] + run.lines;
    if complete && run.units.len() == 0 {
        lines.push(nothing_line())
    } else {
        lines
    }
}

/// Turns translation off on every unit that firmware reports. `outcomes` holds
/// what came of the units that were asked for so far, in their order. A table
/// that ends in a bad entry is an error, after the units in front of it.
pub fn disable_amd_vi(m: &PhysMem, outcomes: &Vec<DisableOutcome>) -> (p: IommuProgress)
    requires
        acpi::walkable(*m, None),
    ensures
        match ivrs_of(*m) {
            Err(e) => p matches IommuProgress::Finished { result, lines } && result matches Err(f)
                && f == e && lines@.len() == 0,
            Ok(ivrs) => {
                let (bases, complete) = ivhds_of(*m, ivrs as int);
                let run = run_units(bases, outcomes@, bases.len());
                match run.pending {
                    Some(base) => p matches IommuProgress::TurnOff(b) && b == base,
                    None => {
                        &&& p matches IommuProgress::Finished { result, lines }
                        &&& text::views(lines@) == finished_lines(ivrs, run, complete)
                        &&& complete ==> (result matches Ok(report) && report.wf() && report@
                            == run.units)
                        &&& !complete ==> (result matches Err(e) && e
                            == IommuError::IvrsTruncated)
                    },
                }
            },
        },
{
    let mut lines: Vec<String> = Vec::new();
    let ivrs: u64 = match find_ivrs(m) {
        Ok(p) => p,
        Err(e) => {
            return IommuProgress::Finished { result: Err(e), lines };
        },
    };
    let mut found = "iommu: IVRS table found at phys 0x".to_owned();
    push_hex16(&mut found, ivrs);
    push_line(&mut lines, found);
    let (bases, complete) = walk_ivhds(m, ivrs);
    let mut report = DisableReport::empty();
    let mut used: usize = 0;
    let mut i: usize = 0;
    let ghost head = seq![found_line(ivrs)];
    assert(text::views(lines@) =~= head + run_units(bases@, outcomes@, 0).lines);
    while i < bases.len()
        invariant
            i <= bases@.len(),
            used <= outcomes@.len(),
            report.wf(),
            report@ == run_units(bases@, outcomes@, i as nat).units,
            text::views(lines@) == head + run_units(bases@, outcomes@, i as nat).lines,
            used == run_units(bases@, outcomes@, i as nat).used,
            run_units(bases@, outcomes@, i as nat).pending is None,
            ivrs_of(*m) == Ok::<u64, IommuError>(ivrs),
            (bases@, complete) == ivhds_of(*m, ivrs as int),
        decreases bases@.len() - i,
    {
        let base: u64 = bases[i];
        let ghost r = run_units(bases@, outcomes@, i as nat);
        let ghost r2 = run_units(bases@, outcomes@, (i + 1) as nat);
        assert(report.count == r.units.len());
        if report.count >= MAX_IOMMUS {
            push_line(&mut lines, mk_limit_line(base));
        } else if used >= outcomes.len() {
            assert(r2.pending == Some(base));
            proof {
                lemma_pending_stays(bases@, outcomes@, (i + 1) as nat, bases@.len());
            }
            return IommuProgress::TurnOff(base);
        } else {
            match outcomes[used] {
                Ok((before, after)) => {
                    report.push(
                        IommuDisabled { base_phys: base, ctrl_before: before, ctrl_after: after },
                    );
                    push_line(&mut lines, mk_unit_line(base, before, after));
                },
                Err(e) => {
                    push_line(&mut lines, mk_failed_line(base, e));
                },
            }
            used = used + 1;
        }
        i = i + 1;
        assert(text::views(lines@) =~= head + r2.lines);
    }
    if !complete {
        return IommuProgress::Finished { result: Err(IommuError::IvrsTruncated), lines };
    }
    if report.count == 0 {
        push_line(
            &mut lines,
            "iommu: IVRS present but no IVHD entries — nothing to disable".to_owned(),
        );
    }
    IommuProgress::Finished { result: Ok(report), lines }
}

proof fn lemma_pending_stays(bases: Seq<u64>, outcomes: Seq<DisableOutcome>, n: nat, k: nat)
    requires
        n <= k,
        run_units(bases, outcomes, n).pending is Some,
    ensures
        run_units(bases, outcomes, k) == run_units(bases, outcomes, n),
    decreases k - n,
{
    if n < k {
        lemma_pending_stays(bases, outcomes, n, (k - 1) as nat);
    }
}

/// Once every unit was asked for, the run is over: as many outcomes as there are
/// units always suffice.
pub proof fn lemma_run_ends(bases: Seq<u64>, outcomes: Seq<DisableOutcome>, n: nat)
    requires
        n <= outcomes.len(),
    ensures
        run_units(bases, outcomes, n).pending is None,
        run_units(bases, outcomes, n).used <= n,
        run_units(bases, outcomes, n).units.len() <= MAX_IOMMUS,
    decreases n,
{
    if n > 0 {
        lemma_run_ends(bases, outcomes, (n - 1) as nat);
    }
}

/// Outcomes among the first `n` that are no error.
pub open spec fn done_count(outcomes: Seq<DisableOutcome>, n: nat) -> nat
    decreases n,
{
    if n == 0 {
        0
    } else {
        done_count(outcomes, (n - 1) as nat) + (if outcomes[n - 1] is Ok {
            1nat
        } else {
            0
        })
    }
}

/// While there is room for all of them, the units are turned off one after the other:
/// with outcomes for the first `k` it is the turn of the next one. Each that went well is
/// recorded in its place with what its register held before and after, and no other is.
pub proof fn lemma_units_in_turn(bases: Seq<u64>, outcomes: Seq<DisableOutcome>, n: nat, i: int)
    requires
        n <= bases.len() <= MAX_IOMMUS,
    ensures
        ({
            let r = run_units(bases, outcomes, n);
            let k = outcomes.len();
            &&& k < n ==> r.pending == Some(bases[k as int]) && r.used == k
            &&& k >= n ==> r.pending is None && r.used == n
            &&& r.units.len() == done_count(outcomes, r.used)
            &&& r.used <= n
            &&& 0 <= i < r.used ==> (outcomes[i] matches Ok(x) ==> r.units[done_count(
                outcomes,
                i as nat,
            ) as int] == (IommuDisabled {
                base_phys: bases[i],
                ctrl_before: x.0,
                ctrl_after: x.1,
            }) && done_count(outcomes, i as nat) < r.units.len())
        }),
    decreases n,
{
    if n > 0 {
        lemma_units_in_turn(bases, outcomes, (n - 1) as nat, i);
        lemma_done_bound(outcomes, run_units(bases, outcomes, (n - 1) as nat).used);
    }
}

proof fn lemma_done_bound(outcomes: Seq<DisableOutcome>, n: nat)
    ensures
        done_count(outcomes, n) <= n,
    decreases n,
{
    if n > 0 {
        lemma_done_bound(outcomes, (n - 1) as nat);
    }
}

} // verus!
