//! The virtual timer.

use crate::arch::aarch64::gic::{enable_interrupt, GicState};
use crate::arch::aarch64::mmio::MmioOp;
use crate::text;
use crate::text::push_dec;
use vstd::prelude::*;

verus! {

/// The timer's interrupt.
pub const TIMER_INTID: u32 = 27;

/// Ticks in a second.
pub const TIMER_HZ: u64 = 100;

/// Ticks from one report to the next.
pub const HEARTBEAT_REPORT_EVERY: u64 = 100;

#[derive(Clone, Copy, Debug, PartialEq, Eq, Structural)]
pub struct TimerState {
    pub tick_count: u64,
    /// Counter steps in a tick.
    pub ticks_per_period: u64,
}

/// What starting the timer takes.
pub struct TimerInit {
    /// For the timer value register.
    pub tval: u64,
    /// For the timer control register, after that.
    pub ctl: u64,
    /// Lets the interrupt through, last.
    pub enable: MmioOp,
    pub lines: (String, String, String),
}

pub open spec fn frequency_line(frq: u64) -> Seq<char> {
    "  CNTFRQ="@ + text::dec(frq as nat) + " Hz ("@ + text::dec((frq / 1_000_000) as nat)
        + " MHz), "@ + text::dec(TIMER_HZ as nat) + " Hz, ticks/period="@ + text::dec(
        (frq / 100) as nat,
    )
}

/// Starts the timer. `frq` is the frequency of the counter.
pub fn init(s: &mut TimerState, g: &GicState, frq: u64) -> (r: TimerInit)
    requires
        g.wf(),
    ensures
        *final(s) == (TimerState { ticks_per_period: frq / 100, ..*old(s) }),
        r.tval == frq / 100,
        r.ctl == 1,
        r.enable == g.dist_op(0x100, 1u32 << 27u32),
        r.lines.0@ == "Stage 9: Generic Timer init (Virtual, INTID "@ + text::dec(27) + ")"@,
        r.lines.1@ == frequency_line(frq),
        r.lines.2@ == "  CNTV enabled, INTID "@ + text::dec(27) + " unmasked at GICD"@,
{
    let ticks: u64 = frq / TIMER_HZ;
    s.ticks_per_period = ticks;
    let mut a = "Stage 9: Generic Timer init (Virtual, INTID ".to_owned();
    push_dec(&mut a, TIMER_INTID as u64);
    a.append(")");
    let mut b = "  CNTFRQ=".to_owned();
    push_dec(&mut b, frq);
    b.append(" Hz (");
    push_dec(&mut b, frq / 1_000_000);
    b.append(" MHz), ");
    push_dec(&mut b, TIMER_HZ);
    b.append(" Hz, ticks/period=");
    push_dec(&mut b, ticks);
    let mut c = "  CNTV enabled, INTID ".to_owned();
    push_dec(&mut c, TIMER_INTID as u64);
    c.append(" unmasked at GICD");
    let enable: MmioOp = enable_interrupt(g, TIMER_INTID);
    TimerInit { tval: ticks, ctl: 1, enable, lines: (a, b, c) }
}

pub open spec fn heartbeat_line(tick: u64) -> Seq<char> {
    "Heartbeat: tick="@ + text::dec(tick as nat) + " (~"@ + text::dec((tick / 100) as nat)
        + "s uptime)"@
}

/// Counts a tick: the value that arms the timer again, and a report on every
/// hundredth tick.
pub fn handle_tick(s: &mut TimerState) -> (r: (u64, Option<String>))
    requires
        old(s).tick_count < u64::MAX,
    ensures
        *final(s) == (TimerState { tick_count: (old(s).tick_count + 1) as u64, ..*old(s) }),
        r.0 == old(s).ticks_per_period,
        r.1 is Some <==> (old(s).tick_count + 1) % 100 == 0,
        r.1 matches Some(line) ==> line@ == heartbeat_line(final(s).tick_count),
{
    let tick: u64 = s.tick_count + 1;
    s.tick_count = tick;
    let report: Option<String> = if tick % HEARTBEAT_REPORT_EVERY == 0 {
        let mut line = "Heartbeat: tick=".to_owned();
        push_dec(&mut line, tick);
        line.append(" (~");
        push_dec(&mut line, tick / TIMER_HZ);
        line.append("s uptime)");
        Some(line)
    } else {
        None
    };
    (s.ticks_per_period, report)
}

/// A hundred periods are a second of the counter, but for less than a hundred
/// steps.
pub proof fn lemma_period(frq: u64)
    ensures
        frq - 100 < frq / 100 * 100 <= frq,
{
}

} // verus!
