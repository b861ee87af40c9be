//! The lines that the first dispatch of each kind puts on the serial line.

use crate::text;
use crate::text::push_dec;
use vstd::prelude::*;

verus! {

/// Cores at the time of a dispatch.
#[derive(Clone, Copy, Debug, PartialEq, Eq, Structural)]
pub struct CoreCounts {
    pub active: usize,
    /// Cores that take rows.
    pub effective: usize,
    pub registered: usize,
}

/// A projection by one kernel.
#[derive(Clone, Copy, Debug, PartialEq, Eq, Structural)]
pub struct MatmulDispatch {
    pub cores: CoreCounts,
    pub out_dim: usize,
    pub in_dim: usize,
}

/// A dispatch that is about to run, the head's with the cycles that it took.
#[derive(Clone, Copy, Debug, PartialEq, Eq, Structural)]
pub enum Dispatch {
    Q4K(MatmulDispatch),
    Q6K(MatmulDispatch),
    Q4_0(MatmulDispatch, usize),
    Q8_0(MatmulDispatch, usize),
    Fused { segments: usize, total_rows: usize, width: usize, effective: usize },
    LmHead(MatmulDispatch, u64),
    Attention { heads: usize, cores: usize, total_tokens: usize, min_tokens: usize },
}

/// The kinds of dispatch that have been announced.
#[derive(Clone, Copy, Debug, PartialEq, Eq, Structural)]
pub struct Announced {
    pub q4k: bool,
    pub q6k: bool,
    pub q4_0: bool,
    pub q8_0: bool,
    pub fused: bool,
    pub lm_head: bool,
    pub attention: bool,
}

impl Announced {
    pub fn new() -> (a: Announced)
        ensures
            forall|d: Dispatch| !(#[trigger] said(a, d)),
    {
        Announced {
            q4k: false,
            q6k: false,
            q4_0: false,
            q8_0: false,
            fused: false,
            lm_head: false,
            attention: false,
        }
    }
}

/// A dispatch of this kind has been announced.
pub open spec fn said(a: Announced, d: Dispatch) -> bool {
    match d {
        Dispatch::Q4K(_) => a.q4k,
        Dispatch::Q6K(_) => a.q6k,
        Dispatch::Q4_0(_, _) => a.q4_0,
        Dispatch::Q8_0(_, _) => a.q8_0,
        Dispatch::Fused { .. } => a.fused,
        Dispatch::LmHead(_, _) => a.lm_head,
        Dispatch::Attention { .. } => a.attention,
    }
}

/// The kinds after announcing this one.
pub open spec fn with_said(a: Announced, d: Dispatch) -> Announced {
    match d {
        Dispatch::Q4K(_) => Announced { q4k: true, ..a },
        Dispatch::Q6K(_) => Announced { q6k: true, ..a },
        Dispatch::Q4_0(_, _) => Announced { q4_0: true, ..a },
        Dispatch::Q8_0(_, _) => Announced { q8_0: true, ..a },
        Dispatch::Fused { .. } => Announced { fused: true, ..a },
        Dispatch::LmHead(_, _) => Announced { lm_head: true, ..a },
        Dispatch::Attention { .. } => Announced { attention: true, ..a },
    }
}

/// Of every kind only the first dispatch is announced, and announcing one kind
/// silences no other.
pub proof fn lemma_announced_once(a: Announced, d: Dispatch, e: Dispatch)
    ensures
        said(with_said(a, d), d),
        said(with_said(a, d), e) && !said(a, e) ==> with_said(a, d) == with_said(a, e),
        said(a, e) ==> said(with_said(a, d), e),
{
}

/// The counts of a projection.
pub open spec fn matmul_text(m: MatmulDispatch) -> Seq<char> {
    " dispatch: active_cores="@ + text::dec(m.cores.active as nat) + " effective_cores="@
        + text::dec(m.cores.effective as nat) + " registered_cores="@ + text::dec(
        m.cores.registered as nat,
    ) + " out_dim="@ + text::dec(m.out_dim as nat) + " in_dim="@ + text::dec(m.in_dim as nat)
}

/// The line of a dispatch.
pub open spec fn dispatch_text(d: Dispatch) -> Seq<char> {
    match d {
        Dispatch::Q4K(m) => "[MP3.0] AVX-512 Q4_K matmul"@ + matmul_text(m),
        Dispatch::Q6K(m) => "[MP3.0] AVX-512 Q6_K matmul"@ + matmul_text(m),
        Dispatch::Q4_0(m, interleave) => "[MP3.0] AVX-512 Q4_0 matmul"@ + matmul_text(m)
            + " interleave="@ + text::dec(interleave as nat),
        Dispatch::Q8_0(m, interleave) => "[MP3.0] AVX-512 Q8_0 matmul"@ + matmul_text(m)
            + " interleave="@ + text::dec(interleave as nat),
        Dispatch::Fused { segments, total_rows, width, effective } =>
        "[MP3.0] AVX-512 fused matmul dispatch: segments="@ + text::dec(segments as nat)
            + " total_rows="@ + text::dec(total_rows as nat) + " in_dim="@ + text::dec(
            width as nat,
        ) + " effective_cores="@ + text::dec(effective as nat),
        Dispatch::LmHead(m, cycles) => "[MP3.0] AVX-512 LM-head Q6_K"@ + matmul_text(m)
            + " cycles="@ + text::dec(cycles as nat),
        Dispatch::Attention { heads, cores, total_tokens, min_tokens } =>
        "[MP3.0] AVX-512 parallel attention dispatch: heads="@ + text::dec(heads as nat)
            + " cores="@ + text::dec(cores as nat) + " total_tokens="@ + text::dec(
            total_tokens as nat,
        ) + " min_tokens="@ + text::dec(min_tokens as nat),
    }
}

fn matmul_line(m: MatmulDispatch) -> (s: String)
    ensures
        s@ == matmul_text(m),
{
    let mut s: String = " dispatch: active_cores=".to_owned();
    push_dec(&mut s, m.cores.active as u64);
    s.append(" effective_cores=");
    push_dec(&mut s, m.cores.effective as u64);
    s.append(" registered_cores=");
    push_dec(&mut s, m.cores.registered as u64);
    s.append(" out_dim=");
    push_dec(&mut s, m.out_dim as u64);
    s.append(" in_dim=");
    push_dec(&mut s, m.in_dim as u64);
    s
}

fn dispatch_line(d: Dispatch) -> (s: String)
    ensures
        s@ == dispatch_text(d),
{
    match d {
        Dispatch::Q4K(m) => {
            let mut s: String = "[MP3.0] AVX-512 Q4_K matmul".to_owned();
            s.append(matmul_line(m).as_str());
            s
        },
        Dispatch::Q6K(m) => {
            let mut s: String = "[MP3.0] AVX-512 Q6_K matmul".to_owned();
            s.append(matmul_line(m).as_str());
            s
        },
        Dispatch::Q4_0(m, interleave) => {
            let mut s: String = "[MP3.0] AVX-512 Q4_0 matmul".to_owned();
            s.append(matmul_line(m).as_str());
            s.append(" interleave=");
            push_dec(&mut s, interleave as u64);
            s
        },
        Dispatch::Q8_0(m, interleave) => {
            let mut s: String = "[MP3.0] AVX-512 Q8_0 matmul".to_owned();
            s.append(matmul_line(m).as_str());
            s.append(" interleave=");
            push_dec(&mut s, interleave as u64);
            s
        },
        Dispatch::Fused { segments, total_rows, width, effective } => {
            let mut s: String = "[MP3.0] AVX-512 fused matmul dispatch: segments=".to_owned();
            push_dec(&mut s, segments as u64);
            s.append(" total_rows=");
            push_dec(&mut s, total_rows as u64);
            s.append(" in_dim=");
            push_dec(&mut s, width as u64);
            s.append(" effective_cores=");
            push_dec(&mut s, effective as u64);
            s
        },
        Dispatch::LmHead(m, cycles) => {
            let mut s: String = "[MP3.0] AVX-512 LM-head Q6_K".to_owned();
            s.append(matmul_line(m).as_str());
            s.append(" cycles=");
            push_dec(&mut s, cycles);
            s
        },
        Dispatch::Attention { heads, cores, total_tokens, min_tokens } => {
            let mut s: String = "[MP3.0] AVX-512 parallel attention dispatch: heads=".to_owned();
            push_dec(&mut s, heads as u64);
            s.append(" cores=");
            push_dec(&mut s, cores as u64);
            s.append(" total_tokens=");
            push_dec(&mut s, total_tokens as u64);
            s.append(" min_tokens=");
            push_dec(&mut s, min_tokens as u64);
            s
        },
    }
}

/// The line for a dispatch if it is the first of its kind.
pub fn announce(a: &mut Announced, d: Dispatch) -> (line: Option<String>)
    ensures
        *final(a) == with_said(*old(a), d),
        line is Some == !said(*old(a), d),
        line is Some ==> line->Some_0@ == dispatch_text(d),
{
    let before: bool = match d {
        Dispatch::Q4K(_) => a.q4k,
        Dispatch::Q6K(_) => a.q6k,
        Dispatch::Q4_0(_, _) => a.q4_0,
        Dispatch::Q8_0(_, _) => a.q8_0,
        Dispatch::Fused { .. } => a.fused,
        Dispatch::LmHead(_, _) => a.lm_head,
        Dispatch::Attention { .. } => a.attention,
    };
    match d {
        Dispatch::Q4K(_) => a.q4k = true,
        Dispatch::Q6K(_) => a.q6k = true,
        Dispatch::Q4_0(_, _) => a.q4_0 = true,
        Dispatch::Q8_0(_, _) => a.q8_0 = true,
        Dispatch::Fused { .. } => a.fused = true,
        Dispatch::LmHead(_, _) => a.lm_head = true,
        Dispatch::Attention { .. } => a.attention = true,
    }
    if before {
        None
    } else {
        Some(dispatch_line(d))
    }
}

} // verus!
