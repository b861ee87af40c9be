//! The short failure reason that the held benchmark screen shows.

use vstd::prelude::*;

verus! {

/// Longest reason that is kept, in bytes.
pub const DETAIL_CAP: usize = 64;

/// A printable ASCII byte as it is, anything else as a question mark.
pub open spec fn clean_byte(b: u8) -> u8 {
    if 0x20 <= b < 0x7F {
        b
    } else {
        63
    }
}

/// The first [`DETAIL_CAP`] bytes of `s`, each cleaned.
pub open spec fn clean_detail(s: Seq<u8>) -> Seq<u8> {
    Seq::new(
        if s.len() < DETAIL_CAP {
            s.len()
        } else {
            DETAIL_CAP as nat
        },
        |i: int| clean_byte(s[i]),
    )
}

/// The reason of the last failure.
pub struct LlmReport {
    pub text: Vec<u8>,
}

impl LlmReport {
    /// Short and printable.
    pub open spec fn wf(&self) -> bool {
        &&& self.text@.len() <= DETAIL_CAP
        &&& forall|i: int| 0 <= i < self.text@.len() ==> 0x20 <= #[trigger] self.text@[i] < 0x7F
    }

    pub fn new() -> (r: LlmReport)
        ensures
            r.text@ == Seq::<u8>::empty(),
            r.wf(),
    {
        LlmReport { text: Vec::new() }
    }
}

pub fn clean(b: u8) -> (r: u8)
    ensures
        r == clean_byte(b),
{
    if b >= 0x20 && b < 0x7F {
        b
    } else {
        63
    }
}

/// Replaces the kept reason by `detail`.
pub fn set(report: &mut LlmReport, detail: &str)
    ensures
        final(report).text@ == clean_detail(vstd::utf8::encode_utf8(detail@)),
        final(report).wf(),
{
    let bytes: &[u8] = detail.as_bytes();
    let mut text: Vec<u8> = Vec::new();
    let mut i: usize = 0;
    while i < bytes.len() && i < DETAIL_CAP
        invariant
            i <= bytes@.len(),
            i <= DETAIL_CAP,
            text@.len() == i,
            forall|j: int| 0 <= j < i ==> #[trigger] text@[j] == clean_byte(bytes@[j]),
        decreases DETAIL_CAP - i,
    {
        text.push(clean(bytes[i]));
        i = i + 1;
    }
    assert(text@ =~= clean_detail(bytes@));
    report.text = text;
}

/// Copies the kept reason into `buf` and returns its length. Bytes of `buf`
/// behind it keep their values.
pub fn detail(report: &LlmReport, buf: &mut [u8; 64]) -> (n: usize)
    requires
        report.wf(),
    ensures
        n == report.text@.len(),
        forall|i: int| 0 <= i < 64 ==> #[trigger] final(buf)@[i] == (if i < n {
            report.text@[i]
        } else {
            old(buf)@[i]
        }),
{
    let n: usize = report.text.len();
    let mut i: usize = 0;
    while i < n
        invariant
            i <= n,
            n == report.text@.len(),
            n <= 64,
            forall|j: int| 0 <= j < 64 ==> #[trigger] buf@[j] == (if j < i {
                report.text@[j]
            } else {
                old(buf)@[j]
            }),
        decreases n - i,
    {
        buf[i] = report.text[i];
        i = i + 1;
    }
    n
}

} // verus!
