//! CPU identification from CPUID answers.
//!
//! The answers arrive as a [`Cpuid`] table. A leaf above the largest one that
//! the processor reports is never looked at, so its entry may hold anything.

use crate::bytes;
use crate::bytes::push_le32;
use crate::text;
use crate::text::{push_dec, push_hex};
use vstd::prelude::*;

verus! {

/// The four registers that one CPUID leaf returns.
#[derive(Clone, Copy, Debug, PartialEq, Eq, Structural)]
pub struct CpuidLeaf {
    pub eax: u32,
    pub ebx: u32,
    pub ecx: u32,
    pub edx: u32,
}

/// The CPUID leaves that the kernel asks for, sub-leaf zero each.
#[derive(Clone, Copy, Debug, PartialEq, Eq, Structural)]
pub struct Cpuid {
    pub leaf_0: CpuidLeaf,
    pub leaf_1: CpuidLeaf,
    pub leaf_7: CpuidLeaf,
    pub leaf_d: CpuidLeaf,
    pub leaf_15: CpuidLeaf,
    pub leaf_16: CpuidLeaf,
    pub ext_0: CpuidLeaf,
    pub ext_2: CpuidLeaf,
    pub ext_3: CpuidLeaf,
    pub ext_4: CpuidLeaf,
    pub ext_1e: CpuidLeaf,
}

/// CPU information gathered from CPUID.
pub struct CpuInfo {
    /// Vendor string, for example "AuthenticAMD".
    pub vendor: [u8; 12],
    /// Brand string, for example "AMD EPYC 9354P 32-Core Processor".
    pub brand: [u8; 48],
    /// Length of the brand string without trailing zeros and spaces.
    pub brand_len: usize,
    /// Base frequency in MHz, zero if the processor does not report it.
    pub base_freq_mhz: u32,
    /// Largest frequency in MHz, zero if the processor does not report it.
    pub max_freq_mhz: u32,
    pub max_leaf: u32,
    pub max_ext_leaf: u32,
    pub has_sse: bool,
    pub has_sse2: bool,
    pub has_avx: bool,
    pub has_avx2: bool,
    pub has_avx512f: bool,
    pub has_xsave: bool,
    pub has_x2apic: bool,
    /// Logical processors that this core sees, at least one.
    pub logical_cores: u32,
}

#[derive(Clone, Copy, Debug, PartialEq, Eq, Structural)]
pub struct TopologyIds {
    pub valid: bool,
    pub compute_unit_id: u32,
    pub node_id: u32,
}

#[derive(Clone, Copy, Debug, PartialEq, Eq, Structural)]
pub struct SimdState {
    pub xcr0: u64,
    pub avx_enabled: bool,
    pub avx512_enabled: bool,
}

/// The sixteen bytes of one brand-string leaf.
pub open spec fn leaf_text(l: CpuidLeaf) -> Seq<u8> {
    bytes::le32_bytes(l.eax as int) + bytes::le32_bytes(l.ebx as int) + bytes::le32_bytes(l.ecx as int) + bytes::le32_bytes(
        l.edx as int,
    )
}

/// The vendor string: EBX, EDX, ECX of leaf zero.
pub open spec fn vendor_text(l: CpuidLeaf) -> Seq<u8> {
    bytes::le32_bytes(l.ebx as int) + bytes::le32_bytes(l.edx as int) + bytes::le32_bytes(l.ecx as int)
}

/// The brand string, or zeros where the processor has none.
pub open spec fn brand_text(c: Cpuid) -> Seq<u8> {
    if c.ext_0.eax >= 0x8000_0004 {
        leaf_text(c.ext_2) + leaf_text(c.ext_3) + leaf_text(c.ext_4)
    } else {
        Seq::new(48, |i: int| 0u8)
    }
}

pub open spec fn is_blank(b: u8) -> bool {
    b == 0 || b == 32
}

/// `n` is the length of `s` once trailing zeros and spaces are cut off.
pub open spec fn trimmed_len(s: Seq<u8>, n: int) -> bool {
    &&& 0 <= n <= s.len()
    &&& forall|i: int| n <= i < s.len() ==> is_blank(#[trigger] s[i])
    &&& n > 0 ==> !is_blank(s[n - 1])
}

impl CpuInfo {
    /// The brand string has a length that fits its buffer.
    pub open spec fn wf(&self) -> bool {
        self.brand_len <= 48
    }
}

/// What [`detect`] makes of the CPUID answers `c`.
pub open spec fn describes(info: CpuInfo, c: Cpuid) -> bool {
    let max = c.leaf_0.eax;
    &&& info.vendor@ == vendor_text(c.leaf_0)
    &&& info.brand@ == brand_text(c)
    &&& if c.ext_0.eax >= 0x8000_0004 {
        trimmed_len(brand_text(c), info.brand_len as int)
    } else {
        info.brand_len == 0
    }
    &&& info.max_leaf == max
    &&& info.max_ext_leaf == c.ext_0.eax
    &&& info.has_sse == (max >= 1 && c.leaf_1.edx & 0x0200_0000 != 0)
    &&& info.has_sse2 == (max >= 1 && c.leaf_1.edx & 0x0400_0000 != 0)
    &&& info.has_x2apic == (max >= 1 && c.leaf_1.ecx & 0x0020_0000 != 0)
    &&& info.has_xsave == (max >= 1 && c.leaf_1.ecx & 0x0400_0000 != 0)
    &&& info.has_avx == (max >= 1 && c.leaf_1.ecx & 0x1000_0000 != 0)
    &&& info.has_avx2 == (max >= 7 && c.leaf_7.ebx & 0x20 != 0)
    &&& info.has_avx512f == (max >= 7 && c.leaf_7.ebx & 0x1_0000 != 0)
    &&& info.logical_cores == if max >= 1 && (c.leaf_1.ebx >> 16) & 0xFF != 0 {
        (c.leaf_1.ebx >> 16) & 0xFF
    } else {
        1
    }
    &&& info.base_freq_mhz == if max >= 0x16 {
        c.leaf_16.eax
    } else {
        0
    }
    &&& info.max_freq_mhz == if max >= 0x16 {
        c.leaf_16.ebx
    } else {
        0
    }
}

fn push_leaf_text(out: &mut Vec<u8>, l: CpuidLeaf)
    ensures
        final(out)@ == old(out)@ + leaf_text(l),
{
    push_le32(out, l.eax);
    push_le32(out, l.ebx);
    push_le32(out, l.ecx);
    push_le32(out, l.edx);
    assert(out@ =~= old(out)@ + leaf_text(l));
}

fn vendor_of(l: CpuidLeaf) -> (v: [u8; 12])
    ensures
        v@ == vendor_text(l),
{
    let mut text: Vec<u8> = Vec::new();
    push_le32(&mut text, l.ebx);
    push_le32(&mut text, l.edx);
    push_le32(&mut text, l.ecx);
    assert(text@ =~= vendor_text(l));
    let mut v: [u8; 12] = [0u8; 12];
    let mut i: usize = 0;
    while i < 12
        invariant
            i <= 12,
            v@.len() == 12,
            text@.len() == 12,
            forall|j: int| 0 <= j < i ==> v@[j] == text@[j],
        decreases 12 - i,
    {
        v[i] = text[i];
        i = i + 1;
    }
    assert(v@ =~= text@);
    v
}

fn brand_of(c: &Cpuid) -> (v: [u8; 48])
    ensures
        v@ == leaf_text(c.ext_2) + leaf_text(c.ext_3) + leaf_text(c.ext_4),
{
    let mut text: Vec<u8> = Vec::new();
    push_leaf_text(&mut text, c.ext_2);
    push_leaf_text(&mut text, c.ext_3);
    push_leaf_text(&mut text, c.ext_4);
    assert(text@ =~= leaf_text(c.ext_2) + leaf_text(c.ext_3) + leaf_text(c.ext_4));
    let mut v: [u8; 48] = [0u8; 48];
    let mut i: usize = 0;
    while i < 48
        invariant
            i <= 48,
            v@.len() == 48,
            text@.len() == 48,
            forall|j: int| 0 <= j < i ==> v@[j] == text@[j],
        decreases 48 - i,
    {
        v[i] = text[i];
        i = i + 1;
    }
    assert(v@ =~= text@);
    v
}

fn trimmed(s: &[u8; 48]) -> (n: usize)
    ensures
        trimmed_len(s@, n as int),
{
    let mut n: usize = 48;
    while n > 0 && (s[n - 1] == 0 || s[n - 1] == 32)
        invariant
            n <= 48,
            s@.len() == 48,
            forall|i: int| n <= i < 48 ==> is_blank(#[trigger] s@[i]),
        decreases n,
    {
        n = n - 1;
    }
    n
}

/// Turns the CPUID answers into structured data.
pub fn detect(c: &Cpuid) -> (info: CpuInfo)
    ensures
        info.wf(),
        describes(info, *c),
{
    let max: u32 = c.leaf_0.eax;
    let mut info = CpuInfo {
        vendor: vendor_of(c.leaf_0),
        brand: [0u8; 48],
        brand_len: 0,
        base_freq_mhz: 0,
        max_freq_mhz: 0,
        max_leaf: max,
        max_ext_leaf: c.ext_0.eax,
        has_sse: false,
        has_sse2: false,
        has_avx: false,
        has_avx2: false,
        has_avx512f: false,
        has_xsave: false,
        has_x2apic: false,
        logical_cores: 1,
    };
    assert(info.brand@ =~= Seq::new(48, |i: int| 0u8));
    if max >= 1 {
        info.has_sse = c.leaf_1.edx & 0x0200_0000 != 0;
        info.has_sse2 = c.leaf_1.edx & 0x0400_0000 != 0;
        info.has_x2apic = c.leaf_1.ecx & 0x0020_0000 != 0;
        info.has_xsave = c.leaf_1.ecx & 0x0400_0000 != 0;
        info.has_avx = c.leaf_1.ecx & 0x1000_0000 != 0;
        let cores: u32 = (c.leaf_1.ebx >> 16) & 0xFF;
        if cores != 0 {
            info.logical_cores = cores;
        }
    }
    if max >= 7 {
        info.has_avx2 = c.leaf_7.ebx & 0x20 != 0;
        info.has_avx512f = c.leaf_7.ebx & 0x1_0000 != 0;
    }
    if max >= 0x16 {
        info.base_freq_mhz = c.leaf_16.eax;
        info.max_freq_mhz = c.leaf_16.ebx;
    }
    if c.ext_0.eax >= 0x8000_0004 {
        info.brand = brand_of(c);
        info.brand_len = trimmed(&info.brand);
    }
    info
}

/// Whether the processor has the x2APIC, by leaf one.
pub fn x2apic_supported(c: &Cpuid) -> (b: bool)
    ensures
        b == (c.leaf_0.eax >= 1 && c.leaf_1.ecx & 0x0020_0000 != 0),
{
    if c.leaf_0.eax < 1 {
        return false;
    }
    c.leaf_1.ecx & 0x0020_0000 != 0
}

/// The AMD topology identifiers of the processor that answered.
pub fn topology_ids(c: &Cpuid) -> (t: TopologyIds)
    ensures
        t == (if c.ext_0.eax < 0x8000_001e {
            (TopologyIds { valid: false, compute_unit_id: 0, node_id: 0 })
        } else {
            (TopologyIds {
                valid: true,
                compute_unit_id: c.ext_1e.ebx & 0xff,
                node_id: c.ext_1e.ecx & 0xff,
            })
        }),
{
    if c.ext_0.eax < 0x8000_001e {
        return TopologyIds { valid: false, compute_unit_id: 0, node_id: 0 };
    }
    TopologyIds {
        valid: true,
        compute_unit_id: c.ext_1e.ebx & 0xff,
        node_id: c.ext_1e.ecx & 0xff,
    }
}

/// CR0.MP: monitor coprocessor.
pub const CR0_MP: u64 = 0x2;
/// CR0.EM and CR0.TS: both make SIMD instructions fault.
pub const CR0_EM_TS: u64 = 0xC;
/// CR4.OSFXSR and CR4.OSXMMEXCPT: SSE is managed by the kernel.
pub const CR4_SSE: u64 = 0x600;
/// CR4.OSXSAVE: XCR0 is managed by the kernel.
pub const CR4_OSXSAVE: u64 = 0x4_0000;
/// XCR0 bits of the x87 and SSE state.
pub const XCR0_BASE: u64 = 0x3;
/// XCR0 bit of the upper halves of the YMM registers.
pub const XCR0_YMM: u64 = 0x4;
/// XCR0 bits of the whole AVX-512 state, YMM among them.
pub const XCR0_AVX512: u64 = 0xE4;

/// The register writes that switch the SIMD state of one core on.
#[derive(Clone, Copy, Debug, PartialEq, Eq, Structural)]
pub struct SimdPlan {
    /// Goes to CR0.
    pub cr0: u64,
    /// Goes to CR4, after CR0.
    pub cr4: u64,
    /// Goes to XCR0, after CR4, where there is a value.
    pub xcr0_write: Option<u64>,
    /// XCR0 can be read back after the writes.
    pub xcr0_readable: bool,
}

pub open spec fn has_xsave(c: Cpuid) -> bool {
    c.leaf_0.eax >= 1 && c.leaf_1.ecx & 0x0400_0000 != 0
}

/// The XCR0 bits that the processor can have set.
pub open spec fn supported_xcr0(c: Cpuid) -> u64 {
    if c.leaf_0.eax >= 0x0d {
        ((c.leaf_d.edx as u64) << 32) | (c.leaf_d.eax as u64)
    } else {
        XCR0_BASE
    }
}

/// The XCR0 value that enables everything the processor has of x87, SSE, AVX and AVX-512.
pub open spec fn wanted_xcr0(c: Cpuid) -> u64 {
    let s = supported_xcr0(c);
    let ymm = if c.leaf_1.ecx & 0x1000_0000 != 0 && s & XCR0_YMM != 0 {
        XCR0_BASE | XCR0_YMM
    } else {
        XCR0_BASE
    };
    if c.leaf_0.eax >= 7 && c.leaf_7.ebx & 0x1_0000 != 0 && s & XCR0_AVX512 == XCR0_AVX512 {
        ymm | XCR0_AVX512
    } else {
        ymm
    }
}

pub open spec fn simd_plan(cr0: u64, cr4: u64, c: Cpuid) -> SimdPlan {
    SimdPlan {
        cr0: (cr0 | CR0_MP) & !CR0_EM_TS,
        cr4: if has_xsave(c) {
            cr4 | CR4_SSE | CR4_OSXSAVE
        } else {
            cr4 | CR4_SSE
        },
        xcr0_write: if has_xsave(c) && supported_xcr0(c) & XCR0_BASE == XCR0_BASE {
            Some(wanted_xcr0(c))
        } else {
            None
        },
        xcr0_readable: has_xsave(c),
    }
}

/// Decides what to write to CR0, CR4 and XCR0 of a core whose control registers
/// hold `cr0` and `cr4`.
pub fn plan_fpu_simd(cr0: u64, cr4: u64, c: &Cpuid) -> (plan: SimdPlan)
    ensures
        plan == simd_plan(cr0, cr4, *c),
{
    let new_cr0: u64 = (cr0 | CR0_MP) & !CR0_EM_TS;
    let mut new_cr4: u64 = cr4 | CR4_SSE;
    if c.leaf_0.eax < 1 {
        return SimdPlan { cr0: new_cr0, cr4: new_cr4, xcr0_write: None, xcr0_readable: false };
    }
    let has_avx: bool = c.leaf_1.ecx & 0x1000_0000 != 0;
    let has_avx512f: bool = c.leaf_0.eax >= 7 && c.leaf_7.ebx & 0x1_0000 != 0;
    if c.leaf_1.ecx & 0x0400_0000 == 0 {
        return SimdPlan { cr0: new_cr0, cr4: new_cr4, xcr0_write: None, xcr0_readable: false };
    }
    new_cr4 = new_cr4 | CR4_OSXSAVE;
    let supported: u64 = if c.leaf_0.eax >= 0x0d {
        ((c.leaf_d.edx as u64) << 32) | (c.leaf_d.eax as u64)
    } else {
        XCR0_BASE
    };
    if supported & XCR0_BASE != XCR0_BASE {
        return SimdPlan { cr0: new_cr0, cr4: new_cr4, xcr0_write: None, xcr0_readable: true };
    }
    let mut xcr0: u64 = XCR0_BASE;
    if has_avx && supported & XCR0_YMM != 0 {
        xcr0 = xcr0 | XCR0_YMM;
    }
    if has_avx512f && supported & XCR0_AVX512 == XCR0_AVX512 {
        xcr0 = xcr0 | XCR0_AVX512;
    }
    SimdPlan { cr0: new_cr0, cr4: new_cr4, xcr0_write: Some(xcr0), xcr0_readable: true }
}

/// The SIMD state of a core after `plan` was carried out. `xcr0_read` is what
/// XCR0 held then; it counts only where the plan says that XCR0 is readable.
pub fn enable_fpu_simd(plan: &SimdPlan, xcr0_read: u64) -> (s: SimdState)
    ensures
        s.xcr0 == (if plan.xcr0_readable || plan.xcr0_write is Some {
            xcr0_read
        } else {
            XCR0_BASE
        }),
        s.avx_enabled == (plan.xcr0_write is Some && xcr0_read & XCR0_YMM != 0),
        s.avx512_enabled == (plan.xcr0_write is Some && xcr0_read & XCR0_AVX512 == XCR0_AVX512),
        s.avx512_enabled ==> s.avx_enabled,
{
    assert(xcr0_read & 0xE4u64 == 0xE4u64 ==> xcr0_read & 0x4u64 != 0) by (bit_vector);
    match plan.xcr0_write {
        Some(_) => SimdState {
            xcr0: xcr0_read,
            avx_enabled: xcr0_read & XCR0_YMM != 0,
            avx512_enabled: xcr0_read & XCR0_AVX512 == XCR0_AVX512,
        },
        None => SimdState {
            xcr0: if plan.xcr0_readable {
                xcr0_read
            } else {
                XCR0_BASE
            },
            avx_enabled: false,
            avx512_enabled: false,
        },
    }
}

/// Whatever the control registers held, the plan leaves them so that SIMD
/// instructions do not fault on the coprocessor bits, and asks XCR0 only for
/// state that the processor has.
pub proof fn lemma_plan_is_safe(cr0: u64, cr4: u64, c: Cpuid)
    ensures
        simd_plan(cr0, cr4, c).cr0 & CR0_EM_TS == 0,
        simd_plan(cr0, cr4, c).cr0 & CR0_MP == CR0_MP,
        simd_plan(cr0, cr4, c).cr4 & CR4_SSE == CR4_SSE,
        simd_plan(cr0, cr4, c).xcr0_write matches Some(x) ==> x & !supported_xcr0(c) == 0,
{
    assert(((cr0 | 0x2u64) & !0xCu64) & 0xCu64 == 0) by (bit_vector);
    assert(((cr0 | 0x2u64) & !0xCu64) & 0x2u64 == 0x2u64) by (bit_vector);
    assert((cr4 | 0x600u64) & 0x600u64 == 0x600u64 && (cr4 | 0x600u64 | 0x4_0000u64) & 0x600u64
        == 0x600u64) by (bit_vector);
    let s = supported_xcr0(c);
    assert(s & 3u64 == 3u64 ==> 3u64 & !s == 0 && (s & 4u64 != 0 ==> (3u64 | 4u64) & !s == 0) && (s
        & 0xE4u64 == 0xE4u64 ==> (3u64 | 0xE4u64) & !s == 0 && (3u64 | 4u64 | 0xE4u64) & !s == 0))
        by (bit_vector);
}

/// Where XCR0 is written, it is asked for exactly what the processor has: x87 and SSE,
/// the upper halves of the YMM registers with AVX, and the whole AVX-512 state with that.
/// It is written wherever the processor has XSAVE and the base state.
pub proof fn lemma_plan_is_full(cr0: u64, cr4: u64, c: Cpuid)
    ensures
        ({
            let p = simd_plan(cr0, cr4, c);
            let s = supported_xcr0(c);
            let avx512 = c.leaf_0.eax >= 7 && c.leaf_7.ebx & 0x1_0000 != 0 && s & 0xE4 == 0xE4;
            let avx = c.leaf_1.ecx & 0x1000_0000 != 0 && s & 4 != 0;
            &&& p.xcr0_write is Some <==> has_xsave(c) && s & 3 == 3
            &&& p.xcr0_write matches Some(x) ==> {
                &&& x & 3 == 3
                &&& x & 4 != 0 <==> avx || avx512
                &&& x & 0xE0 == 0xE0 <==> avx512
                &&& x & !0xE7u64 == 0
            }
            &&& has_xsave(c) <==> p.xcr0_readable
            &&& has_xsave(c) ==> p.cr4 & 0x4_0000 != 0
            &&& p.cr4 & cr4 == cr4
        }),
{
    assert(((3u64 | 4u64) | 0xE4u64) & 3 == 3 && (3u64 | 0xE4u64) & 3 == 3 && (3u64 | 4u64) & 3 == 3
        && 3u64 & 3 == 3 && ((3u64 | 4u64) | 0xE4u64) & 4 != 0 && (3u64 | 0xE4u64) & 4 != 0 && (3u64
        | 4u64) & 4 != 0 && 3u64 & 4 == 0 && ((3u64 | 4u64) | 0xE4u64) & 0xE0 == 0xE0 && (3u64
        | 0xE4u64) & 0xE0 == 0xE0 && (3u64 | 4u64) & 0xE0 == 0 && 3u64 & 0xE0 == 0 && ((3u64 | 4u64)
        | 0xE4u64) & !0xE7u64 == 0 && (3u64 | 0xE4u64) & !0xE7u64 == 0 && (3u64 | 4u64) & !0xE7u64
        == 0 && 3u64 & !0xE7u64 == 0) by (bit_vector);
    assert((cr4 | 0x600u64 | 0x4_0000u64) & 0x4_0000 != 0 && (cr4 | 0x600u64 | 0x4_0000u64) & cr4
        == cr4 && (cr4 | 0x600u64) & cr4 == cr4) by (bit_vector);
}

/// The printable ASCII characters among `s`, in order.
pub open spec fn printable(s: Seq<u8>) -> Seq<char>
    decreases s.len(),
{
    if s.len() == 0 {
        Seq::empty()
    } else if 0x20 <= s.last() < 0x7F {
        printable(s.drop_last()).push(s.last() as char)
    } else {
        printable(s.drop_last())
    }
}

/// The non-zero bytes of `s` as characters, in order.
pub open spec fn nonzero(s: Seq<u8>) -> Seq<char>
    decreases s.len(),
{
    if s.len() == 0 {
        Seq::empty()
    } else if s.last() != 0 {
        nonzero(s.drop_last()).push(s.last() as char)
    } else {
        nonzero(s.drop_last())
    }
}

/// Appends the printable ASCII characters among the first `n` bytes of `s`.
pub fn push_printable(out: &mut String, s: &[u8; 48], n: usize)
    requires
        n <= 48,
    ensures
        final(out)@ == old(out)@ + printable(s@.take(n as int)),
{
    let mut i: usize = 0;
    assert(out@ =~= old(out)@ + printable(s@.take(0)));
    while i < n
        invariant
            i <= n <= 48,
            s@.len() == 48,
            out@ == old(out)@ + printable(s@.take(i as int)),
        decreases n - i,
    {
        let b: u8 = s[i];
        assert(s@.take(i + 1).drop_last() =~= s@.take(i as int));
        if b >= 0x20 && b < 0x7F {
            out.push(b as char);
        }
        i = i + 1;
        assert(out@ =~= old(out)@ + printable(s@.take(i as int)));
    }
}

fn push_nonzero(out: &mut String, s: &[u8; 12])
    ensures
        final(out)@ == old(out)@ + nonzero(s@),
{
    let mut i: usize = 0;
    assert(out@ =~= old(out)@ + nonzero(s@.take(0)));
    while i < 12
        invariant
            i <= 12,
            s@.len() == 12,
            out@ == old(out)@ + nonzero(s@.take(i as int)),
        decreases 12 - i,
    {
        let b: u8 = s[i];
        assert(s@.take(i + 1).drop_last() =~= s@.take(i as int));
        if b != 0 {
            out.push(b as char);
        }
        i = i + 1;
        assert(out@ =~= old(out)@ + nonzero(s@.take(i as int)));
    }
    assert(s@.take(12) =~= s@);
}

/// `word` if `on`, else nothing.
pub open spec fn flag(on: bool, word: Seq<char>) -> Seq<char> {
    if on {
        word
    } else {
        Seq::empty()
    }
}

/// One line with a frequency, or nothing where it is zero.
pub open spec fn freq_line(label: Seq<char>, mhz: u32) -> Seq<char> {
    if mhz > 0 {
        label + text::dec(mhz as nat) + " MHz\n"@
    } else {
        Seq::empty()
    }
}

/// The whole CPU information block.
pub open spec fn info_text(info: CpuInfo) -> Seq<char> {
    "\n=== CPU Information ===\nVendor:   "@ + nonzero(info.vendor@) + "\nModel:    "@ + printable(
        info.brand@.take(info.brand_len as int),
    ) + "\n"@ + freq_line("Base:     "@, info.base_freq_mhz) + freq_line(
        "Max:      "@,
        info.max_freq_mhz,
    ) + "Cores:    "@ + text::dec(info.logical_cores as nat) + " logical\nFeatures: "@ + flag(
        info.has_sse,
        "SSE "@,
    ) + flag(info.has_sse2, "SSE2 "@) + flag(info.has_avx, "AVX "@) + flag(info.has_avx2, "AVX2 "@)
        + flag(info.has_avx512f, "AVX-512F "@) + flag(info.has_xsave, "XSAVE "@) + flag(
        info.has_x2apic,
        "x2APIC "@,
    ) + "\nCPUID:    max_leaf=0x"@ + text::hex(info.max_leaf as nat) + ", max_ext=0x"@ + text::hex(
        info.max_ext_leaf as nat,
    ) + "\n===========================\n\n"@
}

fn push_flag(out: &mut String, on: bool, word: &str)
    ensures
        final(out)@ == old(out)@ + flag(on, word@),
{
    if on {
        out.append(word);
    }
    assert(out@ =~= old(out)@ + flag(on, word@));
}

fn push_freq(out: &mut String, label: &str, mhz: u32)
    ensures
        final(out)@ == old(out)@ + freq_line(label@, mhz),
{
    if mhz > 0 {
        out.append(label);
        push_dec(out, mhz as u64);
        out.append(" MHz\n");
    }
    assert(out@ =~= old(out)@ + freq_line(label@, mhz));
}

/// The text that is printed about the CPU at boot.
pub fn print_info(info: &CpuInfo) -> (out: String)
    requires
        info.wf(),
    ensures
        out@ == info_text(*info),
{
    let mut out: String = "\n=== CPU Information ===\nVendor:   ".to_owned();
    push_nonzero(&mut out, &info.vendor);
    out.append("\nModel:    ");
    push_printable(&mut out, &info.brand, info.brand_len);
    out.append("\n");
    push_freq(&mut out, "Base:     ", info.base_freq_mhz);
    push_freq(&mut out, "Max:      ", info.max_freq_mhz);
    out.append("Cores:    ");
    push_dec(&mut out, info.logical_cores as u64);
    out.append(" logical\nFeatures: ");
    push_flag(&mut out, info.has_sse, "SSE ");
    push_flag(&mut out, info.has_sse2, "SSE2 ");
    push_flag(&mut out, info.has_avx, "AVX ");
    push_flag(&mut out, info.has_avx2, "AVX2 ");
    push_flag(&mut out, info.has_avx512f, "AVX-512F ");
    push_flag(&mut out, info.has_xsave, "XSAVE ");
    push_flag(&mut out, info.has_x2apic, "x2APIC ");
    out.append("\nCPUID:    max_leaf=0x");
    push_hex(&mut out, info.max_leaf as u64);
    out.append(", max_ext=0x");
    push_hex(&mut out, info.max_ext_leaf as u64);
    out.append("\n===========================\n\n");
    out
}

} // verus!
