//! The frequency of the time stamp counter.

use crate::arch::x86_64::cpuinfo::Cpuid;
use vstd::prelude::*;

verus! {

/// Used where CPUID reports no frequency.
pub const FALLBACK_TSC_HZ: u64 = 2_500_000_000;

/// The frequency by leaf 0x15 (crystal clock times ratio), where that leaf is
/// usable and does not round to zero; else the base frequency of leaf 0x16 in
/// MHz; else the fallback.
pub open spec fn tsc_hz_of(c: Cpuid) -> int {
    let max = c.leaf_0.eax;
    let l = c.leaf_15;
    let crystal = if max >= 0x15 && l.eax != 0 && l.ebx != 0 && l.ecx != 0 {
        (l.ecx * l.ebx) / l.eax as int
    } else {
        0
    };
    if crystal != 0 {
        crystal
    } else if max >= 0x16 && c.leaf_16.eax & 0xFFFF != 0 {
        (c.leaf_16.eax & 0xFFFF) * 1_000_000
    } else {
        FALLBACK_TSC_HZ as int
    }
}

/// Where the crystal and both numbers of the ratio are reported and give at least a
/// hertz, the frequency is that of the crystal times the ratio, rounded down.
pub proof fn lemma_crystal_times_ratio(c: Cpuid)
    requires
        c.leaf_0.eax >= 0x15,
        c.leaf_15.eax != 0,
        c.leaf_15.ecx * c.leaf_15.ebx >= c.leaf_15.eax,
    ensures
        tsc_hz_of(c) * c.leaf_15.eax <= c.leaf_15.ecx * c.leaf_15.ebx < (tsc_hz_of(c) + 1)
            * c.leaf_15.eax,
{
    let (a, b) = ((c.leaf_15.ecx * c.leaf_15.ebx) as int, c.leaf_15.eax as int);
    let q = a / b;
    vstd::arithmetic::div_mod::lemma_fundamental_div_mod(a, b);
    vstd::arithmetic::div_mod::lemma_mod_bound(a, b);
    assert(c.leaf_15.ebx != 0 && c.leaf_15.ecx != 0) by (nonlinear_arith)
        requires
            c.leaf_15.ecx * c.leaf_15.ebx >= 1,
    ;
    assert(q >= 1 && q * b == b * q && (q + 1) * b == b * q + b) by (nonlinear_arith)
        requires
            a == b * q + a % b,
            0 <= a % b < b,
            a >= b,
    ;
}

/// The frequency of the time stamp counter in Hz, never zero.
pub fn tsc_hz(c: &Cpuid) -> (hz: u64)
    ensures
        hz == tsc_hz_of(*c),
        hz > 0,
{
    let max: u32 = c.leaf_0.eax;
    if max >= 0x15 && c.leaf_15.eax != 0 && c.leaf_15.ebx != 0 && c.leaf_15.ecx != 0 {
        let crystal: u64 = c.leaf_15.ecx as u64;
        let num: u64 = c.leaf_15.ebx as u64;
        assert(crystal * num <= 0xFFFF_FFFF * 0xFFFF_FFFF) by (nonlinear_arith)
            requires
                crystal <= 0xFFFF_FFFF,
                num <= 0xFFFF_FFFF,
        ;
        let hz: u64 = crystal * num / (c.leaf_15.eax as u64);
        if hz != 0 {
            return hz;
        }
    }
    if max >= 0x16 {
        let base_mhz: u32 = c.leaf_16.eax & 0xFFFF;
        let eax: u32 = c.leaf_16.eax;
        assert(eax & 0xFFFF <= 0xFFFF) by (bit_vector);
        if base_mhz != 0 {
            return (base_mhz as u64) * 1_000_000;
        }
    }
    FALLBACK_TSC_HZ
}

} // verus!
