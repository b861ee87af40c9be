//! A projection before it runs: its kernel, how its rows may be split, and the
//! line that announces the first of its kind.

use crate::arch::x86_64::math::linear::Layout;
use crate::inference_avx512;
use crate::inference_avx512::announce;
use crate::inference_avx512::announce::{Announced, Dispatch, MatmulDispatch};
use crate::inference_avx512::{GgmlType, LinearDispatchAvx512Error};
use vstd::prelude::*;

verus! {

/// What a projection runs.
pub struct MatmulPlan {
    pub kernel: Layout,
    /// Rows that stay together when the rows are split among cores.
    pub align: usize,
    pub line: Option<String>,
}

impl MatmulPlan {
    /// The plan runs `kernel` with row groups of `align`, and announces `d` if no
    /// dispatch of its kind was announced in `a`.
    pub open spec fn runs(self, a: Announced, d: Dispatch, kernel: Layout, align: usize) -> bool {
        &&& self.kernel == kernel
        &&& self.align == align
        &&& self.line is Some == !announce::said(a, d)
        &&& self.line is Some ==> self.line->Some_0@ == announce::dispatch_text(d)
    }
}

/// Rows that one group holds: one where the weights are plain.
pub open spec fn group_rows(interleave: u32) -> usize {
    if interleave > 1 {
        interleave as usize
    } else {
        1
    }
}

/// A projection of 4-bit super-blocks.
pub fn linear_q4k_dispatch(a: &mut Announced, m: MatmulDispatch) -> (p: MatmulPlan)
    ensures
        p.runs(*old(a), Dispatch::Q4K(m), Layout::Q4K, 1),
        *final(a) == announce::with_said(*old(a), Dispatch::Q4K(m)),
{
    let line = announce::announce(a, Dispatch::Q4K(m));
    MatmulPlan { kernel: Layout::Q4K, align: 1, line }
}

/// A projection of 6-bit super-blocks.
pub fn linear_q6k_dispatch(a: &mut Announced, m: MatmulDispatch) -> (p: MatmulPlan)
    ensures
        p.runs(*old(a), Dispatch::Q6K(m), Layout::Q6K, 1),
        *final(a) == announce::with_said(*old(a), Dispatch::Q6K(m)),
{
    let line = announce::announce(a, Dispatch::Q6K(m));
    MatmulPlan { kernel: Layout::Q6K, align: 1, line }
}

/// A projection of 4-bit blocks, whose rows may be interleaved in groups.
pub fn linear_q4_0_dispatch(a: &mut Announced, m: MatmulDispatch, interleave: u32) -> (p:
    MatmulPlan)
    ensures
        p.runs(
            *old(a),
            Dispatch::Q4_0(m, interleave as usize),
            if interleave > 1 {
                Layout::Q4_0X4
            } else {
                Layout::Q4_0
            },
            group_rows(interleave),
        ),
        *final(a) == announce::with_said(*old(a), Dispatch::Q4_0(m, interleave as usize)),
{
    let line = announce::announce(a, Dispatch::Q4_0(m, interleave as usize));
    if interleave > 1 {
        MatmulPlan { kernel: Layout::Q4_0X4, align: interleave as usize, line }
    } else {
        MatmulPlan { kernel: Layout::Q4_0, align: 1, line }
    }
}

/// A projection of 8-bit blocks, whose rows may be interleaved in groups.
pub fn linear_q8_0_dispatch(a: &mut Announced, m: MatmulDispatch, interleave: u32) -> (p:
    MatmulPlan)
    ensures
        p.runs(
            *old(a),
            Dispatch::Q8_0(m, interleave as usize),
            if interleave > 1 {
                Layout::Q8_0X4
            } else {
                Layout::Q8_0
            },
            group_rows(interleave),
        ),
        *final(a) == announce::with_said(*old(a), Dispatch::Q8_0(m, interleave as usize)),
{
    let line = announce::announce(a, Dispatch::Q8_0(m, interleave as usize));
    if interleave > 1 {
        MatmulPlan { kernel: Layout::Q8_0X4, align: interleave as usize, line }
    } else {
        MatmulPlan { kernel: Layout::Q8_0, align: 1, line }
    }
}

/// The dispatch of a projection by its tensor type.
pub open spec fn dispatch_of(quant: GgmlType, m: MatmulDispatch, interleave: u32) -> Dispatch {
    match quant {
        GgmlType::Q4K => Dispatch::Q4K(m),
        GgmlType::Q6K => Dispatch::Q6K(m),
        GgmlType::Q4_0 => Dispatch::Q4_0(m, interleave as usize),
        _ => Dispatch::Q8_0(m, interleave as usize),
    }
}

/// Rows that a split of a projection keeps together.
pub open spec fn align_of(quant: GgmlType, interleave: u32) -> usize {
    match quant {
        GgmlType::Q4_0 | GgmlType::Q8_0 => group_rows(interleave),
        _ => 1,
    }
}

/// Plans a projection by its tensor type.
pub fn plan_linear(a: &mut Announced, m: MatmulDispatch, quant: GgmlType, interleave: u32) -> (r:
    Result<MatmulPlan, LinearDispatchAvx512Error>)
    ensures
        r is Ok == inference_avx512::kernel_of(quant, interleave) is Some,
        r matches Ok(p) ==> {
            &&& p.runs(
                *old(a),
                dispatch_of(quant, m, interleave),
                inference_avx512::kernel_of(quant, interleave)->Some_0,
                align_of(quant, interleave),
            )
            &&& *final(a) == announce::with_said(*old(a), dispatch_of(quant, m, interleave))
        },
        r matches Err(e) ==> e == LinearDispatchAvx512Error::UnsupportedQuant(quant) && *final(a)
            == *old(a),
{
    match quant {
        GgmlType::Q4K => Ok(linear_q4k_dispatch(a, m)),
        GgmlType::Q6K => Ok(linear_q6k_dispatch(a, m)),
        GgmlType::Q4_0 => Ok(linear_q4_0_dispatch(a, m, interleave)),
        GgmlType::Q8_0 => Ok(linear_q8_0_dispatch(a, m, interleave)),
        other => Err(LinearDispatchAvx512Error::UnsupportedQuant(other)),
    }
}

} // verus!
