//! IEEE 754 binary32 values by their bit patterns: classes and order.

use vstd::prelude::*;

verus! {

/// Bit pattern of negative infinity.
pub const NEG_INF_BITS: u32 = 0xff80_0000;

/// Magnitude bits.
pub open spec fn magnitude(b: u32) -> int {
    b as int % 0x8000_0000
}

pub open spec fn is_nan(b: u32) -> bool {
    magnitude(b) > 0x7f80_0000
}

pub open spec fn is_inf(b: u32) -> bool {
    magnitude(b) == 0x7f80_0000
}

pub open spec fn is_finite(b: u32) -> bool {
    magnitude(b) < 0x7f80_0000
}

/// An integer that orders as the values do: two numbers compare as their keys.
/// Both zeros have the key zero. Meaningless for what is not a number.
pub open spec fn key(b: u32) -> int {
    if b < 0x8000_0000 {
        magnitude(b)
    } else {
        -magnitude(b)
    }
}

/// Key of negative infinity, the least of all.
pub open spec fn lowest() -> int {
    -0x7f80_0000
}

/// The ordered comparison `a > b` of floating-point values.
pub open spec fn greater(a: u32, b: u32) -> bool {
    !is_nan(a) && !is_nan(b) && key(a) > key(b)
}

/// The ordered comparison `a == b` of floating-point values.
pub open spec fn equal(a: u32, b: u32) -> bool {
    !is_nan(a) && !is_nan(b) && key(a) == key(b)
}

/// Comparisons with what is not a number fail; all others are total, with
/// negative infinity at the bottom.
pub proof fn lemma_order(a: u32, b: u32)
    ensures
        is_nan(a) || is_nan(b) ==> !greater(a, b) && !equal(a, b) && !greater(b, a),
        !is_nan(a) && !is_nan(b) ==> greater(a, b) || equal(a, b) || greater(b, a),
        !is_nan(a) ==> key(a) >= lowest(),
        key(NEG_INF_BITS) == lowest(),
        !is_nan(a) && key(a) == lowest() ==> a == NEG_INF_BITS,
{
}

pub fn nan(b: u32) -> (r: bool)
    ensures
        r == is_nan(b),
{
    b % 0x8000_0000 > 0x7f80_0000
}

pub fn infinite(b: u32) -> (r: bool)
    ensures
        r == is_inf(b),
{
    b % 0x8000_0000 == 0x7f80_0000
}

pub fn finite(b: u32) -> (r: bool)
    ensures
        r == is_finite(b),
{
    b % 0x8000_0000 < 0x7f80_0000
}

pub fn order_key(b: u32) -> (k: i64)
    ensures
        k == key(b),
{
    let m: i64 = (b % 0x8000_0000) as i64;
    if b < 0x8000_0000 {
        m
    } else {
        0 - m
    }
}

pub fn gt(a: u32, b: u32) -> (r: bool)
    ensures
        r == greater(a, b),
{
    !nan(a) && !nan(b) && order_key(a) > order_key(b)
}

pub fn eq(a: u32, b: u32) -> (r: bool)
    ensures
        r == equal(a, b),
{
    !nan(a) && !nan(b) && order_key(a) == order_key(b)
}

} // verus!
