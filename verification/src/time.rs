//! Time utilities with wrapping support.

use vstd::prelude::*;

verus! {

/// The signed reading of a 32-bit two's-complement word, given as an integer in `[0, 2^32)`.
pub open spec fn signed32(w: int) -> int {
    if w < 0x8000_0000 { w } else { w - 0x1_0000_0000 }
}

/// `later - earlier` on the 32-bit clock, read as a signed 32-bit value.
pub open spec fn spec_time_diff(later: u32, earlier: u32) -> int {
    signed32(if later >= earlier { later - earlier } else { later - earlier + 0x1_0000_0000 })
}

/// The signed reading of the wrapped difference of two 32-bit words, computed in exec code.
pub fn wrapped_diff_i32(a: u32, b: u32) -> (r: i32)
    ensures
        r == signed32(if a >= b { a - b } else { a - b + 0x1_0000_0000 }),
{
    let w = a.wrapping_sub(b);
    if w <= 0x7fff_ffff {
        w as i32
    } else {
        let m: u32 = u32::MAX - w;
        -(m as i32) - 1
    }
}

/// Time difference with wrapping
pub fn time_diff(later: u32, earlier: u32) -> (r: i32)
    ensures
        r == spec_time_diff(later, earlier),
{
    wrapped_diff_i32(later, earlier)
}

/// Check if time `a` is strictly after time `b`
pub fn time_after(a: u32, b: u32) -> (r: bool)
    ensures
        r == (spec_time_diff(a, b) > 0),
{
    time_diff(a, b) > 0
}

/// Value of `clamp_u32`: the lower bound wins when `val` is below it, then the upper bound.
pub open spec fn spec_clamp(val: u32, min: u32, max: u32) -> u32 {
    if val < min {
        min
    } else if val > max {
        max
    } else {
        val
    }
}

/// Clamp a value between min and max
pub fn clamp_u32(val: u32, min: u32, max: u32) -> (r: u32)
    ensures
        r == spec_clamp(val, min, max),
        min <= max ==> min <= r <= max,
{
    if val < min {
        min
    } else if val > max {
        max
    } else {
        val
    }
}

/// The clock difference is antisymmetric, except at the half-range point,
/// where both directions read as the most negative value.
pub proof fn lemma_time_diff_antisymmetric(a: u32, b: u32)
    ensures
        spec_time_diff(a, b) == -spec_time_diff(b, a) || (spec_time_diff(a, b) == -0x8000_0000
            && spec_time_diff(b, a) == -0x8000_0000),
        spec_time_diff(a, a) == 0,
{
}

/// The clock difference of a time advanced by less than half the range is that advance.
pub proof fn lemma_time_diff_of_advance(t: u32, d: u32)
    requires
        d < 0x8000_0000,
    ensures
        spec_time_diff(((t + d) % 0x1_0000_0000) as u32, t) == d,
{
}

} // verus!
