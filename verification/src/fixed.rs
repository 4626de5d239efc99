//! Sub-pixel fixed-point coordinates.

use vstd::prelude::*;

verus! {

/// Number of sub-pixel units in one pixel.
pub const SUBPIXEL: i64 = 256;

/// The whole pixel nearest to `units` sub-pixel units, halves rounded away
/// from zero.
pub open spec fn nearest_pixel(units: int) -> int {
    if units >= 0 {
        (units + SUBPIXEL / 2) / SUBPIXEL as int
    } else {
        -((SUBPIXEL / 2 - units) / SUBPIXEL as int)
    }
}

/// Rounds a sub-pixel coordinate to the nearest whole pixel.
pub fn round_to_pixel(units: i32) -> (pixel: i32)
    ensures
        pixel == nearest_pixel(units as int),
        -8388608 <= pixel <= 8388608,
{
    round_difference(units, 0)
}

/// Rounds the difference of two sub-pixel coordinates, `to - from`, to the
/// nearest whole pixel.
pub fn round_difference(to: i32, from: i32) -> (pixel: i32)
    ensures
        pixel == nearest_pixel(to - from),
        -16777216 <= pixel <= 16777216,
        from == 0 ==> -8388608 <= pixel <= 8388608,
{
    let wide: i64 = to as i64 - from as i64;
    if wide >= 0 {
        ((wide + SUBPIXEL / 2) / SUBPIXEL) as i32
    } else {
        (-((SUBPIXEL / 2 - wide) / SUBPIXEL)) as i32
    }
}

/// The integer nearest to `a / n`, halves rounded away from zero.
pub open spec fn nearest_quotient(a: int, n: int) -> int {
    if a >= 0 {
        (2 * a + n) / (2 * n)
    } else {
        -((n - 2 * a) / (2 * n))
    }
}

/// A quotient is below `k` where the dividend is below `k` times the divisor.
pub proof fn lemma_quotient_bound(top: int, d: int, k: int)
    by (nonlinear_arith)
    requires
        0 <= top < d * k,
        d > 0,
    ensures
        0 <= top / d < k,
{
}

} // verus!
