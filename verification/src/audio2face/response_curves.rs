//! Response curves that reshape linear blendshape activations.
//!
//! - [`ease_in`]: steep at the start, flat at the end, so that a small audio
//!   response opens the mouth quickly.
//! - [`center_weighted`]: flat at the extremes, steep through the centre, for
//!   activations whose informative range is the middle.

use vstd::prelude::*;

use crate::float_bits::{
    at_most32, clamp32, clamped32, le32, less32, lt32, neg32, negated32, MINUS_TWO32, ONE32,
    THREE32, TWO32,
};
use crate::float_ops::{
    add32, added32, div32, divided32, mul32, multiplied32, sub32, subtracted32, FloatOps,
};

verus! {

/// Spans below this are degenerate: `1e-6`.
pub const MIN_SPAN: u32 = 0x3586_37bd;

/// `r` is `t (2 - t)` for `t` confined to `[0, 1]`.
pub open spec fn ease_in_is<F: FloatOps>(t: u32, r: u32) -> bool {
    let c = clamped32(t, 0, ONE32);
    exists|d: u32|
        {
            &&& #[trigger] subtracted32::<F>(TWO32, c, d)
            &&& multiplied32::<F>(c, d, r)
        }
}

/// Hermite spline `t (2 - t)`: steep at 0, flat at 1. The input is confined
/// to `[0, 1]`.
pub fn ease_in<F: FloatOps>(t: u32) -> (r: u32)
    ensures
        ease_in_is::<F>(t, r),
{
    let c: u32 = clamp32(t, 0, ONE32);
    let d: u32 = sub32::<F>(TWO32, c);
    mul32::<F>(c, d)
}

/// `r` is `2 s3 - 3 s2 + 1`.
pub open spec fn h00_is<F: FloatOps>(s2: u32, s3: u32, r: u32) -> bool {
    exists|a: u32, b: u32, c: u32|
        {
            &&& #[trigger] multiplied32::<F>(TWO32, s3, a)
            &&& #[trigger] multiplied32::<F>(THREE32, s2, b)
            &&& #[trigger] subtracted32::<F>(a, b, c)
            &&& added32::<F>(c, ONE32, r)
        }
}

/// `r` is `s3 - 2 s2 + s`.
pub open spec fn h10_is<F: FloatOps>(s: u32, s2: u32, s3: u32, r: u32) -> bool {
    exists|a: u32, c: u32|
        {
            &&& #[trigger] multiplied32::<F>(TWO32, s2, a)
            &&& #[trigger] subtracted32::<F>(s3, a, c)
            &&& added32::<F>(c, s, r)
        }
}

/// `r` is `-2 s3 + 3 s2`.
pub open spec fn h01_is<F: FloatOps>(s2: u32, s3: u32, r: u32) -> bool {
    exists|a: u32, b: u32|
        {
            &&& #[trigger] multiplied32::<F>(MINUS_TWO32, s3, a)
            &&& #[trigger] multiplied32::<F>(THREE32, s2, b)
            &&& added32::<F>(a, b, r)
        }
}

/// `r` is `h00 p0 + h10 m0 + h01 p1 + h11 m1`, summed from the left.
pub open spec fn blend_is<F: FloatOps>(
    h00: u32,
    p0: u32,
    h10: u32,
    m0: u32,
    h01: u32,
    p1: u32,
    h11: u32,
    m1: u32,
    r: u32,
) -> bool {
    exists|a: u32, b: u32, c: u32, d: u32, ab: u32, abc: u32|
        {
            &&& #[trigger] multiplied32::<F>(h00, p0, a)
            &&& #[trigger] multiplied32::<F>(h10, m0, b)
            &&& #[trigger] multiplied32::<F>(h01, p1, c)
            &&& #[trigger] multiplied32::<F>(h11, m1, d)
            &&& #[trigger] added32::<F>(a, b, ab)
            &&& #[trigger] added32::<F>(ab, c, abc)
            &&& added32::<F>(abc, d, r)
        }
}

/// `r` is the cubic Hermite interpolation at `s` between `p0` with tangent
/// `m0` and `p1` with tangent `m1`.
pub open spec fn hermite_is<F: FloatOps>(
    s: u32,
    p0: u32,
    p1: u32,
    m0: u32,
    m1: u32,
    r: u32,
) -> bool {
    exists|s2: u32, s3: u32, h00: u32, h10: u32, h01: u32, h11: u32|
        {
            &&& #[trigger] multiplied32::<F>(s, s, s2)
            &&& #[trigger] multiplied32::<F>(s2, s, s3)
            &&& h00_is::<F>(s2, s3, h00)
            &&& h10_is::<F>(s, s2, s3, h10)
            &&& h01_is::<F>(s2, s3, h01)
            &&& subtracted32::<F>(s3, s2, h11)
            &&& #[trigger] blend_is::<F>(h00, p0, h10, m0, h01, p1, h11, m1, r)
        }
}

/// Cubic Hermite interpolation between `(p0, m0)` and `(p1, m1)`, with
/// `s` in `[0, 1]`.
fn hermite_segment<F: FloatOps>(s: u32, p0: u32, p1: u32, m0: u32, m1: u32) -> (r: u32)
    ensures
        hermite_is::<F>(s, p0, p1, m0, m1, r),
{
    let s2: u32 = mul32::<F>(s, s);
    let s3: u32 = mul32::<F>(s2, s);

    let two_s3: u32 = mul32::<F>(TWO32, s3);
    let three_s2: u32 = mul32::<F>(THREE32, s2);
    let h00_head: u32 = sub32::<F>(two_s3, three_s2);
    let h00: u32 = add32::<F>(h00_head, ONE32);
    assert(h00_is::<F>(s2, s3, h00));

    let two_s2: u32 = mul32::<F>(TWO32, s2);
    let h10_head: u32 = sub32::<F>(s3, two_s2);
    let h10: u32 = add32::<F>(h10_head, s);
    assert(h10_is::<F>(s, s2, s3, h10));

    let minus_two_s3: u32 = mul32::<F>(MINUS_TWO32, s3);
    let three_s2_again: u32 = mul32::<F>(THREE32, s2);
    let h01: u32 = add32::<F>(minus_two_s3, three_s2_again);
    assert(h01_is::<F>(s2, s3, h01));

    let h11: u32 = sub32::<F>(s3, s2);

    let a: u32 = mul32::<F>(h00, p0);
    let b: u32 = mul32::<F>(h10, m0);
    let ab: u32 = add32::<F>(a, b);
    let c: u32 = mul32::<F>(h01, p1);
    let abc: u32 = add32::<F>(ab, c);
    let d: u32 = mul32::<F>(h11, m1);
    let r: u32 = add32::<F>(abc, d);
    assert(blend_is::<F>(h00, p0, h10, m0, h01, p1, h11, m1, r));
    r
}

/// The segment below zero: from `(lo, lo)` with tangent 0 to `(0, 0)` with
/// tangent 2.
pub open spec fn lower_segment_is<F: FloatOps>(t: u32, lo: u32, r: u32) -> bool {
    let span = negated32(lo);
    if less32(span, MIN_SPAN) {
        r == t
    } else {
        exists|d: u32, s: u32, m: u32|
            {
                &&& #[trigger] subtracted32::<F>(t, lo, d)
                &&& #[trigger] divided32::<F>(d, span, s)
                &&& #[trigger] multiplied32::<F>(TWO32, span, m)
                &&& hermite_is::<F>(s, lo, 0, 0, m, r)
            }
    }
}

/// The segment above zero: from `(0, 0)` with tangent 2 to `(hi, hi)` with
/// tangent 0.
pub open spec fn upper_segment_is<F: FloatOps>(t: u32, hi: u32, r: u32) -> bool {
    if less32(hi, MIN_SPAN) {
        r == t
    } else {
        exists|s: u32, m: u32|
            {
                &&& #[trigger] divided32::<F>(t, hi, s)
                &&& #[trigger] multiplied32::<F>(TWO32, hi, m)
                &&& hermite_is::<F>(s, 0, hi, m, 0, r)
            }
    }
}

/// `r` is the value of the centre-weighted curve over `[lo, hi]` at `t`.
pub open spec fn center_weighted_is<F: FloatOps>(t: u32, lo: u32, hi: u32, r: u32) -> bool {
    let c = clamped32(t, lo, hi);
    if at_most32(c, 0) {
        lower_segment_is::<F>(c, lo, r)
    } else {
        upper_segment_is::<F>(c, hi, r)
    }
}

/// Three-key centre-weighted Hermite curve with keys `(lo, lo)`, `(0, 0)` and
/// `(hi, hi)`: steep through zero, flat at the extremes. The input is
/// confined to `[lo, hi]`.
///
/// `lo` is expected to be at most 0 and `hi` at least 0; degenerate spans
/// pass `t` through unchanged for the matching segment.
pub fn center_weighted<F: FloatOps>(t: u32, lo: u32, hi: u32) -> (r: u32)
    requires
        at_most32(lo, hi),
    ensures
        center_weighted_is::<F>(t, lo, hi, r),
{
    let c: u32 = clamp32(t, lo, hi);
    if le32(c, 0) {
        let span: u32 = neg32(lo);
        if lt32(span, MIN_SPAN) {
            return c;
        }
        let d: u32 = sub32::<F>(c, lo);
        let s: u32 = div32::<F>(d, span);
        let m: u32 = mul32::<F>(TWO32, span);
        hermite_segment::<F>(s, lo, 0, 0, m)
    } else {
        if lt32(hi, MIN_SPAN) {
            return c;
        }
        let s: u32 = div32::<F>(c, hi);
        let m: u32 = mul32::<F>(TWO32, hi);
        hermite_segment::<F>(s, 0, hi, m, 0)
    }
}

} // verus!
