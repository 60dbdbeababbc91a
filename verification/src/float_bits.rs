//! IEEE-754 numbers as bit patterns.
//!
//! Every floating-point quantity of this crate (audio samples, vertex
//! deltas, blendshape weights, solver matrices) travels as the bit pattern
//! of a binary32 or binary64 number. Ordering, negation, clamping and the
//! conversions between the two widths are exact functions of the patterns
//! and live here; rounding arithmetic is behind
//! [`FloatOps`](crate::float_ops::FloatOps).

use vstd::arithmetic::power2::pow2;
use vstd::prelude::*;

verus! {

/// Bit pattern of a binary32 number.
pub type Bits32 = u32;

/// Bit pattern of a binary64 number.
pub type Bits64 = u64;

/// Sign bit of a binary32 pattern, which is also the pattern of `-0.0`.
pub const SIGN32: u32 = 0x8000_0000;

/// Magnitude pattern of a binary32 infinity.
pub const INF32: u32 = 0x7f80_0000;

/// `1.0` in binary32.
pub const ONE32: u32 = 0x3f80_0000;

/// `2.0` in binary32.
pub const TWO32: u32 = 0x4000_0000;

/// `3.0` in binary32.
pub const THREE32: u32 = 0x4040_0000;

/// `-2.0` in binary32.
pub const MINUS_TWO32: u32 = 0xc000_0000;

/// Sign bit of a binary64 pattern, which is also the pattern of `-0.0`.
pub const SIGN64: u64 = 0x8000_0000_0000_0000;

/// Magnitude pattern of a binary64 infinity.
pub const INF64: u64 = 0x7ff0_0000_0000_0000;

/// `1.0` in binary64.
pub const ONE64: u64 = 0x3ff0_0000_0000_0000;

/// Pattern without its sign bit.
pub open spec fn magnitude32(b: u32) -> int {
    if b >= SIGN32 {
        b - SIGN32
    } else {
        b as int
    }
}

/// Pattern without its sign bit.
pub open spec fn magnitude64(b: u64) -> int {
    if b >= SIGN64 {
        b - SIGN64
    } else {
        b as int
    }
}

pub open spec fn is_nan32(b: u32) -> bool {
    magnitude32(b) > INF32
}

pub open spec fn is_nan64(b: u64) -> bool {
    magnitude64(b) > INF64
}

pub open spec fn is_finite32(b: u32) -> bool {
    magnitude32(b) < INF32
}

pub open spec fn is_finite64(b: u64) -> bool {
    magnitude64(b) < INF64
}

/// Integer by which non-NaN patterns are ordered; both zeros have key 0.
pub open spec fn order32(b: u32) -> int {
    if b >= SIGN32 {
        -magnitude32(b)
    } else {
        magnitude32(b)
    }
}

/// Integer by which non-NaN patterns are ordered; both zeros have key 0.
pub open spec fn order64(b: u64) -> int {
    if b >= SIGN64 {
        -magnitude64(b)
    } else {
        magnitude64(b)
    }
}

/// `a < b`; false when either is NaN.
pub open spec fn less32(a: u32, b: u32) -> bool {
    !is_nan32(a) && !is_nan32(b) && order32(a) < order32(b)
}

/// `a <= b`; false when either is NaN.
pub open spec fn at_most32(a: u32, b: u32) -> bool {
    !is_nan32(a) && !is_nan32(b) && order32(a) <= order32(b)
}

/// `a < b`; false when either is NaN.
pub open spec fn less64(a: u64, b: u64) -> bool {
    !is_nan64(a) && !is_nan64(b) && order64(a) < order64(b)
}

/// `a <= b`; false when either is NaN.
pub open spec fn at_most64(a: u64, b: u64) -> bool {
    !is_nan64(a) && !is_nan64(b) && order64(a) <= order64(b)
}

/// Pattern with the sign flipped.
pub open spec fn negated32(b: u32) -> u32 {
    if b >= SIGN32 {
        (b - SIGN32) as u32
    } else {
        (b + SIGN32) as u32
    }
}

/// Pattern with the sign flipped.
pub open spec fn negated64(b: u64) -> u64 {
    if b >= SIGN64 {
        (b - SIGN64) as u64
    } else {
        (b + SIGN64) as u64
    }
}

/// `x` confined to `[lo, hi]`; a NaN stays as it is.
pub open spec fn clamped32(x: u32, lo: u32, hi: u32) -> u32 {
    if less32(x, lo) {
        lo
    } else if less32(hi, x) {
        hi
    } else {
        x
    }
}

fn key32(b: u32) -> (k: i32)
    ensures
        k == order32(b),
{
    if b >= SIGN32 {
        -((b - SIGN32) as i32)
    } else {
        b as i32
    }
}

fn key64(b: u64) -> (k: i64)
    ensures
        k == order64(b),
{
    if b >= SIGN64 {
        -((b - SIGN64) as i64)
    } else {
        b as i64
    }
}

fn nan32(b: u32) -> (r: bool)
    ensures
        r == is_nan32(b),
{
    if b >= SIGN32 {
        b - SIGN32 > INF32
    } else {
        b > INF32
    }
}

fn nan64(b: u64) -> (r: bool)
    ensures
        r == is_nan64(b),
{
    if b >= SIGN64 {
        b - SIGN64 > INF64
    } else {
        b > INF64
    }
}

pub fn lt32(a: u32, b: u32) -> (r: bool)
    ensures
        r == less32(a, b),
{
    !nan32(a) && !nan32(b) && key32(a) < key32(b)
}

pub fn le32(a: u32, b: u32) -> (r: bool)
    ensures
        r == at_most32(a, b),
{
    !nan32(a) && !nan32(b) && key32(a) <= key32(b)
}

pub fn lt64(a: u64, b: u64) -> (r: bool)
    ensures
        r == less64(a, b),
{
    !nan64(a) && !nan64(b) && key64(a) < key64(b)
}

pub fn le64(a: u64, b: u64) -> (r: bool)
    ensures
        r == at_most64(a, b),
{
    !nan64(a) && !nan64(b) && key64(a) <= key64(b)
}

pub fn neg32(b: u32) -> (r: u32)
    ensures
        r == negated32(b),
{
    if b >= SIGN32 {
        b - SIGN32
    } else {
        b + SIGN32
    }
}

pub fn neg64(b: u64) -> (r: u64)
    ensures
        r == negated64(b),
{
    if b >= SIGN64 {
        b - SIGN64
    } else {
        b + SIGN64
    }
}

/// Confines `x` to `[lo, hi]`. The bounds must be ordered numbers.
pub fn clamp32(x: u32, lo: u32, hi: u32) -> (r: u32)
    requires
        at_most32(lo, hi),
    ensures
        r == clamped32(x, lo, hi),
{
    if lt32(x, lo) {
        lo
    } else if lt32(hi, x) {
        hi
    } else {
        x
    }
}

/// Magnitude of the finite binary32 pattern `m` (sign bit removed), in units
/// of the smallest subnormal `2^-149`.
pub open spec fn units32(m: int) -> nat {
    let e = m / 0x80_0000;
    let f = m % 0x80_0000;
    if e == 0 {
        f as nat
    } else {
        ((f + 0x80_0000) * pow2((e - 1) as nat)) as nat
    }
}

/// Magnitude of the finite binary64 pattern `m` (sign bit removed), in units
/// of the smallest subnormal `2^-1074`.
pub open spec fn units64(m: int) -> nat {
    let e = m / 0x10_0000_0000_0000;
    let f = m % 0x10_0000_0000_0000;
    if e == 0 {
        f as nat
    } else {
        ((f + 0x10_0000_0000_0000) * pow2((e - 1) as nat)) as nat
    }
}

/// Signed value of a finite binary32 pattern in units of `2^-149`.
pub open spec fn value32(b: u32) -> int {
    if b >= SIGN32 {
        -(units32(magnitude32(b)) as int)
    } else {
        units32(magnitude32(b)) as int
    }
}

/// Signed value of a finite binary64 pattern in units of `2^-1074`.
pub open spec fn value64(b: u64) -> int {
    if b >= SIGN64 {
        -(units64(magnitude64(b)) as int)
    } else {
        units64(magnitude64(b)) as int
    }
}

/// How often `unit` goes into `x`, rounded to nearest with ties to even.
pub open spec fn rounded_count(x: int, unit: int) -> int {
    let q = x / unit;
    let r = x % unit;
    if 2 * r < unit || (2 * r == unit && q % 2 == 0) {
        q
    } else {
        q + 1
    }
}

/// Spacing of the binary32 numbers around the binary64 magnitude pattern
/// `m`, in units of `2^-1074`.
pub open spec fn spacing32(m: int) -> nat {
    let e = m / 0x10_0000_0000_0000;
    if e >= 897 {
        pow2((e + 28) as nat)
    } else {
        pow2(925)
    }
}

/// Magnitude of the finite binary64 pattern `m` after rounding to the
/// binary32 grid, in units of `2^-1074`.
pub open spec fn rounded_units(m: int) -> int {
    rounded_count(units64(m) as int, spacing32(m) as int) * spacing32(m)
}

/// `r` is the binary64 number with the value of the binary32 number `b`. A NaN
/// keeps its sign and its payload.
pub open spec fn widens(b: u32, r: u64) -> bool {
    &&& (r >= SIGN64) == (b >= SIGN32)
    &&& is_nan32(b) <==> is_nan64(r)
    &&& is_finite32(b) <==> is_finite64(r)
    &&& is_finite32(b) ==> units64(magnitude64(r)) == units32(magnitude32(b)) * pow2(925)
    &&& is_nan32(b) ==> magnitude64(r) == INF64 + (magnitude32(b) - INF32) * 0x2000_0000
}

/// `r` is the binary32 number nearest to the binary64 number `b`, ties to
/// even; magnitudes that round to `2^128` or more become infinite. A NaN
/// becomes the quiet NaN of that sign.
pub open spec fn narrows(b: u64, r: u32) -> bool {
    &&& (r >= SIGN32) == (b >= SIGN64)
    &&& is_nan64(b) <==> is_nan32(r)
    &&& is_nan64(b) ==> magnitude32(r) == 0x7fc0_0000
    &&& !is_finite64(b) ==> !is_finite32(r)
    &&& is_finite64(b) ==> if rounded_units(magnitude64(b)) >= pow2(1202) {
        magnitude32(r) == INF32
    } else {
        is_finite32(r) && units32(magnitude32(r)) * pow2(925) == rounded_units(magnitude64(b))
    }
}

} // verus!
