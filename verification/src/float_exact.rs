//! The numbers that binary64 patterns denote, and arithmetic that does not
//! round.

use vstd::arithmetic::div_mod::{lemma_div_pos_is_pos, lemma_fundamental_div_mod};
use vstd::arithmetic::power2::{lemma2_to64, lemma2_to64_rest, lemma_pow2_adds, lemma_pow2_pos,
    lemma_pow2_strictly_increases, pow2};
use vstd::prelude::*;

use crate::float_bits::{at_most64, is_finite32, is_finite64, less64, magnitude32, magnitude64,
    narrows, negated64, rounded_count, rounded_units, spacing32, units32, units64, value32, value64,
    widens, ONE64, SIGN64};
use crate::float_convert::law_order64;
use crate::float_ops::{added64, divided64, multiplied64, rooted64, subtracted64, FloatOps};
use crate::float_rounding::{distance, number32};

verus! {

/// The number that a finite binary64 pattern denotes.
pub open spec fn number64(b: u64) -> real {
    value64(b) as real / pow2(1074) as real
}

/// Whether the binary64 operations of `F` are exact: whatever one gives for
/// finite operands is finite and denotes the very result. Arithmetic that
/// gives nothing where it would have to round is of this kind.
pub open spec fn never_rounds<F: FloatOps>() -> bool {
    &&& forall|a: u64, b: u64, r: u64| #[trigger]
        added64::<F>(a, b, r) && is_finite64(a) && is_finite64(b) ==> is_finite64(r) && number64(r)
            == number64(a) + number64(b)
    &&& forall|a: u64, b: u64, r: u64| #[trigger]
        subtracted64::<F>(a, b, r) && is_finite64(a) && is_finite64(b) ==> is_finite64(r)
            && number64(r) == number64(a) - number64(b)
    &&& forall|a: u64, b: u64, r: u64| #[trigger]
        multiplied64::<F>(a, b, r) && is_finite64(a) && is_finite64(b) ==> is_finite64(r)
            && number64(r) == number64(a) * number64(b)
    &&& forall|a: u64, b: u64, r: u64| #[trigger]
        divided64::<F>(a, b, r) && is_finite64(a) && is_finite64(b) && number64(b) != 0 as real
            ==> is_finite64(r) && number64(r) * number64(b) == number64(a)
    &&& forall|a: u64, r: u64| #[trigger]
        rooted64::<F>(a, r) && is_finite64(a) && number64(a) >= 0 as real ==> is_finite64(r)
            && number64(r) >= 0 as real && number64(r) * number64(r) == number64(a)
}

/// Comparing finite patterns compares the numbers that they denote.
pub proof fn law_numbers64_are_ordered(a: u64, b: u64)
    requires
        is_finite64(a),
        is_finite64(b),
    ensures
        less64(a, b) <==> number64(a) < number64(b),
        at_most64(a, b) <==> number64(a) <= number64(b),
{
    law_order64(a, b);
    lemma_pow2_pos(1074);
    let u = pow2(1074) as real;
    let x = value64(a) as real;
    let y = value64(b) as real;
    assert(x < y <==> x / u < y / u) by (nonlinear_arith)
        requires
            u > 0 as real,
    ;
    assert(x <= y <==> x / u <= y / u) by (nonlinear_arith)
        requires
            u > 0 as real,
    ;
}

/// Products of whole numbers are products of reals.
pub proof fn lemma_products_carry_over(a: int, b: int)
    ensures
        (a * b) as real == a as real * b as real,
{
    assert((a * b) as real == a as real * b as real) by (nonlinear_arith);
}

/// What zero and one denote.
pub proof fn law_bounds_denote()
    ensures
        number64(0) == 0 as real,
        number64(ONE64) == 1 as real,
{
    lemma_pow2_pos(1074);
    lemma_pow2_pos(1022);
    lemma2_to64_rest();
    lemma_pow2_adds(52, 1022);
    let u = pow2(1074) as real;
    assert(units64(0x3ff0_0000_0000_0000) == 0x10_0000_0000_0000 * pow2(1022));
    assert(value64(ONE64) == pow2(1074));
    assert(u / u == 1 as real && (0 as real) / u == 0 as real) by (nonlinear_arith)
        requires
            u > 0 as real,
    ;
}

/// Flipping the sign of a pattern gives the opposite number.
pub proof fn law_negation64_denotes_the_opposite(b: u64)
    requires
        is_finite64(b),
    ensures
        is_finite64(negated64(b)),
        number64(negated64(b)) == -number64(b),
{
    lemma_pow2_pos(1074);
    let u = pow2(1074) as real;
    let x = value64(b) as real;
    assert((-x) / u == -(x / u)) by (nonlinear_arith)
        requires
            u > 0 as real,
    ;
    assert(value64(negated64(b)) == -value64(b));
}

/// Widening keeps the number.
pub proof fn law_widening_keeps_the_number(b: u32, r: u64)
    requires
        is_finite32(b),
        widens(b, r),
    ensures
        is_finite64(r),
        number64(r) == number32(b),
{
    lemma_pow2_pos(149);
    lemma_pow2_pos(925);
    lemma_pow2_adds(149, 925);
    let p = pow2(925) as int;
    let v = pow2(149) as real;
    let w = pow2(925) as real;
    let x = value32(b) as real;
    assert((-(units32(magnitude32(b)) as int)) * p == -(units32(
        magnitude32(b),
    ) * p)) by (nonlinear_arith);
    assert(value64(r) == value32(b) * p);
    lemma_products_carry_over(value32(b), p);
    lemma_products_carry_over(pow2(149) as int, p);
    assert((x * w) / (v * w) == x / v) by (nonlinear_arith)
        requires
            v > 0 as real,
            w > 0 as real,
    ;
}

proof fn lemma_rounded_count(x: int, unit: int)
    requires
        0 <= x,
        0 < unit,
    ensures
        0 <= rounded_count(x, unit),
        2 * (rounded_count(x, unit) * unit - x) <= unit,
        2 * (x - rounded_count(x, unit) * unit) <= unit,
{
    let q = x / unit;
    let r = x % unit;
    lemma_fundamental_div_mod(x, unit);
    lemma_div_pos_is_pos(x, unit);
    assert(unit * q == q * unit && (q + 1) * unit == q * unit + unit) by (nonlinear_arith);
}

/// Narrowing a number between zero and one moves it by no more than a
/// sixteen-millionth, and keeps zero.
pub proof fn law_narrowing_is_close(b: u64, r: u32)
    requires
        is_finite64(b),
        0 as real <= number64(b),
        number64(b) <= 1 as real,
        narrows(b, r),
    ensures
        is_finite32(r),
        distance(number32(r), number64(b)) <= 1 as real / 16777216 as real,
        number64(b) == 0 as real ==> number32(r) == 0 as real,
{
    law_bounds_denote();
    law_numbers64_are_ordered(0, b);
    law_numbers64_are_ordered(b, ONE64);
    let m = magnitude64(b);
    let x = units64(m) as int;
    let unit = spacing32(m) as int;
    let e = m / 0x10_0000_0000_0000;
    assert(m <= ONE64);
    assert(e <= 1023);
    lemma_pow2_pos(925);
    lemma_pow2_pos(149);
    lemma_pow2_pos(1050);
    lemma_pow2_adds(1, 1050);
    lemma2_to64();
    if e >= 897 {
        lemma_pow2_pos((e + 28) as nat);
        if e < 1023 {
            lemma_pow2_strictly_increases((e + 28) as nat, 1051);
        }
    } else {
        lemma_pow2_strictly_increases(925, 1051);
    }
    assert(0 < unit <= pow2(1051));
    lemma_rounded_count(x, unit);
    let y = rounded_units(m);
    assert(y == rounded_count(x, unit) * unit);
    assert(0 <= y) by (nonlinear_arith)
        requires
            y == rounded_count(x, unit) * unit,
            0 <= rounded_count(x, unit),
            0 < unit,
    ;
    // The number stays far below the greatest of binary32.
    lemma_pow2_pos(1074);
    lemma_pow2_adds(1, 1074);
    lemma_pow2_strictly_increases(1051, 1074);
    lemma_pow2_strictly_increases(1075, 1202);
    let p = pow2(1074) as real;
    assert(value64(b) <= pow2(1074)) by {
        let v = value64(b) as real;
        assert(v <= p) by (nonlinear_arith)
            requires
                v / p <= 1 as real,
                p > 0 as real,
        ;
    }
    assert(x <= pow2(1074));
    assert(y < pow2(1202));
    // The narrowed pattern denotes the rounded number.
    lemma_pow2_adds(149, 925);
    let v = pow2(149) as real;
    let w = pow2(925) as real;
    let c = units32(magnitude32(r)) as real;
    assert(b >= SIGN64 ==> m == 0);
    assert(b >= SIGN64 ==> x == 0);
    assert(y as real == c * w) by {
        lemma_products_carry_over(units32(magnitude32(r)) as int, pow2(925) as int);
    }
    lemma_products_carry_over(pow2(149) as int, pow2(925) as int);
    assert((c * w) / (v * w) == c / v) by (nonlinear_arith)
        requires
            v > 0 as real,
            w > 0 as real,
    ;
    assert(c / v == y as real / p);
    // A half unit is a part of one in sixteen million.
    lemma_pow2_adds(24, 1050);
    let h = pow2(1050) as real;
    assert(p == 16777216 as real * h) by {
        lemma_products_carry_over(pow2(24) as int, pow2(1050) as int);
    }
    let t = y as real;
    let u = x as real;
    assert(distance(t, u) <= h);
    assert(t / p - u / p == (t - u) / p) by (nonlinear_arith)
        requires
            p > 0 as real,
    ;
    lemma_share(t - u, h, p);
    lemma_share(u - t, h, p);
    assert(u / p - t / p == (u - t) / p) by (nonlinear_arith)
        requires
            p > 0 as real,
    ;
    if b >= SIGN64 {
        lemma_pow2_pos(925);
        assert(0int / unit == 0 && 0int % unit == 0) by (nonlinear_arith)
            requires
                0 < unit,
        ;
        assert(y == 0) by (nonlinear_arith)
            requires
                y == rounded_count(x, unit) * unit,
                rounded_count(x, unit) == 0,
        ;
        assert(units32(magnitude32(r)) == 0) by (nonlinear_arith)
            requires
                units32(magnitude32(r)) * pow2(925) == 0,
                pow2(925) > 0,
        ;
    }
    assert(number32(r) == c / v);
    assert(number64(b) == u / p);
    if number64(b) == 0 as real {
        assert(u == 0 as real) by (nonlinear_arith)
            requires
                u / p == 0 as real,
                p > 0 as real,
        ;
        assert(x == 0);
        assert(0int / unit == 0 && 0int % unit == 0) by (nonlinear_arith)
            requires
                0 < unit,
        ;
        assert(y == 0) by (nonlinear_arith)
            requires
                y == rounded_count(x, unit) * unit,
                rounded_count(x, unit) == 0,
        ;
        assert((0 as real) / p == 0 as real) by (nonlinear_arith)
            requires
                p > 0 as real,
        ;
    }
}

proof fn lemma_share(t: real, h: real, p: real)
    requires
        p == 16777216 as real * h,
        h > 0 as real,
        t <= h,
    ensures
        t / p <= 1 as real / 16777216 as real,
{
    assert(h / p == 1 as real / 16777216 as real) by (nonlinear_arith)
        requires
            p == 16777216 as real * h,
            h > 0 as real,
    ;
    assert(t / p <= h / p) by (nonlinear_arith)
        requires
            p > 0 as real,
            t <= h,
    ;
}

} // verus!
