//! What the response curves come to, with arithmetic that rounds to nearest.

use vstd::arithmetic::power2::{lemma2_to64, lemma2_to64_rest, lemma_pow2_adds, lemma_pow2_pos,
    pow2};
use vstd::prelude::*;

use crate::audio2face::response_curves::{blend_is, center_weighted_is, ease_in_is, h00_is, h01_is,
    h10_is, hermite_is, lower_segment_is, upper_segment_is, MIN_SPAN};
use crate::float_bits::{at_most32, clamped32, is_finite32, is_nan32, less32, negated32, units32,
    MINUS_TWO32, ONE32, THREE32, TWO32};
use crate::float_ops::{added32, divided32, multiplied32, subtracted32, FloatOps};
use crate::float_rounding::{distance, half_step, is_nearest32, law_constants_denote,
    law_exact_results_stay, law_finite_numbers_are_in_range, law_negation_denotes_the_opposite,
    law_next_after_one, law_numbers_are_ordered, law_products_are_near,
    law_quadruples_are_in_range, law_relative_rounding_error, law_rounding_keeps_bounds,
    law_small_rounding_error, law_smaller_rounding_error, law_sums_are_near, number32,
    rounds_to_nearest};

verus! {

/// `-1.0` in binary32.
pub const MINUS_ONE32: u32 = 0xbf80_0000;

/// A bound of the centred curve is at most this in magnitude where its tangent
/// and its products are to stay in range.
pub const MAX_SPAN: u32 = 0x7dff_ffff;

proof fn lemma_product_is<F: FloatOps>(a: u32, b: u32, f: u32, r: u32)
    requires
        rounds_to_nearest::<F>(),
        is_finite32(a),
        is_finite32(b),
        is_finite32(f),
        number32(a) * number32(b) == number32(f),
        multiplied32::<F>(a, b, r),
    ensures
        is_finite32(r),
        number32(r) == number32(f),
{
    law_finite_numbers_are_in_range(f);
    assert(is_nearest32(number32(a) * number32(b), r));
    law_exact_results_stay(number32(f), f, r);
}

proof fn lemma_sum_is<F: FloatOps>(a: u32, b: u32, f: u32, r: u32)
    requires
        rounds_to_nearest::<F>(),
        is_finite32(a),
        is_finite32(b),
        is_finite32(f),
        number32(a) + number32(b) == number32(f),
        added32::<F>(a, b, r),
    ensures
        is_finite32(r),
        number32(r) == number32(f),
{
    law_finite_numbers_are_in_range(f);
    assert(is_nearest32(number32(a) + number32(b), r));
    law_exact_results_stay(number32(f), f, r);
}

proof fn lemma_difference_is<F: FloatOps>(a: u32, b: u32, f: u32, r: u32)
    requires
        rounds_to_nearest::<F>(),
        is_finite32(a),
        is_finite32(b),
        is_finite32(f),
        number32(a) - number32(b) == number32(f),
        subtracted32::<F>(a, b, r),
    ensures
        is_finite32(r),
        number32(r) == number32(f),
{
    law_finite_numbers_are_in_range(f);
    assert(is_nearest32(number32(a) - number32(b), r));
    law_exact_results_stay(number32(f), f, r);
}

proof fn lemma_constants()
    ensures
        number32(0) == 0 as real,
        number32(ONE32) == 1 as real,
        number32(TWO32) == 2 as real,
        number32(THREE32) == 3 as real,
        number32(MINUS_TWO32) == -(2 as real),
        number32(MINUS_ONE32) == -(1 as real),
{
    law_constants_denote();
    law_negation_denotes_the_opposite(ONE32);
    assert(negated32(ONE32) == MINUS_ONE32);
}

/// The eased value lies between zero and one, and is zero at zero and one at
/// one.
pub proof fn law_easing_stays_in_range<F: FloatOps>(t: u32, r: u32)
    requires
        rounds_to_nearest::<F>(),
        !is_nan32(t),
        ease_in_is::<F>(t, r),
    ensures
        is_finite32(r),
        at_most32(0, r),
        at_most32(r, ONE32),
        at_most32(t, 0) ==> number32(r) == 0 as real,
        at_most32(ONE32, t) ==> number32(r) == 1 as real,
{
    let c = clamped32(t, 0, ONE32);
    let d = choose|d: u32|
        {
            &&& #[trigger] subtracted32::<F>(TWO32, c, d)
            &&& multiplied32::<F>(c, d, r)
        };
    lemma_constants();
    law_numbers_are_ordered(0, c);
    law_numbers_are_ordered(c, 0);
    law_numbers_are_ordered(c, ONE32);
    law_numbers_are_ordered(ONE32, c);
    law_quadruples_are_in_range(0);
    let x = number32(c);
    let e = half_step();
    assert(is_nearest32(number32(TWO32) - x, d));
    law_rounding_keeps_bounds(2 as real - x, ONE32, d);
    law_rounding_keeps_bounds(2 as real - x, TWO32, d);
    law_smaller_rounding_error(2 as real - x, d);
    let y = number32(d);
    let p = x * y;
    assert(0 as real <= p <= 2 as real && p + p <= (2 as real + e) && (x < 1 as real ==> p + p < 2
        as real + e) && (x == 0 as real ==> p == 0 as real) && (x == 1 as real ==> p == y))
        by (nonlinear_arith)
        requires
            p == x * y,
            0 as real <= x <= 1 as real,
            1 as real <= y <= 2 as real,
            y + y <= 2 as real * (2 as real - x) + e,
            e > 0 as real,
    ;
    assert(is_nearest32(number32(c) * number32(d), r));
    law_rounding_keeps_bounds(p, 0, r);
    law_rounding_keeps_bounds(p, ONE32, r);
    if x == 1 as real {
        law_exact_results_stay(1 as real, ONE32, d);
        law_exact_results_stay(1 as real, ONE32, r);
    } else if number32(r) > 1 as real {
        law_next_after_one(r);
        assert(distance(number32(r), p) <= distance(number32(ONE32), p));
    }
    if x == 0 as real {
        law_exact_results_stay(0 as real, 0, r);
    }
    law_numbers_are_ordered(0, r);
    law_numbers_are_ordered(r, ONE32);
}

proof fn lemma_basis_at_an_end<F: FloatOps>(
    s: u32,
    s2: u32,
    s3: u32,
    h00: u32,
    h10: u32,
    h01: u32,
    h11: u32,
)
    requires
        rounds_to_nearest::<F>(),
        is_finite32(s),
        number32(s) == 0 as real || number32(s) == 1 as real,
        multiplied32::<F>(s, s, s2),
        multiplied32::<F>(s2, s, s3),
        h00_is::<F>(s2, s3, h00),
        h10_is::<F>(s, s2, s3, h10),
        h01_is::<F>(s2, s3, h01),
        subtracted32::<F>(s3, s2, h11),
    ensures
        is_finite32(h00) && is_finite32(h10) && is_finite32(h01) && is_finite32(h11),
        number32(h00) == 1 as real - number32(s),
        number32(h10) == 0 as real,
        number32(h01) == number32(s),
        number32(h11) == 0 as real,
{
    lemma_constants();
    let one = number32(s) == 1 as real;
    assert(0 as real * 0 as real == 0 as real && 1 as real * 1 as real == 1 as real) by (
        nonlinear_arith);
    lemma_product_is::<F>(s, s, s, s2);
    lemma_product_is::<F>(s2, s, s, s3);
    lemma_difference_is::<F>(s3, s2, 0, h11);
    let (a, b, c) = choose|a: u32, b: u32, c: u32|
        {
            &&& #[trigger] multiplied32::<F>(TWO32, s3, a)
            &&& #[trigger] multiplied32::<F>(THREE32, s2, b)
            &&& #[trigger] subtracted32::<F>(a, b, c)
            &&& added32::<F>(c, ONE32, h00)
        };
    lemma_product_is::<F>(TWO32, s3, if one { TWO32 } else { 0 }, a);
    lemma_product_is::<F>(THREE32, s2, if one { THREE32 } else { 0 }, b);
    lemma_difference_is::<F>(a, b, if one { MINUS_ONE32 } else { 0 }, c);
    lemma_sum_is::<F>(c, ONE32, if one { 0 } else { ONE32 }, h00);
    let (a, c) = choose|a: u32, c: u32|
        {
            &&& #[trigger] multiplied32::<F>(TWO32, s2, a)
            &&& #[trigger] subtracted32::<F>(s3, a, c)
            &&& added32::<F>(c, s, h10)
        };
    lemma_product_is::<F>(TWO32, s2, if one { TWO32 } else { 0 }, a);
    lemma_difference_is::<F>(s3, a, if one { MINUS_ONE32 } else { 0 }, c);
    lemma_sum_is::<F>(c, s, 0, h10);
    let (a, b) = choose|a: u32, b: u32|
        {
            &&& #[trigger] multiplied32::<F>(MINUS_TWO32, s3, a)
            &&& #[trigger] multiplied32::<F>(THREE32, s2, b)
            &&& added32::<F>(a, b, h01)
        };
    lemma_product_is::<F>(MINUS_TWO32, s3, if one { MINUS_TWO32 } else { 0 }, a);
    lemma_product_is::<F>(THREE32, s2, if one { THREE32 } else { 0 }, b);
    lemma_sum_is::<F>(a, b, if one { ONE32 } else { 0 }, h01);
}

proof fn lemma_hermite_at_an_end<F: FloatOps>(
    s: u32,
    p0: u32,
    p1: u32,
    m0: u32,
    m1: u32,
    r: u32,
)
    requires
        rounds_to_nearest::<F>(),
        is_finite32(s),
        is_finite32(p0),
        is_finite32(p1),
        is_finite32(m0),
        is_finite32(m1),
        number32(s) == 0 as real || number32(s) == 1 as real,
        hermite_is::<F>(s, p0, p1, m0, m1, r),
    ensures
        is_finite32(r),
        number32(r) == if number32(s) == 0 as real {
            number32(p0)
        } else {
            number32(p1)
        },
{
    let (s2, s3, h00, h10, h01, h11) = choose|
        s2: u32,
        s3: u32,
        h00: u32,
        h10: u32,
        h01: u32,
        h11: u32,
    |
        {
            &&& #[trigger] multiplied32::<F>(s, s, s2)
            &&& #[trigger] multiplied32::<F>(s2, s, s3)
            &&& h00_is::<F>(s2, s3, h00)
            &&& h10_is::<F>(s, s2, s3, h10)
            &&& h01_is::<F>(s2, s3, h01)
            &&& subtracted32::<F>(s3, s2, h11)
            &&& #[trigger] blend_is::<F>(h00, p0, h10, m0, h01, p1, h11, m1, r)
        };
    lemma_basis_at_an_end::<F>(s, s2, s3, h00, h10, h01, h11);
    let (a, b, c, d, ab, abc) = choose|a: u32, b: u32, c: u32, d: u32, ab: u32, abc: u32|
        {
            &&& #[trigger] multiplied32::<F>(h00, p0, a)
            &&& #[trigger] multiplied32::<F>(h10, m0, b)
            &&& #[trigger] multiplied32::<F>(h01, p1, c)
            &&& #[trigger] multiplied32::<F>(h11, m1, d)
            &&& #[trigger] added32::<F>(a, b, ab)
            &&& #[trigger] added32::<F>(ab, c, abc)
            &&& added32::<F>(abc, d, r)
        };
    lemma_constants();
    let start = number32(s) == 0 as real;
    let u = number32(p0);
    let v = number32(p1);
    let w = number32(m0);
    let z = number32(m1);
    assert(1 as real * u == u && 0 as real * u == 0 as real && 1 as real * v == v && 0 as real * v
        == 0 as real && 0 as real * w == 0 as real && 0 as real * z == 0 as real) by (
        nonlinear_arith);
    lemma_product_is::<F>(h00, p0, if start { p0 } else { 0 }, a);
    lemma_product_is::<F>(h10, m0, 0, b);
    lemma_product_is::<F>(h01, p1, if start { 0 } else { p1 }, c);
    lemma_product_is::<F>(h11, m1, 0, d);
    let end = if start { p0 } else { p1 };
    lemma_sum_is::<F>(a, b, if start { p0 } else { 0 }, ab);
    lemma_sum_is::<F>(ab, c, end, abc);
    lemma_sum_is::<F>(abc, d, end, r);
}

proof fn lemma_tangent<F: FloatOps>(span: u32, m: u32)
    requires
        rounds_to_nearest::<F>(),
        MIN_SPAN <= span <= MAX_SPAN,
        multiplied32::<F>(TWO32, span, m),
    ensures
        is_finite32(m),
        distance(number32(m), 2 as real * number32(span)) <= 2 as real * half_step() * number32(
            span,
        ),
        number32(span) > 0 as real,
{
    lemma_constants();
    law_quadruples_are_in_range(span);
    law_numbers_are_ordered(0, span);
    assert(is_nearest32(number32(TWO32) * number32(span), m));
    law_relative_rounding_error(2 as real * number32(span), span, m);
}

proof fn lemma_quotient_is_one<F: FloatOps>(a: u32, b: u32, s: u32)
    requires
        rounds_to_nearest::<F>(),
        is_finite32(a),
        is_finite32(b),
        number32(a) == number32(b),
        number32(b) != 0 as real,
        divided32::<F>(a, b, s),
    ensures
        is_finite32(s),
        number32(s) == 1 as real,
{
    lemma_constants();
    law_finite_numbers_are_in_range(ONE32);
    let x = number32(b);
    assert(x / x == 1 as real) by (nonlinear_arith)
        requires
            x != 0 as real,
    ;
    assert(is_nearest32(number32(a) / number32(b), s));
    law_exact_results_stay(1 as real, ONE32, s);
}

/// The centred curve meets its keys: the lower bound at and below it, zero at
/// zero, and the upper bound at and above it.
pub proof fn law_centered_curve_meets_its_keys<F: FloatOps>(t: u32, lo: u32, hi: u32, r: u32)
    requires
        rounds_to_nearest::<F>(),
        is_finite32(t),
        is_finite32(lo),
        is_finite32(hi),
        MIN_SPAN <= negated32(lo) <= MAX_SPAN,
        MIN_SPAN <= hi <= MAX_SPAN,
        center_weighted_is::<F>(t, lo, hi, r),
    ensures
        at_most32(t, lo) ==> number32(r) == number32(lo),
        number32(t) == 0 as real ==> number32(r) == 0 as real,
        at_most32(hi, t) ==> number32(r) == number32(hi),
{
    let c = clamped32(t, lo, hi);
    let span = negated32(lo);
    lemma_constants();
    law_negation_denotes_the_opposite(lo);
    law_numbers_are_ordered(0, span);
    law_numbers_are_ordered(0, hi);
    law_numbers_are_ordered(t, lo);
    law_numbers_are_ordered(lo, t);
    law_numbers_are_ordered(hi, t);
    law_numbers_are_ordered(t, hi);
    law_numbers_are_ordered(c, 0);
    law_numbers_are_ordered(span, MIN_SPAN);
    law_numbers_are_ordered(hi, MIN_SPAN);
    if at_most32(c, 0) {
        if at_most32(t, lo) || number32(t) == 0 as real {
            assert(number32(c) == if at_most32(t, lo) {
                number32(lo)
            } else {
                0 as real
            });
            let (d, s, m) = choose|d: u32, s: u32, m: u32|
                {
                    &&& #[trigger] subtracted32::<F>(c, lo, d)
                    &&& #[trigger] divided32::<F>(d, span, s)
                    &&& #[trigger] multiplied32::<F>(TWO32, span, m)
                    &&& hermite_is::<F>(s, lo, 0, 0, m, r)
                };
            lemma_tangent::<F>(span, m);
            if at_most32(t, lo) {
                lemma_difference_is::<F>(c, lo, 0, d);
                law_finite_numbers_are_in_range(0);
                let x = number32(span);
                assert(0 as real / x == 0 as real) by (nonlinear_arith)
                    requires
                        x != 0 as real,
                ;
                assert(is_nearest32(number32(d) / number32(span), s));
                law_exact_results_stay(0 as real, 0, s);
            } else {
                lemma_difference_is::<F>(c, lo, span, d);
                lemma_quotient_is_one::<F>(d, span, s);
            }
            lemma_hermite_at_an_end::<F>(s, lo, 0, 0, m, r);
        }
    } else if at_most32(hi, t) {
        assert(number32(c) == number32(hi));
        let (s, m) = choose|s: u32, m: u32|
            {
                &&& #[trigger] divided32::<F>(c, hi, s)
                &&& #[trigger] multiplied32::<F>(TWO32, hi, m)
                &&& hermite_is::<F>(s, 0, hi, m, 0, r)
            };
        lemma_tangent::<F>(hi, m);
        lemma_quotient_is_one::<F>(c, hi, s);
        lemma_hermite_at_an_end::<F>(s, 0, hi, m, 0, r);
    }
}

/// The centred curve takes a value outside its bounds as the bound.
pub proof fn law_centered_curve_clamps<F: FloatOps>(t: u32, lo: u32, hi: u32, r: u32)
    requires
        at_most32(lo, hi),
    ensures
        center_weighted_is::<F>(t, lo, hi, r) <==> center_weighted_is::<F>(
            clamped32(t, lo, hi),
            lo,
            hi,
            r,
        ),
{
}

/// Above zero the centred curve does not depend on its lower bound, and up to
/// zero not on its upper bound.
pub proof fn law_centered_curve_halves_are_independent<F: FloatOps>(
    t: u32,
    lo: u32,
    hi: u32,
    other: u32,
    r: u32,
)
    requires
        at_most32(lo, 0),
        at_most32(0, hi),
    ensures
        less32(0, t) && less32(0, hi) && at_most32(other, 0) ==> (center_weighted_is::<F>(
            t,
            lo,
            hi,
            r,
        ) <==> center_weighted_is::<F>(t, other, hi, r)),
        at_most32(t, 0) && at_most32(0, other) ==> (center_weighted_is::<F>(t, lo, hi, r)
            <==> center_weighted_is::<F>(t, lo, other, r)),
{
}

/// Whether `x` and `y` lie no further apart than `d`.
pub open spec fn within(x: real, y: real, d: real) -> bool {
    distance(x, y) <= d
}

proof fn lemma_product_near<F: FloatOps>(a: u32, b: u32, r: u32)
    requires
        rounds_to_nearest::<F>(),
        is_finite32(a),
        is_finite32(b),
        multiplied32::<F>(a, b, r),
        within(number32(a) * number32(b), 0 as real, 4 as real),
    ensures
        is_finite32(r),
        within(number32(r), number32(a) * number32(b), half_step()),
{
    law_quadruples_are_in_range(0);
    assert(is_nearest32(number32(a) * number32(b), r));
    law_small_rounding_error(number32(a) * number32(b), r);
}

proof fn lemma_sum_near<F: FloatOps>(a: u32, b: u32, r: u32)
    requires
        rounds_to_nearest::<F>(),
        is_finite32(a),
        is_finite32(b),
        added32::<F>(a, b, r),
        within(number32(a) + number32(b), 0 as real, 4 as real),
    ensures
        is_finite32(r),
        within(number32(r), number32(a) + number32(b), half_step()),
{
    law_quadruples_are_in_range(0);
    assert(is_nearest32(number32(a) + number32(b), r));
    law_small_rounding_error(number32(a) + number32(b), r);
}

proof fn lemma_difference_near<F: FloatOps>(a: u32, b: u32, r: u32)
    requires
        rounds_to_nearest::<F>(),
        is_finite32(a),
        is_finite32(b),
        subtracted32::<F>(a, b, r),
        within(number32(a) - number32(b), 0 as real, 4 as real),
    ensures
        is_finite32(r),
        within(number32(r), number32(a) - number32(b), half_step()),
{
    law_quadruples_are_in_range(0);
    assert(is_nearest32(number32(a) - number32(b), r));
    law_small_rounding_error(number32(a) - number32(b), r);
}

/// What is known of the basis polynomials at `s`, with `a` for its square and
/// `b` for its cube.
spec fn basis_is_near(
    s: real,
    a: real,
    b: real,
    h00: real,
    h10: real,
    h01: real,
    h11: real,
) -> bool {
    let e = half_step();
    &&& 0 as real <= s <= 1 as real
    &&& 0 as real <= a <= 1 as real
    &&& 0 as real <= b <= 1 as real
    &&& within(a, s * s, e)
    &&& within(b, a * s, e)
    &&& within(h00, b + b - (a + a + a) + 1 as real, e + e + e + e)
    &&& within(h10, b - (a + a) + s, e + e + e)
    &&& within(h01, a + a + a - (b + b), e + e + e)
    &&& within(h11, b - a, e)
}

proof fn lemma_powers_are_near<F: FloatOps>(s: u32, s2: u32, s3: u32)
    requires
        rounds_to_nearest::<F>(),
        is_finite32(s),
        0 as real <= number32(s) <= 1 as real,
        multiplied32::<F>(s, s, s2),
        multiplied32::<F>(s2, s, s3),
    ensures
        is_finite32(s2) && is_finite32(s3),
        0 as real <= number32(s2) <= 1 as real,
        0 as real <= number32(s3) <= 1 as real,
        within(number32(s2), number32(s) * number32(s), half_step()),
        within(number32(s3), number32(s2) * number32(s), half_step()),
{
    lemma_constants();
    law_quadruples_are_in_range(0);
    let x = number32(s);
    assert(0 as real <= x * x <= 1 as real) by (nonlinear_arith)
        requires
            0 as real <= x <= 1 as real,
    ;
    lemma_product_near::<F>(s, s, s2);
    assert(is_nearest32(number32(s) * number32(s), s2));
    law_rounding_keeps_bounds(x * x, 0, s2);
    law_rounding_keeps_bounds(x * x, ONE32, s2);
    let a = number32(s2);
    assert(0 as real <= a * x <= 1 as real) by (nonlinear_arith)
        requires
            0 as real <= x <= 1 as real,
            0 as real <= a <= 1 as real,
    ;
    lemma_product_near::<F>(s2, s, s3);
    assert(is_nearest32(number32(s2) * number32(s), s3));
    law_rounding_keeps_bounds(a * x, 0, s3);
    law_rounding_keeps_bounds(a * x, ONE32, s3);
}

proof fn lemma_multiples_of_a_share(x: real)
    ensures
        2 as real * x == x + x,
        3 as real * x == x + x + x,
        -(2 as real) * x == -(x + x),
{
    assert(2 as real * x == x + x && 3 as real * x == x + x + x && -(2 as real) * x == -(x + x))
        by (nonlinear_arith);
}

proof fn lemma_h00_is_near<F: FloatOps>(s2: u32, s3: u32, h00: u32)
    requires
        rounds_to_nearest::<F>(),
        is_finite32(s2) && is_finite32(s3),
        0 as real <= number32(s2) <= 1 as real,
        0 as real <= number32(s3) <= 1 as real,
        h00_is::<F>(s2, s3, h00),
    ensures
        is_finite32(h00),
        ({
            let e = half_step();
            let a = number32(s2);
            let b = number32(s3);
            within(number32(h00), b + b - (a + a + a) + 1 as real, e + e + e + e)
        }),
{
    lemma_constants();
    lemma_multiples_of_a_share(number32(s2));
    lemma_multiples_of_a_share(number32(s3));
    let (p, q, c) = choose|p: u32, q: u32, c: u32|
        {
            &&& #[trigger] multiplied32::<F>(TWO32, s3, p)
            &&& #[trigger] multiplied32::<F>(THREE32, s2, q)
            &&& #[trigger] subtracted32::<F>(p, q, c)
            &&& added32::<F>(c, ONE32, h00)
        };
    lemma_product_near::<F>(TWO32, s3, p);
    lemma_product_near::<F>(THREE32, s2, q);
    lemma_difference_near::<F>(p, q, c);
    lemma_sum_near::<F>(c, ONE32, h00);
}

proof fn lemma_h10_is_near<F: FloatOps>(s: u32, s2: u32, s3: u32, h10: u32)
    requires
        rounds_to_nearest::<F>(),
        is_finite32(s) && is_finite32(s2) && is_finite32(s3),
        0 as real <= number32(s) <= 1 as real,
        0 as real <= number32(s2) <= 1 as real,
        0 as real <= number32(s3) <= 1 as real,
        h10_is::<F>(s, s2, s3, h10),
    ensures
        is_finite32(h10),
        ({
            let e = half_step();
            let a = number32(s2);
            within(number32(h10), number32(s3) - (a + a) + number32(s), e + e + e)
        }),
{
    lemma_constants();
    lemma_multiples_of_a_share(number32(s2));
    let (p, c) = choose|p: u32, c: u32|
        {
            &&& #[trigger] multiplied32::<F>(TWO32, s2, p)
            &&& #[trigger] subtracted32::<F>(s3, p, c)
            &&& added32::<F>(c, s, h10)
        };
    lemma_product_near::<F>(TWO32, s2, p);
    lemma_difference_near::<F>(s3, p, c);
    lemma_sum_near::<F>(c, s, h10);
}

proof fn lemma_h01_is_near<F: FloatOps>(s2: u32, s3: u32, h01: u32)
    requires
        rounds_to_nearest::<F>(),
        is_finite32(s2) && is_finite32(s3),
        0 as real <= number32(s2) <= 1 as real,
        0 as real <= number32(s3) <= 1 as real,
        h01_is::<F>(s2, s3, h01),
    ensures
        is_finite32(h01),
        ({
            let e = half_step();
            let a = number32(s2);
            let b = number32(s3);
            within(number32(h01), a + a + a - (b + b), e + e + e)
        }),
{
    lemma_constants();
    lemma_multiples_of_a_share(number32(s2));
    lemma_multiples_of_a_share(number32(s3));
    let (p, q) = choose|p: u32, q: u32|
        {
            &&& #[trigger] multiplied32::<F>(MINUS_TWO32, s3, p)
            &&& #[trigger] multiplied32::<F>(THREE32, s2, q)
            &&& added32::<F>(p, q, h01)
        };
    lemma_product_near::<F>(MINUS_TWO32, s3, p);
    lemma_product_near::<F>(THREE32, s2, q);
    lemma_sum_near::<F>(p, q, h01);
}

proof fn lemma_basis_is_near<F: FloatOps>(
    s: u32,
    s2: u32,
    s3: u32,
    h00: u32,
    h10: u32,
    h01: u32,
    h11: u32,
)
    requires
        rounds_to_nearest::<F>(),
        is_finite32(s),
        0 as real <= number32(s) <= 1 as real,
        multiplied32::<F>(s, s, s2),
        multiplied32::<F>(s2, s, s3),
        h00_is::<F>(s2, s3, h00),
        h10_is::<F>(s, s2, s3, h10),
        h01_is::<F>(s2, s3, h01),
        subtracted32::<F>(s3, s2, h11),
    ensures
        is_finite32(h00) && is_finite32(h10) && is_finite32(h01) && is_finite32(h11),
        basis_is_near(
            number32(s),
            number32(s2),
            number32(s3),
            number32(h00),
            number32(h10),
            number32(h01),
            number32(h11),
        ),
{
    lemma_powers_are_near::<F>(s, s2, s3);
    lemma_h00_is_near::<F>(s2, s3, h00);
    lemma_h10_is_near::<F>(s, s2, s3, h10);
    lemma_h01_is_near::<F>(s2, s3, h01);
    lemma_difference_near::<F>(s3, s2, h11);
}

/// The basis polynomials are small, and what they come to in either segment is
/// a square.
proof fn lemma_basis_sums(s: real, a: real, b: real, h00: real, h10: real, h01: real, h11: real)
    requires
        basis_is_near(s, a, b, h00, h10, h01, h11),
    ensures
        within(h00, 0 as real, 3 as real / 2 as real),
        within(h10, 0 as real, 1 as real / 2 as real),
        within(h01, 0 as real, 3 as real / 2 as real),
        within(h11, 0 as real, 1 as real / 2 as real),
        within(h10 + h10 + h01, s + s - s * s, 10 as real * half_step()),
        within(h11 + h11 - h00, s * s - 1 as real, 7 as real * half_step()),
{
    let e = half_step();
    let q = s * s;
    let c = q * s;
    let f = a - q;
    let g = b - a * s;
    assert(a * s == c + f * s) by (nonlinear_arith)
        requires
            c == q * s,
            f == a - q,
    ;
    assert(-e <= f * s <= e) by (nonlinear_arith)
        requires
            -e <= f <= e,
            0 as real <= s <= 1 as real,
            e > 0 as real,
    ;
    assert(0 as real <= q <= s && 0 as real <= c <= q && 4 as real * (s - q) <= 1 as real && q - c
        <= s - q && 0 as real <= 3 as real * q - 2 as real * c <= 1 as real && 0 as real <= s - 2
        as real * q + c) by (nonlinear_arith)
        requires
            q == s * s,
            c == q * s,
            0 as real <= s <= 1 as real,
    ;
}

/// What the centred curve comes to at `c` in the segment that ends at `k`,
/// without rounding.
pub open spec fn centered_value(c: real, k: real) -> real {
    c * (2 as real * k - c) / k
}

/// By how much the centred curve may be off, for a bound of one: `2^-18`.
pub open spec fn curve_error() -> real {
    32 as real * half_step()
}

proof fn lemma_upper_blend(
    h: real,
    m: real,
    s: real,
    t: real,
    h10: real,
    h01: real,
    b: real,
    c: real,
    r: real,
)
    requires
        h > 0 as real,
        0 as real <= s <= 1 as real,
        0 as real <= t <= 1 as real,
        within(s, t, half_step()),
        within(m, 2 as real * h, 2 as real * half_step() * h),
        within(h10, 0 as real, 1 as real / 2 as real),
        within(h01, 0 as real, 3 as real / 2 as real),
        within(h10 + h10 + h01, s + s - s * s, 10 as real * half_step()),
        within(b, h10 * m, 2 as real * half_step() * h),
        within(c, h01 * h, 2 as real * half_step() * h),
        within(r, b + c, 2 as real * half_step() * h),
    ensures
        within(r, h * (t + t - t * t), curve_error() * h),
{
    let e = half_step();
    let k = h10 + h10 + h01;
    let eh = e * h;
    assert(eh > 0 as real && 2 as real * e * h == 2 as real * eh && curve_error() * h == 32 as real
        * eh) by (nonlinear_arith)
        requires
            eh == e * h,
            curve_error() == 32 as real * e,
            e > 0 as real,
            h > 0 as real,
    ;
    let dm = m - 2 as real * h;
    assert(h10 * m == 2 as real * (h10 * h) + h10 * dm) by (nonlinear_arith)
        requires
            dm == m - 2 as real * h,
    ;
    assert(-eh <= h10 * dm <= eh) by (nonlinear_arith)
        requires
            -(2 as real * eh) <= dm <= 2 as real * eh,
            -(1 as real) <= 2 as real * h10 <= 1 as real,
            eh > 0 as real,
    ;
    assert(2 as real * (h10 * h) + h01 * h == k * h) by (nonlinear_arith)
        requires
            k == h10 + h10 + h01,
    ;
    let d = k - (s + s - s * s);
    let w = (s + s - s * s) - (t + t - t * t);
    assert(-(2 as real * e) <= w <= 2 as real * e) by (nonlinear_arith)
        requires
            w == (s + s - s * s) - (t + t - t * t),
            0 as real <= s <= 1 as real,
            0 as real <= t <= 1 as real,
            -e <= s - t <= e,
    ;
    let dw = d + w;
    assert(k * h == h * (t + t - t * t) + dw * h) by (nonlinear_arith)
        requires
            dw == k - (t + t - t * t),
    ;
    assert(-(12 as real * eh) <= dw * h <= 12 as real * eh) by (nonlinear_arith)
        requires
            -(12 as real * e) <= dw <= 12 as real * e,
            h > 0 as real,
            eh == e * h,
    ;
}

proof fn lemma_lower_blend(
    h: real,
    m: real,
    s: real,
    t: real,
    h00: real,
    h11: real,
    a: real,
    d: real,
    r: real,
)
    requires
        h > 0 as real,
        0 as real <= s <= 1 as real,
        0 as real <= t <= 1 as real,
        within(s, t, 3 as real * half_step()),
        within(m, 2 as real * h, 2 as real * half_step() * h),
        within(h11, 0 as real, 1 as real / 2 as real),
        within(h11 + h11 - h00, s * s - 1 as real, 7 as real * half_step()),
        within(a, h00 * (-h), 2 as real * half_step() * h),
        within(d, h11 * m, 2 as real * half_step() * h),
        within(r, a + d, 2 as real * half_step() * h),
    ensures
        within(r, h * (t * t - 1 as real), curve_error() * h),
{
    let e = half_step();
    let k = h11 + h11 - h00;
    let eh = e * h;
    assert(eh > 0 as real && 2 as real * e * h == 2 as real * eh && curve_error() * h == 32 as real
        * eh) by (nonlinear_arith)
        requires
            eh == e * h,
            curve_error() == 32 as real * e,
            e > 0 as real,
            h > 0 as real,
    ;
    let dm = m - 2 as real * h;
    assert(h11 * m == 2 as real * (h11 * h) + h11 * dm) by (nonlinear_arith)
        requires
            dm == m - 2 as real * h,
    ;
    assert(-eh <= h11 * dm <= eh) by (nonlinear_arith)
        requires
            -(2 as real * eh) <= dm <= 2 as real * eh,
            -(1 as real) <= 2 as real * h11 <= 1 as real,
            eh > 0 as real,
    ;
    assert(2 as real * (h11 * h) + h00 * (-h) == k * h) by (nonlinear_arith)
        requires
            k == h11 + h11 - h00,
    ;
    let w = s * s - t * t;
    assert(-(6 as real * e) <= w <= 6 as real * e) by (nonlinear_arith)
        requires
            w == s * s - t * t,
            0 as real <= s <= 1 as real,
            0 as real <= t <= 1 as real,
            -(3 as real * e) <= s - t <= 3 as real * e,
    ;
    let dw = k - (t * t - 1 as real);
    assert(k * h == h * (t * t - 1 as real) + dw * h) by (nonlinear_arith)
        requires
            dw == k - (t * t - 1 as real),
    ;
    assert(-(13 as real * eh) <= dw * h <= 13 as real * eh) by (nonlinear_arith)
        requires
            -(13 as real * e) <= dw <= 13 as real * e,
            h > 0 as real,
            eh == e * h,
    ;
}

proof fn lemma_upper_segment<F: FloatOps>(c: u32, hi: u32, r: u32)
    requires
        rounds_to_nearest::<F>(),
        is_finite32(c),
        MIN_SPAN <= hi <= MAX_SPAN,
        0 as real <= number32(c) <= number32(hi),
        upper_segment_is::<F>(c, hi, r),
    ensures
        is_finite32(r),
        within(
            number32(r),
            centered_value(number32(c), number32(hi)),
            curve_error() * number32(hi),
        ),
{
    lemma_constants();
    law_numbers_are_ordered(0, hi);
    law_quadruples_are_in_range(0);
    let (s, m) = choose|s: u32, m: u32|
        {
            &&& #[trigger] divided32::<F>(c, hi, s)
            &&& #[trigger] multiplied32::<F>(TWO32, hi, m)
            &&& hermite_is::<F>(s, 0, hi, m, 0, r)
        };
    lemma_tangent::<F>(hi, m);
    let x = number32(c);
    let h = number32(hi);
    let t = x / h;
    assert(0 as real <= t <= 1 as real && t * h == x) by (nonlinear_arith)
        requires
            t == x / h,
            0 as real <= x <= h,
            h > 0 as real,
    ;
    assert(is_nearest32(number32(c) / number32(hi), s));
    law_rounding_keeps_bounds(t, 0, s);
    law_rounding_keeps_bounds(t, ONE32, s);
    law_small_rounding_error(t, s);
    let (s2, s3, h00, h10, h01, h11) = choose|
        s2: u32,
        s3: u32,
        h00: u32,
        h10: u32,
        h01: u32,
        h11: u32,
    |
        {
            &&& #[trigger] multiplied32::<F>(s, s, s2)
            &&& #[trigger] multiplied32::<F>(s2, s, s3)
            &&& h00_is::<F>(s2, s3, h00)
            &&& h10_is::<F>(s, s2, s3, h10)
            &&& h01_is::<F>(s2, s3, h01)
            &&& subtracted32::<F>(s3, s2, h11)
            &&& #[trigger] blend_is::<F>(h00, 0, h10, m, h01, hi, h11, 0, r)
        };
    lemma_basis_is_near::<F>(s, s2, s3, h00, h10, h01, h11);
    lemma_basis_sums(
        number32(s),
        number32(s2),
        number32(s3),
        number32(h00),
        number32(h10),
        number32(h01),
        number32(h11),
    );
    lemma_upper_blend_of::<F>(hi, m, h00, h10, h01, h11, r, number32(s), t);
    assert(h * (t + t - t * t) == centered_value(x, h)) by (nonlinear_arith)
        requires
            t * h == x,
            h > 0 as real,
            centered_value(x, h) == x * (2 as real * h - x) / h,
    ;
}

proof fn lemma_upper_blend_of<F: FloatOps>(
    hi: u32,
    m: u32,
    h00: u32,
    h10: u32,
    h01: u32,
    h11: u32,
    r: u32,
    s: real,
    t: real,
)
    requires
        rounds_to_nearest::<F>(),
        is_finite32(m) && is_finite32(h00) && is_finite32(h10) && is_finite32(h01) && is_finite32(
            h11,
        ),
        MIN_SPAN <= hi <= MAX_SPAN,
        number32(hi) > 0 as real,
        0 as real <= s <= 1 as real,
        0 as real <= t <= 1 as real,
        within(s, t, half_step()),
        within(number32(m), 2 as real * number32(hi), 2 as real * half_step() * number32(hi)),
        within(number32(h10), 0 as real, 1 as real / 2 as real),
        within(number32(h01), 0 as real, 3 as real / 2 as real),
        within(number32(h10) + number32(h10) + number32(h01), s + s - s * s, 10 as real
            * half_step()),
        blend_is::<F>(h00, 0, h10, m, h01, hi, h11, 0, r),
    ensures
        is_finite32(r),
        within(number32(r), number32(hi) * (t + t - t * t), curve_error() * number32(hi)),
{
    let (a, b, c, d, ab, abc) = choose|a: u32, b: u32, c: u32, d: u32, ab: u32, abc: u32|
        {
            &&& #[trigger] multiplied32::<F>(h00, 0, a)
            &&& #[trigger] multiplied32::<F>(h10, m, b)
            &&& #[trigger] multiplied32::<F>(h01, hi, c)
            &&& #[trigger] multiplied32::<F>(h11, 0, d)
            &&& #[trigger] added32::<F>(a, b, ab)
            &&& #[trigger] added32::<F>(ab, c, abc)
            &&& added32::<F>(abc, d, r)
        };
    lemma_constants();
    let h = number32(hi);
    let e = half_step();
    let x = number32(h10);
    let y = number32(h01);
    let z = number32(m);
    let u = number32(h00);
    let v = number32(h11);
    assert(u * 0 as real == 0 as real && v * 0 as real == 0 as real) by (nonlinear_arith);
    assert(within(x * z, 0 as real, 3 as real / 2 as real * h) && within(y * h, 0 as real, 3 as real
        / 2 as real * h) && (0 as real) < 2 as real * e * h <= h / 8 as real) by (nonlinear_arith)
        requires
            within(x, 0 as real, 1 as real / 2 as real),
            within(y, 0 as real, 3 as real / 2 as real),
            within(z, 2 as real * h, 2 as real * e * h),
            h > 0 as real,
            e == 1 as real / 0x80_0000 as real,
    ;
    lemma_product_is::<F>(h00, 0, 0, a);
    lemma_product_is::<F>(h11, 0, 0, d);
    law_products_are_near::<F>(h10, m, hi, b);
    law_products_are_near::<F>(h01, hi, hi, c);
    lemma_sum_is::<F>(a, b, b, ab);
    law_sums_are_near::<F>(ab, c, hi, abc);
    lemma_sum_is::<F>(abc, d, abc, r);
    lemma_upper_blend(h, z, s, t, x, y, number32(b), number32(c), number32(r));
}

proof fn lemma_lower_blend_of<F: FloatOps>(
    lo: u32,
    span: u32,
    m: u32,
    h00: u32,
    h10: u32,
    h01: u32,
    h11: u32,
    r: u32,
    s: real,
    t: real,
)
    requires
        rounds_to_nearest::<F>(),
        is_finite32(lo),
        is_finite32(m) && is_finite32(h00) && is_finite32(h10) && is_finite32(h01) && is_finite32(
            h11,
        ),
        MIN_SPAN <= span <= MAX_SPAN,
        number32(span) > 0 as real,
        number32(lo) == -number32(span),
        0 as real <= s <= 1 as real,
        0 as real <= t <= 1 as real,
        within(s, t, 3 as real * half_step()),
        within(number32(m), 2 as real * number32(span), 2 as real * half_step() * number32(span)),
        within(number32(h00), 0 as real, 3 as real / 2 as real),
        within(number32(h11), 0 as real, 1 as real / 2 as real),
        within(number32(h11) + number32(h11) - number32(h00), s * s - 1 as real, 7 as real
            * half_step()),
        blend_is::<F>(h00, lo, h10, 0, h01, 0, h11, m, r),
    ensures
        is_finite32(r),
        within(number32(r), number32(span) * (t * t - 1 as real), curve_error() * number32(span)),
{
    let (a, b, c, d, ab, abc) = choose|a: u32, b: u32, c: u32, d: u32, ab: u32, abc: u32|
        {
            &&& #[trigger] multiplied32::<F>(h00, lo, a)
            &&& #[trigger] multiplied32::<F>(h10, 0, b)
            &&& #[trigger] multiplied32::<F>(h01, 0, c)
            &&& #[trigger] multiplied32::<F>(h11, m, d)
            &&& #[trigger] added32::<F>(a, b, ab)
            &&& #[trigger] added32::<F>(ab, c, abc)
            &&& added32::<F>(abc, d, r)
        };
    lemma_constants();
    let h = number32(span);
    let e = half_step();
    let x = number32(h00);
    let y = number32(h11);
    let z = number32(m);
    let u = number32(h10);
    let v = number32(h01);
    assert(u * 0 as real == 0 as real && v * 0 as real == 0 as real) by (nonlinear_arith);
    assert(within(y * z, 0 as real, 3 as real / 2 as real * h) && within(
        x * (-h),
        0 as real,
        3 as real / 2 as real * h,
    ) && (0 as real) < 2 as real * e * h <= h / 8 as real) by (nonlinear_arith)
        requires
            within(y, 0 as real, 1 as real / 2 as real),
            within(x, 0 as real, 3 as real / 2 as real),
            within(z, 2 as real * h, 2 as real * e * h),
            h > 0 as real,
            e == 1 as real / 0x80_0000 as real,
    ;
    lemma_product_is::<F>(h10, 0, 0, b);
    lemma_product_is::<F>(h01, 0, 0, c);
    law_products_are_near::<F>(h00, lo, span, a);
    law_products_are_near::<F>(h11, m, span, d);
    lemma_sum_is::<F>(a, b, a, ab);
    lemma_sum_is::<F>(ab, c, a, abc);
    law_sums_are_near::<F>(abc, d, span, r);
    lemma_lower_blend(h, z, s, t, x, y, number32(a), number32(d), number32(r));
}

proof fn lemma_lower_share<F: FloatOps>(c: u32, lo: u32, span: u32, d: u32, s: u32)
    requires
        rounds_to_nearest::<F>(),
        is_finite32(c),
        is_finite32(lo),
        MIN_SPAN <= span <= MAX_SPAN,
        number32(span) > 0 as real,
        number32(lo) == -number32(span),
        number32(lo) <= number32(c) <= 0 as real,
        subtracted32::<F>(c, lo, d),
        divided32::<F>(d, span, s),
    ensures
        is_finite32(s),
        0 as real <= number32(s) <= 1 as real,
        within(
            number32(s),
            (number32(c) - number32(lo)) / number32(span),
            3 as real * half_step(),
        ),
{
    lemma_constants();
    law_quadruples_are_in_range(span);
    law_quadruples_are_in_range(0);
    let h = number32(span);
    let e = half_step();
    let x = number32(c) - number32(lo);
    assert(is_nearest32(number32(c) - number32(lo), d));
    law_rounding_keeps_bounds(x, 0, d);
    law_rounding_keeps_bounds(x, span, d);
    law_relative_rounding_error(x, span, d);
    let y = number32(d);
    let q = y / h;
    let t = x / h;
    assert(0 as real <= q <= 1 as real && -(2 as real * e) <= q - t <= 2 as real * e)
        by (nonlinear_arith)
        requires
            q == y / h,
            t == x / h,
            0 as real <= y <= h,
            -(2 as real * e * h) <= y - x <= 2 as real * e * h,
            h > 0 as real,
    ;
    assert(is_nearest32(number32(d) / number32(span), s));
    law_rounding_keeps_bounds(q, 0, s);
    law_rounding_keeps_bounds(q, ONE32, s);
    law_small_rounding_error(q, s);
}

proof fn lemma_lower_segment<F: FloatOps>(c: u32, lo: u32, r: u32)
    requires
        rounds_to_nearest::<F>(),
        is_finite32(c),
        is_finite32(lo),
        MIN_SPAN <= negated32(lo) <= MAX_SPAN,
        number32(lo) <= number32(c) <= 0 as real,
        lower_segment_is::<F>(c, lo, r),
    ensures
        is_finite32(r),
        within(
            number32(r),
            centered_value(number32(c), number32(lo)),
            curve_error() * -number32(lo),
        ),
{
    let span = negated32(lo);
    lemma_constants();
    law_negation_denotes_the_opposite(lo);
    law_numbers_are_ordered(0, span);
    let (d, s, m) = choose|d: u32, s: u32, m: u32|
        {
            &&& #[trigger] subtracted32::<F>(c, lo, d)
            &&& #[trigger] divided32::<F>(d, span, s)
            &&& #[trigger] multiplied32::<F>(TWO32, span, m)
            &&& hermite_is::<F>(s, lo, 0, 0, m, r)
        };
    lemma_tangent::<F>(span, m);
    lemma_lower_share::<F>(c, lo, span, d, s);
    let x = number32(c);
    let h = number32(span);
    let t = (x + h) / h;
    assert(0 as real <= t <= 1 as real && t * h == x + h) by (nonlinear_arith)
        requires
            t == (x + h) / h,
            -h <= x <= 0 as real,
            h > 0 as real,
    ;
    let (s2, s3, h00, h10, h01, h11) = choose|
        s2: u32,
        s3: u32,
        h00: u32,
        h10: u32,
        h01: u32,
        h11: u32,
    |
        {
            &&& #[trigger] multiplied32::<F>(s, s, s2)
            &&& #[trigger] multiplied32::<F>(s2, s, s3)
            &&& h00_is::<F>(s2, s3, h00)
            &&& h10_is::<F>(s, s2, s3, h10)
            &&& h01_is::<F>(s2, s3, h01)
            &&& subtracted32::<F>(s3, s2, h11)
            &&& #[trigger] blend_is::<F>(h00, lo, h10, 0, h01, 0, h11, m, r)
        };
    lemma_basis_is_near::<F>(s, s2, s3, h00, h10, h01, h11);
    lemma_basis_sums(
        number32(s),
        number32(s2),
        number32(s3),
        number32(h00),
        number32(h10),
        number32(h01),
        number32(h11),
    );
    lemma_lower_blend_of::<F>(lo, span, m, h00, h10, h01, h11, r, number32(s), t);
    assert(h * (t * t - 1 as real) == centered_value(x, -h)) by (nonlinear_arith)
        requires
            t * h == x + h,
            h > 0 as real,
            centered_value(x, -h) == x * (2 as real * (-h) - x) / (-h),
    ;
}

/// Up to rounding, the centred curve is the parabola through its keys: at `c`,
/// the confined input, it gives `c (2 k - c) / k`, where `k` is the bound on the
/// side of `c`. It is off by no more than `2^-18` of that bound.
pub proof fn law_centered_curve_follows_its_parabola<F: FloatOps>(
    t: u32,
    lo: u32,
    hi: u32,
    r: u32,
)
    requires
        rounds_to_nearest::<F>(),
        is_finite32(t),
        is_finite32(lo),
        is_finite32(hi),
        MIN_SPAN <= negated32(lo) <= MAX_SPAN,
        MIN_SPAN <= hi <= MAX_SPAN,
        center_weighted_is::<F>(t, lo, hi, r),
    ensures
        is_finite32(r),
        ({
            let c = number32(clamped32(t, lo, hi));
            let k = if c <= 0 as real {
                number32(lo)
            } else {
                number32(hi)
            };
            within(number32(r), centered_value(c, k), curve_error() * distance(k, 0 as real))
        }),
{
    let c = clamped32(t, lo, hi);
    lemma_constants();
    law_negation_denotes_the_opposite(lo);
    law_numbers_are_ordered(0, negated32(lo));
    law_numbers_are_ordered(0, hi);
    law_numbers_are_ordered(t, lo);
    law_numbers_are_ordered(hi, t);
    law_numbers_are_ordered(c, 0);
    if at_most32(c, 0) {
        lemma_lower_segment::<F>(c, lo, r);
    } else {
        lemma_upper_segment::<F>(c, hi, r);
    }
}

/// Up to rounding, the centred curve stays between its bounds: it is beyond them
/// by no more than `2^-18` of the bound on the side of the input, and beyond
/// zero on that side by no more than that.
pub proof fn law_centered_curve_stays_in_range<F: FloatOps>(t: u32, lo: u32, hi: u32, r: u32)
    requires
        rounds_to_nearest::<F>(),
        is_finite32(t),
        is_finite32(lo),
        is_finite32(hi),
        MIN_SPAN <= negated32(lo) <= MAX_SPAN,
        MIN_SPAN <= hi <= MAX_SPAN,
        center_weighted_is::<F>(t, lo, hi, r),
    ensures
        at_most32(t, 0) ==> number32(lo) + curve_error() * number32(lo) <= number32(r)
            <= -(curve_error() * number32(lo)),
        less32(0, t) ==> -(curve_error() * number32(hi)) <= number32(r) <= number32(hi)
            + curve_error() * number32(hi),
{
    law_centered_curve_follows_its_parabola::<F>(t, lo, hi, r);
    let c = clamped32(t, lo, hi);
    lemma_constants();
    law_negation_denotes_the_opposite(lo);
    law_numbers_are_ordered(0, negated32(lo));
    law_numbers_are_ordered(0, hi);
    law_numbers_are_ordered(t, lo);
    law_numbers_are_ordered(hi, t);
    law_numbers_are_ordered(t, 0);
    law_numbers_are_ordered(0, t);
    let x = number32(c);
    let k = if x <= 0 as real {
        number32(lo)
    } else {
        number32(hi)
    };
    lemma_parabola_stays(x, k);
    let e = curve_error();
    assert(e * (-k) == -(e * k)) by (nonlinear_arith);
}

proof fn lemma_parabola_stays(c: real, k: real)
    requires
        k != 0 as real,
        0 as real <= c <= k || k <= c <= 0 as real,
    ensures
        0 as real <= c ==> (k > 0 as real ==> 0 as real <= centered_value(c, k) <= k),
        c <= 0 as real ==> (k < 0 as real ==> k <= centered_value(c, k) <= 0 as real),
{
    let v = centered_value(c, k);
    let d = k - c;
    assert(v * k == c * (2 as real * k - c)) by (nonlinear_arith)
        requires
            v == c * (2 as real * k - c) / k,
            k != 0 as real,
    ;
    assert(k * k - v * k == d * d) by (nonlinear_arith)
        requires
            v * k == c * (2 as real * k - c),
            d == k - c,
    ;
    if k > 0 as real {
        assert(0 as real <= v <= k) by (nonlinear_arith)
            requires
                v * k == c * (2 as real * k - c),
                k * k - v * k == d * d,
                0 as real <= c <= k,
                k > 0 as real,
        ;
    } else {
        assert(k <= v <= 0 as real) by (nonlinear_arith)
            requires
                v * k == c * (2 as real * k - c),
                k * k - v * k == d * d,
                k <= c <= 0 as real,
                k < 0 as real,
        ;
    }
}

proof fn lemma_quotient_undone(a: real, k: real)
    requires
        k != 0 as real,
    ensures
        (a / k) * k == a,
{
    assert((a / k) * k == a) by (nonlinear_arith)
        requires
            k != 0 as real,
    ;
}

proof fn lemma_factor_is_not_negative(x: real, k: real, z: real)
    requires
        x * k == z,
        k > 0 as real && z >= 0 as real || k < 0 as real && z <= 0 as real,
    ensures
        x >= 0 as real,
{
    assert(x < 0 as real && k > 0 as real ==> x * k < 0 as real) by (nonlinear_arith);
    assert(x < 0 as real && k < 0 as real ==> x * k > 0 as real) by (nonlinear_arith);
}

proof fn lemma_parabola_rises(c: real, d: real, k: real)
    requires
        c <= d,
        (0 as real <= c && d <= k && k > 0 as real) || (k <= c && d <= 0 as real && k < 0 as real),
    ensures
        centered_value(c, k) <= centered_value(d, k),
{
    let v = centered_value(c, k);
    let w = centered_value(d, k);
    let p = c * (2 as real * k - c);
    let q = d * (2 as real * k - d);
    lemma_quotient_undone(p, k);
    lemma_quotient_undone(q, k);
    let x = d - c;
    let y = (k - c) + (k - d);
    assert((w - v) * k == w * k - v * k) by (nonlinear_arith);
    assert(d * (2 as real * k - d) - c * (2 as real * k - c) == (d - c) * ((k - c) + (k - d)))
        by (nonlinear_arith);
    assert(y >= 0 as real && x >= 0 as real ==> x * y >= 0 as real) by (nonlinear_arith);
    assert(y <= 0 as real && x >= 0 as real ==> x * y <= 0 as real) by (nonlinear_arith);
    lemma_factor_is_not_negative(w - v, k, q - p);
}

/// Up to rounding, the centred curve does not fall: a greater input gives no
/// lesser value, but for `2^-18` of the bounds on the sides of the two inputs.
pub proof fn law_centered_curve_rises<F: FloatOps>(
    t: u32,
    u: u32,
    lo: u32,
    hi: u32,
    r: u32,
    q: u32,
)
    requires
        rounds_to_nearest::<F>(),
        is_finite32(t),
        is_finite32(u),
        at_most32(t, u),
        is_finite32(lo),
        is_finite32(hi),
        MIN_SPAN <= negated32(lo) <= MAX_SPAN,
        MIN_SPAN <= hi <= MAX_SPAN,
        center_weighted_is::<F>(t, lo, hi, r),
        center_weighted_is::<F>(u, lo, hi, q),
    ensures
        ({
            let c = number32(clamped32(t, lo, hi));
            let d = number32(clamped32(u, lo, hi));
            let k = if c <= 0 as real {
                number32(lo)
            } else {
                number32(hi)
            };
            let l = if d <= 0 as real {
                number32(lo)
            } else {
                number32(hi)
            };
            number32(r) <= number32(q) + curve_error() * distance(k, 0 as real) + curve_error()
                * distance(l, 0 as real)
        }),
{
    law_centered_curve_follows_its_parabola::<F>(t, lo, hi, r);
    law_centered_curve_follows_its_parabola::<F>(u, lo, hi, q);
    let c = clamped32(t, lo, hi);
    let d = clamped32(u, lo, hi);
    lemma_constants();
    law_negation_denotes_the_opposite(lo);
    law_numbers_are_ordered(0, negated32(lo));
    law_numbers_are_ordered(0, hi);
    law_numbers_are_ordered(t, lo);
    law_numbers_are_ordered(hi, t);
    law_numbers_are_ordered(u, lo);
    law_numbers_are_ordered(hi, u);
    law_numbers_are_ordered(t, u);
    let x = number32(c);
    let y = number32(d);
    let l = number32(lo);
    let h = number32(hi);
    if x <= 0 as real && y <= 0 as real {
        lemma_parabola_rises(x, y, l);
    } else if x > 0 as real {
        lemma_parabola_rises(x, y, h);
    } else {
        lemma_parabola_stays(x, l);
        lemma_parabola_stays(y, h);
    }
}

proof fn lemma_eased_errors(c: real, d: real, r: real, e: real)
    requires
        0 as real <= c,
        c <= 1 as real,
        distance(d, 2 as real - c) <= e,
        distance(r, c * d) <= e,
    ensures
        distance(r, c * (2 as real - c)) <= 2 as real * e,
{
    let g = d - (2 as real - c);
    assert(c * d == c * (2 as real - c) + c * g) by (nonlinear_arith)
        requires
            g == d - (2 as real - c),
    ;
    if g >= 0 as real {
        assert(0 as real <= c * g && c * g <= g) by (nonlinear_arith)
            requires
                0 as real <= c,
                c <= 1 as real,
                g >= 0 as real,
        ;
    } else {
        assert(g <= c * g && c * g <= 0 as real) by (nonlinear_arith)
            requires
                0 as real <= c,
                c <= 1 as real,
                g < 0 as real,
        ;
    }
}

/// Up to two roundings, the eased value is `c (2 - c)`, where `c` is the input
/// confined to the range from zero to one.
pub proof fn law_easing_follows_its_parabola<F: FloatOps>(t: u32, r: u32, c: real)
    requires
        rounds_to_nearest::<F>(),
        is_finite32(t),
        ease_in_is::<F>(t, r),
        c == if number32(t) < 0 as real {
            0 as real
        } else if number32(t) > 1 as real {
            1 as real
        } else {
            number32(t)
        },
    ensures
        is_finite32(r),
        4194304 as real * distance(number32(r), c * (2 as real - c)) <= 1 as real,
{
    let k = clamped32(t, 0, ONE32);
    let d = choose|d: u32|
        {
            &&& #[trigger] subtracted32::<F>(TWO32, k, d)
            &&& multiplied32::<F>(k, d, r)
        };
    lemma_constants();
    law_numbers_are_ordered(t, 0);
    law_numbers_are_ordered(ONE32, t);
    law_quadruples_are_in_range(0);
    let x = 2 as real - c;
    assert(is_nearest32(number32(TWO32) - number32(k), d));
    law_small_rounding_error(x, d);
    let y = number32(d);
    law_rounding_keeps_bounds(x, 0, d);
    law_rounding_keeps_bounds(x, TWO32, d);
    assert(0 as real <= c * y && c * y <= 2 as real) by (nonlinear_arith)
        requires
            0 as real <= c,
            c <= 1 as real,
            0 as real <= y,
            y <= 2 as real,
    ;
    assert(is_nearest32(number32(k) * number32(d), r));
    law_small_rounding_error(c * y, r);
    lemma_eased_errors(c, y, number32(r), half_step());
}

/// The smallest span of the centred curve that is no degenerate one is `10^-6`,
/// as near as binary32 comes.
pub proof fn law_smallest_span_denotes()
    ensures
        is_finite32(MIN_SPAN),
        distance(number32(MIN_SPAN), 1 as real / 1000000 as real) < 1 as real
            / 100000000000000 as real,
{
    lemma_pow2_pos(106);
    lemma_pow2_adds(106, 43);
    lemma2_to64();
    lemma2_to64_rest();
    assert(pow2(43) == 8796093022208);
    assert(units32(0x3586_37bd) == 8796093 * pow2(106));
    let p = pow2(106) as real;
    assert((8796093 * pow2(106)) as real == 8796093 as real * p);
    assert((pow2(106) * 8796093022208) as real == p * 8796093022208 as real);
    assert((8796093 as real * p) / (p * 8796093022208 as real) == 8796093 as real
        / 8796093022208 as real) by (nonlinear_arith)
        requires
            p > 0 as real,
    ;
}

/// Where the side that the input lies on spans less than `10^-6`, the centred
/// curve gives the confined input itself.
pub proof fn law_degenerate_spans_pass_through<F: FloatOps>(t: u32, lo: u32, hi: u32, r: u32)
    requires
        is_finite32(t),
        is_finite32(lo),
        is_finite32(hi),
        number32(lo) <= 0 as real,
        0 as real <= number32(hi),
        center_weighted_is::<F>(t, lo, hi, r),
    ensures
        number32(t) > 0 as real && number32(hi) < 999999 as real / 1000000000000 as real
            ==> number32(r) == (if number32(t) <= number32(hi) {
            number32(t)
        } else {
            number32(hi)
        }) || number32(hi) == 0 as real,
        number32(t) <= 0 as real && -number32(lo) < 999999 as real / 1000000000000 as real
            ==> number32(r) == (if number32(t) >= number32(lo) {
            number32(t)
        } else {
            number32(lo)
        }),
{
    let c = clamped32(t, lo, hi);
    lemma_constants();
    law_smallest_span_denotes();
    law_negation_denotes_the_opposite(lo);
    law_numbers_are_ordered(t, lo);
    law_numbers_are_ordered(hi, t);
    law_numbers_are_ordered(c, 0);
    law_numbers_are_ordered(negated32(lo), MIN_SPAN);
    law_numbers_are_ordered(hi, MIN_SPAN);
}

} // verus!
