//! The numbers that binary32 patterns denote, and arithmetic that rounds to the
//! nearest of them.

use vstd::arithmetic::div_mod::lemma_fundamental_div_mod_converse;
use vstd::arithmetic::power2::{lemma2_to64, lemma_pow2_adds, lemma_pow2_pos, pow2};
use vstd::prelude::*;

use crate::float_bits::{at_most32, is_finite32, less32, magnitude32, negated32, units32, value32,
    INF32, MINUS_TWO32, ONE32, SIGN32, THREE32, TWO32};
use crate::float_convert::law_order32;
use crate::float_ops::{added32, divided32, multiplied32, subtracted32, FloatOps};

verus! {

/// The greatest finite binary32 number.
pub const MAX32: u32 = 0x7f7f_ffff;

/// The number that a finite binary32 pattern denotes.
pub open spec fn number32(b: u32) -> real {
    value32(b) as real / pow2(149) as real
}

/// How far two numbers lie apart.
pub open spec fn distance(x: real, y: real) -> real {
    if x <= y {
        y - x
    } else {
        x - y
    }
}

/// Whether no finite binary32 number lies nearer to `x` than `r`.
pub open spec fn is_nearest32(x: real, r: u32) -> bool {
    is_finite32(r) && forall|f: u32|
        is_finite32(f) ==> distance(number32(r), x) <= distance(#[trigger] number32(f), x)
}

/// Whether `x` lies between the greatest finite binary32 number and its
/// opposite.
pub open spec fn in_range32(x: real) -> bool {
    distance(x, 0 as real) <= number32(MAX32)
}

/// Whether the binary32 operations of `F` round to nearest: on finite operands,
/// each gives a finite number that none lies nearer to the exact result than,
/// as long as that is in range. Which of two equally near ones is open.
pub open spec fn rounds_to_nearest<F: FloatOps>() -> bool {
    &&& forall|a: u32, b: u32, r: u32|
        is_finite32(a) && is_finite32(b) && in_range32(number32(a) + number32(b)) && #[trigger]
            added32::<F>(a, b, r) ==> is_nearest32(number32(a) + number32(b), r)
    &&& forall|a: u32, b: u32, r: u32|
        is_finite32(a) && is_finite32(b) && in_range32(number32(a) - number32(b)) && #[trigger]
            subtracted32::<F>(a, b, r) ==> is_nearest32(number32(a) - number32(b), r)
    &&& forall|a: u32, b: u32, r: u32|
        is_finite32(a) && is_finite32(b) && in_range32(number32(a) * number32(b)) && #[trigger]
            multiplied32::<F>(a, b, r) ==> is_nearest32(number32(a) * number32(b), r)
    &&& forall|a: u32, b: u32, r: u32|
        is_finite32(a) && is_finite32(b) && number32(b) != 0 as real && in_range32(
            number32(a) / number32(b),
        ) && #[trigger] divided32::<F>(a, b, r) ==> is_nearest32(number32(a) / number32(b), r)
}

/// Comparing finite patterns compares the numbers that they denote.
pub proof fn law_numbers_are_ordered(a: u32, b: u32)
    requires
        is_finite32(a),
        is_finite32(b),
    ensures
        less32(a, b) <==> number32(a) < number32(b),
        at_most32(a, b) <==> number32(a) <= number32(b),
{
    law_order32(a, b);
    lemma_pow2_pos(149);
    let u = pow2(149) as real;
    let x = value32(a) as real;
    let y = value32(b) as real;
    assert(x < y <==> x / u < y / u) by (nonlinear_arith)
        requires
            u > 0 as real,
    ;
    assert(x <= y <==> x / u <= y / u) by (nonlinear_arith)
        requires
            u > 0 as real,
    ;
}

/// One, in units of the smallest number, is `2^23` times `2^126` and `2^22`
/// times `2^127` of them.
proof fn lemma_unit()
    ensures
        pow2(149) == 0x80_0000 * pow2(126),
        pow2(149) == 0x40_0000 * pow2(127),
        pow2(127) == 2 * pow2(126),
        pow2(126) > 0,
        pow2(149) as real == 0x80_0000 as real * pow2(126) as real,
        pow2(149) as real == 0x40_0000 as real * pow2(127) as real,
{
    lemma2_to64();
    lemma_pow2_pos(126);
    lemma_pow2_adds(23, 126);
    lemma_pow2_adds(22, 127);
    lemma_pow2_adds(1, 126);
    lemma_products_carry_over(0x80_0000, pow2(126) as int);
    lemma_products_carry_over(0x40_0000, pow2(127) as int);
}

/// What some constants denote.
pub proof fn law_constants_denote()
    ensures
        number32(0) == 0 as real,
        number32(SIGN32) == 0 as real,
        number32(ONE32) == 1 as real,
        number32(TWO32) == 2 as real,
        number32(THREE32) == 3 as real,
        number32(MINUS_TWO32) == -(2 as real),
{
    lemma_unit();
    let p = pow2(126) as int;
    assert(units32(0x3f80_0000) == 0x80_0000 * p);
    assert(units32(0x4000_0000) == 0x80_0000 * (2 * p));
    assert(units32(0x4040_0000) == 0xc0_0000 * (2 * p));
    assert(value32(ONE32) == pow2(149));
    assert(value32(TWO32) == 2 * pow2(149));
    assert(value32(THREE32) == 3 * pow2(149));
    assert(value32(MINUS_TWO32) == -2 * pow2(149));
    let u = pow2(149) as real;
    let two = 2 as real;
    let three = 3 as real;
    assert(u / u == 1 as real && (two * u) / u == two && (three * u) / u == three && (-(two * u))
        / u == -two && (0 as real) / u == 0 as real) by (nonlinear_arith)
        requires
            u > 0 as real,
    ;
}

/// Every finite number is in range.
pub proof fn law_finite_numbers_are_in_range(b: u32)
    requires
        is_finite32(b),
    ensures
        in_range32(number32(b)),
        number32(MAX32) > 0 as real,
{
    let m = magnitude32(b) as u32;
    law_numbers_are_ordered(m, MAX32);
    law_numbers_are_ordered(0, m);
    law_numbers_are_ordered(0, MAX32);
    law_constants_denote();
    lemma_pow2_pos(149);
    let u = pow2(149) as real;
    let x = value32(m) as real;
    assert((-x) / u == -(x / u)) by (nonlinear_arith)
        requires
            u > 0 as real,
    ;
    if b >= SIGN32 {
        assert(value32(b) == -value32(m));
        assert(number32(b) == -number32(m));
    } else {
        assert(b == m);
    }
}

/// A number that can be written is the nearest to itself.
pub proof fn law_exact_results_stay(x: real, f: u32, r: u32)
    requires
        is_nearest32(x, r),
        is_finite32(f),
        number32(f) == x,
    ensures
        number32(r) == x,
{
    assert(distance(number32(r), x) <= distance(number32(f), x));
}

/// Rounding does not step over a number that can be written.
pub proof fn law_rounding_keeps_bounds(x: real, f: u32, r: u32)
    requires
        is_nearest32(x, r),
        is_finite32(f),
    ensures
        x <= number32(f) ==> number32(r) <= number32(f),
        x >= number32(f) ==> number32(r) >= number32(f),
{
    assert(distance(number32(r), x) <= distance(number32(f), x));
}

/// Every multiple `k` of a power of two up to `2^24` times it can be written.
proof fn lemma_multiples_are_written(k: nat, e: nat) -> (m: int)
    requires
        k <= 0x100_0000,
        e <= 252,
    ensures
        0 <= m < INF32,
        units32(m) == k * pow2(e),
    decreases e + (if k == 0x100_0000 { 2int } else { 0 }),
{
    lemma_pow2_adds(1, e);
    lemma2_to64();
    let p = pow2(e) as int;
    if k == 0x100_0000 {
        let m = (e + 2) * 0x80_0000;
        lemma_fundamental_div_mod_converse(m as int, 0x80_0000, e as int + 2, 0);
        assert(units32(m as int) == 0x80_0000 * pow2(e + 1));
        assert(0x80_0000 * (2 * p) == 0x100_0000 * p);
        m as int
    } else if k >= 0x80_0000 {
        let m = (e + 1) * 0x80_0000 + (k - 0x80_0000);
        lemma_fundamental_div_mod_converse(m, 0x80_0000, e as int + 1, k - 0x80_0000);
        m
    } else if e == 0 {
        lemma_fundamental_div_mod_converse(k as int, 0x80_0000, 0, k as int);
        assert(k * pow2(0) == k);
        k as int
    } else {
        let m = lemma_multiples_are_written(2 * k, (e - 1) as nat);
        lemma_pow2_adds(1, (e - 1) as nat);
        let h = pow2((e - 1) as nat) as int;
        assert((2 * k) * h == k * (2 * h)) by (nonlinear_arith);
        m
    }
}

proof fn lemma_products_carry_over(a: int, b: int)
    ensures
        (a * b) as real == a as real * b as real,
{
    assert((a * b) as real == a as real * b as real) by (nonlinear_arith);
}

/// Between zero and `n` times `g`, some multiple of `g` lies no further than
/// half of it.
proof fn lemma_near_multiple(x: real, g: real, n: nat) -> (k: nat)
    requires
        0 as real <= x <= n as real * g,
        g > 0 as real,
    ensures
        k <= n,
        distance(k as real * g, x) + distance(k as real * g, x) <= g,
    decreases n,
{
    if n == 0 {
        assert(0 as real * g == 0 as real) by (nonlinear_arith);
        0
    } else {
        let below = (n - 1) as real * g;
        let above = n as real * g;
        assert(above == below + g) by (nonlinear_arith)
            requires
                above == n as real * g,
                below == (n - 1) as real * g,
        ;
        if x <= below {
            lemma_near_multiple(x, g, (n - 1) as nat)
        } else if x - below <= above - x {
            (n - 1) as nat
        } else {
            n
        }
    }
}

/// Rounding errs by no more than half the spacing of the numbers up to `2^24`
/// times that spacing.
proof fn lemma_rounding_error(x: real, e: nat, g: real, r: u32)
    requires
        is_nearest32(x, r),
        e <= 252,
        g == pow2(e) as real / pow2(149) as real,
        distance(x, 0 as real) <= 0x100_0000 as real * g,
    ensures
        distance(number32(r), x) + distance(number32(r), x) <= g,
{
    lemma_pow2_pos(149);
    lemma_pow2_pos(e);
    let u = pow2(149) as real;
    let p = pow2(e) as real;
    assert(p / u > 0 as real) by (nonlinear_arith)
        requires
            p > 0 as real,
            u > 0 as real,
    ;
    let y = distance(x, 0 as real);
    let k = lemma_near_multiple(y, g, 0x100_0000);
    let m = lemma_multiples_are_written(k, e);
    let kr = k as real;
    lemma_products_carry_over(k as int, pow2(e) as int);
    assert((k * pow2(e)) as real == kr * p);
    assert((kr * p) / u == kr * g) by (nonlinear_arith)
        requires
            u > 0 as real,
            g == p / u,
    ;
    let f: u32 = if x >= 0 as real {
        m as u32
    } else {
        (m + SIGN32) as u32
    };
    let v = units32(m) as real;
    assert((-v) / u == -(v / u)) by (nonlinear_arith)
        requires
            u > 0 as real,
    ;
    assert(magnitude32(f) == m);
    assert(number32(f) == if x >= 0 as real {
        kr * g
    } else {
        -(kr * g)
    });
    assert(distance(number32(r), x) <= distance(number32(f), x));
}

/// The relative error of a rounding: `2^-23`.
pub open spec fn half_step() -> real {
    1 as real / 0x80_0000 as real
}

/// Rounding a number of at most four errs by no more than `2^-23`.
pub proof fn law_small_rounding_error(x: real, r: u32)
    requires
        is_nearest32(x, r),
        distance(x, 0 as real) <= 4 as real,
    ensures
        distance(number32(r), x) <= half_step(),
{
    lemma_unit();
    let p = pow2(127) as real;
    let u = pow2(149) as real;
    let g = p / u;
    assert(g == 1 as real / 0x40_0000 as real) by (nonlinear_arith)
        requires
            g == p / u,
            u == 0x40_0000 as real * p,
            p > 0 as real,
    ;
    lemma_rounding_error(x, 127, g, r);
}

/// Rounding a number of at most four times the normal number `h` errs by no
/// more than `2^-22` of it.
pub proof fn law_relative_rounding_error(x: real, h: u32, r: u32)
    requires
        is_nearest32(x, r),
        0x80_0000 <= h <= 0x7dff_ffff,
        distance(x, 0 as real) <= 4 as real * number32(h),
    ensures
        distance(number32(r), x) <= 2 as real * half_step() * number32(h),
{
    let m = h as int;
    let j = (m / 0x80_0000 - 1) as nat;
    let f = m % 0x80_0000;
    let p = pow2(j) as real;
    let u = pow2(149) as real;
    lemma2_to64();
    lemma_pow2_pos(149);
    lemma_pow2_pos(j);
    lemma_pow2_adds(2, j);
    let e = j + 2;
    let g = pow2(e) as real / u;
    assert(pow2(e) == 4 * pow2(j));
    let w = (f + 0x80_0000) as real;
    assert(value32(h) == (f + 0x80_0000) * pow2(j));
    lemma_products_carry_over(f + 0x80_0000, pow2(j) as int);
    assert(value32(h) as real == w * p);
    let n = number32(h);
    let four = 4 as real;
    assert(four * n <= 0x100_0000 as real * g && g <= four * half_step() * n) by (nonlinear_arith)
        requires
            n == (w * p) / u,
            g == (four * p) / u,
            four == 4 as real,
            half_step() == 1 as real / 0x80_0000 as real,
            0x80_0000 as real <= w <= 0x100_0000 as real,
            p > 0 as real,
            u > 0 as real,
    ;
    lemma_rounding_error(x, e, g, r);
    assert(four * half_step() * n == 2 as real * half_step() * n + 2 as real * half_step() * n)
        by (nonlinear_arith)
        requires
            four == 4 as real,
    ;
}

/// Rounding a number of at most two errs by no more than `2^-24`.
pub proof fn law_smaller_rounding_error(x: real, r: u32)
    requires
        is_nearest32(x, r),
        distance(x, 0 as real) <= 2 as real,
    ensures
        distance(number32(r), x) + distance(number32(r), x) <= half_step(),
{
    lemma_unit();
    let p = pow2(126) as real;
    let u = pow2(149) as real;
    let g = p / u;
    assert(g == 1 as real / 0x80_0000 as real) by (nonlinear_arith)
        requires
            g == p / u,
            u == 0x80_0000 as real * p,
            p > 0 as real,
    ;
    lemma_rounding_error(x, 126, g, r);
}

/// The number that follows one.
pub proof fn law_next_after_one(b: u32)
    requires
        is_finite32(b),
        number32(b) > 1 as real,
    ensures
        number32(b) >= 1 as real + half_step(),
{
    law_constants_denote();
    law_numbers_are_ordered(ONE32, b);
    law_numbers_are_ordered(0x3f80_0001, b);
    lemma_unit();
    let p = pow2(126) as real;
    let u = pow2(149) as real;
    assert(units32(0x3f80_0001) == 0x80_0001 * pow2(126));
    assert(value32(0x3f80_0001) == 0x80_0001 * pow2(126));
    lemma_products_carry_over(0x80_0001, pow2(126) as int);
    assert(value32(0x3f80_0001) as real == 0x80_0001 as real * p);
    assert((0x80_0001 as real * p) / u == 1 as real + 1 as real / 0x80_0000 as real)
        by (nonlinear_arith)
        requires
            u == 0x80_0000 as real * p,
            p > 0 as real,
    ;
}

/// Four times a number with room above it is in range, and so is four.
pub proof fn law_quadruples_are_in_range(h: u32)
    requires
        h <= 0x7dff_ffff,
    ensures
        0 as real <= 4 as real * number32(h) <= number32(MAX32),
        4 as real <= number32(MAX32),
{
    let top: u32 = 0x7dff_ffff;
    law_numbers_are_ordered(h, top);
    law_numbers_are_ordered(0, h);
    law_numbers_are_ordered(0x3f80_0000, top);
    law_constants_denote();
    lemma2_to64();
    lemma_pow2_adds(3, 250);
    lemma_pow2_pos(250);
    lemma_pow2_pos(149);
    let p = pow2(250) as real;
    let u = pow2(149) as real;
    assert(units32(0x7dff_ffff) == 0xff_ffff * pow2(250));
    assert(units32(0x7f7f_ffff) == 0xff_ffff * pow2(253));
    assert(value32(0x7f7f_ffff) == 0xff_ffff * (8 * pow2(250)));
    lemma_products_carry_over(0xff_ffff, 8 * pow2(250) as int);
    assert(value32(0x7dff_ffff) == 0xff_ffff * pow2(250));
    lemma_products_carry_over(0xff_ffff, pow2(250) as int);
    assert(value32(top) as real == 0xff_ffff as real * p);
    assert(value32(MAX32) as real == 0xff_ffff as real * (8 as real * p));
    assert((0xff_ffff as real * (8 as real * p)) / u == 8 as real * ((0xff_ffff as real * p) / u))
        by (nonlinear_arith)
        requires
            u > 0 as real,
    ;
}

/// Flipping the sign of a pattern gives the opposite number.
pub proof fn law_negation_denotes_the_opposite(b: u32)
    requires
        is_finite32(b),
    ensures
        is_finite32(negated32(b)),
        number32(negated32(b)) == -number32(b),
{
    lemma_pow2_pos(149);
    let u = pow2(149) as real;
    let x = value32(b) as real;
    assert((-x) / u == -(x / u)) by (nonlinear_arith)
        requires
            u > 0 as real,
    ;
    assert(value32(negated32(b)) == -value32(b));
}

/// A product of at most four times the normal number `h` is off by no more than
/// `2^-22` of it.
pub proof fn law_products_are_near<F: FloatOps>(a: u32, b: u32, h: u32, r: u32)
    requires
        rounds_to_nearest::<F>(),
        is_finite32(a),
        is_finite32(b),
        0x80_0000 <= h <= 0x7dff_ffff,
        multiplied32::<F>(a, b, r),
        distance(number32(a) * number32(b), 0 as real) <= 4 as real * number32(h),
    ensures
        is_finite32(r),
        distance(number32(r), number32(a) * number32(b)) <= 2 as real * half_step() * number32(h),
{
    law_quadruples_are_in_range(h);
    assert(is_nearest32(number32(a) * number32(b), r));
    law_relative_rounding_error(number32(a) * number32(b), h, r);
}

/// A sum of at most four times the normal number `h` is off by no more than
/// `2^-22` of it.
pub proof fn law_sums_are_near<F: FloatOps>(a: u32, b: u32, h: u32, r: u32)
    requires
        rounds_to_nearest::<F>(),
        is_finite32(a),
        is_finite32(b),
        0x80_0000 <= h <= 0x7dff_ffff,
        added32::<F>(a, b, r),
        distance(number32(a) + number32(b), 0 as real) <= 4 as real * number32(h),
    ensures
        is_finite32(r),
        distance(number32(r), number32(a) + number32(b)) <= 2 as real * half_step() * number32(h),
{
    law_quadruples_are_in_range(h);
    assert(is_nearest32(number32(a) + number32(b), r));
    law_relative_rounding_error(number32(a) + number32(b), h, r);
}

} // verus!
