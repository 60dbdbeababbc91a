//! What comparing, widening and narrowing bit patterns come to.

use vstd::arithmetic::div_mod::{lemma_div_pos_is_pos, lemma_fundamental_div_mod,
    lemma_mod_bound};
use vstd::arithmetic::mul::lemma_mul_is_associative;
use vstd::arithmetic::power2::{lemma2_to64, lemma2_to64_rest, lemma_pow2_adds, lemma_pow2_pos,
    lemma_pow2_strictly_increases, pow2};
use vstd::prelude::*;

use crate::float_bits::{at_most32, at_most64, is_finite32, is_finite64, less32, less64, magnitude32,
    magnitude64, narrows, rounded_count, rounded_units, spacing32, units32, units64, value32,
    value64, widens};
use crate::float_exact::{lemma_products_carry_over, number64};
use crate::float_rounding::{distance, is_nearest32, number32};

verus! {

/// How far apart two whole numbers are.
spec fn gap(x: int, y: int) -> int {
    if x <= y {
        y - x
    } else {
        x - y
    }
}

/// No multiple of the unit lies nearer than the rounded one.
proof fn lemma_rounded_is_nearest(x: int, unit: int, k: int)
    requires
        0 <= x,
        0 < unit,
    ensures
        gap(rounded_count(x, unit) * unit, x) <= gap(k * unit, x),
{
    let q = x / unit;
    let r = x % unit;
    lemma_fundamental_div_mod(x, unit);
    lemma_mod_bound(x, unit);
    assert(unit * q == q * unit && (q + 1) * unit == q * unit + unit) by (nonlinear_arith);
    if k <= q {
        assert(k * unit <= q * unit) by (nonlinear_arith)
            requires
                k <= q,
                0 < unit,
        ;
    } else {
        assert((q + 1) * unit <= k * unit) by (nonlinear_arith)
            requires
                q + 1 <= k,
                0 < unit,
        ;
    }
}

/// A finite binary32 magnitude that reaches the binade of `m` is a multiple of
/// the spacing there.
proof fn lemma_on_the_grid(m: int, n: int) -> (k: int)
    requires
        0 <= m < 0x7ff0_0000_0000_0000,
        0 <= n < 0x7f80_0000,
        m / 0x10_0000_0000_0000 < 897 || units32(n) * pow2(925) >= pow2(
            (m / 0x10_0000_0000_0000 + 51) as nat,
        ),
    ensures
        units32(n) * pow2(925) == k * spacing32(m),
{
    let e = m / 0x10_0000_0000_0000;
    let v = units32(n) as int;
    let p = pow2(925) as int;
    lemma_pow2_pos(925);
    if e < 897 {
        v
    } else {
        let g = n / 0x80_0000;
        let f = n % 0x80_0000;
        lemma2_to64();
        lemma_pow2_adds(925, (e - 874) as nat);
        let low = pow2((e - 874) as nat) as int;
        assert(v >= low) by (nonlinear_arith)
            requires
                v * p >= p * low,
                p > 0,
        ;
        if e > 897 {
            lemma_pow2_strictly_increases(23, (e - 874) as nat);
        }
        assert(g >= 1);
        let h = pow2((g - 1) as nat) as int;
        lemma_pow2_pos((g - 1) as nat);
        assert(v == (f + 0x80_0000) * h);
        if g - 1 < e - 897 {
            lemma_pow2_adds(24, (g - 1) as nat);
            assert((f + 0x80_0000) * h < 0x100_0000 * h) by (nonlinear_arith)
                requires
                    f < 0x80_0000,
                    h > 0,
            ;
            if g + 23 < e - 874 {
                lemma_pow2_strictly_increases((g + 23) as nat, (e - 874) as nat);
            }
        }
        let s = (g - 1) - (e - 897);
        lemma_pow2_adds((g - 1) as nat, 925);
        lemma_pow2_adds(s as nat, (e + 28) as nat);
        let unit = spacing32(m) as int;
        let c = pow2(s as nat) as int;
        assert(h * p == c * unit);
        let w = f + 0x80_0000;
        lemma_mul_is_associative(w, h, p);
        lemma_mul_is_associative(w, c, unit);
        w * c
    }
}

/// No finite binary32 magnitude lies nearer to a binary64 magnitude than the
/// rounded one.
proof fn lemma_no_magnitude_is_nearer(m: int, n: int)
    requires
        0 <= m < 0x7ff0_0000_0000_0000,
        0 <= n < 0x7f80_0000,
    ensures
        gap(rounded_units(m), units64(m) as int) <= gap(
            (units32(n) * pow2(925)) as int,
            units64(m) as int,
        ),
        gap(rounded_units(m), units64(m) as int) <= units64(m) + units32(n) * pow2(925),
        rounded_units(m) >= 0,
{
    let e = m / 0x10_0000_0000_0000;
    let f = m % 0x10_0000_0000_0000;
    let x = units64(m) as int;
    let unit = spacing32(m) as int;
    let v = (units32(n) * pow2(925)) as int;
    lemma_pow2_pos(925);
    if e >= 897 {
        lemma_pow2_pos((e + 28) as nat);
    }
    assert(0 <= v) by (nonlinear_arith)
        requires
            v == units32(n) * pow2(925),
            pow2(925) > 0,
    ;
    lemma_rounded_is_nearest(x, unit, 0);
    lemma_div_pos_is_pos(x, unit);
    assert(0 <= rounded_count(x, unit) * unit) by (nonlinear_arith)
        requires
            0 <= rounded_count(x, unit),
            0 < unit,
    ;
    if e < 897 || v >= pow2((e + 51) as nat) {
        let k = lemma_on_the_grid(m, n);
        lemma_rounded_is_nearest(x, unit, k);
    } else {
        lemma2_to64();
        lemma_pow2_adds(23, (e + 28) as nat);
        lemma_rounded_is_nearest(x, unit, 0x80_0000);
        let low = pow2((e + 51) as nat) as int;
        lemma_pow2_adds(52, (e - 1) as nat);
        lemma_pow2_pos((e - 1) as nat);
        let h = pow2((e - 1) as nat) as int;
        assert(pow2(52) == 0x10_0000_0000_0000) by {
            lemma2_to64_rest();
        }
        assert((f + 0x10_0000_0000_0000) * h >= 0x10_0000_0000_0000 * h) by (nonlinear_arith)
            requires
                f >= 0,
                h > 0,
        ;
        assert(low <= x);
    }
}

/// The distance of two numbers of binary64 units.
proof fn lemma_distance_in_units(x: int, y: int)
    ensures
        distance(x as real / pow2(1074) as real, y as real / pow2(1074) as real) == gap(x, y) as real
            / pow2(1074) as real,
{
    lemma_pow2_pos(1074);
    let u = pow2(1074) as real;
    let a = x as real;
    let b = y as real;
    assert(a <= b <==> a / u <= b / u) by (nonlinear_arith)
        requires
            u > 0 as real,
    ;
    assert(a / u - b / u == (a - b) / u && b / u - a / u == (b - a) / u) by (nonlinear_arith)
        requires
            u > 0 as real,
    ;
}

proof fn lemma_number32_in_units(b: u32)
    ensures
        number32(b) == (value32(b) * pow2(925)) as real / pow2(1074) as real,
{
    lemma_pow2_pos(149);
    lemma_pow2_pos(925);
    lemma_pow2_adds(149, 925);
    let v = pow2(149) as real;
    let w = pow2(925) as real;
    let x = value32(b) as real;
    lemma_products_carry_over(value32(b), pow2(925) as int);
    lemma_products_carry_over(pow2(149) as int, pow2(925) as int);
    assert((x * w) / (v * w) == x / v) by (nonlinear_arith)
        requires
            v > 0 as real,
            w > 0 as real,
    ;
}

/// Narrowing a finite number gives the nearest binary32 number, as long as that
/// is finite.
pub proof fn law_narrowing_is_nearest(b: u64, r: u32)
    requires
        is_finite64(b),
        narrows(b, r),
        is_finite32(r),
    ensures
        is_nearest32(number64(b), r),
{
    let m = magnitude64(b);
    let p = pow2(925) as int;
    lemma_pow2_pos(1074);
    lemma_pow2_pos(925);
    assert forall|f: u32| is_finite32(f) implies distance(number32(r), number64(b)) <= distance(
        #[trigger] number32(f),
        number64(b),
    ) by {
        lemma_number32_in_units(r);
        lemma_number32_in_units(f);
        lemma_distance_in_units(value32(r) * p, value64(b));
        lemma_distance_in_units(value32(f) * p, value64(b));
        lemma_no_magnitude_is_nearer(m, magnitude32(f));
        let v = units32(magnitude32(f)) as int;
        let q = units32(magnitude32(r)) as int;
        assert((-v) * p == -(v * p) && (-q) * p == -(q * p)) by (nonlinear_arith);
        assert(0 <= v * p && 0 <= q * p) by (nonlinear_arith)
            requires
                0 <= v,
                0 <= q,
                p > 0,
        ;
        assert(q * p == rounded_units(m));
        let g = gap(value32(r) * p, value64(b));
        let h = gap(value32(f) * p, value64(b));
        assert(g <= h);
        let u = pow2(1074) as real;
        let x = g as real;
        let y = h as real;
        assert(x / u <= y / u) by (nonlinear_arith)
            requires
                x <= y,
                u > 0 as real,
        ;
    }
}

/// What is not a number compares with nothing; the infinities lie beyond every
/// finite number, and keep their place when widened or narrowed.
pub proof fn law_unusual_patterns_compare(a: u32, b: u32, c: u64, d: u64)
    ensures
        0x7f80_0000 < a < 0x8000_0000 || a > 0xff80_0000 ==> !less32(a, b) && !less32(b, a)
            && !at_most32(a, b) && !at_most32(b, a),
        0x7ff0_0000_0000_0000 < c < 0x8000_0000_0000_0000 || c > 0xfff0_0000_0000_0000 ==> !less64(
            c,
            d,
        ) && !less64(d, c) && !at_most64(c, d) && !at_most64(d, c),
        is_finite32(a) ==> less32(a, 0x7f80_0000) && less32(0xff80_0000, a),
        is_finite64(c) ==> less64(c, 0x7ff0_0000_0000_0000) && less64(0xfff0_0000_0000_0000, c),
        is_finite32(a) <==> a < 0x7f80_0000 || 0x8000_0000 <= a < 0xff80_0000,
        is_finite64(c) <==> c < 0x7ff0_0000_0000_0000 || 0x8000_0000_0000_0000 <= c
            < 0xfff0_0000_0000_0000,
        widens(0x7f80_0000, d) ==> d == 0x7ff0_0000_0000_0000,
        widens(0xff80_0000, d) ==> d == 0xfff0_0000_0000_0000,
        narrows(0x7ff0_0000_0000_0000, b) ==> b == 0x7f80_0000,
        narrows(0xfff0_0000_0000_0000, b) ==> b == 0xff80_0000,
{
}

} // verus!
