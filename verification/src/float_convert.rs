//! Exact conversions between the two widths of
//! [`float_bits`](crate::float_bits), and the laws that tie the bit patterns
//! to the numbers they denote.

use vstd::arithmetic::div_mod::lemma_fundamental_div_mod_converse;
use vstd::arithmetic::power2::{
    lemma2_to64, lemma2_to64_rest, lemma_pow2_adds, lemma_pow2_pos, lemma_pow2_strictly_increases,
    pow2,
};
use vstd::bits::{lemma_u64_shl_is_mul, lemma_u64_shr_is_div};
use vstd::prelude::*;

use crate::float_bits::{at_most32, at_most64, is_finite32, is_finite64, is_nan32, is_nan64, less32,
    less64, magnitude32, magnitude64, narrows, rounded_count, rounded_units, spacing32, units32,
    units64, value32, value64, widens, INF32, INF64, ONE32, ONE64, SIGN32, SIGN64};

verus! {

proof fn lemma_pow2_step(e: nat)
    ensures
        pow2(e) > 0,
        pow2(e + 1) == 2 * pow2(e),
{
    lemma_pow2_pos(e);
    lemma_pow2_adds(e, 1);
    lemma2_to64();
    assert(pow2(e) * 2 == 2 * pow2(e)) by (nonlinear_arith);
}

proof fn lemma_pow2_monotone(a: nat, b: nat)
    requires
        a <= b,
    ensures
        0 < pow2(a) <= pow2(b),
{
    lemma_pow2_pos(a);
    if a < b {
        lemma_pow2_strictly_increases(a, b);
    }
}

/// One more in the pattern is strictly more in magnitude.
proof fn lemma_units32_step(m: int)
    requires
        0 <= m < INF32 - 1,
    ensures
        units32(m) < units32(m + 1),
{
    let e = m / 0x80_0000;
    let f = m % 0x80_0000;
    if f == 0x80_0000 - 1 {
        lemma_fundamental_div_mod_converse(m + 1, 0x80_0000, e + 1, 0);
        if e == 0 {
            lemma2_to64();
        } else {
            let p = pow2((e - 1) as nat);
            lemma_pow2_step((e - 1) as nat);
            assert((f + 0x80_0000) * p < 0x80_0000 * (2 * p)) by (nonlinear_arith)
                requires
                    f == 0x80_0000 - 1,
                    p > 0,
            ;
        }
    } else {
        lemma_fundamental_div_mod_converse(m + 1, 0x80_0000, e, f + 1);
        if e > 0 {
            let p = pow2((e - 1) as nat);
            lemma_pow2_pos((e - 1) as nat);
            assert((f + 0x80_0000) * p < (f + 1 + 0x80_0000) * p) by (nonlinear_arith)
                requires
                    p > 0,
            ;
        }
    }
}

/// One more in the pattern is strictly more in magnitude.
proof fn lemma_units64_step(m: int)
    requires
        0 <= m < INF64 - 1,
    ensures
        units64(m) < units64(m + 1),
{
    let e = m / 0x10_0000_0000_0000;
    let f = m % 0x10_0000_0000_0000;
    if f == 0x10_0000_0000_0000 - 1 {
        lemma_fundamental_div_mod_converse(m + 1, 0x10_0000_0000_0000, e + 1, 0);
        if e == 0 {
            lemma2_to64();
        } else {
            let p = pow2((e - 1) as nat);
            lemma_pow2_step((e - 1) as nat);
            assert((f + 0x10_0000_0000_0000) * p < 0x10_0000_0000_0000 * (2 * p))
                by (nonlinear_arith)
                requires
                    f == 0x10_0000_0000_0000 - 1,
                    p > 0,
            ;
        }
    } else {
        lemma_fundamental_div_mod_converse(m + 1, 0x10_0000_0000_0000, e, f + 1);
        if e > 0 {
            let p = pow2((e - 1) as nat);
            lemma_pow2_pos((e - 1) as nat);
            assert((f + 0x10_0000_0000_0000) * p < (f + 1 + 0x10_0000_0000_0000) * p)
                by (nonlinear_arith)
                requires
                    p > 0,
            ;
        }
    }
}

proof fn lemma_units32_increases(m: int, n: int)
    requires
        0 <= m < n < INF32,
    ensures
        units32(m) < units32(n),
    decreases n - m,
{
    lemma_units32_step(n - 1);
    if m < n - 1 {
        lemma_units32_increases(m, n - 1);
    }
}

proof fn lemma_units64_increases(m: int, n: int)
    requires
        0 <= m < n < INF64,
    ensures
        units64(m) < units64(n),
    decreases n - m,
{
    lemma_units64_step(n - 1);
    if m < n - 1 {
        lemma_units64_increases(m, n - 1);
    }
}

/// Comparing two finite binary32 patterns compares the numbers they denote.
pub proof fn law_order32(a: u32, b: u32)
    requires
        is_finite32(a),
        is_finite32(b),
    ensures
        less32(a, b) <==> value32(a) < value32(b),
        at_most32(a, b) <==> value32(a) <= value32(b),
{
    let m = magnitude32(a);
    let n = magnitude32(b);
    if m < n {
        lemma_units32_increases(m, n);
    } else if n < m {
        lemma_units32_increases(n, m);
    }
    if m > 0 {
        lemma_units32_increases(0, m);
    }
    if n > 0 {
        lemma_units32_increases(0, n);
    }
}

/// Comparing two finite binary64 patterns compares the numbers they denote.
pub proof fn law_order64(a: u64, b: u64)
    requires
        is_finite64(a),
        is_finite64(b),
    ensures
        less64(a, b) <==> value64(a) < value64(b),
        at_most64(a, b) <==> value64(a) <= value64(b),
{
    let m = magnitude64(a);
    let n = magnitude64(b);
    if m < n {
        lemma_units64_increases(m, n);
    } else if n < m {
        lemma_units64_increases(n, m);
    }
    if m > 0 {
        lemma_units64_increases(0, m);
    }
    if n > 0 {
        lemma_units64_increases(0, n);
    }
}

/// A normal binary64 magnitude put together from its fields.
proof fn lemma_units64_normal(e: int, f: int)
    requires
        1 <= e <= 2046,
        0 <= f < 0x10_0000_0000_0000,
    ensures
        units64(e * 0x10_0000_0000_0000 + f) == (f + 0x10_0000_0000_0000) * pow2((e - 1) as nat),
        0 <= e * 0x10_0000_0000_0000 + f < INF64,
{
    lemma_fundamental_div_mod_converse(
        e * 0x10_0000_0000_0000 + f,
        0x10_0000_0000_0000,
        e,
        f,
    );
    lemma_pow2_pos((e - 1) as nat);
    assert((f + 0x10_0000_0000_0000) * pow2((e - 1) as nat) >= 0) by (nonlinear_arith)
        requires
            f >= 0,
            pow2((e - 1) as nat) > 0,
    ;
}

/// Widens a binary32 number to binary64. Every finite value, both
/// infinities and the sign are kept; a NaN stays a NaN.
pub fn widen(b: u32) -> (r: u64)
    ensures
        widens(b, r),
{
    let sign: u64 = if b >= SIGN32 {
        SIGN64
    } else {
        0
    };
    let m: u32 = if b >= SIGN32 {
        b - SIGN32
    } else {
        b
    };
    if m >= INF32 {
        return sign + INF64 + ((m - INF32) as u64) * 0x2000_0000;
    }
    let e: u64 = (m / 0x80_0000) as u64;
    let f: u64 = (m % 0x80_0000) as u64;
    proof {
        lemma2_to64();
    }
    if e > 0 {
        proof {
            let p = pow2((e - 1) as nat);
            lemma_units64_normal(e + 896, f * 0x2000_0000);
            lemma_pow2_adds((e - 1) as nat, 925);
            lemma_pow2_adds(29, (e + 895) as nat);
            let q = pow2((e + 895) as nat);
            let big = pow2(925);
            assert(p * big == 0x2000_0000 * q);
            assert((f * 0x2000_0000 + 0x10_0000_0000_0000) * q == ((f + 0x80_0000) * p) * big)
                by (nonlinear_arith)
                requires
                    p * big == 0x2000_0000 * q,
            ;
        }
        sign + (e + 896) * 0x10_0000_0000_0000 + f * 0x2000_0000
    } else if f == 0 {
        assert(units64(0) == 0);
        assert(0 * pow2(925) == 0);
        sign
    } else {
        let mut g: u64 = f;
        let mut k: u64 = 0;
        while g < 0x80_0000
            invariant
                1 <= f < 0x80_0000,
                g == f * pow2(k as nat),
                1 <= g < 0x100_0000,
                k <= 23,
                g < 0x80_0000 ==> k < 23,
            decreases 23 - k,
        {
            proof {
                lemma_pow2_step(k as nat);
                let p = pow2(k as nat);
                assert(f * (2 * p) == 2 * (f * p)) by (nonlinear_arith);
                lemma2_to64();
                if k == 22 {
                    assert(f * pow2(23) >= 0x80_0000) by (nonlinear_arith)
                        requires
                            f >= 1,
                            pow2(23) == 0x80_0000,
                    ;
                }
            }
            g = g * 2;
            k = k + 1;
        }
        proof {
            lemma_units64_normal(897 - k, (g - 0x80_0000) * 0x2000_0000);
            lemma_pow2_adds(29, (896 - k) as nat);
            lemma_pow2_adds(k as nat, (925 - k) as nat);
            let q = pow2((896 - k) as nat);
            let p = pow2(k as nat);
            let w = pow2((925 - k) as nat);
            assert(((g - 0x80_0000) * 0x2000_0000 + 0x10_0000_0000_0000) * q == f * (p * w))
                by (nonlinear_arith)
                requires
                    w == 0x2000_0000 * q,
                    g == f * p,
            ;
        }
        sign + (897 - k) * 0x10_0000_0000_0000 + (g - 0x80_0000) * 0x2000_0000
    }
}

/// `x` divided by `2^s`, rounded to nearest with ties to even.
fn shifted_round(x: u64, s: u64) -> (q: u64)
    requires
        1 <= s <= 53,
        x < 0x20_0000_0000_0000,
    ensures
        q == rounded_count(x as int, pow2(s as nat) as int),
        q <= x / 2 + 1,
{
    proof {
        lemma2_to64();
        lemma2_to64_rest();
        lemma_pow2_monotone(s as nat, 53);
        lemma_pow2_monotone(1, s as nat);
        assert(1 * pow2(s as nat) == pow2(s as nat));
        lemma_u64_shl_is_mul(1, s);
        lemma_u64_shr_is_div(x, s);
    }
    let unit: u64 = 1u64 << s;
    let q: u64 = x >> s;
    proof {
        vstd::arithmetic::div_mod::lemma_fundamental_div_mod(x as int, unit as int);
        vstd::arithmetic::div_mod::lemma_div_is_ordered_by_denominator(x as int, 2, unit as int);
        assert(q * unit == unit * q) by (nonlinear_arith);
        assert(q * unit <= x);
        assert(0 <= x % unit < unit);
    }
    let rem: u64 = x % unit;
    if 2 * rem < unit || (2 * rem == unit && q % 2 == 0) {
        q
    } else {
        q + 1
    }
}

/// A rounded quotient does not change when numerator and unit are scaled.
proof fn lemma_rounded_count_scaled(x: int, unit: int, c: int)
    requires
        x >= 0,
        unit > 0,
        c > 0,
    ensures
        rounded_count(x * c, unit * c) == rounded_count(x, unit),
{
    let q = x / unit;
    let r = x % unit;
    vstd::arithmetic::div_mod::lemma_fundamental_div_mod(x, unit);
    assert(x * c == (unit * c) * q + r * c) by (nonlinear_arith)
        requires
            x == unit * q + r,
    ;
    assert((unit * c) * q == q * (unit * c)) by (nonlinear_arith);
    assert(0 <= r * c < unit * c) by (nonlinear_arith)
        requires
            0 <= r < unit,
            c > 0,
    ;
    lemma_fundamental_div_mod_converse(x * c, unit * c, q, r * c);
    assert((2 * r < unit) == (2 * (r * c) < unit * c)) by (nonlinear_arith)
        requires
            c > 0,
    ;
    assert((2 * r == unit) == (2 * (r * c) == unit * c)) by (nonlinear_arith)
        requires
            c > 0,
    ;
}

/// A binary32 magnitude put together from its fields, where the fraction may
/// carry into the exponent.
proof fn lemma_units32_carry(e: int, q: int)
    requires
        1 <= e <= 254,
        0x80_0000 <= q <= 0x100_0000,
        (e - 1) * 0x80_0000 + q < INF32,
    ensures
        units32((e - 1) * 0x80_0000 + q) == q * pow2((e - 1) as nat),
{
    let m = (e - 1) * 0x80_0000 + q;
    lemma_pow2_step((e - 1) as nat);
    let p = pow2((e - 1) as nat);
    if q < 0x100_0000 {
        lemma_fundamental_div_mod_converse(m, 0x80_0000, e, q - 0x80_0000);
    } else {
        lemma_fundamental_div_mod_converse(m, 0x80_0000, e + 1, 0);
        assert(0x80_0000 * (2 * p) == 0x100_0000 * p) by (nonlinear_arith);
    }
    assert(q * p >= 0) by (nonlinear_arith)
        requires
            q >= 0,
            p > 0,
    ;
}

proof fn lemma_narrow_normal(m: int, e: int, f: int, q: int)
    requires
        0 <= m < INF64,
        e == m / 0x10_0000_0000_0000,
        f == m % 0x10_0000_0000_0000,
        897 <= e <= 1150,
        q == rounded_count(f + 0x10_0000_0000_0000, 0x2000_0000),
    ensures
        0x80_0000 <= q <= 0x100_0000,
        rounded_units(m) == q * pow2((e + 28) as nat),
        (e - 897) * 0x80_0000 + q <= INF32,
        (e - 897) * 0x80_0000 + q == INF32 ==> rounded_units(m) >= pow2(1202),
        (e - 897) * 0x80_0000 + q < INF32 ==> {
            &&& rounded_units(m) < pow2(1202)
            &&& units32((e - 897) * 0x80_0000 + q) * pow2(925) == rounded_units(m)
        },
{
    lemma2_to64();
    let p = pow2((e - 1) as nat);
    lemma_pow2_pos((e - 1) as nat);
    lemma_pow2_adds(29, (e - 1) as nat);
    let w = pow2((e + 28) as nat);
    lemma_pow2_pos((e + 28) as nat);
    lemma_rounded_count_scaled(f + 0x10_0000_0000_0000, 0x2000_0000, p as int);
    assert(0x2000_0000 * p == w);
    if e == 1150 && q == 0x100_0000 {
        lemma_pow2_adds(24, 1178);
        assert(q * w == 0x100_0000 * w);
    } else {
        lemma_units32_carry(e - 896, q);
        lemma_pow2_adds((e - 897) as nat, 925);
        let u = pow2((e - 897) as nat);
        let big = pow2(925);
        assert((q * u) * big == q * (u * big)) by (nonlinear_arith);
        if e < 1150 {
            lemma_pow2_adds(24, (e + 28) as nat);
            lemma_pow2_strictly_increases((e + 52) as nat, 1202);
            assert(q * w <= 0x100_0000 * w) by (nonlinear_arith)
                requires
                    q <= 0x100_0000,
                    w > 0,
            ;
        } else {
            lemma_pow2_adds(24, 1178);
            assert(q * w < 0x100_0000 * w) by (nonlinear_arith)
                requires
                    q < 0x100_0000,
                    w > 0,
            ;
        }
    }
}

proof fn lemma_narrow_subnormal(m: int, e: int, f: int, q: int)
    requires
        0 <= m < INF64,
        e == m / 0x10_0000_0000_0000,
        f == m % 0x10_0000_0000_0000,
        873 <= e <= 896,
        q == rounded_count(f + 0x10_0000_0000_0000, pow2((926 - e) as nat) as int),
    ensures
        0 <= q <= 0x80_0000,
        units32(q) * pow2(925) == rounded_units(m),
        rounded_units(m) < pow2(1202),
{
    lemma2_to64();
    lemma2_to64_rest();
    let p = pow2((e - 1) as nat);
    lemma_pow2_pos((e - 1) as nat);
    let unit = pow2((926 - e) as nat);
    lemma_pow2_monotone(30, (926 - e) as nat);
    lemma_pow2_adds((926 - e) as nat, (e - 1) as nat);
    lemma_rounded_count_scaled(f + 0x10_0000_0000_0000, unit as int, p as int);
    let x = f + 0x10_0000_0000_0000;
    vstd::arithmetic::div_mod::lemma_div_is_ordered_by_denominator(x, 0x4000_0000, unit as int);
    vstd::arithmetic::div_mod::lemma_div_pos_is_pos(x, unit as int);
    assert(x / 0x4000_0000 < 0x80_0000);
    if q < 0x80_0000 {
        lemma_fundamental_div_mod_converse(q, 0x80_0000, 0, q);
    } else {
        lemma_fundamental_div_mod_converse(q, 0x80_0000, 1, 0);
    }
    let big = pow2(925);
    lemma_pow2_pos(925);
    assert(q * big <= 0x80_0000 * big) by (nonlinear_arith)
        requires
            q <= 0x80_0000,
            big > 0,
    ;
    lemma_pow2_adds(23, 925);
    lemma_pow2_strictly_increases(948, 1202);
}

proof fn lemma_narrow_tiny(m: int)
    requires
        0 <= m < INF64,
        m / 0x10_0000_0000_0000 <= 872,
    ensures
        rounded_units(m) == 0,
        0 < pow2(1202),
{
    lemma2_to64();
    lemma2_to64_rest();
    lemma_pow2_pos(1202);
    let e = m / 0x10_0000_0000_0000;
    let f = m % 0x10_0000_0000_0000;
    let x = units64(m);
    let big = pow2(925);
    lemma_pow2_step(924);
    if e == 0 {
        lemma_pow2_strictly_increases(52, 924);
    } else {
        let p = pow2((e - 1) as nat);
        lemma_pow2_pos((e - 1) as nat);
        assert((f + 0x10_0000_0000_0000) * p < 0x20_0000_0000_0000 * p) by (nonlinear_arith)
            requires
                f < 0x10_0000_0000_0000,
                p > 0,
        ;
        lemma_pow2_adds(53, (e - 1) as nat);
        lemma_pow2_monotone((e + 52) as nat, 924);
    }
    assert(2 * x < big);
    lemma_fundamental_div_mod_converse(x as int, big as int, 0, x as int);
    assert(0 * big == 0);
}

/// Narrows a binary64 number to the nearest binary32 number, ties to even.
pub fn narrow(b: u64) -> (r: u32)
    ensures
        narrows(b, r),
{
    let sign: u32 = if b >= SIGN64 {
        SIGN32
    } else {
        0
    };
    let m: u64 = if b >= SIGN64 {
        b - SIGN64
    } else {
        b
    };
    if m > INF64 {
        return sign + 0x7fc0_0000;
    }
    if m == INF64 {
        return sign + INF32;
    }
    let e: u64 = m / 0x10_0000_0000_0000;
    let f: u64 = m % 0x10_0000_0000_0000;
    proof {
        lemma2_to64();
    }
    if e > 1150 {
        proof {
            lemma_narrow_overflow(m as int);
        }
        sign + INF32
    } else if e >= 897 {
        let q: u64 = shifted_round(f + 0x10_0000_0000_0000, 29);
        proof {
            lemma_narrow_normal(m as int, e as int, f as int, q as int);
        }
        sign + ((e - 897) * 0x80_0000 + q) as u32
    } else if e >= 873 {
        let q: u64 = shifted_round(f + 0x10_0000_0000_0000, 926 - e);
        proof {
            lemma_narrow_subnormal(m as int, e as int, f as int, q as int);
        }
        sign + q as u32
    } else {
        proof {
            lemma_narrow_tiny(m as int);
            assert(units32(0) == 0);
            assert(0 * pow2(925) == 0);
        }
        sign
    }
}

proof fn lemma_narrow_overflow(m: int)
    requires
        0 <= m < INF64,
        m / 0x10_0000_0000_0000 > 1150,
    ensures
        rounded_units(m) >= pow2(1202),
{
    lemma2_to64();
    let e = m / 0x10_0000_0000_0000;
    let f = m % 0x10_0000_0000_0000;
    let p = pow2((e - 1) as nat);
    lemma_pow2_pos((e - 1) as nat);
    lemma_pow2_adds(29, (e - 1) as nat);
    let w = pow2((e + 28) as nat);
    lemma_rounded_count_scaled(f + 0x10_0000_0000_0000, 0x2000_0000, p as int);
    let q = rounded_count(f + 0x10_0000_0000_0000, 0x2000_0000);
    assert(q >= 0x80_0000);
    lemma_pow2_adds(23, (e + 28) as nat);
    lemma_pow2_monotone(1202, (e + 51) as nat);
    lemma_pow2_pos((e + 28) as nat);
    assert(q * w >= 0x80_0000 * w) by (nonlinear_arith)
        requires
            q >= 0x80_0000,
            w > 0,
    ;
}

proof fn lemma_rounded_count_exact(c: int, unit: int)
    requires
        unit > 0,
    ensures
        rounded_count(c * unit, unit) == c,
{
    lemma_fundamental_div_mod_converse(c * unit, unit, c, 0);
}

/// A binary64 magnitude that is a binary32 magnitude lies on the binary32
/// grid.
proof fn lemma_widened_is_on_grid(m: int, n: int)
    requires
        0 <= m < INF32,
        0 <= n < INF64,
        units64(n) == units32(m) * pow2(925),
    ensures
        rounded_units(n) == units64(n),
        units64(n) < pow2(1202),
{
    lemma2_to64();
    lemma2_to64_rest();
    let big = pow2(925);
    lemma_pow2_pos(925);
    let e = m / 0x80_0000;
    let f = m % 0x80_0000;
    let d = n / 0x10_0000_0000_0000;
    let g = n % 0x10_0000_0000_0000;
    let x = units64(n) as int;
    if d > 0 {
        let p = pow2((d - 1) as nat);
        lemma_pow2_pos((d - 1) as nat);
        lemma_pow2_adds(52, (d - 1) as nat);
        lemma_pow2_adds(53, (d - 1) as nat);
        assert(0x10_0000_0000_0000 * p <= (g + 0x10_0000_0000_0000) * p < 0x20_0000_0000_0000 * p)
            by (nonlinear_arith)
            requires
                0 <= g < 0x10_0000_0000_0000,
                p > 0,
        ;
        assert(pow2((d + 51) as nat) <= x < pow2((d + 52) as nat));
    }
    if e == 0 {
        assert(f * big < 0x80_0000 * big) by (nonlinear_arith)
            requires
                f < 0x80_0000,
                big > 0,
        ;
        lemma_pow2_adds(23, 925);
        if d >= 897 {
            lemma_pow2_monotone(948, (d + 51) as nat);
        }
        lemma_rounded_count_exact(f, big as int);
        lemma_pow2_strictly_increases(948, 1202);
    } else {
        let p = pow2((e - 1) as nat);
        lemma_pow2_pos((e - 1) as nat);
        lemma_pow2_adds((e - 1) as nat, 925);
        let w = pow2((e + 924) as nat);
        lemma_pow2_pos((e + 924) as nat);
        assert(((f + 0x80_0000) * p) * big == (f + 0x80_0000) * (p * big)) by (nonlinear_arith);
        assert(x == (f + 0x80_0000) * w);
        assert(0x80_0000 * w <= (f + 0x80_0000) * w < 0x100_0000 * w) by (nonlinear_arith)
            requires
                0 <= f < 0x80_0000,
                w > 0,
        ;
        lemma_pow2_adds(23, (e + 924) as nat);
        lemma_pow2_adds(24, (e + 924) as nat);
        if d == 0 {
            lemma_pow2_monotone(52, (e + 947) as nat);
        } else if d > e + 896 {
            lemma_pow2_monotone((e + 948) as nat, (d + 51) as nat);
        } else if d < e + 896 {
            lemma_pow2_monotone((d + 52) as nat, (e + 947) as nat);
        }
        assert(d == e + 896);
        lemma_rounded_count_exact(f + 0x80_0000, w as int);
        lemma_pow2_monotone((e + 948) as nat, 1202);
    }
}

/// Narrowing undoes widening on everything but NaN.
pub proof fn law_narrow_undoes_widen(b: u32, w: u64, r: u32)
    requires
        !is_nan32(b),
        widens(b, w),
        narrows(w, r),
    ensures
        r == b,
{
    if is_finite32(b) {
        let m = magnitude32(b);
        let n = magnitude32(r);
        lemma_widened_is_on_grid(m, magnitude64(w));
        let big = pow2(925);
        lemma_pow2_pos(925);
        assert(units32(m) == units32(n)) by (nonlinear_arith)
            requires
                units32(m) * big == units32(n) * big,
                big > 0,
        ;
        if m < n {
            lemma_units32_increases(m, n);
        } else if n < m {
            lemma_units32_increases(n, m);
        }
    }
}

/// Two widenings of one number are the same pattern.
pub proof fn law_widening_is_unique(b: u32, w1: u64, w2: u64)
    requires
        widens(b, w1),
        widens(b, w2),
    ensures
        w1 == w2,
{
    if is_finite32(b) {
        let m = magnitude64(w1);
        let n = magnitude64(w2);
        if m < n {
            lemma_units64_increases(m, n);
        } else if n < m {
            lemma_units64_increases(n, m);
        }
    }
}

/// Two narrowings of one number are the same pattern.
pub proof fn law_narrowing_is_unique(b: u64, r1: u32, r2: u32)
    requires
        narrows(b, r1),
        narrows(b, r2),
    ensures
        r1 == r2,
{
    if is_finite64(b) && rounded_units(magnitude64(b)) < pow2(1202) {
        let m = magnitude32(r1);
        let n = magnitude32(r2);
        let big = pow2(925);
        lemma_pow2_pos(925);
        assert(units32(m) == units32(n)) by (nonlinear_arith)
            requires
                units32(m) * big == units32(n) * big,
                big > 0,
        ;
        if m < n {
            lemma_units32_increases(m, n);
        } else if n < m {
            lemma_units32_increases(n, m);
        }
    }
}

proof fn lemma_rounded_count_bound(x: int, unit: int, n: int)
    requires
        unit > 0,
        0 <= x <= n * unit,
    ensures
        rounded_count(x, unit) <= n,
{
    let q = x / unit;
    let r = x % unit;
    vstd::arithmetic::div_mod::lemma_fundamental_div_mod(x, unit);
    assert(q <= n && (q == n ==> r == 0)) by (nonlinear_arith)
        requires
            x == unit * q + r,
            0 <= r < unit,
            x <= n * unit,
            unit > 0,
    ;
}

/// A number between zero and one stays there when it is narrowed. (A NaN is
/// neither below nor above.)
pub proof fn law_narrowing_keeps_the_unit_range(b: u64, r: u32)
    requires
        narrows(b, r),
        !less64(b, 0),
        !less64(ONE64, b),
    ensures
        !less32(r, 0),
        !less32(ONE32, r),
{
    let m = magnitude64(b);
    let n = magnitude32(r);
    if !is_nan64(b) {
        lemma2_to64();
        lemma2_to64_rest();
        let one = 0x3ff0_0000_0000_0000int;
        lemma_units64_normal(1023, 0);
        lemma_pow2_adds(52, 1022);
        lemma_pow2_adds(23, 126);
        lemma_pow2_adds(149, 925);
        assert(units64(one) == pow2(1074));
        assert(m <= one);
        if m < one {
            lemma_units64_increases(m, one);
        }
        let e = m / 0x10_0000_0000_0000;
        let k: nat = if e >= 897 {
            (e + 28) as nat
        } else {
            925
        };
        assert(spacing32(m) == pow2(k));
        lemma_pow2_adds((1074 - k) as nat, k);
        lemma_pow2_pos(k);
        let c = pow2((1074 - k) as nat) as int;
        let s = spacing32(m) as int;
        lemma_rounded_count_bound(units64(m) as int, s, c);
        assert(rounded_units(m) <= c * s) by (nonlinear_arith)
            requires
                rounded_units(m) == rounded_count(units64(m) as int, s) * s,
                rounded_count(units64(m) as int, s) <= c,
                s > 0,
        ;
        lemma_pow2_monotone(1074, 1202);
        lemma_pow2_strictly_increases(1074, 1202);
        lemma_pow2_pos(925);
        assert(units32(n) <= pow2(149)) by (nonlinear_arith)
            requires
                units32(n) * pow2(925) <= pow2(149) * pow2(925),
                pow2(925) > 0,
        ;
        lemma_fundamental_div_mod_converse(0x3f80_0000, 0x80_0000, 127, 0);
        assert(units32(0x3f80_0000) == pow2(149));
        if n > 0x3f80_0000 {
            lemma_units32_increases(0x3f80_0000, n);
        }
        if b >= SIGN64 {
            assert(m == 0);
            assert(units64(0) == 0);
            lemma_rounded_count_bound(0, s, 0);
            assert(rounded_units(m) <= 0) by (nonlinear_arith)
                requires
                    rounded_units(m) == rounded_count(0, s) * s,
                    rounded_count(0, s) <= 0,
                    s > 0,
            ;
            assert(units32(n) == 0) by (nonlinear_arith)
                requires
                    units32(n) * pow2(925) <= 0,
                    pow2(925) > 0,
            ;
            assert(units32(0) == 0);
            if n > 0 {
                lemma_units32_increases(0, n);
            }
        }
    }
}

} // verus!
