//! Smoothed weights lie between the inputs, up to rounding.

use vstd::prelude::*;

use crate::arkit::{law_share_is_bounded, mean_is, means_are, Smoothing, ARKIT_52};
use crate::float_bits::{clamped32, is_finite32, is_nan32, ONE32};
use crate::float_ops::{added32, multiplied32, subtracted32, FloatOps};
use crate::float_rounding::{distance, half_step, is_nearest32, law_constants_denote,
    law_numbers_are_ordered, law_products_are_near, law_quadruples_are_in_range,
    law_rounding_keeps_bounds, law_small_rounding_error, law_sums_are_near, number32,
    rounds_to_nearest};
use crate::smoothing_laws::{is_plain, smooths_all};

verus! {

/// By how much one frame of smoothing may be off, for weights of at most one:
/// `2^-20`.
pub open spec fn smoothing_error() -> real {
    8 as real * half_step()
}

#[verifier::opaque]
spec fn times(x: real, y: real) -> real {
    x * y
}

#[verifier::opaque]
spec fn rounds<F: FloatOps>() -> bool {
    rounds_to_nearest::<F>()
}

proof fn lemma_share_of(s: real, u: real, n: real)
    requires
        0 as real <= s <= 1 as real,
        -n <= u <= n,
    ensures
        -n <= s * u <= n,
{
    let d = n - u;
    let f = n + u;
    let rest = 1 as real - s;
    assert(s * d >= 0 as real) by (nonlinear_arith)
        requires
            s >= 0 as real,
            d >= 0 as real,
    ;
    assert(s * f >= 0 as real) by (nonlinear_arith)
        requires
            s >= 0 as real,
            f >= 0 as real,
    ;
    assert(rest * n >= 0 as real) by (nonlinear_arith)
        requires
            rest >= 0 as real,
            n >= 0 as real,
    ;
    assert(s * (n - u) == s * n - s * u) by (nonlinear_arith);
    assert(s * (n + u) == s * n + s * u) by (nonlinear_arith);
    assert((1 as real - s) * n == n - s * n) by (nonlinear_arith);
}

proof fn lemma_mean_lies_between(s: real, u: real, v: real, lo: real, hi: real)
    requires
        0 as real <= s <= 1 as real,
        lo <= u <= hi,
        lo <= v <= hi,
    ensures
        lo <= times(s, u) + times(1 as real - s, v) <= hi,
{
    reveal(times);
    let rest = 1 as real - s;
    let a = u - lo;
    let b = v - lo;
    let c = hi - u;
    let d = hi - v;
    assert(s * a >= 0 as real) by (nonlinear_arith)
        requires
            s >= 0 as real,
            a >= 0 as real,
    ;
    assert(rest * b >= 0 as real) by (nonlinear_arith)
        requires
            rest >= 0 as real,
            b >= 0 as real,
    ;
    assert(s * c >= 0 as real) by (nonlinear_arith)
        requires
            s >= 0 as real,
            c >= 0 as real,
    ;
    assert(rest * d >= 0 as real) by (nonlinear_arith)
        requires
            rest >= 0 as real,
            d >= 0 as real,
    ;
    assert(s * (u - lo) + (1 as real - s) * (v - lo) == s * u + (1 as real - s) * v - lo)
        by (nonlinear_arith);
    assert(s * (hi - u) + (1 as real - s) * (hi - v) == hi - (s * u + (1 as real - s) * v))
        by (nonlinear_arith);
}

proof fn lemma_small_share_of(g: real, v: real, e: real, n: real)
    requires
        -e <= g <= e,
        -n <= v <= n,
        e > 0 as real,
        n > 0 as real,
    ensures
        -(e * n) <= g * v <= e * n,
{
    let a = e - g;
    let b = e + g;
    let c = n - v;
    let d = n + v;
    assert(a * d >= 0 as real) by (nonlinear_arith)
        requires
            a >= 0 as real,
            d >= 0 as real,
    ;
    assert(b * c >= 0 as real) by (nonlinear_arith)
        requires
            b >= 0 as real,
            c >= 0 as real,
    ;
    assert(a * c >= 0 as real) by (nonlinear_arith)
        requires
            a >= 0 as real,
            c >= 0 as real,
    ;
    assert(b * d >= 0 as real) by (nonlinear_arith)
        requires
            b >= 0 as real,
            d >= 0 as real,
    ;
    assert((e - g) * (n + v) + (e + g) * (n - v) == 2 as real * (e * n) - 2 as real * (g * v))
        by (nonlinear_arith);
    assert((e - g) * (n - v) + (e + g) * (n + v) == 2 as real * (e * n) + 2 as real * (g * v))
        by (nonlinear_arith);
}

proof fn lemma_rests_differ(w: real, rest: real, v: real, n: real)
    requires
        distance(w, rest) <= half_step(),
        -n <= v <= n,
        n > 0 as real,
    ensures
        distance(times(w, v), times(rest, v)) <= times(half_step(), n),
{
    reveal(times);
    let e = half_step();
    let g = w - rest;
    lemma_small_share_of(g, v, e, n);
    assert((w - rest) * v == w * v - rest * v) by (nonlinear_arith);
}

proof fn lemma_errors(n: real)
    requires
        n > 0 as real,
    ensures
        times(half_step(), n) > 0 as real,
        2 as real * half_step() * n == 2 as real * times(half_step(), n),
        smoothing_error() * n == 8 as real * times(half_step(), n),
        16 as real * times(half_step(), n) <= n,
{
    reveal(times);
    let e = half_step();
    assert(e * n > 0 as real) by (nonlinear_arith)
        requires
            e > 0 as real,
            n > 0 as real,
    ;
    assert(2 as real * e * n == 2 as real * (e * n)) by (nonlinear_arith);
    assert((8 as real * e) * n == 8 as real * (e * n)) by (nonlinear_arith);
    let f = 16 as real * e;
    assert((16 as real * e) * n == 16 as real * (e * n)) by (nonlinear_arith);
    assert(f * n <= n) by (nonlinear_arith)
        requires
            f <= 1 as real,
            n > 0 as real,
    ;
}

proof fn lemma_positive(h: u32)
    requires
        0x80_0000 <= h <= 0x7dff_ffff,
    ensures
        number32(h) > 0 as real,
{
    law_constants_denote();
    law_numbers_are_ordered(0, h);
}

proof fn lemma_rest_is_near<F: FloatOps>(a: u32, b: u32)
    requires
        rounds::<F>(),
        is_finite32(a),
        0 as real <= number32(a) <= 1 as real,
        subtracted32::<F>(ONE32, a, b),
    ensures
        is_finite32(b),
        0 as real <= number32(b) <= 1 as real,
        distance(number32(b), 1 as real - number32(a)) <= half_step(),
{
    reveal(rounds);
    law_constants_denote();
    law_quadruples_are_in_range(0);
    let x = 1 as real - number32(a);
    assert(is_nearest32(number32(ONE32) - number32(a), b));
    law_rounding_keeps_bounds(x, 0, b);
    law_rounding_keeps_bounds(x, ONE32, b);
    law_small_rounding_error(x, b);
}

/// A share of a weight, of at most twice `h`.
proof fn lemma_share_is_near<F: FloatOps>(a: u32, x: u32, h: u32, p: u32)
    requires
        rounds::<F>(),
        is_finite32(a),
        is_finite32(x),
        0 as real <= number32(a) <= 1 as real,
        0x80_0000 <= h <= 0x7dff_ffff,
        distance(number32(x), 0 as real) <= 2 as real * number32(h),
        multiplied32::<F>(a, x, p),
    ensures
        is_finite32(p),
        distance(times(number32(a), number32(x)), 0 as real) <= distance(
            number32(x),
            0 as real,
        ),
        distance(number32(p), times(number32(a), number32(x))) <= 2 as real * times(
            half_step(),
            number32(h),
        ),
{
    reveal(rounds);
    lemma_positive(h);
    lemma_errors(number32(h));
    lemma_share_of(number32(a), number32(x), distance(number32(x), 0 as real));
    law_products_are_near::<F>(a, x, h, p);
    reveal(times);
}

proof fn lemma_total_is_near<F: FloatOps>(p: u32, q: u32, h: u32, r: u32)
    requires
        rounds::<F>(),
        is_finite32(p),
        is_finite32(q),
        0x80_0000 <= h <= 0x7dff_ffff,
        distance(number32(p) + number32(q), 0 as real) <= 4 as real * number32(h),
        added32::<F>(p, q, r),
    ensures
        is_finite32(r),
        distance(number32(r), number32(p) + number32(q)) <= 2 as real * times(
            half_step(),
            number32(h),
        ),
{
    reveal(rounds);
    lemma_positive(h);
    lemma_errors(number32(h));
    law_sums_are_near::<F>(p, q, h, r);
}

proof fn lemma_mean_is_near<F: FloatOps>(
    a: u32,
    x: u32,
    b: u32,
    y: u32,
    h: u32,
    lo: real,
    hi: real,
    r: u32,
)
    requires
        rounds::<F>(),
        is_finite32(a),
        is_finite32(x),
        is_finite32(y),
        0 as real <= number32(a) <= 1 as real,
        0x80_0000 <= h <= 0x7dff_ffff,
        subtracted32::<F>(ONE32, a, b),
        mean_is::<F>(a, x, b, y, r),
        lo <= number32(x) <= hi,
        lo <= number32(y) <= hi,
        distance(number32(x), 0 as real) <= 2 as real * number32(h),
        distance(number32(y), 0 as real) <= number32(h),
    ensures
        is_finite32(r),
        lo - 8 as real * times(half_step(), number32(h)) <= number32(r) <= hi + 8 as real * times(
            half_step(),
            number32(h),
        ),
{
    let (p, q) = choose|p: u32, q: u32|
        multiplied32::<F>(a, x, p) && multiplied32::<F>(b, y, q) && #[trigger] added32::<F>(
            p,
            q,
            r,
        );
    lemma_positive(h);
    lemma_errors(number32(h));
    lemma_rest_is_near::<F>(a, b);
    lemma_share_is_near::<F>(a, x, h, p);
    lemma_share_is_near::<F>(b, y, h, q);
    lemma_total_is_near::<F>(p, q, h, r);
    lemma_mean_lies_between(number32(a), number32(x), number32(y), lo, hi);
    lemma_rests_differ(
        number32(b),
        1 as real - number32(a),
        number32(y),
        number32(h),
    );
}

/// By how much `frames` frames of smoothing may be off, for weights of at most
/// `h`.
pub open spec fn slack(frames: nat, h: u32) -> real {
    frames as real * (smoothing_error() * number32(h))
}

#[verifier::opaque]
spec fn hidden_slack(frames: nat, h: u32) -> real {
    slack(frames, h)
}

/// Up to `2^20` frames the error is not more than the weights.
proof fn lemma_slack_grows(frames: nat, h: u32)
    requires
        frames <= 0x10_0000,
        0x80_0000 <= h <= 0x7dff_ffff,
    ensures
        0 as real <= hidden_slack(frames, h) <= number32(h),
        hidden_slack(frames + 1, h) == hidden_slack(frames, h) + 8 as real * times(
            half_step(),
            number32(h),
        ),
{
    reveal(hidden_slack);
    lemma_positive(h);
    let n = number32(h);
    lemma_errors(n);
    let t = smoothing_error();
    let d = frames as real;
    let step = t * n;
    assert((d + 1 as real) * step == d * step + step) by (nonlinear_arith);
    assert((frames + 1) as real == d + 1 as real);
    let f = d * t;
    assert(0 as real <= f <= 1 as real) by (nonlinear_arith)
        requires
            f == d * t,
            0 as real <= d <= 0x10_0000 as real,
            t == 8 as real / 0x80_0000 as real,
    ;
    assert(d * (t * n) == (d * t) * n) by (nonlinear_arith);
    assert(0 as real <= f * n <= n) by (nonlinear_arith)
        requires
            0 as real <= f <= 1 as real,
            n > 0 as real,
    ;
}

/// Whether `w` lies between `lo` and `hi`, but for the slack of `frames`
/// frames.
spec fn is_about_between(w: u32, lo: real, hi: real, frames: nat, h: u32) -> bool {
    is_finite32(w) && lo - hidden_slack(frames, h) <= number32(w) <= hi + hidden_slack(frames, h)
}

proof fn lemma_frame_stays_between<F: FloatOps>(
    s: Smoothing,
    input: Seq<u32>,
    out: Seq<u32>,
    i: int,
    h: u32,
    lo: real,
    hi: real,
    done: nat,
)
    requires
        rounds::<F>(),
        is_finite32(s.alpha),
        0 as real <= number32(s.alpha) <= 1 as real,
        0x80_0000 <= h <= 0x7dff_ffff,
        -number32(h) <= lo,
        hi <= number32(h),
        0 <= i < ARKIT_52,
        is_plain(input),
        lo <= number32(input[i]) <= hi,
        done < 0x10_0000,
        s.has_prev ==> is_about_between(s.prev[i], lo, hi, done, h),
        s.smooths::<F>(input, out),
    ensures
        is_about_between(out[i], lo, hi, done + 1, h),
{
    lemma_slack_grows(done, h);
    lemma_slack_grows(done + 1, h);
    if s.has_prev {
        let rest = choose|rest: u32| #[trigger]
            subtracted32::<F>(ONE32, s.alpha, rest) && means_are::<F>(
                s.alpha,
                s.prev,
                rest,
                input,
                out,
            );
        assert(mean_is::<F>(s.alpha, s.prev[i], rest, input[i], out[i]));
        lemma_mean_is_near::<F>(
            s.alpha,
            s.prev[i],
            rest,
            input[i],
            h,
            lo - hidden_slack(done, h),
            hi + hidden_slack(done, h),
            out[i],
        );
    }
}

proof fn lemma_outputs_stay_between<F: FloatOps>(
    s: Smoothing,
    inputs: Seq<Seq<u32>>,
    outs: Seq<Seq<u32>>,
    i: int,
    h: u32,
    lo: real,
    hi: real,
    done: nat,
)
    requires
        rounds::<F>(),
        is_finite32(s.alpha),
        0 as real <= number32(s.alpha) <= 1 as real,
        0x80_0000 <= h <= 0x7dff_ffff,
        -number32(h) <= lo,
        hi <= number32(h),
        0 <= i < ARKIT_52,
        forall|k: int|
            0 <= k < inputs.len() ==> is_plain(#[trigger] inputs[k]) && lo <= number32(inputs[k][i])
                <= hi,
        done + inputs.len() <= 0x10_0000,
        s.has_prev ==> is_about_between(s.prev[i], lo, hi, done, h),
        smooths_all::<F>(s, inputs, outs),
    ensures
        forall|k: int|
            0 <= k < inputs.len() ==> is_about_between(
                (#[trigger] outs[k])[i],
                lo,
                hi,
                (done + k + 1) as nat,
                h,
            ),
    decreases inputs.len(),
{
    if inputs.len() > 0 {
        assert(is_plain(inputs[0]));
        lemma_frame_stays_between::<F>(s, inputs[0], outs[0], i, h, lo, hi, done);
        let next = inputs.skip(1);
        assert forall|k: int| 0 <= k < next.len() implies is_plain(#[trigger] next[k]) && lo
            <= number32(next[k][i]) <= hi by {
            assert(next[k] == inputs[k + 1]);
        }
        lemma_outputs_stay_between::<F>(
            s.after(outs[0]),
            next,
            outs.skip(1),
            i,
            h,
            lo,
            hi,
            done + 1,
        );
        assert forall|k: int| 0 <= k < inputs.len() implies is_about_between(
            (#[trigger] outs[k])[i],
            lo,
            hi,
            (done + k + 1) as nat,
            h,
        ) by {
            if k > 0 {
                assert(outs.skip(1)[k - 1] == outs[k]);
            }
        }
    }
}

/// Up to rounding, every output lies between the least and the greatest of the
/// inputs: the output of frame `k`, counted from one, is beyond them by no more
/// than `k` times `2^-20` of `h`, a number that no input exceeds in magnitude.
pub proof fn law_outputs_stay_between_the_inputs<F: FloatOps>(
    alpha: u32,
    inputs: Seq<Seq<u32>>,
    outs: Seq<Seq<u32>>,
    i: int,
    h: u32,
    lo: real,
    hi: real,
)
    requires
        rounds_to_nearest::<F>(),
        !is_nan32(alpha),
        0x80_0000 <= h <= 0x7dff_ffff,
        -number32(h) <= lo,
        hi <= number32(h),
        0 <= i < ARKIT_52,
        forall|k: int|
            0 <= k < inputs.len() ==> is_plain(#[trigger] inputs[k]) && lo <= number32(inputs[k][i])
                <= hi,
        inputs.len() <= 0x10_0000,
        smooths_all::<F>(Smoothing::fresh(clamped32(alpha, 0, ONE32)), inputs, outs),
    ensures
        forall|k: int|
            0 <= k < inputs.len() ==> is_finite32((#[trigger] outs[k])[i]) && lo - slack(
                (k + 1) as nat,
                h,
            ) <= number32(outs[k][i]) <= hi + slack((k + 1) as nat, h),
{
    let share = clamped32(alpha, 0, ONE32);
    law_constants_denote();
    law_share_is_bounded(alpha);
    law_numbers_are_ordered(0, share);
    law_numbers_are_ordered(share, ONE32);
    assert(rounds::<F>()) by {
        reveal(rounds);
    }
    lemma_outputs_stay_between::<F>(Smoothing::fresh(share), inputs, outs, i, h, lo, hi, 0);
    assert forall|k: int| 0 <= k < inputs.len() implies is_finite32((#[trigger] outs[k])[i]) && lo
        - slack((k + 1) as nat, h) <= number32(outs[k][i]) <= hi + slack((k + 1) as nat, h) by {
        assert(is_about_between(outs[k][i], lo, hi, (0 + k + 1) as nat, h));
        reveal(hidden_slack);
    }
}

/// With arithmetic that rounds to nearest, a smoothed weight lies within
/// `2^-20` of `h` of the share times the weight before plus the rest of one
/// times the new weight, both of which `h` bounds.
pub proof fn law_means_are_near<F: FloatOps>(a: u32, x: u32, b: u32, y: u32, h: u32, r: u32)
    requires
        rounds_to_nearest::<F>(),
        is_finite32(a),
        is_finite32(x),
        is_finite32(y),
        0 as real <= number32(a) <= 1 as real,
        0x80_0000 <= h <= 0x7dff_ffff,
        subtracted32::<F>(ONE32, a, b),
        mean_is::<F>(a, x, b, y, r),
        distance(number32(x), 0 as real) <= number32(h),
        distance(number32(y), 0 as real) <= number32(h),
    ensures
        is_finite32(r),
        1048576 as real * distance(
            number32(r),
            number32(a) * number32(x) + (1 as real - number32(a)) * number32(y),
        ) <= number32(h),
{
    let (p, q) = choose|p: u32, q: u32|
        multiplied32::<F>(a, x, p) && multiplied32::<F>(b, y, q) && #[trigger] added32::<F>(
            p,
            q,
            r,
        );
    assert(rounds::<F>()) by {
        reveal(rounds);
    }
    lemma_mean_is_close::<F>(a, x, b, y, h, p, q, r);
    reveal(times);
    let e = half_step();
    let n = number32(h);
    assert(1048576 as real * (8 as real * (e * n)) == n) by (nonlinear_arith)
        requires
            e == 1 as real / 8388608 as real,
    ;
}

proof fn lemma_mean_is_close<F: FloatOps>(
    a: u32,
    x: u32,
    b: u32,
    y: u32,
    h: u32,
    p: u32,
    q: u32,
    r: u32,
)
    requires
        rounds::<F>(),
        is_finite32(a),
        is_finite32(x),
        is_finite32(y),
        0 as real <= number32(a) <= 1 as real,
        0x80_0000 <= h <= 0x7dff_ffff,
        subtracted32::<F>(ONE32, a, b),
        multiplied32::<F>(a, x, p),
        multiplied32::<F>(b, y, q),
        added32::<F>(p, q, r),
        distance(number32(x), 0 as real) <= number32(h),
        distance(number32(y), 0 as real) <= number32(h),
    ensures
        is_finite32(r),
        distance(
            number32(r),
            times(number32(a), number32(x)) + times(1 as real - number32(a), number32(y)),
        ) <= 8 as real * times(half_step(), number32(h)),
{
    lemma_positive(h);
    lemma_errors(number32(h));
    lemma_rest_is_near::<F>(a, b);
    lemma_share_is_near::<F>(a, x, h, p);
    lemma_share_is_near::<F>(b, y, h, q);
    lemma_total_is_near::<F>(p, q, h, r);
    lemma_rests_differ(number32(b), 1 as real - number32(a), number32(y), number32(h));
}

} // verus!
