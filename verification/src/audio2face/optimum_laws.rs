//! What a solve comes to, with arithmetic that does not round: weights between
//! zero and one at which the slope of the objective vanishes or points out of
//! the box.

use vstd::arithmetic::power2::{lemma2_to64, lemma2_to64_rest, lemma_pow2_adds, lemma_pow2_pos, pow2};
use vstd::prelude::*;

use crate::audio2face::active_set::{all_fixed, fraction_is, free_list, gradient_entry_is,
    gradient_is, is_blocking, is_entering, is_moved, is_optimal, is_outside, lemma_free_list,
    minimises, moved_is, residual_is, rhs_is, round_is, round_through, row, settles, sub_matrix, violation,
    zeros, Round, TOLERANCE};
use crate::audio2face::bvls_solver::BvlsSystem;
use crate::audio2face::cholesky::{breaks_down, is_square, solution_is};
use crate::audio2face::cholesky_laws::{all_finite, image, is_finite_matrix, is_symmetric,
    law_breakdown_shows_a_flat_direction, law_cholesky_solves_the_system,
    law_dot_products_are_sums};
use crate::audio2face::solver_laws::{ends_after, law_minima_meet_the_stop_test,
    lemma_minimising_step, reaches, steps_once};
use crate::float_bits::{is_finite32, is_finite64, less64, narrows, negated64, units64, widens, ONE32,
    ONE64};
use crate::float_exact::{law_bounds_denote, law_narrowing_is_close, law_negation64_denotes_the_opposite,
    law_numbers64_are_ordered, law_widening_keeps_the_number, never_rounds, number64};
use crate::float_ops::{added64, divided64, dot_is, multiplied64, subtracted64, FloatOps};
use crate::float_rounding::{distance, law_constants_denote, law_exact_results_stay,
    law_rounding_keeps_bounds, number32};
use crate::narrowing_laws::law_narrowing_is_nearest;
use crate::real_sums::{lemma_total_adds, lemma_total_congruent, lemma_total_distance,
    lemma_total_of_one, lemma_total_of_zeros, lemma_total_scales, total};

verus! {

/// Row `i` of the row-major matrix `a` with rows of `k` entries, times `x`.
pub open spec fn row_times(a: Seq<u64>, k: int, x: Seq<u64>, i: int) -> real {
    total(|j: int| number64(a[i * k + j]) * number64(x[j]), 0, k)
}

/// Row `i` of such a matrix, times the real numbers `y`.
pub open spec fn row_along(a: Seq<u64>, k: int, y: Seq<real>, i: int) -> real {
    total(|j: int| number64(a[i * k + j]) * y[j], 0, k)
}

/// Whether a row-major `k` by `k` matrix holds finite numbers and equals its
/// transpose.
pub open spec fn is_symmetric_flat(a: Seq<u64>, k: int) -> bool {
    &&& a.len() == k * k
    &&& all_finite(a)
    &&& forall|i: int, j: int|
        0 <= i < k && 0 <= j < k ==> #[trigger] number64(a[i * k + j]) == number64(a[j * k + i])
}

/// Whether a row-major `k` by `k` matrix is positive definite: the product of
/// a direction with its image is positive, unless the direction is zero.
pub open spec fn is_positive_definite(a: Seq<u64>, k: int) -> bool {
    forall|y: Seq<real>, p: int|
        #![trigger row_along(a, k, y, p)]
        y.len() == k && 0 <= p < k && y[p] != 0 as real ==> total(
            |i: int| y[i] * row_along(a, k, y, i),
            0,
            k,
        ) > 0 as real
}

/// Where an entry of a row stands in the row-major matrix.
pub proof fn lemma_row_entry(m: Seq<u64>, w: int, h: int, i: int, j: int)
    requires
        0 <= i < h,
        0 <= j < w,
        m.len() == h * w,
    ensures
        0 <= i * w + j < m.len(),
        row(m, w, i)[j] == m[i * w + j],
        row(m, w, i).len() == w,
{
    assert(0 <= i * w && (i + 1) * w == i * w + w && (i + 1) * w <= h * w) by (nonlinear_arith)
        requires
            0 <= i < h,
            0 <= w,
    ;
}

/// The sum over the listed free variables is the sum over all of them that
/// leaves the fixed ones out.
proof fn lemma_total_over_free(free: Seq<bool>, f: spec_fn(int) -> real, n: int)
    requires
        0 <= n <= free.len(),
    ensures
        total(|r: int| f(free_list(free, n)[r]), 0, free_list(free, n).len() as int) == total(
            |t: int|
                if free[t] {
                    f(t)
                } else {
                    0 as real
                },
            0,
            n,
        ),
    decreases n,
{
    if n > 0 {
        lemma_total_over_free(free, f, n - 1);
        let before = free_list(free, n - 1);
        let now = free_list(free, n);
        let g = |r: int| f(before[r]);
        let h = |r: int| f(now[r]);
        if free[n - 1] {
            assert forall|r: int| 0 <= r < before.len() implies #[trigger] h(r) == g(r) by {}
            lemma_total_congruent(h, g, 0, before.len() as int);
            assert(total(h, 0, now.len() as int) == total(h, 0, before.len() as int) + h(
                before.len() as int,
            ));
        }
    }
}

proof fn lemma_free_list_is_distinct(free: Seq<bool>, k: int, r: int, q: int)
    requires
        k == free.len(),
        0 <= r < free_list(free, k).len(),
        0 <= q < free_list(free, k).len(),
        free_list(free, k)[r] == free_list(free, k)[q],
    ensures
        r == q,
{
    lemma_free_list(free, k);
    if r < q {
        assert(free_list(free, k)[r] < free_list(free, k)[q]);
    } else if q < r {
        assert(free_list(free, k)[q] < free_list(free, k)[r]);
    }
}

/// The coupling of the free variables is symmetric, finite and square where
/// the whole matrix is.
proof fn lemma_sub_matrix(a: Seq<u64>, k: int, free: Seq<bool>)
    requires
        k == free.len(),
        is_symmetric_flat(a, k),
    ensures
        ({
            let idx = free_list(free, k);
            let sub = sub_matrix(a, k, idx);
            &&& sub.len() == idx.len()
            &&& is_square(sub, sub.len() as int)
            &&& is_symmetric(sub, sub.len() as int)
            &&& is_finite_matrix(sub, sub.len() as int)
            &&& forall|r: int, q: int|
                0 <= r < idx.len() && 0 <= q < idx.len() ==> #[trigger] sub[r][q] == a[idx[r] * k
                    + idx[q]]
        }),
{
    lemma_free_list(free, k);
    let idx = free_list(free, k);
    let sub = sub_matrix(a, k, idx);
    assert forall|r: int, q: int| 0 <= r < idx.len() && 0 <= q < idx.len() implies {
        &&& #[trigger] sub[r][q] == a[idx[r] * k + idx[q]]
        &&& is_finite64(sub[r][q])
        &&& number64(sub[r][q]) == number64(sub[q][r])
    } by {
        lemma_row_entry(a, k, k, idx[r], idx[q]);
        lemma_row_entry(a, k, k, idx[q], idx[r]);
        assert(is_finite64(a[idx[r] * k + idx[q]]));
        assert(number64(a[idx[r] * k + idx[q]]) == number64(a[idx[q] * k + idx[r]]));
    }
}

/// The place of a free variable in the list.
spec fn place(idx: Seq<int>, t: int) -> int {
    choose|r: int| 0 <= r < idx.len() && idx[r] == t
}

/// With exact arithmetic the system of any free variables of a positive definite
/// matrix can be factored.
pub proof fn law_positive_definite_systems_factor<F: FloatOps>(a: Seq<u64>, k: int, free: Seq<bool>)
    requires
        never_rounds::<F>(),
        k == free.len(),
        is_symmetric_flat(a, k),
        is_positive_definite(a, k),
    ensures
        !breaks_down::<F>(sub_matrix(a, k, free_list(free, k))),
{
    let idx = free_list(free, k);
    let sub = sub_matrix(a, k, idx);
    if breaks_down::<F>(sub) {
        lemma_free_list(free, k);
        lemma_sub_matrix(a, k, free);
        let (y, p) = law_breakdown_shows_a_flat_direction::<F>(sub);
        let z = Seq::new(
            k as nat,
            |t: int|
                if free[t] {
                    y[place(idx, t)]
                } else {
                    0 as real
                },
        );
        assert forall|r: int| 0 <= r < idx.len() implies z[#[trigger] idx[r]] == y[r] by {
            let t = idx[r];
            assert(0 <= place(idx, t) < idx.len() && idx[place(idx, t)] == t);
            lemma_free_list_is_distinct(free, k, r, place(idx, t));
        }
        assert forall|r: int| 0 <= r < idx.len() implies #[trigger] row_along(a, k, z, idx[r])
            == image(sub, y, r) by {
            let f = |t: int| number64(a[idx[r] * k + t]) * z[t];
            let only = |t: int|
                if free[t] {
                    f(t)
                } else {
                    0 as real
                };
            assert forall|t: int| 0 <= t < k implies #[trigger] f(t) == only(t) by {
                if !free[t] {
                    let u = number64(a[idx[r] * k + t]);
                    assert(u * 0 as real == 0 as real) by (nonlinear_arith);
                }
            }
            lemma_total_congruent(f, only, 0, k);
            lemma_total_over_free(free, f, k);
            let listed = |q: int| f(idx[q]);
            let coupled = |q: int| number64(sub[r][q]) * y[q];
            assert forall|q: int| 0 <= q < idx.len() implies #[trigger] listed(q) == coupled(
                q,
            ) by {
                assert(sub[r][q] == a[idx[r] * k + idx[q]]);
                assert(z[idx[q]] == y[q]);
            }
            lemma_total_congruent(listed, coupled, 0, idx.len() as int);
        }
        let f = |i: int| z[i] * row_along(a, k, z, i);
        let only = |t: int|
            if free[t] {
                f(t)
            } else {
                0 as real
            };
        assert forall|t: int| 0 <= t < k implies #[trigger] f(t) == only(t) by {
            if !free[t] {
                let u = row_along(a, k, z, t);
                assert(0 as real * u == 0 as real) by (nonlinear_arith);
            }
        }
        lemma_total_congruent(f, only, 0, k);
        lemma_total_over_free(free, f, k);
        let listed = |q: int| f(idx[q]);
        let coupled = |s: int| y[s] * image(sub, y, s);
        assert forall|q: int| 0 <= q < idx.len() implies #[trigger] listed(q) == coupled(q) by {
            assert(z[idx[q]] == y[q]);
            assert(row_along(a, k, z, idx[q]) == image(sub, y, q));
        }
        lemma_total_congruent(listed, coupled, 0, idx.len() as int);
        assert(z[idx[p]] == 1 as real);
        assert(row_along(a, k, z, idx[p]) == image(sub, y, p));
        assert(total(f, 0, k) > 0 as real);
    }
}

/// The right-hand side of the free system, as a number.
proof fn lemma_residual<F: FloatOps>(
    arow: Seq<u64>,
    x: Seq<u64>,
    free: Seq<bool>,
    init: u64,
    n: int,
    r: u64,
)
    requires
        never_rounds::<F>(),
        0 <= n,
        forall|t: int| 0 <= t < n ==> is_finite64(#[trigger] arow[t]),
        forall|t: int| 0 <= t < n ==> is_finite64(#[trigger] x[t]),
        is_finite64(init),
        residual_is::<F>(arow, x, free, init, n, r),
    ensures
        is_finite64(r),
        number64(r) == number64(init) - total(
            |t: int|
                if free[t] {
                    0 as real
                } else {
                    number64(arow[t]) * number64(x[t])
                },
            0,
            n,
        ),
    decreases n,
{
    if n > 0 {
        if free[n - 1] {
            lemma_residual::<F>(arow, x, free, init, n - 1, r);
        } else {
            let (s, p) = choose|s: u64, p: u64|
                {
                    &&& residual_is::<F>(arow, x, free, init, n - 1, s)
                    &&& #[trigger] multiplied64::<F>(arow[n - 1], x[n - 1], p)
                    &&& #[trigger] subtracted64::<F>(s, p, r)
                };
            lemma_residual::<F>(arow, x, free, init, n - 1, s);
            assert(is_finite64(arow[n - 1]) && is_finite64(x[n - 1]));
            assert(multiplied64::<F>(arow[n - 1], x[n - 1], p));
            assert(subtracted64::<F>(s, p, r));
        }
    }
}

/// Whether `x` holds finite numbers between zero and one, the fixed ones on a
/// bound.
spec fn is_sound(x: Seq<u64>, free: Seq<bool>, k: int) -> bool {
    &&& x.len() == k
    &&& free.len() == k
    &&& forall|j: int|
        0 <= j < k ==> {
            &&& is_finite64(#[trigger] x[j])
            &&& 0 as real <= number64(x[j])
            &&& number64(x[j]) <= 1 as real
        }
    &&& forall|j: int| 0 <= j < k && !free[j] ==> #[trigger] x[j] == 0 || x[j] == ONE64
}

/// Whether the slope vanishes in every free variable.
spec fn is_level(a: Seq<u64>, b: Seq<u64>, x: Seq<u64>, free: Seq<bool>) -> bool {
    forall|j: int|
        0 <= j < b.len() && free[j] ==> row_times(a, b.len() as int, x, j) == number64(
            #[trigger] b[j],
        )
}

proof fn lemma_settled_round<F: FloatOps>(
    a: Seq<u64>,
    b: Seq<u64>,
    x: Seq<u64>,
    free: Seq<bool>,
    rhs: Seq<u64>,
    cx: Seq<u64>,
    alphas: Seq<u64>,
    x1: Seq<u64>,
    f1: Seq<bool>,
)
    requires
        never_rounds::<F>(),
        is_symmetric_flat(a, b.len() as int),
        all_finite(b),
        is_sound(x, free, b.len() as int),
        round_through::<F>(a, b, x, free, rhs, cx, alphas, Round::Settled(x1, f1)),
    ensures
        is_sound(x1, f1, b.len() as int),
        is_level(a, b, x1, f1),
{
    let k = b.len() as int;
    let idx = free_list(free, k);
    let sub = sub_matrix(a, k, idx);
    lemma_free_list(free, k);
    lemma_sub_matrix(a, k, free);
    lemma_free_solution::<F>(a, b, x, free, rhs, cx);
    law_bounds_denote();
    assert forall|j: int| 0 <= j < k implies {
        &&& is_finite64(#[trigger] x1[j])
        &&& 0 as real <= number64(x1[j])
        &&& number64(x1[j]) <= 1 as real
    } by {
        if free[j] {
            assert(idx.contains(j));
            let r = place(idx, j);
            assert(x1[idx[r]] == cx[r]);
            assert(!is_outside(cx[r]));
            law_numbers64_are_ordered(cx[r], 0);
            law_numbers64_are_ordered(ONE64, cx[r]);
        } else {
            assert(x1[j] == x[j]);
        }
    }
    assert forall|j: int| 0 <= j < b.len() && free[j] implies row_times(a, k, x1, j) == number64(
        #[trigger] b[j],
    ) by {
        assert(idx.contains(j));
        let r = place(idx, j);
        assert(idx[r] == j);
        let f = |t: int| number64(a[j * k + t]) * number64(x1[t]);
        let held = |t: int|
            if free[t] {
                f(t)
            } else {
                0 as real
            };
        let fixed = |t: int|
            if free[t] {
                0 as real
            } else {
                number64(row(a, k, j)[t]) * number64(x[t])
            };
        assert forall|t: int| 0 <= t < k implies #[trigger] f(t) == held(t) + fixed(t) by {
            lemma_row_entry(a, k, k, j, t);
        }
        lemma_total_adds(held, fixed, f, 0, k);
        lemma_total_over_free(free, f, k);
        let listed = |q: int| f(idx[q]);
        let coupled = |q: int| number64(sub[r][q]) * number64(cx[q]);
        assert forall|q: int| 0 <= q < idx.len() implies #[trigger] listed(q) == coupled(q) by {
            assert(sub[r][q] == a[idx[r] * k + idx[q]]);
            assert(x1[idx[q]] == cx[q]);
        }
        lemma_total_congruent(listed, coupled, 0, idx.len() as int);
        law_cholesky_solves_the_system::<F>(sub, rhs, cx, r);
        assert(residual_is::<F>(row(a, k, idx[r]), x, free, b[idx[r]], k, rhs[r]));
        lemma_residual_of_row::<F>(a, b, x, free, j, rhs[r]);
    }
}

proof fn lemma_residual_of_row<F: FloatOps>(
    a: Seq<u64>,
    b: Seq<u64>,
    x: Seq<u64>,
    free: Seq<bool>,
    j: int,
    r: u64,
)
    requires
        never_rounds::<F>(),
        is_symmetric_flat(a, b.len() as int),
        all_finite(b),
        is_sound(x, free, b.len() as int),
        0 <= j < b.len(),
        residual_is::<F>(row(a, b.len() as int, j), x, free, b[j], b.len() as int, r),
    ensures
        is_finite64(r),
        number64(r) == number64(b[j]) - total(
            |t: int|
                if free[t] {
                    0 as real
                } else {
                    number64(row(a, b.len() as int, j)[t]) * number64(x[t])
                },
            0,
            b.len() as int,
        ),
{
    let k = b.len() as int;
    assert forall|t: int| 0 <= t < k implies is_finite64(#[trigger] row(a, k, j)[t]) by {
        lemma_row_entry(a, k, k, j, t);
        assert(is_finite64(a[j * k + t]));
    }
    lemma_residual::<F>(row(a, k, j), x, free, b[j], k, r);
}

/// The right-hand side and the solution of the free system are finite.
proof fn lemma_free_solution<F: FloatOps>(
    a: Seq<u64>,
    b: Seq<u64>,
    x: Seq<u64>,
    free: Seq<bool>,
    rhs: Seq<u64>,
    cx: Seq<u64>,
)
    requires
        never_rounds::<F>(),
        is_symmetric_flat(a, b.len() as int),
        all_finite(b),
        is_sound(x, free, b.len() as int),
        rhs_is::<F>(a, b, x, free, free_list(free, b.len() as int), rhs),
        solution_is::<F>(
            sub_matrix(a, b.len() as int, free_list(free, b.len() as int)),
            rhs,
            cx,
        ),
    ensures
        all_finite(rhs),
        all_finite(cx),
        cx.len() == free_list(free, b.len() as int).len(),
{
    let k = b.len() as int;
    let idx = free_list(free, k);
    lemma_free_list(free, k);
    lemma_sub_matrix(a, k, free);
    assert forall|r: int| 0 <= r < rhs.len() implies is_finite64(#[trigger] rhs[r]) by {
        assert(residual_is::<F>(row(a, k, idx[r]), x, free, b[idx[r]], k, rhs[r]));
        lemma_residual_of_row::<F>(a, b, x, free, idx[r], rhs[r]);
    }
    assert forall|r: int| 0 <= r < idx.len() implies is_finite64(#[trigger] cx[r]) by {
        law_cholesky_solves_the_system::<F>(sub_matrix(a, k, idx), rhs, cx, r);
    }
    if idx.len() > 0 {
        law_cholesky_solves_the_system::<F>(sub_matrix(a, k, idx), rhs, cx, 0);
    }
}

/// The fraction of the way to a solution outside the box is a number from zero
/// on, and the way to the bound.
proof fn lemma_fraction<F: FloatOps>(x: u64, c: u64, alpha: u64)
    requires
        never_rounds::<F>(),
        is_finite64(x),
        is_finite64(c),
        0 as real <= number64(x),
        number64(x) <= 1 as real,
        is_outside(c),
        fraction_is::<F>(x, c, alpha),
    ensures
        is_finite64(alpha),
        0 as real <= number64(alpha),
        number64(c) < 0 as real ==> number64(alpha) * (number64(x) - number64(c)) == number64(x),
        number64(c) > 1 as real ==> number64(alpha) * (number64(c) - number64(x)) == 1 as real
            - number64(x),
        number64(c) < 0 as real || number64(c) > 1 as real,
{
    law_bounds_denote();
    law_numbers64_are_ordered(c, 0);
    law_numbers64_are_ordered(ONE64, c);
    let al = number64(alpha);
    if less64(c, 0) {
        let d = choose|d: u64|
            {
                &&& #[trigger] subtracted64::<F>(x, c, d)
                &&& divided64::<F>(x, d, alpha)
            };
        assert(subtracted64::<F>(x, c, d));
        assert(divided64::<F>(x, d, alpha));
        let u = number64(d);
        assert(al >= 0 as real) by (nonlinear_arith)
            requires
                al * u >= 0 as real,
                u > 0 as real,
        ;
    } else {
        let (n, d) = choose|n: u64, d: u64|
            {
                &&& #[trigger] subtracted64::<F>(ONE64, x, n)
                &&& #[trigger] subtracted64::<F>(c, x, d)
                &&& divided64::<F>(n, d, alpha)
            };
        assert(subtracted64::<F>(ONE64, x, n));
        assert(subtracted64::<F>(c, x, d));
        assert(divided64::<F>(n, d, alpha));
        let u = number64(d);
        assert(al >= 0 as real) by (nonlinear_arith)
            requires
                al * u >= 0 as real,
                u > 0 as real,
        ;
    }
}

/// A step that is no longer than the way to a variable's own bound keeps the
/// variable between zero and one.
proof fn lemma_moved<F: FloatOps>(x: u64, c: u64, alpha: u64, own: u64, r: u64)
    requires
        never_rounds::<F>(),
        is_finite64(x),
        is_finite64(c),
        is_finite64(alpha),
        0 as real <= number64(x),
        number64(x) <= 1 as real,
        0 as real <= number64(alpha),
        number64(alpha) <= 1 as real,
        is_outside(c) ==> fraction_is::<F>(x, c, own) && is_finite64(own) && number64(alpha)
            <= number64(own),
        moved_is::<F>(x, c, alpha, r),
    ensures
        is_finite64(r),
        0 as real <= number64(r),
        number64(r) <= 1 as real,
{
    let (d, p) = choose|d: u64, p: u64|
        {
            &&& #[trigger] subtracted64::<F>(c, x, d)
            &&& #[trigger] multiplied64::<F>(alpha, d, p)
            &&& added64::<F>(x, p, r)
        };
    assert(subtracted64::<F>(c, x, d));
    assert(multiplied64::<F>(alpha, d, p));
    assert(added64::<F>(x, p, r));
    let u = number64(x);
    let v = number64(c);
    let al = number64(alpha);
    let q = number64(own);
    let e = number64(d);
    law_bounds_denote();
    law_numbers64_are_ordered(c, 0);
    law_numbers64_are_ordered(ONE64, c);
    if is_outside(c) {
        lemma_fraction::<F>(x, c, own);
        if v < 0 as real {
            let w = u - v;
            assert(0 as real <= al * w && al * w <= q * w) by (nonlinear_arith)
                requires
                    0 as real <= al,
                    al <= q,
                    w > 0 as real,
            ;
            assert(al * e == -(al * w)) by (nonlinear_arith)
                requires
                    e == -w,
            ;
        } else {
            assert(0 as real <= al * e && al * e <= q * e) by (nonlinear_arith)
                requires
                    0 as real <= al,
                    al <= q,
                    e > 0 as real,
            ;
        }
    } else if e >= 0 as real {
        assert(0 as real <= al * e && al * e <= e) by (nonlinear_arith)
            requires
                0 as real <= al,
                al <= 1 as real,
                e >= 0 as real,
        ;
    } else {
        assert(e <= al * e && al * e <= 0 as real) by (nonlinear_arith)
            requires
                0 as real <= al,
                al <= 1 as real,
                e < 0 as real,
        ;
    }
}

proof fn lemma_repeated_round<F: FloatOps>(
    a: Seq<u64>,
    b: Seq<u64>,
    x: Seq<u64>,
    free: Seq<bool>,
    rhs: Seq<u64>,
    cx: Seq<u64>,
    alphas: Seq<u64>,
    x1: Seq<u64>,
    f1: Seq<bool>,
)
    requires
        never_rounds::<F>(),
        is_symmetric_flat(a, b.len() as int),
        all_finite(b),
        is_sound(x, free, b.len() as int),
        round_through::<F>(a, b, x, free, rhs, cx, alphas, Round::Again(x1, f1)),
    ensures
        is_sound(x1, f1, b.len() as int),
{
    let k = b.len() as int;
    let idx = free_list(free, k);
    lemma_free_list(free, k);
    lemma_free_solution::<F>(a, b, x, free, rhs, cx);
    law_bounds_denote();
    let w = choose|w: int|
        {
            &&& #[trigger] is_blocking(cx, alphas, w)
            &&& is_moved::<F>(x, free, idx, cx, alphas, w, x1)
            &&& f1 == free.update(idx[w], false)
        };
    assert(is_blocking(cx, alphas, w));
    assert forall|i: int| 0 <= i < cx.len() && is_outside(cx[i]) implies fraction_is::<F>(
        x[idx[i]],
        cx[i],
        #[trigger] alphas[i],
    ) && is_finite64(alphas[i]) && 0 as real <= number64(alphas[i]) by {
        assert(fraction_is::<F>(x[idx[i]], cx[i], alphas[i]));
        assert(is_finite64(x[idx[i]]) && is_finite64(cx[i]));
        lemma_fraction::<F>(x[idx[i]], cx[i], alphas[i]);
    }
    assert(is_finite64(alphas[w]));
    law_numbers64_are_ordered(alphas[w], ONE64);
    assert forall|j: int| 0 <= j < k implies {
        &&& is_finite64(#[trigger] x1[j])
        &&& 0 as real <= number64(x1[j])
        &&& number64(x1[j]) <= 1 as real
    } by {
        if free[j] {
            assert(idx.contains(j));
            let i = place(idx, j);
            assert(idx[i] == j);
            if i != w {
                assert(moved_is::<F>(x[idx[i]], cx[i], alphas[w], x1[idx[i]]));
                if is_outside(cx[i]) {
                    assert(!less64(alphas[i], alphas[w]));
                    law_numbers64_are_ordered(alphas[i], alphas[w]);
                }
                lemma_moved::<F>(x[idx[i]], cx[i], alphas[w], alphas[i], x1[idx[i]]);
            }
        } else {
            assert(x1[j] == x[j]);
        }
    }
    assert forall|j: int| 0 <= j < k && !f1[j] implies #[trigger] x1[j] == 0 || x1[j] == ONE64 by {
        if j != idx[w] {
            assert(!free[j]);
            assert(x1[j] == x[j]);
        }
    }
}

/// Settling the free set leaves finite numbers between zero and one, with no
/// slope in the free ones.
proof fn lemma_settling<F: FloatOps>(
    rounds: nat,
    a: Seq<u64>,
    b: Seq<u64>,
    entered: int,
    x: Seq<u64>,
    free: Seq<bool>,
    x1: Seq<u64>,
    f1: Seq<bool>,
)
    requires
        never_rounds::<F>(),
        is_symmetric_flat(a, b.len() as int),
        is_positive_definite(a, b.len() as int),
        all_finite(b),
        is_sound(x, free, b.len() as int),
        settles::<F>(rounds, a, b, entered, x, free, Some((x1, f1))),
    ensures
        is_sound(x1, f1, b.len() as int),
        is_level(a, b, x1, f1),
        forall|j: int| 0 <= j < b.len() && !free[j] ==> x1[j] == x[j] && !#[trigger] f1[j],
    decreases rounds,
{
    let k = b.len() as int;
    let idx = free_list(free, k);
    lemma_free_list(free, k);
    let o = choose|o: Round|
        {
            &&& #[trigger] round_is::<F>(a, b, entered, x, free, o)
            &&& match o {
                Round::Settled(x2, f2) => Some((x1, f1)) == Some((x2, f2)),
                Round::Again(x2, f2) => settles::<F>(
                    (rounds - 1) as nat,
                    a,
                    b,
                    entered,
                    x2,
                    f2,
                    Some((x1, f1)),
                ),
                Round::Stuck => false,
            }
        };
    if idx.len() == 0 {
        assert forall|j: int| 0 <= j < k implies !free[j] by {
            if free[j] {
                assert(idx.contains(j));
            }
        }
    } else {
        law_positive_definite_systems_factor::<F>(a, k, free);
        let (rhs, cx, alphas) = choose|rhs: Seq<u64>, cx: Seq<u64>, alphas: Seq<u64>| #[trigger]
            round_through::<F>(a, b, x, free, rhs, cx, alphas, o);
        match o {
            Round::Settled(x2, f2) => {
                lemma_settled_round::<F>(a, b, x, free, rhs, cx, alphas, x2, f2);
            },
            Round::Again(x2, f2) => {
                lemma_repeated_round::<F>(a, b, x, free, rhs, cx, alphas, x2, f2);
                lemma_settling::<F>((rounds - 1) as nat, a, b, entered, x2, f2, x1, f1);
                assert forall|j: int| 0 <= j < k && !free[j] implies x1[j] == x[j]
                    && !#[trigger] f1[j] by {
                    assert(x2[j] == x[j]);
                    assert(!f2[j]);
                }
            },
            Round::Stuck => {},
        }
    }
}

proof fn lemma_steps<F: FloatOps>(
    n: nat,
    a: Seq<u64>,
    b: Seq<u64>,
    x: Seq<u64>,
    free: Seq<bool>,
    x1: Seq<u64>,
    f1: Seq<bool>,
)
    requires
        never_rounds::<F>(),
        is_symmetric_flat(a, b.len() as int),
        is_positive_definite(a, b.len() as int),
        all_finite(b),
        is_sound(x, free, b.len() as int),
        is_level(a, b, x, free),
        reaches::<F>(n, a, b, x, free, x1, f1),
    ensures
        is_sound(x1, f1, b.len() as int),
        is_level(a, b, x1, f1),
    decreases n,
{
    if n > 0 {
        let (x2, f2) = choose|x2: Seq<u64>, f2: Seq<bool>| #[trigger]
            steps_once::<F>(a, b, x, free, x2, f2) && reaches::<F>(
                (n - 1) as nat,
                a,
                b,
                x2,
                f2,
                x1,
                f1,
            );
        let (g, i) = choose|g: Seq<u64>, i: int|
            {
                &&& #[trigger] gradient_is::<F>(a, b, x, g)
                &&& !is_optimal(x, g, free)
                &&& is_entering(x, g, free, i)
                &&& #[trigger] settles::<F>(
                    b.len() + 1,
                    a,
                    b,
                    i,
                    x,
                    free.update(i, true),
                    Some((x2, f2)),
                )
            };
        lemma_settling::<F>(b.len() + 1, a, b, i, x, free.update(i, true), x2, f2);
        lemma_steps::<F>((n - 1) as nat, a, b, x2, f2, x1, f1);
    }
}

/// The computed gradient is the slope.
proof fn lemma_gradient<F: FloatOps>(a: Seq<u64>, b: Seq<u64>, x: Seq<u64>, g: Seq<u64>, i: int)
    requires
        never_rounds::<F>(),
        a.len() == b.len() * b.len(),
        all_finite(a),
        all_finite(b),
        all_finite(x),
        x.len() == b.len(),
        gradient_is::<F>(a, b, x, g),
        0 <= i < b.len(),
    ensures
        is_finite64(g[i]),
        number64(g[i]) == row_times(a, b.len() as int, x, i) - number64(b[i]),
{
    let k = b.len() as int;
    assert(gradient_entry_is::<F>(a, b, x, i, g[i]));
    let arow = row(a, k, i);
    let sum = choose|sum: u64|
        {
            &&& dot_is::<F>(row(a, b.len() as int, i), x, 0, b.len() as int, sum)
            &&& #[trigger] subtracted64::<F>(sum, b[i], g[i])
        };
    assert forall|t: int| 0 <= t < k implies is_finite64(#[trigger] arow[t]) by {
        lemma_row_entry(a, k, k, i, t);
        assert(is_finite64(a[i * k + t]));
    }
    law_dot_products_are_sums::<F>(arow, x, 0, k, sum);
    assert(subtracted64::<F>(sum, b[i], g[i]));
    let f = |p: int| number64(arow[p]) * number64(x[p]);
    let h = |j: int| number64(a[i * k + j]) * number64(x[j]);
    assert forall|p: int| 0 <= p < k implies #[trigger] f(p) == h(p) by {
        lemma_row_entry(a, k, k, i, p);
    }
    lemma_total_congruent(f, h, 0, k);
}

/// The tolerance of the stop test is `10^-10`, as near as binary64 comes.
pub proof fn law_tolerance_denotes()
    ensures
        is_finite64(TOLERANCE),
        distance(number64(TOLERANCE), 1 as real / 10000000000 as real) < 1 as real
            / 100000000000000000000000000 as real,
{
    lemma_pow2_pos(988);
    lemma_pow2_adds(988, 86);
    lemma_pow2_adds(22, 64);
    lemma2_to64();
    lemma2_to64_rest();
    assert(pow2(86) == 77371252455336267181195264);
    assert(units64(0x3ddb_7cdf_d9d7_bdbb) == 7737125245533627 * pow2(988));
    let p = pow2(988) as real;
    assert((7737125245533627 * pow2(988)) as real == 7737125245533627 as real * p);
    assert((pow2(988) * 77371252455336267181195264) as real == p
        * 77371252455336267181195264 as real);
    assert((7737125245533627 as real * p) / (p * 77371252455336267181195264 as real)
        == 7737125245533627 as real / 77371252455336267181195264 as real) by (nonlinear_arith)
        requires
            p > 0 as real,
    ;
}

/// With exact arithmetic the right-hand side is the product of the poses with
/// the caller's delta, plus the pull towards the weights before.
pub proof fn law_targets_come_from_the_delta<F: FloatOps>(
    s: BvlsSystem,
    delta: Seq<u32>,
    d: Seq<u64>,
    b: Seq<u64>,
    out: Option<Seq<u64>>,
    i: int,
)
    requires
        never_rounds::<F>(),
        is_finite_system(s, delta),
        s.minimum_through::<F>(delta, d, b, out),
        0 <= i < s.active_count,
    ensures
        is_finite64(b[i]),
        number64(b[i]) == pull(s, delta, i),
{
    let v = s.masked_position_count as int;
    let k = s.active_count as int;
    assert(s.target_is::<F>(d, i, b[i]));
    let drow = row(s.dt, v, i);
    let (sum, t) = choose|sum: u64, t: u64|
        {
            &&& dot_is::<F>(
                row(s.dt, s.masked_position_count as int, i),
                d,
                0,
                s.masked_position_count as int,
                sum,
            )
            &&& #[trigger] multiplied64::<F>(s.temporal_scale, s.prev_weights[i], t)
            &&& #[trigger] added64::<F>(sum, t, b[i])
        };
    assert forall|p: int| 0 <= p < v implies is_finite64(#[trigger] drow[p]) by {
        lemma_row_entry(s.dt, v, k, i, p);
        assert(is_finite64(s.dt[i * v + p]));
    }
    assert forall|p: int| 0 <= p < v implies is_finite64(#[trigger] d[p]) by {
        assert(widens(delta[p], d[p]));
        law_widening_keeps_the_number(delta[p], d[p]);
    }
    law_dot_products_are_sums::<F>(drow, d, 0, v, sum);
    assert(is_finite64(s.prev_weights[i]));
    assert(multiplied64::<F>(s.temporal_scale, s.prev_weights[i], t));
    assert(added64::<F>(sum, t, b[i]));
    let f = |p: int| number64(drow[p]) * number64(d[p]);
    let h = |p: int| number64(s.dt[i * v + p]) * number32(delta[p]);
    assert forall|p: int| 0 <= p < v implies #[trigger] f(p) == h(p) by {
        lemma_row_entry(s.dt, v, k, i, p);
        assert(widens(delta[p], d[p]));
        law_widening_keeps_the_number(delta[p], d[p]);
    }
    lemma_total_congruent(f, h, 0, v);
}

/// Whether a system and the delta for it hold finite numbers, as many as the
/// system's sizes ask for.
pub open spec fn is_finite_system(s: BvlsSystem, delta: Seq<u32>) -> bool {
    &&& s.valid()
    &&& delta.len() == s.masked_position_count
    &&& all_finite(s.dt)
    &&& all_finite(s.a)
    &&& all_finite(s.prev_weights)
    &&& is_finite64(s.temporal_scale)
    &&& forall|p: int| 0 <= p < delta.len() ==> is_finite32(#[trigger] delta[p])
}

/// What pulls on weight `i`: the product of its pose with the delta, and the
/// weight before.
pub open spec fn pull(s: BvlsSystem, delta: Seq<u32>, i: int) -> real {
    total(
        |p: int| number64(s.dt[i * s.masked_position_count + p]) * number32(delta[p]),
        0,
        s.masked_position_count as int,
    ) + number64(s.temporal_scale) * number64(s.prev_weights[i])
}

/// The slope of the objective in weight `i` at `x`: row `i` of the normal
/// matrix times `x`, less what pulls on the weight.
pub open spec fn slope(s: BvlsSystem, delta: Seq<u32>, x: Seq<u64>, i: int) -> real {
    total(
        |j: int| number64(s.a[i * s.active_count + j]) * number64(x[j]),
        0,
        s.active_count as int,
    ) - pull(s, delta, i)
}

/// Whether a solve of `s` for `delta` frees a variable two hundred times on
/// its way to `x`, so that it ends before the stop test is asked again.
pub open spec fn uses_all_steps<F: FloatOps>(s: BvlsSystem, delta: Seq<u32>, x: Seq<u64>) -> bool {
    exists|b: Seq<u64>, f1: Seq<bool>|
        {
            &&& b.len() == s.active_count
            &&& forall|i: int| 0 <= i < b.len() ==> number64(#[trigger] b[i]) == pull(s, delta, i)
            &&& #[trigger] reaches::<F>(
                200,
                s.a,
                b,
                zeros(s.active_count),
                all_fixed(s.active_count),
                x,
                f1,
            )
        }
}

/// With exact arithmetic and a positive definite normal matrix a solve ends in
/// the optimum over the box: every weight lies between zero and one, the slope
/// vanishes in a weight strictly between them, and it does not point into the
/// box by more than `10^-10` at a weight on a bound, unless all steps were
/// used. The weights handed out are these, narrowed.
pub proof fn law_solves_reach_the_optimum<F: FloatOps>(
    s: BvlsSystem,
    delta: Seq<u32>,
    after: BvlsSystem,
    w: Seq<u32>,
    i: int,
)
    requires
        never_rounds::<F>(),
        is_finite_system(s, delta),
        is_symmetric_flat(s.a, s.active_count as int),
        is_positive_definite(s.a, s.active_count as int),
        s.solves::<F>(delta, after, Some(w)),
        0 <= i < s.active_count,
    ensures
        w.len() == s.active_count,
        after.prev_weights.len() == s.active_count,
        is_finite64(after.prev_weights[i]),
        0 as real <= number64(after.prev_weights[i]),
        number64(after.prev_weights[i]) <= 1 as real,
        number64(after.prev_weights[i]) > 0 as real && number64(after.prev_weights[i]) < 1 as real
            ==> slope(s, delta, after.prev_weights, i) == 0 as real,
        !uses_all_steps::<F>(s, delta, after.prev_weights) && number64(after.prev_weights[i])
            < 1 as real ==> slope(s, delta, after.prev_weights, i) > -(1 as real
            / 9999999999 as real),
        !uses_all_steps::<F>(s, delta, after.prev_weights) && number64(after.prev_weights[i])
            > 0 as real ==> slope(s, delta, after.prev_weights, i) < 1 as real / 9999999999 as real,
        is_finite32(w[i]),
        distance(number32(w[i]), number64(after.prev_weights[i])) <= 1 as real / 16777216 as real,
{
    let x = after.prev_weights;
    let k = s.active_count as int;
    let (d, b) = choose|d: Seq<u64>, b: Seq<u64>| #[trigger]
        s.minimum_through::<F>(delta, d, b, Some(x));
    assert forall|j: int| 0 <= j < b.len() implies is_finite64(#[trigger] b[j]) && number64(b[j])
        == pull(s, delta, j) by {
        law_targets_come_from_the_delta::<F>(s, delta, d, b, Some(x), j);
    }
    law_minima_meet_the_stop_test::<F>(200, s.a, b, zeros(b.len()), all_fixed(b.len()), x);
    let (n, f1) = choose|n: nat, f1: Seq<bool>| #[trigger]
        ends_after::<F>(n, 200, s.a, b, zeros(b.len()), all_fixed(b.len()), x, f1);
    law_bounds_denote();
    assert(is_sound(zeros(b.len()), all_fixed(b.len()), k));
    lemma_steps::<F>(n, s.a, b, zeros(b.len()), all_fixed(b.len()), x, f1);
    assert(is_finite64(x[i]));
    assert(row_times(s.a, k, x, i) - number64(b[i]) == slope(s, delta, x, i));
    if !f1[i] {
        assert(x[i] == 0 || x[i] == ONE64);
        if n == 200 {
            assert(uses_all_steps::<F>(s, delta, x));
        } else {
            let g = choose|g: Seq<u64>| #[trigger]
                gradient_is::<F>(s.a, b, x, g) && is_optimal(x, g, f1);
            lemma_gradient::<F>(s.a, b, x, g, i);
            assert(!less64(TOLERANCE, violation(x[i], g[i])));
            law_tolerance_denotes();
            law_negation64_denotes_the_opposite(g[i]);
            law_numbers64_are_ordered(TOLERANCE, g[i]);
            law_numbers64_are_ordered(TOLERANCE, negated64(g[i]));
            law_numbers64_are_ordered(x[i], 0);
        }
    }
    assert(narrows(x[i], w[i]));
    law_narrowing_is_close(x[i], w[i]);
}

/// A variable that is coupled with no other and that nothing pulls up is never
/// freed.
proof fn lemma_stays_at_zero<F: FloatOps>(
    n: nat,
    a: Seq<u64>,
    b: Seq<u64>,
    x: Seq<u64>,
    free: Seq<bool>,
    x1: Seq<u64>,
    f1: Seq<bool>,
    i: int,
)
    requires
        never_rounds::<F>(),
        is_symmetric_flat(a, b.len() as int),
        is_positive_definite(a, b.len() as int),
        all_finite(b),
        is_sound(x, free, b.len() as int),
        is_level(a, b, x, free),
        reaches::<F>(n, a, b, x, free, x1, f1),
        0 <= i < b.len(),
        !free[i],
        x[i] == 0,
        forall|j: int|
            0 <= j < b.len() && j != i ==> #[trigger] number64(a[i * b.len() + j]) == 0 as real,
        number64(b[i]) <= 0 as real,
    ensures
        x1[i] == 0,
    decreases n,
{
    let k = b.len() as int;
    if n > 0 {
        let (x2, f2) = choose|x2: Seq<u64>, f2: Seq<bool>| #[trigger]
            steps_once::<F>(a, b, x, free, x2, f2) && reaches::<F>(
                (n - 1) as nat,
                a,
                b,
                x2,
                f2,
                x1,
                f1,
            );
        let (g, e) = choose|g: Seq<u64>, e: int|
            {
                &&& #[trigger] gradient_is::<F>(a, b, x, g)
                &&& !is_optimal(x, g, free)
                &&& is_entering(x, g, free, e)
                &&& #[trigger] settles::<F>(
                    b.len() + 1,
                    a,
                    b,
                    e,
                    x,
                    free.update(e, true),
                    Some((x2, f2)),
                )
            };
        lemma_gradient::<F>(a, b, x, g, i);
        let f = |j: int| number64(a[i * k + j]) * number64(x[j]);
        law_bounds_denote();
        assert forall|j: int| 0 <= j < k implies #[trigger] f(j) == 0 as real by {
            let u = number64(a[i * k + j]);
            let v = number64(x[j]);
            if j == i {
                assert(u * v == 0 as real) by (nonlinear_arith)
                    requires
                        v == 0 as real,
                ;
            } else {
                assert(u * v == 0 as real) by (nonlinear_arith)
                    requires
                        u == 0 as real,
                ;
            }
        }
        lemma_total_of_zeros(f, 0, k);
        law_tolerance_denotes();
        law_negation64_denotes_the_opposite(g[i]);
        law_numbers64_are_ordered(TOLERANCE, negated64(g[i]));
        law_numbers64_are_ordered(0, 0);
        assert(e != i);
        lemma_settling::<F>(b.len() + 1, a, b, e, x, free.update(e, true), x2, f2);
        assert(!f2[i] && x2[i] == 0);
        lemma_stays_at_zero::<F>((n - 1) as nat, a, b, x2, f2, x1, f1, i);
    }
}

/// With exact arithmetic and a positive definite normal matrix, a pose that is
/// orthogonal to all others gets no weight where its product with the delta,
/// together with the pull of the weight before, is not positive.
pub proof fn law_opposed_poses_get_no_weight<F: FloatOps>(
    s: BvlsSystem,
    delta: Seq<u32>,
    after: BvlsSystem,
    w: Seq<u32>,
    i: int,
)
    requires
        never_rounds::<F>(),
        is_finite_system(s, delta),
        is_symmetric_flat(s.a, s.active_count as int),
        is_positive_definite(s.a, s.active_count as int),
        s.solves::<F>(delta, after, Some(w)),
        0 <= i < s.active_count,
        forall|j: int|
            0 <= j < s.active_count && j != i ==> #[trigger] number64(
                s.a[i * s.active_count + j],
            ) == 0 as real,
        total(
            |p: int| number64(s.dt[i * s.masked_position_count + p]) * number32(delta[p]),
            0,
            s.masked_position_count as int,
        ) + number64(s.temporal_scale) * number64(s.prev_weights[i]) <= 0 as real,
    ensures
        number64(after.prev_weights[i]) == 0 as real,
        number32(w[i]) == 0 as real,
{
    let x = after.prev_weights;
    let k = s.active_count as int;
    let (d, b) = choose|d: Seq<u64>, b: Seq<u64>| #[trigger]
        s.minimum_through::<F>(delta, d, b, Some(x));
    assert forall|j: int| 0 <= j < b.len() implies is_finite64(#[trigger] b[j]) && number64(b[j])
        == pull(s, delta, j) by {
        law_targets_come_from_the_delta::<F>(s, delta, d, b, Some(x), j);
    }
    law_minima_meet_the_stop_test::<F>(200, s.a, b, zeros(b.len()), all_fixed(b.len()), x);
    let (n, f1) = choose|n: nat, f1: Seq<bool>| #[trigger]
        ends_after::<F>(n, 200, s.a, b, zeros(b.len()), all_fixed(b.len()), x, f1);
    law_bounds_denote();
    assert(is_sound(zeros(b.len()), all_fixed(b.len()), k));
    assert(number64(b[i]) == pull(s, delta, i));
    lemma_steps::<F>(n, s.a, b, zeros(b.len()), all_fixed(b.len()), x, f1);
    lemma_stays_at_zero::<F>(n, s.a, b, zeros(b.len()), all_fixed(b.len()), x, f1, i);
    assert(narrows(x[i], w[i]));
    law_narrowing_is_close(x[i], w[i]);
}

/// With exact arithmetic and a positive definite normal matrix, a pose that is
/// orthogonal to all others gets the share of itself that its pull asks for,
/// where that share lies strictly between zero and one.
pub proof fn law_separate_poses_get_their_share<F: FloatOps>(
    s: BvlsSystem,
    delta: Seq<u32>,
    after: BvlsSystem,
    w: Seq<u32>,
    i: int,
)
    requires
        never_rounds::<F>(),
        is_finite_system(s, delta),
        is_symmetric_flat(s.a, s.active_count as int),
        is_positive_definite(s.a, s.active_count as int),
        s.solves::<F>(delta, after, Some(w)),
        0 <= i < s.active_count,
        forall|j: int|
            0 <= j < s.active_count && j != i ==> #[trigger] number64(
                s.a[i * s.active_count + j],
            ) == 0 as real,
        !uses_all_steps::<F>(s, delta, after.prev_weights),
        pull(s, delta, i) > 1 as real / 9999999999 as real,
        pull(s, delta, i) < number64(s.a[i * s.active_count + i]) - 1 as real / 9999999999 as real,
    ensures
        number64(s.a[i * s.active_count + i]) * number64(after.prev_weights[i]) == pull(
            s,
            delta,
            i,
        ),
{
    law_solves_reach_the_optimum::<F>(s, delta, after, w, i);
    let k = s.active_count as int;
    let x = after.prev_weights;
    let f = |j: int| number64(s.a[i * s.active_count + j]) * number64(x[j]);
    assert forall|j: int| 0 <= j < k && j != i implies #[trigger] f(j) == 0 as real by {
        let u = number64(s.a[i * s.active_count + j]);
        let v = number64(x[j]);
        assert(u * v == 0 as real) by (nonlinear_arith)
            requires
                u == 0 as real,
        ;
    }
    lemma_total_of_one(f, i, k);
    let u = number64(s.a[i * s.active_count + i]);
    let v = number64(x[i]);
    if v == 0 as real {
        assert(u * v == 0 as real) by (nonlinear_arith)
            requires
                v == 0 as real,
        ;
    } else if v == 1 as real {
        assert(u * v == u) by (nonlinear_arith)
            requires
                v == 1 as real,
        ;
    }
}

/// A round never gets stuck: the way from inside the box to a bound is shorter
/// than the way on to a solution outside.
proof fn lemma_never_stuck<F: FloatOps>(
    a: Seq<u64>,
    b: Seq<u64>,
    x: Seq<u64>,
    free: Seq<bool>,
    rhs: Seq<u64>,
    cx: Seq<u64>,
    alphas: Seq<u64>,
)
    requires
        never_rounds::<F>(),
        is_symmetric_flat(a, b.len() as int),
        all_finite(b),
        is_sound(x, free, b.len() as int),
    ensures
        !round_through::<F>(a, b, x, free, rhs, cx, alphas, Round::Stuck),
{
    if round_through::<F>(a, b, x, free, rhs, cx, alphas, Round::Stuck) {
        let k = b.len() as int;
        let idx = free_list(free, k);
        lemma_free_list(free, k);
        lemma_free_solution::<F>(a, b, x, free, rhs, cx);
        let i = choose|i: int| 0 <= i < cx.len() && is_outside(#[trigger] cx[i]);
        assert(is_finite64(cx[i]) && is_finite64(x[idx[i]]));
        assert(fraction_is::<F>(x[idx[i]], cx[i], alphas[i]));
        lemma_fraction::<F>(x[idx[i]], cx[i], alphas[i]);
        let al = number64(alphas[i]);
        let u = number64(x[idx[i]]);
        let c = number64(cx[i]);
        law_bounds_denote();
        law_numbers64_are_ordered(alphas[i], ONE64);
        if c < 0 as real {
            let w = u - c;
            assert(al < 1 as real) by (nonlinear_arith)
                requires
                    al * w == u,
                    u < w,
                    w > 0 as real,
            ;
        } else {
            let w = c - u;
            assert(al < 1 as real) by (nonlinear_arith)
                requires
                    al * w == 1 as real - u,
                    1 as real - u < w,
                    w > 0 as real,
            ;
        }
    }
}

proof fn lemma_settling_succeeds<F: FloatOps>(
    rounds: nat,
    a: Seq<u64>,
    b: Seq<u64>,
    entered: int,
    x: Seq<u64>,
    free: Seq<bool>,
)
    requires
        never_rounds::<F>(),
        is_symmetric_flat(a, b.len() as int),
        is_positive_definite(a, b.len() as int),
        all_finite(b),
        is_sound(x, free, b.len() as int),
    ensures
        !settles::<F>(rounds, a, b, entered, x, free, None),
    decreases rounds,
{
    if settles::<F>(rounds, a, b, entered, x, free, None) {
        let k = b.len() as int;
        let o = choose|o: Round|
            {
                &&& #[trigger] round_is::<F>(a, b, entered, x, free, o)
                &&& match o {
                    Round::Settled(x2, f2) => None::<(Seq<u64>, Seq<bool>)> == Some((x2, f2)),
                    Round::Again(x2, f2) => settles::<F>(
                        (rounds - 1) as nat,
                        a,
                        b,
                        entered,
                        x2,
                        f2,
                        None,
                    ),
                    Round::Stuck => true,
                }
            };
        let (rhs, cx, alphas) = choose|rhs: Seq<u64>, cx: Seq<u64>, alphas: Seq<u64>| #[trigger]
            round_through::<F>(a, b, x, free, rhs, cx, alphas, o);
        match o {
            Round::Settled(x2, f2) => {},
            Round::Again(x2, f2) => {
                lemma_repeated_round::<F>(a, b, x, free, rhs, cx, alphas, x2, f2);
                lemma_settling_succeeds::<F>((rounds - 1) as nat, a, b, entered, x2, f2);
            },
            Round::Stuck => {
                lemma_never_stuck::<F>(a, b, x, free, rhs, cx, alphas);
            },
        }
    }
}

proof fn lemma_minimising_succeeds<F: FloatOps>(
    steps: nat,
    a: Seq<u64>,
    b: Seq<u64>,
    x: Seq<u64>,
    free: Seq<bool>,
)
    requires
        never_rounds::<F>(),
        is_symmetric_flat(a, b.len() as int),
        is_positive_definite(a, b.len() as int),
        all_finite(b),
        is_sound(x, free, b.len() as int),
    ensures
        !minimises::<F>(steps, a, b, x, free, None),
    decreases steps,
{
    if steps > 0 && minimises::<F>(steps, a, b, x, free, None) {
        let r = lemma_minimising_step::<F>(steps, a, b, x, free, None);
        let opened = free.update(r.1, true);
        match r.2 {
            Some(xf) => {
                lemma_settling::<F>(b.len() + 1, a, b, r.1, x, opened, xf.0, xf.1);
                lemma_minimising_succeeds::<F>((steps - 1) as nat, a, b, xf.0, xf.1);
            },
            None => {
                lemma_settling_succeeds::<F>(b.len() + 1, a, b, r.1, x, opened);
            },
        }
    }
}

/// With exact arithmetic and a positive definite normal matrix every solve
/// gives weights.
pub proof fn law_solves_succeed<F: FloatOps>(
    s: BvlsSystem,
    delta: Seq<u32>,
    after: BvlsSystem,
    r: Option<Seq<u32>>,
)
    requires
        never_rounds::<F>(),
        is_finite_system(s, delta),
        is_symmetric_flat(s.a, s.active_count as int),
        is_positive_definite(s.a, s.active_count as int),
        s.solves::<F>(delta, after, r),
    ensures
        r is Some,
{
    if r is None {
        let (d, b) = choose|d: Seq<u64>, b: Seq<u64>| #[trigger]
            s.minimum_through::<F>(delta, d, b, None);
        assert forall|j: int| 0 <= j < b.len() implies is_finite64(#[trigger] b[j]) by {
            law_targets_come_from_the_delta::<F>(s, delta, d, b, None, j);
        }
        law_bounds_denote();
        assert(is_sound(zeros(b.len()), all_fixed(b.len()), s.active_count as int));
        lemma_minimising_succeeds::<F>(200, s.a, b, zeros(b.len()), all_fixed(b.len()));
    }
}

/// With exact arithmetic the variable that a step frees is one at a bound whose
/// slope points into the box most steeply, by more than `10^-10`; of equally
/// steep ones it is the first.
pub proof fn law_the_steepest_variable_is_freed<F: FloatOps>(
    a: Seq<u64>,
    b: Seq<u64>,
    x: Seq<u64>,
    g: Seq<u64>,
    free: Seq<bool>,
    i: int,
    j: int,
)
    requires
        never_rounds::<F>(),
        a.len() == b.len() * b.len(),
        all_finite(a),
        all_finite(b),
        all_finite(x),
        x.len() == b.len(),
        free.len() == b.len(),
        gradient_is::<F>(a, b, x, g),
        is_entering(x, g, free, i),
        0 <= j < b.len(),
        !free[j],
    ensures
        !free[i],
        steepness(a, b, x, i) > 1 as real / 10000000001 as real,
        steepness(a, b, x, j) <= steepness(a, b, x, i),
        j < i ==> steepness(a, b, x, j) < steepness(a, b, x, i),
{
    lemma_gradient::<F>(a, b, x, g, i);
    lemma_gradient::<F>(a, b, x, g, j);
    law_bounds_denote();
    law_tolerance_denotes();
    law_negation64_denotes_the_opposite(g[i]);
    law_negation64_denotes_the_opposite(g[j]);
    law_numbers64_are_ordered(x[i], 0);
    law_numbers64_are_ordered(x[j], 0);
    let u = violation(x[i], g[i]);
    let v = violation(x[j], g[j]);
    law_numbers64_are_ordered(TOLERANCE, u);
    law_numbers64_are_ordered(u, v);
    law_numbers64_are_ordered(v, u);
}

/// How steeply the slope of variable `i` points into the box from a bound:
/// upwards where the variable is not positive, downwards elsewhere.
pub open spec fn steepness(a: Seq<u64>, b: Seq<u64>, x: Seq<u64>, i: int) -> real {
    let slope = row_times(a, b.len() as int, x, i) - number64(b[i]);
    if number64(x[i]) <= 0 as real {
        -slope
    } else {
        slope
    }
}

/// Whether `r` is `s` with the product of `x` and `y` added.
pub open spec fn adds_a_product<F: FloatOps>(s: u64, x: u64, y: u64, r: u64) -> bool {
    exists|m: u64| #[trigger] multiplied64::<F>(x, y, m) && added64::<F>(s, m, r)
}

/// Whether `sums` are the sums of the first products of `n` numbers, one after
/// the other: each is the one before with a product added, from zero on.
pub open spec fn are_running_sums<F: FloatOps>(
    left: spec_fn(int) -> u64,
    right: spec_fn(int) -> u64,
    sums: Seq<u64>,
    n: int,
) -> bool {
    &&& sums.len() == n + 1
    &&& sums[0] == 0
    &&& forall|p: int|
        0 <= p < n ==> adds_a_product::<F>(#[trigger] sums[p], left(p), right(p), sums[p + 1])
}

proof fn lemma_running_sums<F: FloatOps>(
    xs: Seq<u64>,
    ys: Seq<u64>,
    left: spec_fn(int) -> u64,
    right: spec_fn(int) -> u64,
    n: int,
    r: u64,
) -> (sums: Seq<u64>)
    requires
        0 <= n,
        dot_is::<F>(xs, ys, 0, n, r),
        forall|p: int| 0 <= p < n ==> #[trigger] left(p) == xs[p],
        forall|p: int| 0 <= p < n ==> #[trigger] right(p) == ys[p],
    ensures
        are_running_sums::<F>(left, right, sums, n),
        sums[n] == r,
    decreases n,
{
    if n == 0 {
        seq![0u64]
    } else {
        let (s, m) = choose|s: u64, m: u64|
            {
                &&& dot_is::<F>(xs, ys, 0, n - 1, s)
                &&& #[trigger] multiplied64::<F>(xs[n - 1], ys[n - 1], m)
                &&& #[trigger] added64::<F>(s, m, r)
            };
        let before = lemma_running_sums::<F>(xs, ys, left, right, n - 1, s);
        let sums = before.push(r);
        assert forall|p: int| 0 <= p < n implies adds_a_product::<F>(
            #[trigger] sums[p],
            left(p),
            right(p),
            sums[p + 1],
        ) by {
            if p < n - 1 {
                assert(adds_a_product::<F>(before[p], left(p), right(p), before[p + 1]));
            } else {
                assert(left(p) == xs[n - 1] && right(p) == ys[n - 1]);
                assert(multiplied64::<F>(left(p), right(p), m));
            }
        }
        sums
    }
}

/// Whatever the arithmetic, the right-hand side for weight `i` is summed up over
/// the delta from its first entry to its last, each times the entry of row `i`
/// of the transposed poses; to that the pull is added.
pub proof fn law_targets_are_summed_in_order<F: FloatOps>(
    s: BvlsSystem,
    delta: Seq<u32>,
    d: Seq<u64>,
    b: Seq<u64>,
    out: Option<Seq<u64>>,
    i: int,
) -> (sums: Seq<u64>)
    requires
        s.valid(),
        delta.len() == s.masked_position_count,
        s.minimum_through::<F>(delta, d, b, out),
        0 <= i < s.active_count,
    ensures
        d.len() == delta.len(),
        forall|p: int| 0 <= p < d.len() ==> widens(delta[p], #[trigger] d[p]),
        b.len() == s.active_count,
        are_running_sums::<F>(
            |p: int| s.dt[i * s.masked_position_count + p],
            |p: int| d[p],
            sums,
            s.masked_position_count as int,
        ),
        exists|t: u64| #[trigger]
            multiplied64::<F>(s.temporal_scale, s.prev_weights[i], t) && added64::<F>(
                sums[s.masked_position_count as int],
                t,
                b[i],
            ),
{
    let v = s.masked_position_count as int;
    let k = s.active_count as int;
    assert(s.target_is::<F>(d, i, b[i]));
    let (sum, t) = choose|sum: u64, t: u64|
        {
            &&& dot_is::<F>(
                row(s.dt, s.masked_position_count as int, i),
                d,
                0,
                s.masked_position_count as int,
                sum,
            )
            &&& #[trigger] multiplied64::<F>(s.temporal_scale, s.prev_weights[i], t)
            &&& #[trigger] added64::<F>(sum, t, b[i])
        };
    let left = |p: int| s.dt[i * s.masked_position_count + p];
    assert forall|p: int| 0 <= p < v implies #[trigger] left(p) == row(s.dt, v, i)[p] by {
        lemma_row_entry(s.dt, v, k, i, p);
    }
    let sums = lemma_running_sums::<F>(row(s.dt, v, i), d, left, |p: int| d[p], v, sum);
    assert(multiplied64::<F>(s.temporal_scale, s.prev_weights[i], t));
    assert(forall|p: int| 0 <= p < d.len() ==> widens(#[trigger] delta[p], d[p]));
    sums
}

/// Whatever the arithmetic, entry `i` of the gradient is summed up over the
/// variables from the first to the last, each times the entry of row `i` of the
/// matrix, less the right-hand side.
pub proof fn law_gradients_are_summed_in_order<F: FloatOps>(
    a: Seq<u64>,
    b: Seq<u64>,
    x: Seq<u64>,
    g: Seq<u64>,
    i: int,
) -> (sums: Seq<u64>)
    requires
        a.len() == b.len() * b.len(),
        x.len() == b.len(),
        gradient_is::<F>(a, b, x, g),
        0 <= i < b.len(),
    ensures
        g.len() == b.len(),
        are_running_sums::<F>(
            |p: int| a[i * b.len() + p],
            |p: int| x[p],
            sums,
            b.len() as int,
        ),
        subtracted64::<F>(sums[b.len() as int], b[i], g[i]),
{
    let k = b.len() as int;
    assert(gradient_entry_is::<F>(a, b, x, i, g[i]));
    let sum = choose|sum: u64|
        {
            &&& dot_is::<F>(row(a, b.len() as int, i), x, 0, b.len() as int, sum)
            &&& #[trigger] subtracted64::<F>(sum, b[i], g[i])
        };
    let left = |p: int| a[i * b.len() + p];
    assert forall|p: int| 0 <= p < k implies #[trigger] left(p) == row(a, k, i)[p] by {
        lemma_row_entry(a, k, k, i, p);
    }
    lemma_running_sums::<F>(row(a, k, i), x, left, |p: int| x[p], k, sum)
}

/// With exact arithmetic the variable that is fixed again in a round is the one
/// that meets its bound on the shortest part of the way to the solution; of
/// equally near ones it is the first.
pub proof fn law_the_nearest_bound_blocks<F: FloatOps>(
    x: Seq<u64>,
    cx: Seq<u64>,
    alphas: Seq<u64>,
    w: int,
    j: int,
)
    requires
        never_rounds::<F>(),
        x.len() == cx.len(),
        alphas.len() == cx.len(),
        all_finite(x),
        all_finite(cx),
        forall|i: int|
            0 <= i < x.len() ==> 0 as real <= number64(#[trigger] x[i]) && number64(x[i])
                <= 1 as real,
        forall|i: int|
            0 <= i < cx.len() && is_outside(cx[i]) ==> fraction_is::<F>(
                x[i],
                cx[i],
                #[trigger] alphas[i],
            ),
        is_blocking(cx, alphas, w),
        0 <= j < cx.len(),
        number64(cx[j]) < 0 as real || number64(cx[j]) > 1 as real,
    ensures
        number64(cx[w]) < 0 as real || number64(cx[w]) > 1 as real,
        is_way_to_bound(number64(x[w]), number64(cx[w]), number64(alphas[w])),
        is_way_to_bound(number64(x[j]), number64(cx[j]), number64(alphas[j])),
        0 as real <= number64(alphas[w]),
        number64(alphas[w]) < 1 as real,
        number64(alphas[w]) <= number64(alphas[j]),
        j < w ==> number64(alphas[w]) < number64(alphas[j]),
{
    law_bounds_denote();
    law_numbers64_are_ordered(cx[j], 0);
    law_numbers64_are_ordered(ONE64, cx[j]);
    assert(is_finite64(x[w]) && is_finite64(cx[w]) && is_finite64(x[j]) && is_finite64(cx[j]));
    assert(fraction_is::<F>(x[w], cx[w], alphas[w]));
    assert(fraction_is::<F>(x[j], cx[j], alphas[j]));
    lemma_fraction::<F>(x[w], cx[w], alphas[w]);
    lemma_fraction::<F>(x[j], cx[j], alphas[j]);
    law_numbers64_are_ordered(alphas[w], ONE64);
    law_numbers64_are_ordered(alphas[j], alphas[w]);
    law_numbers64_are_ordered(alphas[w], alphas[j]);
    lemma_way_back(number64(alphas[w]), number64(x[w]), number64(cx[w]));
    lemma_way_back(number64(alphas[j]), number64(x[j]), number64(cx[j]));
}

proof fn lemma_way_back(share: real, x: real, c: real)
    ensures
        share * (c - x) == -(share * (x - c)),
{
    assert(share * (c - x) == -(share * (x - c))) by (nonlinear_arith);
}

/// Whether the part `share` of the way from `x` to `c` ends on the bound that
/// `c` lies beyond.
pub open spec fn is_way_to_bound(x: real, c: real, share: real) -> bool {
    share * (c - x) == if c < 0 as real {
        -x
    } else {
        1 as real - x
    }
}

/// A solve begins with every weight at zero and none of them free, and a solver
/// that was reset is pulled towards zero.
pub proof fn law_solves_begin_at_zero(n: nat, i: int)
    requires
        0 <= i < n,
    ensures
        zeros(n).len() == n,
        zeros(n)[i] == 0,
        all_fixed(n).len() == n,
        !all_fixed(n)[i],
{
}

/// The slope of the objective in weight `i` at the weights `w` that are handed
/// out.
pub open spec fn slope_at_weights(
    s: BvlsSystem,
    delta: Seq<u32>,
    w: Seq<u32>,
    i: int,
) -> real {
    total(
        |j: int| number64(s.a[i * s.active_count + j]) * number32(w[j]),
        0,
        s.active_count as int,
    ) - pull(s, delta, i)
}

/// The sum of the magnitudes in row `i` of the normal matrix.
pub open spec fn row_size(s: BvlsSystem, i: int) -> real {
    total(
        |j: int| distance(number64(s.a[i * s.active_count + j]), 0 as real),
        0,
        s.active_count as int,
    )
}

proof fn lemma_scaled_gap(a: real, x: real, y: real, e: real)
    requires
        distance(x, y) <= e,
    ensures
        distance(a * x, a * y) <= e * distance(a, 0 as real),
{
    let g = x - y;
    assert(a * x - a * y == a * g) by (nonlinear_arith)
        requires
            g == x - y,
    ;
    let m = distance(a, 0 as real);
    if a >= 0 as real {
        assert(-(e * a) <= a * g && a * g <= e * a) by (nonlinear_arith)
            requires
                a >= 0 as real,
                -e <= g,
                g <= e,
        ;
    } else {
        let b = -a;
        assert(-(e * b) <= b * g && b * g <= e * b) by (nonlinear_arith)
            requires
                b >= 0 as real,
                -e <= g,
                g <= e,
        ;
        assert(a * g == -(b * g)) by (nonlinear_arith)
            requires
                b == -a,
        ;
    }
}

/// With exact arithmetic and a positive definite normal matrix the weights that
/// are handed out meet the conditions of the optimum over the box, up to
/// `10^-10` and what rounding the weights to binary32 moves the slope by: the
/// slope does not point into the box at a weight on a bound, and vanishes at any
/// other, unless all steps were used.
pub proof fn law_results_meet_the_conditions_of_the_optimum<F: FloatOps>(
    s: BvlsSystem,
    delta: Seq<u32>,
    after: BvlsSystem,
    w: Seq<u32>,
    i: int,
    tolerance: real,
)
    requires
        never_rounds::<F>(),
        is_finite_system(s, delta),
        is_symmetric_flat(s.a, s.active_count as int),
        is_positive_definite(s.a, s.active_count as int),
        s.solves::<F>(delta, after, Some(w)),
        0 <= i < s.active_count,
        tolerance == 1 as real / 9999999999 as real + 1 as real / 16777216 as real * row_size(s, i),
    ensures
        0 as real <= number32(w[i]),
        number32(w[i]) <= 1 as real,
        number32(w[i]) > 0 as real && number32(w[i]) < 1 as real ==> distance(
            slope_at_weights(s, delta, w, i),
            0 as real,
        ) <= tolerance,
        !uses_all_steps::<F>(s, delta, after.prev_weights) && number32(w[i]) < 1 as real
            ==> slope_at_weights(s, delta, w, i) >= -tolerance,
        !uses_all_steps::<F>(s, delta, after.prev_weights) && number32(w[i]) > 0 as real
            ==> slope_at_weights(s, delta, w, i) <= tolerance,
{
    let x = after.prev_weights;
    let k = s.active_count as int;
    let e = 1 as real / 16777216 as real;
    law_solves_reach_the_optimum::<F>(s, delta, after, w, i);
    law_bounds_denote();
    law_constants_denote();
    // What narrowing does to this weight.
    assert(narrows(x[i], w[i]));
    law_narrowing_is_nearest(x[i], w[i]);
    law_rounding_keeps_bounds(number64(x[i]), 0, w[i]);
    law_rounding_keeps_bounds(number64(x[i]), ONE32, w[i]);
    if number64(x[i]) == 1 as real {
        law_exact_results_stay(1 as real, ONE32, w[i]);
    }
    if number64(x[i]) == 0 as real {
        law_exact_results_stay(0 as real, 0, w[i]);
    }
    // What it does to the slope.
    let f = |j: int| number64(s.a[i * s.active_count + j]) * number32(w[j]);
    let g = |j: int| number64(s.a[i * s.active_count + j]) * number64(x[j]);
    let m = |j: int| distance(number64(s.a[i * s.active_count + j]), 0 as real);
    let h = |j: int| e * m(j);
    assert forall|j: int| 0 <= j < k implies distance(#[trigger] f(j), g(j)) <= h(j) by {
        law_solves_reach_the_optimum::<F>(s, delta, after, w, j);
        lemma_scaled_gap(
            number64(s.a[i * s.active_count + j]),
            number32(w[j]),
            number64(x[j]),
            e,
        );
    }
    lemma_total_distance(f, g, h, 0, k);
    lemma_total_scales(e, m, h, 0, k);
    assert(distance(slope_at_weights(s, delta, w, i), slope(s, delta, x, i)) <= e * row_size(s, i));
}

} // verus!
