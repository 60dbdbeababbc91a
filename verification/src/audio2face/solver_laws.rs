//! Laws of the active-set solver: with arithmetic that repeats itself it
//! repeats itself, and its weights stay between zero and one.

use vstd::prelude::*;

use crate::audio2face::active_set::{all_fixed, all_inside, fraction_is, free_list,
    gradient_entry_is, gradient_is, is_blocking, is_entering, is_moved, is_optimal, is_outside,
    lemma_free_list, minimises, moved_is, residual_is, rhs_is, round_is, round_through, row,
    settles, sub_matrix, violation, zeros, Round};
use crate::audio2face::bvls_solver::{BvlsSystem, MAX_OUTER_ITERATIONS};
use crate::audio2face::cholesky::{backward_entry_is, breaks_down, breaks_down_at, column,
    diagonal_is, entry_is, factor_is, factor_row_is, forward_entry_is, pivot_is, solution_is,
    solved_through};
use crate::float_bits::{at_most64, less32, less64, narrows, widens, ONE32, ONE64};
use crate::float_convert::{law_narrowing_is_unique, law_narrowing_keeps_the_unit_range,
    law_widening_is_unique};
use crate::float_ops::{added64, divided64, dot_is, is_repeatable, multiplied64, rooted64,
    subtracted64, FloatOps};

verus! {

proof fn lemma_dot_repeats<F: FloatOps>(
    xs: Seq<u64>,
    ys: Seq<u64>,
    us: Seq<u64>,
    vs: Seq<u64>,
    lo: int,
    hi: int,
    r: u64,
    s: u64,
)
    requires
        is_repeatable::<F>(),
        forall|i: int| lo <= i < hi ==> xs[i] == us[i],
        forall|i: int| lo <= i < hi ==> ys[i] == vs[i],
        dot_is::<F>(xs, ys, lo, hi, r),
        dot_is::<F>(us, vs, lo, hi, s),
    ensures
        r == s,
    decreases hi - lo,
{
    if lo < hi {
        let (r0, p) = choose|r0: u64, p: u64|
            {
                &&& dot_is::<F>(xs, ys, lo, hi - 1, r0)
                &&& #[trigger] multiplied64::<F>(xs[hi - 1], ys[hi - 1], p)
                &&& #[trigger] added64::<F>(r0, p, r)
            };
        let (s0, q) = choose|s0: u64, q: u64|
            {
                &&& dot_is::<F>(us, vs, lo, hi - 1, s0)
                &&& #[trigger] multiplied64::<F>(us[hi - 1], vs[hi - 1], q)
                &&& #[trigger] added64::<F>(s0, q, s)
            };
        lemma_dot_repeats::<F>(xs, ys, us, vs, lo, hi - 1, r0, s0);
        assert(multiplied64::<F>(xs[hi - 1], ys[hi - 1], p));
        assert(multiplied64::<F>(xs[hi - 1], ys[hi - 1], q));
        assert(added64::<F>(r0, p, r));
        assert(added64::<F>(r0, p, s));
    }
}

/// Two factors agree in the lower triangle of their first `m` rows.
spec fn agree(l: Seq<Seq<u64>>, k: Seq<Seq<u64>>, m: int) -> bool {
    forall|i: int, j: int| 0 <= j <= i < m ==> #[trigger] l[i][j] == k[i][j]
}

proof fn lemma_row_repeats<F: FloatOps>(
    a: Seq<u64>,
    l: Seq<Seq<u64>>,
    k: Seq<Seq<u64>>,
    r: Seq<u64>,
    s: Seq<u64>,
    n: int,
)
    requires
        is_repeatable::<F>(),
        0 <= n,
        agree(l, k, n),
        forall|j: int| 0 <= j < n ==> #[trigger] entry_is::<F>(a, l, r, j),
        forall|j: int| 0 <= j < n ==> #[trigger] entry_is::<F>(a, k, s, j),
    ensures
        forall|j: int| 0 <= j < n ==> r[j] == s[j],
    decreases n,
{
    if n > 0 {
        let j = n - 1;
        lemma_row_repeats::<F>(a, l, k, r, s, j);
        assert(entry_is::<F>(a, l, r, j));
        assert(entry_is::<F>(a, k, s, j));
        let (x, t) = choose|x: u64, t: u64|
            {
                &&& dot_is::<F>(r, l[j], 0, j, x)
                &&& #[trigger] subtracted64::<F>(a[j], x, t)
                &&& #[trigger] divided64::<F>(t, l[j][j], r[j])
            };
        let (y, u) = choose|y: u64, u: u64|
            {
                &&& dot_is::<F>(s, k[j], 0, j, y)
                &&& #[trigger] subtracted64::<F>(a[j], y, u)
                &&& #[trigger] divided64::<F>(u, k[j][j], s[j])
            };
        assert forall|i: int| 0 <= i < j implies l[j][i] == k[j][i] by {}
        lemma_dot_repeats::<F>(r, l[j], s, k[j], 0, j, x, y);
        assert(l[j][j] == k[j][j]);
        assert(subtracted64::<F>(a[j], x, t));
        assert(subtracted64::<F>(a[j], x, u));
        assert(divided64::<F>(t, l[j][j], r[j]));
        assert(divided64::<F>(t, l[j][j], s[j]));
    }
}

proof fn lemma_pivot_repeats<F: FloatOps>(
    a: Seq<u64>,
    r: Seq<u64>,
    s: Seq<u64>,
    i: int,
    d: u64,
    e: u64,
)
    requires
        is_repeatable::<F>(),
        forall|j: int| 0 <= j < i ==> r[j] == s[j],
        pivot_is::<F>(a, r, i, d),
        pivot_is::<F>(a, s, i, e),
    ensures
        d == e,
{
    let x = choose|x: u64|
        {
            &&& dot_is::<F>(r, r, 0, i, x)
            &&& #[trigger] subtracted64::<F>(a[i], x, d)
        };
    let y = choose|y: u64|
        {
            &&& dot_is::<F>(s, s, 0, i, y)
            &&& #[trigger] subtracted64::<F>(a[i], y, e)
        };
    lemma_dot_repeats::<F>(r, r, s, s, 0, i, x, y);
    assert(subtracted64::<F>(a[i], x, d));
    assert(subtracted64::<F>(a[i], x, e));
}

proof fn lemma_factor_repeats<F: FloatOps>(
    a: Seq<Seq<u64>>,
    l: Seq<Seq<u64>>,
    k: Seq<Seq<u64>>,
    m: int,
)
    requires
        is_repeatable::<F>(),
        0 <= m,
        factor_is::<F>(a, l, m),
        factor_is::<F>(a, k, m),
    ensures
        agree(l, k, m),
    decreases m,
{
    if m > 0 {
        let i = m - 1;
        lemma_factor_repeats::<F>(a, l, k, i);
        assert(factor_row_is::<F>(a[i], l, l[i], i));
        assert(factor_row_is::<F>(a[i], k, k[i], i));
        lemma_row_repeats::<F>(a[i], l, k, l[i], k[i], i);
        assert(diagonal_is::<F>(a[i], l[i], i));
        assert(diagonal_is::<F>(a[i], k[i], i));
        let d = choose|d: u64|
            {
                &&& #[trigger] pivot_is::<F>(a[i], l[i], i, d)
                &&& !at_most64(d, 0)
                &&& rooted64::<F>(d, l[i][i])
            };
        let e = choose|e: u64|
            {
                &&& #[trigger] pivot_is::<F>(a[i], k[i], i, e)
                &&& !at_most64(e, 0)
                &&& rooted64::<F>(e, k[i][i])
            };
        lemma_pivot_repeats::<F>(a[i], l[i], k[i], i, d, e);
        assert(rooted64::<F>(d, l[i][i]));
        assert(rooted64::<F>(d, k[i][i]));
    }
}

/// A matrix that breaks down has no solution.
proof fn lemma_breakdown_excludes_solution<F: FloatOps>(
    a: Seq<Seq<u64>>,
    b: Seq<u64>,
    x: Seq<u64>,
)
    requires
        is_repeatable::<F>(),
        breaks_down::<F>(a),
    ensures
        !solution_is::<F>(a, b, x),
{
    if solution_is::<F>(a, b, x) {
        let (l, r, i, d) = choose|l: Seq<Seq<u64>>, r: Seq<u64>, i: int, d: u64|
            #[trigger] breaks_down_at::<F>(a, l, r, i, d);
        let (k, y) = choose|k: Seq<Seq<u64>>, y: Seq<u64>| #[trigger]
            solved_through::<F>(a, b, k, y, x);
        assert(factor_is::<F>(a, k, i)) by {
            assert forall|p: int| 0 <= p < i implies #[trigger] factor_row_is::<F>(
                a[p],
                k,
                k[p],
                p,
            ) by {}
        }
        lemma_factor_repeats::<F>(a, l, k, i);
        assert(factor_row_is::<F>(a[i], k, k[i], i));
        lemma_row_repeats::<F>(a[i], l, k, r, k[i], i);
        assert(diagonal_is::<F>(a[i], k[i], i));
        let e = choose|e: u64|
            {
                &&& #[trigger] pivot_is::<F>(a[i], k[i], i, e)
                &&& !at_most64(e, 0)
                &&& rooted64::<F>(e, k[i][i])
            };
        lemma_pivot_repeats::<F>(a[i], r, k[i], i, d, e);
    }
}

proof fn lemma_forward_repeats<F: FloatOps>(
    l: Seq<Seq<u64>>,
    k: Seq<Seq<u64>>,
    b: Seq<u64>,
    y: Seq<u64>,
    z: Seq<u64>,
    m: int,
    n: int,
)
    requires
        is_repeatable::<F>(),
        0 <= n <= m,
        agree(l, k, m),
        forall|i: int| 0 <= i < m ==> #[trigger] forward_entry_is::<F>(l, b, y, i),
        forall|i: int| 0 <= i < m ==> #[trigger] forward_entry_is::<F>(k, b, z, i),
    ensures
        forall|i: int| 0 <= i < n ==> y[i] == z[i],
    decreases n,
{
    if n > 0 {
        let i = n - 1;
        lemma_forward_repeats::<F>(l, k, b, y, z, m, i);
        assert(forward_entry_is::<F>(l, b, y, i));
        assert(forward_entry_is::<F>(k, b, z, i));
        let (u, t) = choose|u: u64, t: u64|
            {
                &&& dot_is::<F>(l[i], y, 0, i, u)
                &&& #[trigger] subtracted64::<F>(b[i], u, t)
                &&& #[trigger] divided64::<F>(t, l[i][i], y[i])
            };
        let (v, w) = choose|v: u64, w: u64|
            {
                &&& dot_is::<F>(k[i], z, 0, i, v)
                &&& #[trigger] subtracted64::<F>(b[i], v, w)
                &&& #[trigger] divided64::<F>(w, k[i][i], z[i])
            };
        assert forall|j: int| 0 <= j < i implies l[i][j] == k[i][j] by {}
        lemma_dot_repeats::<F>(l[i], y, k[i], z, 0, i, u, v);
        assert(l[i][i] == k[i][i]);
        assert(subtracted64::<F>(b[i], u, t));
        assert(subtracted64::<F>(b[i], u, w));
        assert(divided64::<F>(t, l[i][i], y[i]));
        assert(divided64::<F>(t, l[i][i], z[i]));
    }
}

proof fn lemma_backward_repeats<F: FloatOps>(
    l: Seq<Seq<u64>>,
    k: Seq<Seq<u64>>,
    y: Seq<u64>,
    z: Seq<u64>,
    x: Seq<u64>,
    w: Seq<u64>,
    n: int,
)
    requires
        is_repeatable::<F>(),
        0 <= n <= x.len(),
        x.len() == w.len(),
        l.len() == x.len(),
        k.len() == x.len(),
        agree(l, k, x.len() as int),
        forall|i: int| 0 <= i < x.len() ==> y[i] == z[i],
        forall|i: int| 0 <= i < x.len() ==> #[trigger] backward_entry_is::<F>(l, y, x, i),
        forall|i: int| 0 <= i < x.len() ==> #[trigger] backward_entry_is::<F>(k, z, w, i),
    ensures
        forall|i: int| n <= i < x.len() ==> x[i] == w[i],
    decreases x.len() - n,
{
    if n < x.len() {
        let i = n;
        lemma_backward_repeats::<F>(l, k, y, z, x, w, n + 1);
        assert(backward_entry_is::<F>(l, y, x, i));
        assert(backward_entry_is::<F>(k, z, w, i));
        let (u, t) = choose|u: u64, t: u64|
            {
                &&& dot_is::<F>(column(l, i), x, i + 1, x.len() as int, u)
                &&& #[trigger] subtracted64::<F>(y[i], u, t)
                &&& #[trigger] divided64::<F>(t, l[i][i], x[i])
            };
        let (v, s) = choose|v: u64, s: u64|
            {
                &&& dot_is::<F>(column(k, i), w, i + 1, w.len() as int, v)
                &&& #[trigger] subtracted64::<F>(z[i], v, s)
                &&& #[trigger] divided64::<F>(s, k[i][i], w[i])
            };
        assert forall|j: int| i + 1 <= j < x.len() implies column(l, i)[j] == column(k, i)[j] by {
            assert(l[j][i] == k[j][i]);
        }
        lemma_dot_repeats::<F>(
            column(l, i),
            x,
            column(k, i),
            w,
            i + 1,
            x.len() as int,
            u,
            v,
        );
        assert(l[i][i] == k[i][i]);
        assert(subtracted64::<F>(y[i], u, t));
        assert(subtracted64::<F>(y[i], u, s));
        assert(divided64::<F>(t, l[i][i], x[i]));
        assert(divided64::<F>(t, l[i][i], w[i]));
    }
}

proof fn lemma_solution_repeats<F: FloatOps>(
    a: Seq<Seq<u64>>,
    b: Seq<u64>,
    x: Seq<u64>,
    w: Seq<u64>,
)
    requires
        is_repeatable::<F>(),
        solution_is::<F>(a, b, x),
        solution_is::<F>(a, b, w),
    ensures
        x == w,
{
    let (l, y) = choose|l: Seq<Seq<u64>>, y: Seq<u64>| #[trigger]
        solved_through::<F>(a, b, l, y, x);
    let (k, z) = choose|k: Seq<Seq<u64>>, z: Seq<u64>| #[trigger]
        solved_through::<F>(a, b, k, z, w);
    lemma_factor_repeats::<F>(a, l, k, a.len() as int);
    lemma_forward_repeats::<F>(l, k, b, y, z, a.len() as int, a.len() as int);
    lemma_backward_repeats::<F>(l, k, y, z, x, w, 0);
    assert(x =~= w);
}

proof fn lemma_gradient_repeats<F: FloatOps>(
    a: Seq<u64>,
    b: Seq<u64>,
    x: Seq<u64>,
    g: Seq<u64>,
    h: Seq<u64>,
)
    requires
        is_repeatable::<F>(),
        gradient_is::<F>(a, b, x, g),
        gradient_is::<F>(a, b, x, h),
    ensures
        g == h,
{
    assert forall|i: int| 0 <= i < b.len() implies g[i] == h[i] by {
        assert(gradient_entry_is::<F>(a, b, x, i, g[i]));
        assert(gradient_entry_is::<F>(a, b, x, i, h[i]));
        let r = row(a, b.len() as int, i);
        let u = choose|u: u64|
            {
                &&& dot_is::<F>(r, x, 0, b.len() as int, u)
                &&& #[trigger] subtracted64::<F>(u, b[i], g[i])
            };
        let v = choose|v: u64|
            {
                &&& dot_is::<F>(r, x, 0, b.len() as int, v)
                &&& #[trigger] subtracted64::<F>(v, b[i], h[i])
            };
        lemma_dot_repeats::<F>(r, x, r, x, 0, b.len() as int, u, v);
        assert(subtracted64::<F>(u, b[i], g[i]));
        assert(subtracted64::<F>(u, b[i], h[i]));
    }
    assert(g =~= h);
}

proof fn lemma_entering_repeats(x: Seq<u64>, g: Seq<u64>, free: Seq<bool>, i: int, j: int)
    requires
        is_entering(x, g, free, i),
        is_entering(x, g, free, j),
    ensures
        i == j,
{
    assert(!less64(violation(x[i], g[i]), violation(x[j], g[j])));
    assert(!less64(violation(x[j], g[j]), violation(x[i], g[i])));
}

proof fn lemma_residual_repeats<F: FloatOps>(
    arow: Seq<u64>,
    x: Seq<u64>,
    free: Seq<bool>,
    init: u64,
    n: int,
    r: u64,
    s: u64,
)
    requires
        is_repeatable::<F>(),
        residual_is::<F>(arow, x, free, init, n, r),
        residual_is::<F>(arow, x, free, init, n, s),
    ensures
        r == s,
    decreases n,
{
    if n > 0 {
        if free[n - 1] {
            lemma_residual_repeats::<F>(arow, x, free, init, n - 1, r, s);
        } else {
            let (u, p) = choose|u: u64, p: u64|
                {
                    &&& residual_is::<F>(arow, x, free, init, n - 1, u)
                    &&& #[trigger] multiplied64::<F>(arow[n - 1], x[n - 1], p)
                    &&& #[trigger] subtracted64::<F>(u, p, r)
                };
            let (v, q) = choose|v: u64, q: u64|
                {
                    &&& residual_is::<F>(arow, x, free, init, n - 1, v)
                    &&& #[trigger] multiplied64::<F>(arow[n - 1], x[n - 1], q)
                    &&& #[trigger] subtracted64::<F>(v, q, s)
                };
            lemma_residual_repeats::<F>(arow, x, free, init, n - 1, u, v);
            assert(multiplied64::<F>(arow[n - 1], x[n - 1], p));
            assert(multiplied64::<F>(arow[n - 1], x[n - 1], q));
            assert(subtracted64::<F>(u, p, r));
            assert(subtracted64::<F>(u, p, s));
        }
    }
}

proof fn lemma_rhs_repeats<F: FloatOps>(
    a: Seq<u64>,
    b: Seq<u64>,
    x: Seq<u64>,
    free: Seq<bool>,
    idx: Seq<int>,
    rhs: Seq<u64>,
    other: Seq<u64>,
)
    requires
        is_repeatable::<F>(),
        rhs_is::<F>(a, b, x, free, idx, rhs),
        rhs_is::<F>(a, b, x, free, idx, other),
    ensures
        rhs == other,
{
    assert forall|i: int| 0 <= i < idx.len() implies rhs[i] == other[i] by {
        let r = row(a, b.len() as int, idx[i]);
        assert(residual_is::<F>(r, x, free, b[idx[i]], b.len() as int, rhs[i]));
        assert(residual_is::<F>(r, x, free, b[idx[i]], b.len() as int, other[i]));
        lemma_residual_repeats::<F>(r, x, free, b[idx[i]], b.len() as int, rhs[i], other[i]);
    }
    assert(rhs =~= other);
}

proof fn lemma_fraction_repeats<F: FloatOps>(x: u64, c: u64, alpha: u64, beta: u64)
    requires
        is_repeatable::<F>(),
        fraction_is::<F>(x, c, alpha),
        fraction_is::<F>(x, c, beta),
    ensures
        alpha == beta,
{
    if less64(c, 0) {
        let d = choose|d: u64|
            {
                &&& #[trigger] subtracted64::<F>(x, c, d)
                &&& divided64::<F>(x, d, alpha)
            };
        let e = choose|e: u64|
            {
                &&& #[trigger] subtracted64::<F>(x, c, e)
                &&& divided64::<F>(x, e, beta)
            };
        assert(subtracted64::<F>(x, c, d));
        assert(subtracted64::<F>(x, c, e));
        assert(divided64::<F>(x, d, alpha));
        assert(divided64::<F>(x, d, beta));
    } else {
        let (n, d) = choose|n: u64, d: u64|
            {
                &&& #[trigger] subtracted64::<F>(ONE64, x, n)
                &&& #[trigger] subtracted64::<F>(c, x, d)
                &&& divided64::<F>(n, d, alpha)
            };
        let (m, e) = choose|m: u64, e: u64|
            {
                &&& #[trigger] subtracted64::<F>(ONE64, x, m)
                &&& #[trigger] subtracted64::<F>(c, x, e)
                &&& divided64::<F>(m, e, beta)
            };
        assert(subtracted64::<F>(ONE64, x, n));
        assert(subtracted64::<F>(ONE64, x, m));
        assert(subtracted64::<F>(c, x, d));
        assert(subtracted64::<F>(c, x, e));
        assert(divided64::<F>(n, d, alpha));
        assert(divided64::<F>(n, d, beta));
    }
}

/// Two sets of fractions agree wherever a solution lies outside.
spec fn fractions_agree(cx: Seq<u64>, alphas: Seq<u64>, betas: Seq<u64>) -> bool {
    forall|i: int| 0 <= i < cx.len() && is_outside(cx[i]) ==> #[trigger] alphas[i] == betas[i]
}

proof fn lemma_blocking_repeats(
    cx: Seq<u64>,
    alphas: Seq<u64>,
    betas: Seq<u64>,
    v: int,
    w: int,
)
    requires
        fractions_agree(cx, alphas, betas),
        is_blocking(cx, alphas, v),
        is_blocking(cx, betas, w),
    ensures
        v == w,
{
    assert(alphas[v] == betas[v]);
    assert(alphas[w] == betas[w]);
    assert(!less64(alphas[w], alphas[v]));
    assert(!less64(betas[v], betas[w]));
}

proof fn lemma_moved_repeats<F: FloatOps>(x: u64, c: u64, alpha: u64, r: u64, s: u64)
    requires
        is_repeatable::<F>(),
        moved_is::<F>(x, c, alpha, r),
        moved_is::<F>(x, c, alpha, s),
    ensures
        r == s,
{
    let (d, p) = choose|d: u64, p: u64|
        {
            &&& #[trigger] subtracted64::<F>(c, x, d)
            &&& #[trigger] multiplied64::<F>(alpha, d, p)
            &&& added64::<F>(x, p, r)
        };
    let (e, q) = choose|e: u64, q: u64|
        {
            &&& #[trigger] subtracted64::<F>(c, x, e)
            &&& #[trigger] multiplied64::<F>(alpha, e, q)
            &&& added64::<F>(x, q, s)
        };
    assert(subtracted64::<F>(c, x, d));
    assert(subtracted64::<F>(c, x, e));
    assert(multiplied64::<F>(alpha, d, p));
    assert(multiplied64::<F>(alpha, d, q));
    assert(added64::<F>(x, p, r));
    assert(added64::<F>(x, p, s));
}

/// Two ways to go through a round end alike.
proof fn lemma_round_through_repeats<F: FloatOps>(
    a: Seq<u64>,
    b: Seq<u64>,
    x: Seq<u64>,
    free: Seq<bool>,
    rhs: Seq<u64>,
    cx: Seq<u64>,
    alphas: Seq<u64>,
    o: Round,
    rhs2: Seq<u64>,
    cx2: Seq<u64>,
    alphas2: Seq<u64>,
    o2: Round,
)
    requires
        is_repeatable::<F>(),
        x.len() == b.len(),
        free.len() == b.len(),
        round_through::<F>(a, b, x, free, rhs, cx, alphas, o),
        round_through::<F>(a, b, x, free, rhs2, cx2, alphas2, o2),
    ensures
        o == o2,
{
    let k = b.len() as int;
    let idx = free_list(free, k);
    lemma_free_list(free, k);
    lemma_rhs_repeats::<F>(a, b, x, free, idx, rhs, rhs2);
    lemma_solution_repeats::<F>(sub_matrix(a, k, idx), rhs, cx, cx2);
    assert(cx.len() == idx.len());
    if all_inside(cx) {
        let x1 = o->Settled_0;
        let y1 = o2->Settled_0;
        assert forall|j: int| 0 <= j < x.len() implies x1[j] == y1[j] by {
            if free[j] {
                assert(idx.contains(j));
                let i = choose|i: int| 0 <= i < idx.len() && idx[i] == j;
                assert(x1[idx[i]] == cx[i]);
                assert(y1[idx[i]] == cx[i]);
            }
        }
        assert(x1 =~= y1);
    } else {
        assert forall|i: int| 0 <= i < cx.len() && is_outside(cx[i]) implies #[trigger] alphas[i]
            == alphas2[i] by {
            assert(fraction_is::<F>(x[idx[i]], cx[i], alphas[i]));
            assert(fraction_is::<F>(x[idx[i]], cx[i], alphas2[i]));
            lemma_fraction_repeats::<F>(x[idx[i]], cx[i], alphas[i], alphas2[i]);
        }
        match (o, o2) {
            (Round::Again(x1, f1), Round::Again(y1, g1)) => {
                let v = choose|w: int|
                    {
                        &&& #[trigger] is_blocking(cx, alphas, w)
                        &&& is_moved::<F>(x, free, idx, cx, alphas, w, x1)
                        &&& f1 == free.update(idx[w], false)
                    };
                let w = choose|w: int|
                    {
                        &&& #[trigger] is_blocking(cx, alphas2, w)
                        &&& is_moved::<F>(x, free, idx, cx, alphas2, w, y1)
                        &&& g1 == free.update(idx[w], false)
                    };
                lemma_blocking_repeats(cx, alphas, alphas2, v, w);
                assert(alphas[v] == alphas2[v]);
                assert forall|j: int| 0 <= j < x.len() implies x1[j] == y1[j] by {
                    if free[j] {
                        assert(idx.contains(j));
                        let i = choose|i: int| 0 <= i < idx.len() && idx[i] == j;
                        if i != v {
                            assert(moved_is::<F>(x[idx[i]], cx[i], alphas[v], x1[idx[i]]));
                            assert(moved_is::<F>(x[idx[i]], cx[i], alphas2[v], y1[idx[i]]));
                            lemma_moved_repeats::<F>(
                                x[idx[i]],
                                cx[i],
                                alphas[v],
                                x1[idx[i]],
                                y1[idx[i]],
                            );
                        }
                    }
                }
                assert(x1 =~= y1);
            },
            (Round::Again(x1, f1), Round::Stuck) => {
                let v = choose|w: int|
                    {
                        &&& #[trigger] is_blocking(cx, alphas, w)
                        &&& is_moved::<F>(x, free, idx, cx, alphas, w, x1)
                        &&& f1 == free.update(idx[w], false)
                    };
                assert(alphas[v] == alphas2[v]);
                assert(!less64(alphas2[v], ONE64));
            },
            (Round::Stuck, Round::Again(y1, g1)) => {
                let w = choose|w: int|
                    {
                        &&& #[trigger] is_blocking(cx, alphas2, w)
                        &&& is_moved::<F>(x, free, idx, cx, alphas2, w, y1)
                        &&& g1 == free.update(idx[w], false)
                    };
                assert(alphas[w] == alphas2[w]);
                assert(!less64(alphas[w], ONE64));
            },
            _ => {},
        }
    }
}

proof fn lemma_round_repeats<F: FloatOps>(
    a: Seq<u64>,
    b: Seq<u64>,
    entered: int,
    x: Seq<u64>,
    free: Seq<bool>,
    o: Round,
    o2: Round,
)
    requires
        is_repeatable::<F>(),
        x.len() == b.len(),
        free.len() == b.len(),
        round_is::<F>(a, b, entered, x, free, o),
        round_is::<F>(a, b, entered, x, free, o2),
    ensures
        o == o2,
{
    let k = b.len() as int;
    let idx = free_list(free, k);
    let m = sub_matrix(a, k, idx);
    if idx.len() > 0 {
        if breaks_down::<F>(m) {
            assert forall|rhs: Seq<u64>, cx: Seq<u64>, alphas: Seq<u64>, r: Round| !(#[trigger]
            round_through::<F>(a, b, x, free, rhs, cx, alphas, r)) by {
                lemma_breakdown_excludes_solution::<F>(m, rhs, cx);
            }
        } else {
            let (rhs, cx, alphas) = choose|rhs: Seq<u64>, cx: Seq<u64>, alphas: Seq<u64>|
                #[trigger] round_through::<F>(a, b, x, free, rhs, cx, alphas, o);
            let (rhs2, cx2, alphas2) = choose|rhs: Seq<u64>, cx: Seq<u64>, alphas: Seq<u64>|
                #[trigger] round_through::<F>(a, b, x, free, rhs, cx, alphas, o2);
            lemma_round_through_repeats::<F>(
                a,
                b,
                x,
                free,
                rhs,
                cx,
                alphas,
                o,
                rhs2,
                cx2,
                alphas2,
                o2,
            );
        }
    }
}

/// A round keeps the number of variables.
proof fn lemma_round_sizes<F: FloatOps>(
    a: Seq<u64>,
    b: Seq<u64>,
    entered: int,
    x: Seq<u64>,
    free: Seq<bool>,
    o: Round,
)
    requires
        x.len() == b.len(),
        free.len() == b.len(),
        0 <= entered < b.len(),
        round_is::<F>(a, b, entered, x, free, o),
    ensures
        match o {
            Round::Settled(x1, f1) => x1.len() == b.len() && f1.len() == b.len(),
            Round::Again(x1, f1) => x1.len() == b.len() && f1.len() == b.len(),
            Round::Stuck => true,
        },
{
    lemma_free_list(free, b.len() as int);
}

proof fn lemma_settling_repeats<F: FloatOps>(
    rounds: nat,
    a: Seq<u64>,
    b: Seq<u64>,
    entered: int,
    x: Seq<u64>,
    free: Seq<bool>,
    s: Option<(Seq<u64>, Seq<bool>)>,
    t: Option<(Seq<u64>, Seq<bool>)>,
)
    requires
        is_repeatable::<F>(),
        x.len() == b.len(),
        free.len() == b.len(),
        0 <= entered < b.len(),
        settles::<F>(rounds, a, b, entered, x, free, s),
        settles::<F>(rounds, a, b, entered, x, free, t),
    ensures
        s == t,
        s matches Some(xf) ==> xf.0.len() == b.len() && xf.1.len() == b.len(),
    decreases rounds,
{
    let o = choose|o: Round|
        {
            &&& #[trigger] round_is::<F>(a, b, entered, x, free, o)
            &&& match o {
                Round::Settled(x1, f1) => s == Some((x1, f1)),
                Round::Again(x1, f1) => settles::<F>(
                    (rounds - 1) as nat,
                    a,
                    b,
                    entered,
                    x1,
                    f1,
                    s,
                ),
                Round::Stuck => s is None,
            }
        };
    let o2 = choose|o: Round|
        {
            &&& #[trigger] round_is::<F>(a, b, entered, x, free, o)
            &&& match o {
                Round::Settled(x1, f1) => t == Some((x1, f1)),
                Round::Again(x1, f1) => settles::<F>(
                    (rounds - 1) as nat,
                    a,
                    b,
                    entered,
                    x1,
                    f1,
                    t,
                ),
                Round::Stuck => t is None,
            }
        };
    lemma_round_repeats::<F>(a, b, entered, x, free, o, o2);
    lemma_round_sizes::<F>(a, b, entered, x, free, o);
    match o {
        Round::Again(x1, f1) => {
            lemma_settling_repeats::<F>((rounds - 1) as nat, a, b, entered, x1, f1, s, t);
        },
        _ => {},
    }
}

/// Minimising again from the same start gives the same minimum.
pub proof fn law_minimising_repeats<F: FloatOps>(
    steps: nat,
    a: Seq<u64>,
    b: Seq<u64>,
    x: Seq<u64>,
    free: Seq<bool>,
    r: Option<Seq<u64>>,
    s: Option<Seq<u64>>,
)
    requires
        is_repeatable::<F>(),
        x.len() == b.len(),
        free.len() == b.len(),
        minimises::<F>(steps, a, b, x, free, r),
        minimises::<F>(steps, a, b, x, free, s),
    ensures
        r == s,
    decreases steps,
{
    if steps > 0 {
        let (g, i, u) = lemma_minimising_step::<F>(steps, a, b, x, free, r);
        let (h, j, v) = lemma_minimising_step::<F>(steps, a, b, x, free, s);
        lemma_gradient_repeats::<F>(a, b, x, g, h);
        if !is_optimal(x, g, free) {
            lemma_entering_repeats(x, g, free, i, j);
            lemma_settling_repeats::<F>(b.len() + 1, a, b, i, x, free.update(i, true), u, v);
            match u {
                Some(xf) => {
                    law_minimising_repeats::<F>((steps - 1) as nat, a, b, xf.0, xf.1, r, s);
                },
                None => {},
            }
        }
    }
}

/// The gradient, the entering variable and the settled set of the first step.
pub proof fn lemma_minimising_step<F: FloatOps>(
    steps: nat,
    a: Seq<u64>,
    b: Seq<u64>,
    x: Seq<u64>,
    free: Seq<bool>,
    out: Option<Seq<u64>>,
) -> (r: (Seq<u64>, int, Option<(Seq<u64>, Seq<bool>)>))
    requires
        steps > 0,
        minimises::<F>(steps, a, b, x, free, out),
    ensures
        gradient_is::<F>(a, b, x, r.0),
        if is_optimal(x, r.0, free) {
            out == Some(x)
        } else {
            &&& is_entering(x, r.0, free, r.1)
            &&& settles::<F>(b.len() + 1, a, b, r.1, x, free.update(r.1, true), r.2)
            &&& match r.2 {
                Some(xf) => minimises::<F>((steps - 1) as nat, a, b, xf.0, xf.1, out),
                None => out is None,
            }
        },
{
    let g = choose|g: Seq<u64>|
        {
            &&& #[trigger] gradient_is::<F>(a, b, x, g)
            &&& if is_optimal(x, g, free) {
                out == Some(x)
            } else {
                exists|i: int, s: Option<(Seq<u64>, Seq<bool>)>|
                    {
                        &&& is_entering(x, g, free, i)
                        &&& #[trigger] settles::<F>(
                            b.len() + 1,
                            a,
                            b,
                            i,
                            x,
                            free.update(i, true),
                            s,
                        )
                        &&& match s {
                            Some(xf) => minimises::<F>(
                                (steps - 1) as nat,
                                a,
                                b,
                                xf.0,
                                xf.1,
                                out,
                            ),
                            None => out is None,
                        }
                    }
            }
        };
    if is_optimal(x, g, free) {
        (g, 0, None)
    } else {
        let (i, s) = choose|i: int, s: Option<(Seq<u64>, Seq<bool>)>|
            {
                &&& is_entering(x, g, free, i)
                &&& #[trigger] settles::<F>(b.len() + 1, a, b, i, x, free.update(i, true), s)
                &&& match s {
                    Some(xf) => minimises::<F>((steps - 1) as nat, a, b, xf.0, xf.1, out),
                    None => out is None,
                }
            };
        (g, i, s)
    }
}

proof fn lemma_target_repeats<F: FloatOps>(
    s: BvlsSystem,
    t: BvlsSystem,
    d: Seq<u64>,
    e: Seq<u64>,
    i: int,
    r: u64,
    q: u64,
)
    requires
        is_repeatable::<F>(),
        t.pulled_to(s.prev_weights) == s,
        d == e,
        pulls_alike::<F>(s, t, i),
        s.target_is::<F>(d, i, r),
        t.target_is::<F>(e, i, q),
    ensures
        r == q,
{
    let v = s.masked_position_count as int;
    let line = row(s.dt, v, i);
    let (x, y) = choose|x: u64, y: u64|
        {
            &&& dot_is::<F>(line, d, 0, v, x)
            &&& #[trigger] multiplied64::<F>(s.temporal_scale, s.prev_weights[i], y)
            &&& #[trigger] added64::<F>(x, y, r)
        };
    let (z, w) = choose|z: u64, w: u64|
        {
            &&& dot_is::<F>(line, e, 0, v, z)
            &&& #[trigger] multiplied64::<F>(t.temporal_scale, t.prev_weights[i], w)
            &&& #[trigger] added64::<F>(z, w, q)
        };
    lemma_dot_repeats::<F>(line, d, line, e, 0, v, x, z);
    assert(multiplied64::<F>(s.temporal_scale, s.prev_weights[i], y));
    assert(multiplied64::<F>(t.temporal_scale, t.prev_weights[i], w));
    assert(y == w);
    assert(added64::<F>(x, y, r));
    assert(added64::<F>(x, y, q));
}

/// Whether the temporal pull on weight `i` is the same in both systems.
pub open spec fn pulls_alike<F: FloatOps>(s: BvlsSystem, t: BvlsSystem, i: int) -> bool {
    forall|y: u64, w: u64| #[trigger]
        multiplied64::<F>(s.temporal_scale, s.prev_weights[i], y) && #[trigger] multiplied64::<F>(
            t.temporal_scale,
            t.prev_weights[i],
            w,
        ) ==> y == w
}

/// Two systems that differ in nothing but what they are pulled towards, and
/// are pulled alike, answer a delta alike.
pub proof fn law_alike_systems_answer_alike<F: FloatOps>(
    s: BvlsSystem,
    t: BvlsSystem,
    delta: Seq<u32>,
    s_after: BvlsSystem,
    t_after: BvlsSystem,
    r: Option<Seq<u32>>,
    q: Option<Seq<u32>>,
)
    requires
        is_repeatable::<F>(),
        t.pulled_to(s.prev_weights) == s,
        forall|i: int| 0 <= i < s.active_count ==> #[trigger] pulls_alike::<F>(s, t, i),
        s.solves::<F>(delta, s_after, r),
        t.solves::<F>(delta, t_after, q),
    ensures
        r == q,
        r is Some ==> s_after == t_after,
{
    let s_out = match r {
        Some(_) => Some(s_after.prev_weights),
        None => None,
    };
    let t_out = match q {
        Some(_) => Some(t_after.prev_weights),
        None => None,
    };
    assert(s.minimum_is::<F>(delta, s_out));
    assert(t.minimum_is::<F>(delta, t_out));
    let (d, b) = choose|d: Seq<u64>, b: Seq<u64>| #[trigger]
        s.minimum_through::<F>(delta, d, b, s_out);
    let (e, c) = choose|d: Seq<u64>, b: Seq<u64>| #[trigger]
        t.minimum_through::<F>(delta, d, b, t_out);
    assert forall|j: int| 0 <= j < delta.len() implies d[j] == e[j] by {
        assert(widens(delta[j], d[j]));
        assert(widens(delta[j], e[j]));
        law_widening_is_unique(delta[j], d[j], e[j]);
    }
    assert(d =~= e);
    assert forall|i: int| 0 <= i < b.len() implies b[i] == c[i] by {
        assert(s.target_is::<F>(d, i, b[i]));
        assert(t.target_is::<F>(e, i, c[i]));
        assert(pulls_alike::<F>(s, t, i));
        lemma_target_repeats::<F>(s, t, d, e, i, b[i], c[i]);
    }
    assert(b =~= c);
    law_minimising_repeats::<F>(
        MAX_OUTER_ITERATIONS as nat,
        s.a,
        b,
        zeros(b.len()),
        all_fixed(b.len()),
        s_out,
        t_out,
    );
    match (r, q) {
        (Some(w), Some(z)) => {
            assert forall|i: int| 0 <= i < w.len() implies w[i] == z[i] by {
                assert(narrows(s_after.prev_weights[i], w[i]));
                assert(narrows(t_after.prev_weights[i], z[i]));
                law_narrowing_is_unique(s_after.prev_weights[i], w[i], z[i]);
            }
            assert(w =~= z);
        },
        _ => {},
    }
}

/// A solve depends on nothing but the system, what it is pulled towards and
/// the delta: solving again gives the same weights, bit for bit, and leaves the
/// same behind.
pub proof fn law_solving_repeats<F: FloatOps>(
    s: BvlsSystem,
    delta: Seq<u32>,
    after: BvlsSystem,
    again: BvlsSystem,
    r: Option<Seq<u32>>,
    q: Option<Seq<u32>>,
)
    requires
        is_repeatable::<F>(),
        s.solves::<F>(delta, after, r),
        s.solves::<F>(delta, again, q),
    ensures
        r == q,
        after == again,
{
    law_alike_systems_answer_alike::<F>(s, s, delta, after, again, r, q);
}

/// Whether a system may become `after` by solving for the deltas in turn.
pub open spec fn solves_all<F: FloatOps>(
    s: BvlsSystem,
    deltas: Seq<Seq<u32>>,
    after: BvlsSystem,
) -> bool
    decreases deltas.len(),
{
    if deltas.len() == 0 {
        after == s
    } else {
        exists|mid: BvlsSystem, r: Option<Seq<u32>>|
            solves_all::<F>(s, deltas.drop_last(), mid) && #[trigger] mid.solves::<F>(
                deltas.last(),
                after,
                r,
            )
    }
}

proof fn lemma_solving_keeps_the_system<F: FloatOps>(
    s: BvlsSystem,
    deltas: Seq<Seq<u32>>,
    after: BvlsSystem,
)
    requires
        solves_all::<F>(s, deltas, after),
    ensures
        after.pulled_to(s.prev_weights) == s,
    decreases deltas.len(),
{
    if deltas.len() > 0 {
        let (mid, r) = choose|mid: BvlsSystem, r: Option<Seq<u32>>|
            solves_all::<F>(s, deltas.drop_last(), mid) && #[trigger] mid.solves::<F>(
                deltas.last(),
                after,
                r,
            );
        lemma_solving_keeps_the_system::<F>(s, deltas.drop_last(), mid);
    }
}

/// After any number of further solves, restoring the pull that was saved
/// before a solve makes that solve repeat itself, bit for bit.
pub proof fn law_restored_solves_repeat<F: FloatOps>(
    s: BvlsSystem,
    delta: Seq<u32>,
    after: BvlsSystem,
    r: Option<Seq<u32>>,
    deltas: Seq<Seq<u32>>,
    later: BvlsSystem,
    again: BvlsSystem,
    q: Option<Seq<u32>>,
)
    requires
        is_repeatable::<F>(),
        s.solves::<F>(delta, after, r),
        solves_all::<F>(after, deltas, later),
        later.pulled_to(s.prev_weights).solves::<F>(delta, again, q),
    ensures
        r == q,
        after == again,
{
    lemma_solving_keeps_the_system::<F>(after, deltas, later);
    assert(later.pulled_to(s.prev_weights) == s);
    law_solving_repeats::<F>(s, delta, after, again, r, q);
}

/// Where the temporal pull does not depend on the weights, as with a strength
/// of zero, a solve repeats itself after any number of others without a
/// restore.
pub proof fn law_unpulled_solves_repeat<F: FloatOps>(
    s: BvlsSystem,
    delta: Seq<u32>,
    after: BvlsSystem,
    r: Option<Seq<u32>>,
    deltas: Seq<Seq<u32>>,
    later: BvlsSystem,
    again: BvlsSystem,
    q: Option<Seq<u32>>,
)
    requires
        is_repeatable::<F>(),
        s.solves::<F>(delta, after, r),
        solves_all::<F>(after, deltas, later),
        forall|i: int| 0 <= i < s.active_count ==> #[trigger] pulls_alike::<F>(s, later, i),
        later.solves::<F>(delta, again, q),
    ensures
        r == q,
        r is Some ==> after == again,
{
    lemma_solving_keeps_the_system::<F>(after, deltas, later);
    law_alike_systems_answer_alike::<F>(s, later, delta, after, again, r, q);
}

/// Whether a free system that has been solved can still be factored when one
/// of its variables is fixed. It can with exact arithmetic.
pub open spec fn stays_factorable<F: FloatOps>(a: Seq<u64>, k: int) -> bool {
    forall|free: Seq<bool>, j: int, rhs: Seq<u64>, cx: Seq<u64>|
        #![trigger solution_is::<F>(sub_matrix(a, k, free_list(free, k)), rhs, cx), free.update(j, false)]
        free.len() == k && 0 <= j < k && free[j] && solution_is::<F>(
            sub_matrix(a, k, free_list(free, k)),
            rhs,
            cx,
        ) ==> !breaks_down::<F>(sub_matrix(a, k, free_list(free.update(j, false), k)))
}

/// No variable lies below zero or above one.
pub open spec fn within_bounds(x: Seq<u64>) -> bool {
    forall|j: int| 0 <= j < x.len() ==> !is_outside(#[trigger] x[j])
}

proof fn lemma_settling_stays_within<F: FloatOps>(
    rounds: nat,
    a: Seq<u64>,
    b: Seq<u64>,
    entered: int,
    x: Seq<u64>,
    free: Seq<bool>,
    out: Option<(Seq<u64>, Seq<bool>)>,
)
    requires
        stays_factorable::<F>(a, b.len() as int),
        x.len() == b.len(),
        free.len() == b.len(),
        0 <= entered < b.len(),
        forall|j: int| 0 <= j < x.len() && !free[j] ==> !is_outside(#[trigger] x[j]),
        within_bounds(x) || !breaks_down::<F>(
            sub_matrix(a, b.len() as int, free_list(free, b.len() as int)),
        ),
        settles::<F>(rounds, a, b, entered, x, free, out),
    ensures
        out matches Some(xf) ==> within_bounds(xf.0) && xf.0.len() == b.len() && xf.1.len()
            == b.len(),
    decreases rounds,
{
    let k = b.len() as int;
    let idx = free_list(free, k);
    let o = choose|o: Round|
        {
            &&& #[trigger] round_is::<F>(a, b, entered, x, free, o)
            &&& match o {
                Round::Settled(x1, f1) => out == Some((x1, f1)),
                Round::Again(x1, f1) => settles::<F>(
                    (rounds - 1) as nat,
                    a,
                    b,
                    entered,
                    x1,
                    f1,
                    out,
                ),
                Round::Stuck => out is None,
            }
        };
    lemma_round_sizes::<F>(a, b, entered, x, free, o);
    lemma_free_list(free, k);
    if idx.len() == 0 {
        assert forall|j: int| 0 <= j < x.len() implies !is_outside(#[trigger] x[j]) by {
            if free[j] {
                assert(idx.contains(j));
            }
        }
    } else if exists|rhs: Seq<u64>, cx: Seq<u64>, alphas: Seq<u64>| #[trigger]
        round_through::<F>(a, b, x, free, rhs, cx, alphas, o) {
        let (rhs, cx, alphas) = choose|rhs: Seq<u64>, cx: Seq<u64>, alphas: Seq<u64>| #[trigger]
            round_through::<F>(a, b, x, free, rhs, cx, alphas, o);
        assert(solution_is::<F>(sub_matrix(a, k, idx), rhs, cx));
        assert(cx.len() == idx.len());
        match o {
            Round::Settled(x1, f1) => {
                assert forall|j: int| 0 <= j < x1.len() implies !is_outside(#[trigger] x1[j]) by {
                    if free[j] {
                        assert(idx.contains(j));
                        let i = choose|i: int| 0 <= i < idx.len() && idx[i] == j;
                        assert(x1[idx[i]] == cx[i]);
                        assert(!is_outside(cx[i]));
                    } else {
                        assert(!is_outside(x[j]));
                    }
                }
            },
            Round::Again(x1, f1) => {
                let w = choose|w: int|
                    {
                        &&& #[trigger] is_blocking(cx, alphas, w)
                        &&& is_moved::<F>(x, free, idx, cx, alphas, w, x1)
                        &&& f1 == free.update(idx[w], false)
                    };
                assert(free[idx[w]]);
                assert(f1 == free.update(idx[w], false));
                assert(!breaks_down::<F>(sub_matrix(a, k, free_list(f1, k))));
                assert forall|j: int| 0 <= j < x1.len() && !f1[j] implies !is_outside(
                    #[trigger] x1[j],
                ) by {
                    if j != idx[w] {
                        assert(!is_outside(x[j]));
                    }
                }
                lemma_settling_stays_within::<F>(
                    (rounds - 1) as nat,
                    a,
                    b,
                    entered,
                    x1,
                    f1,
                    out,
                );
            },
            Round::Stuck => {},
        }
    }
}

/// Minimising from within the bounds ends within them, as long as systems that
/// were solved stay factorable.
pub proof fn law_minima_lie_within_bounds<F: FloatOps>(
    steps: nat,
    a: Seq<u64>,
    b: Seq<u64>,
    x: Seq<u64>,
    free: Seq<bool>,
    out: Option<Seq<u64>>,
)
    requires
        stays_factorable::<F>(a, b.len() as int),
        x.len() == b.len(),
        free.len() == b.len(),
        within_bounds(x),
        minimises::<F>(steps, a, b, x, free, out),
    ensures
        out matches Some(m) ==> within_bounds(m) && m.len() == b.len(),
    decreases steps,
{
    if steps > 0 {
        let (g, i, u) = lemma_minimising_step::<F>(steps, a, b, x, free, out);
        if !is_optimal(x, g, free) {
            lemma_settling_stays_within::<F>(
                b.len() + 1,
                a,
                b,
                i,
                x,
                free.update(i, true),
                u,
            );
            match u {
                Some(xf) => {
                    law_minima_lie_within_bounds::<F>((steps - 1) as nat, a, b, xf.0, xf.1, out);
                },
                None => {},
            }
        }
    }
}

/// Every weight of a solve lies between zero and one, unless it is not a
/// number, as long as systems that were solved stay factorable.
pub proof fn law_weights_lie_within_bounds<F: FloatOps>(
    s: BvlsSystem,
    delta: Seq<u32>,
    after: BvlsSystem,
    weights: Seq<u32>,
)
    requires
        stays_factorable::<F>(s.a, s.active_count as int),
        s.solves::<F>(delta, after, Some(weights)),
    ensures
        within_bounds(after.prev_weights),
        forall|i: int|
            0 <= i < weights.len() ==> !less32(#[trigger] weights[i], 0) && !less32(
                ONE32,
                weights[i],
            ),
{
    let out = Some(after.prev_weights);
    assert(s.minimum_is::<F>(delta, out));
    let (d, b) = choose|d: Seq<u64>, b: Seq<u64>| #[trigger]
        s.minimum_through::<F>(delta, d, b, out);
    let start = zeros(b.len());
    assert(within_bounds(start));
    law_minima_lie_within_bounds::<F>(
        MAX_OUTER_ITERATIONS as nat,
        s.a,
        b,
        start,
        all_fixed(b.len()),
        out,
    );
    assert forall|i: int| 0 <= i < weights.len() implies !less32(#[trigger] weights[i], 0)
        && !less32(ONE32, weights[i]) by {
        assert(narrows(after.prev_weights[i], weights[i]));
        assert(!is_outside(after.prev_weights[i]));
        law_narrowing_keeps_the_unit_range(after.prev_weights[i], weights[i]);
    }
}

/// Whether one step leads from `x` with the free set `free` on to `x1` with
/// `f1`: the stop test is not met, and the variable that violates its bound
/// most is freed and the free set settled.
pub open spec fn steps_once<F: FloatOps>(
    a: Seq<u64>,
    b: Seq<u64>,
    x: Seq<u64>,
    free: Seq<bool>,
    x1: Seq<u64>,
    f1: Seq<bool>,
) -> bool {
    exists|g: Seq<u64>, i: int|
        {
            &&& #[trigger] gradient_is::<F>(a, b, x, g)
            &&& !is_optimal(x, g, free)
            &&& is_entering(x, g, free, i)
            &&& #[trigger] settles::<F>(
                b.len() + 1,
                a,
                b,
                i,
                x,
                free.update(i, true),
                Some((x1, f1)),
            )
        }
}

/// Whether exactly `n` steps lead from `x` with the free set `free` to `x1`
/// with `f1`.
pub open spec fn reaches<F: FloatOps>(
    n: nat,
    a: Seq<u64>,
    b: Seq<u64>,
    x: Seq<u64>,
    free: Seq<bool>,
    x1: Seq<u64>,
    f1: Seq<bool>,
) -> bool
    decreases n,
{
    if n == 0 {
        x1 == x && f1 == free
    } else {
        exists|x2: Seq<u64>, f2: Seq<bool>| #[trigger]
            steps_once::<F>(a, b, x, free, x2, f2) && reaches::<F>(
                (n - 1) as nat,
                a,
                b,
                x2,
                f2,
                x1,
                f1,
            )
    }
}

/// Whether some computed gradient at `x` meets the stop test: no fixed variable
/// violates its bound by more than the tolerance.
pub open spec fn stops_at<F: FloatOps>(
    a: Seq<u64>,
    b: Seq<u64>,
    x: Seq<u64>,
    free: Seq<bool>,
) -> bool {
    exists|g: Seq<u64>| #[trigger] gradient_is::<F>(a, b, x, g) && is_optimal(x, g, free)
}

/// Whether `x1` with the free set `f1` is where a minimisation of at most
/// `steps` steps ends after `n` of them: the stop test is met, or all steps
/// were used.
pub open spec fn ends_after<F: FloatOps>(
    n: nat,
    steps: nat,
    a: Seq<u64>,
    b: Seq<u64>,
    x: Seq<u64>,
    free: Seq<bool>,
    x1: Seq<u64>,
    f1: Seq<bool>,
) -> bool {
    &&& n <= steps
    &&& reaches::<F>(n, a, b, x, free, x1, f1)
    &&& n == steps || stops_at::<F>(a, b, x1, f1)
}

/// A minimisation that gives a result stops where a computed gradient meets the
/// stop test over the free set it has reached, or it has used all its steps.
pub proof fn law_minima_meet_the_stop_test<F: FloatOps>(
    steps: nat,
    a: Seq<u64>,
    b: Seq<u64>,
    x: Seq<u64>,
    free: Seq<bool>,
    x1: Seq<u64>,
)
    requires
        minimises::<F>(steps, a, b, x, free, Some(x1)),
    ensures
        exists|n: nat, f1: Seq<bool>| #[trigger]
            ends_after::<F>(n, steps, a, b, x, free, x1, f1),
    decreases steps,
{
    if steps == 0 {
        assert(ends_after::<F>(0, steps, a, b, x, free, x1, free));
    } else {
        let g = choose|g: Seq<u64>|
            {
                &&& #[trigger] gradient_is::<F>(a, b, x, g)
                &&& if is_optimal(x, g, free) {
                    Some(x1) == Some(x)
                } else {
                    exists|i: int, s: Option<(Seq<u64>, Seq<bool>)>|
                        {
                            &&& is_entering(x, g, free, i)
                            &&& #[trigger] settles::<F>(
                                b.len() + 1,
                                a,
                                b,
                                i,
                                x,
                                free.update(i, true),
                                s,
                            )
                            &&& match s {
                                Some(xf) => minimises::<F>(
                                    (steps - 1) as nat,
                                    a,
                                    b,
                                    xf.0,
                                    xf.1,
                                    Some(x1),
                                ),
                                None => false,
                            }
                        }
                }
            };
        if is_optimal(x, g, free) {
            assert(stops_at::<F>(a, b, x1, free));
            assert(ends_after::<F>(0, steps, a, b, x, free, x1, free));
        } else {
            let (i, s) = choose|i: int, s: Option<(Seq<u64>, Seq<bool>)>|
                {
                    &&& is_entering(x, g, free, i)
                    &&& #[trigger] settles::<F>(
                        b.len() + 1,
                        a,
                        b,
                        i,
                        x,
                        free.update(i, true),
                        s,
                    )
                    &&& match s {
                        Some(xf) => minimises::<F>(
                            (steps - 1) as nat,
                            a,
                            b,
                            xf.0,
                            xf.1,
                            Some(x1),
                        ),
                        None => false,
                    }
                };
            let x2 = s->Some_0.0;
            let f2 = s->Some_0.1;
            law_minima_meet_the_stop_test::<F>((steps - 1) as nat, a, b, x2, f2, x1);
            let (n, f1) = choose|n: nat, f1: Seq<bool>| #[trigger]
                ends_after::<F>(n, (steps - 1) as nat, a, b, x2, f2, x1, f1);
            assert(s == Some((x2, f2)));
            assert(steps_once::<F>(a, b, x, free, x2, f2));
            assert(reaches::<F>(n + 1, a, b, x, free, x1, f1));
            assert(ends_after::<F>(n + 1, steps, a, b, x, free, x1, f1));
        }
    }
}

/// Whether a minimisation of the system `s` for the target `b`, from all
/// variables fixed at zero, ends at `x`.
pub open spec fn ends_at<F: FloatOps>(s: BvlsSystem, b: Seq<u64>, x: Seq<u64>) -> bool {
    exists|n: nat, f1: Seq<bool>| #[trigger]
        ends_after::<F>(
            n,
            MAX_OUTER_ITERATIONS as nat,
            s.a,
            b,
            zeros(b.len()),
            all_fixed(b.len()),
            x,
            f1,
        )
}

/// The weights of a solve stand where a computed gradient meets the stop test,
/// or the solve has used all its steps.
pub proof fn law_solves_meet_the_stop_test<F: FloatOps>(
    s: BvlsSystem,
    delta: Seq<u32>,
    after: BvlsSystem,
    w: Seq<u32>,
)
    requires
        s.solves::<F>(delta, after, Some(w)),
    ensures
        exists|d: Seq<u64>, b: Seq<u64>|
            #[trigger] s.minimum_through::<F>(delta, d, b, Some(after.prev_weights)) && ends_at::<F>(
                s,
                b,
                after.prev_weights,
            ),
{
    let x = after.prev_weights;
    let (d, b) = choose|d: Seq<u64>, b: Seq<u64>| #[trigger]
        s.minimum_through::<F>(delta, d, b, Some(x));
    law_minima_meet_the_stop_test::<F>(
        MAX_OUTER_ITERATIONS as nat,
        s.a,
        b,
        zeros(b.len()),
        all_fixed(b.len()),
        x,
    );
    assert(s.minimum_through::<F>(delta, d, b, Some(x)) && ends_at::<F>(s, b, x));
}

/// Where the system of the free variables cannot be factored, a round ends with
/// the variable that was freed last fixed again and nothing moved.
pub proof fn law_unsolvable_rounds_move_nothing<F: FloatOps>(
    a: Seq<u64>,
    b: Seq<u64>,
    entered: int,
    x: Seq<u64>,
    free: Seq<bool>,
    o: Round,
)
    requires
        is_repeatable::<F>(),
        free_list(free, b.len() as int).len() > 0,
        breaks_down::<F>(sub_matrix(a, b.len() as int, free_list(free, b.len() as int))),
        round_is::<F>(a, b, entered, x, free, o),
    ensures
        o == Round::Settled(x, free.update(entered, false)),
{
    let sub = sub_matrix(a, b.len() as int, free_list(free, b.len() as int));
    if exists|rhs: Seq<u64>, cx: Seq<u64>, alphas: Seq<u64>| #[trigger]
        round_through::<F>(a, b, x, free, rhs, cx, alphas, o) {
        let (rhs, cx, alphas) = choose|rhs: Seq<u64>, cx: Seq<u64>, alphas: Seq<u64>| #[trigger]
            round_through::<F>(a, b, x, free, rhs, cx, alphas, o);
        lemma_breakdown_excludes_solution::<F>(sub, rhs, cx);
    }
}

} // verus!
