//! What the Cholesky solves come to, with arithmetic that does not round: they
//! solve the system, and only a matrix that is not positive definite is given
//! up.

use vstd::prelude::*;

use crate::audio2face::cholesky::{backward_entry_is, breaks_down, breaks_down_at, column,
    diagonal_is, entry_is, factor_is, factor_row_is, forward_entry_is, is_square, pivot_is,
    solution_is, solved_through};
use crate::float_bits::{at_most64, is_finite64};
use crate::float_exact::{law_bounds_denote, law_numbers64_are_ordered, never_rounds, number64};
use crate::float_ops::{added64, divided64, dot_is, multiplied64, rooted64, subtracted64, FloatOps};
use crate::real_sums::{across, down, lemma_total_adds, lemma_total_congruent, lemma_total_cut,
    lemma_total_cut_front, lemma_total_of_one, lemma_total_of_zeros, lemma_total_scales,
    lemma_total_splits, lemma_total_swaps, total};

verus! {

/// Whether every entry is a finite number.
pub open spec fn all_finite(s: Seq<u64>) -> bool {
    forall|i: int| 0 <= i < s.len() ==> is_finite64(#[trigger] s[i])
}

/// The sum of the products of the numbers in `xs` and `ys`, from `lo` up to
/// `hi`.
pub open spec fn inner(xs: Seq<u64>, ys: Seq<u64>, lo: int, hi: int) -> real {
    total(|p: int| number64(xs[p]) * number64(ys[p]), lo, hi)
}

/// With exact arithmetic, a dot product is the sum of the products.
pub proof fn law_dot_products_are_sums<F: FloatOps>(
    xs: Seq<u64>,
    ys: Seq<u64>,
    lo: int,
    hi: int,
    r: u64,
)
    requires
        never_rounds::<F>(),
        forall|p: int| lo <= p < hi ==> is_finite64(#[trigger] xs[p]),
        forall|p: int| lo <= p < hi ==> is_finite64(#[trigger] ys[p]),
        dot_is::<F>(xs, ys, lo, hi, r),
    ensures
        is_finite64(r),
        number64(r) == inner(xs, ys, lo, hi),
    decreases hi - lo,
{
    law_bounds_denote();
    if lo < hi {
        let (s, p) = choose|s: u64, p: u64|
            {
                &&& dot_is::<F>(xs, ys, lo, hi - 1, s)
                &&& #[trigger] multiplied64::<F>(xs[hi - 1], ys[hi - 1], p)
                &&& #[trigger] added64::<F>(s, p, r)
            };
        law_dot_products_are_sums::<F>(xs, ys, lo, hi - 1, s);
        assert(is_finite64(xs[hi - 1]) && is_finite64(ys[hi - 1]));
        assert(multiplied64::<F>(xs[hi - 1], ys[hi - 1], p));
        assert(added64::<F>(s, p, r));
    }
}

proof fn lemma_inner_grows(xs: Seq<u64>, ys: Seq<u64>, lo: int, hi: int)
    requires
        lo <= hi,
    ensures
        inner(xs, ys, lo, hi + 1) == inner(xs, ys, lo, hi) + number64(xs[hi]) * number64(ys[hi]),
{
}

/// An entry of a factor times the diagonal entry makes up for what is missing.
proof fn lemma_quotient_makes_up<F: FloatOps>(
    a: u64,
    xs: Seq<u64>,
    ys: Seq<u64>,
    n: int,
    pivot: u64,
    sum: u64,
    t: u64,
    r: u64,
)
    requires
        never_rounds::<F>(),
        0 <= n,
        is_finite64(a),
        is_finite64(pivot),
        number64(pivot) != 0 as real,
        forall|p: int| 0 <= p < n ==> is_finite64(#[trigger] xs[p]),
        forall|p: int| 0 <= p < n ==> is_finite64(#[trigger] ys[p]),
        dot_is::<F>(xs, ys, 0, n, sum),
        subtracted64::<F>(a, sum, t),
        divided64::<F>(t, pivot, r),
    ensures
        is_finite64(r),
        number64(a) == inner(xs, ys, 0, n) + number64(r) * number64(pivot),
{
    law_dot_products_are_sums::<F>(xs, ys, 0, n, sum);
}

/// Row `i` of a factor times row `j` of it is the entry of the matrix.
proof fn lemma_factor_entry<F: FloatOps>(
    a: Seq<Seq<u64>>,
    l: Seq<Seq<u64>>,
    m: int,
    i: int,
    j: int,
)
    requires
        never_rounds::<F>(),
        factor_is::<F>(a, l, m),
        0 <= j <= i < m,
        forall|s: int, t: int| 0 <= s < m && 0 <= t <= s ==> is_finite64(#[trigger] a[s][t]),
    ensures
        is_finite64(l[i][j]),
        number64(a[i][j]) == inner(l[i], l[j], 0, j + 1),
        i == j ==> number64(l[i][i]) > 0 as real,
    decreases i, j,
{
    assert(factor_row_is::<F>(a[i], l, l[i], i));
    assert forall|p: int| 0 <= p < j implies is_finite64(#[trigger] l[i][p]) by {
        lemma_factor_entry::<F>(a, l, m, i, p);
    }
    assert(is_finite64(a[i][j]));
    if j < i {
        assert forall|p: int| 0 <= p < j implies is_finite64(#[trigger] l[j][p]) by {
            lemma_factor_entry::<F>(a, l, m, j, p);
        }
        lemma_factor_entry::<F>(a, l, m, j, j);
        assert(entry_is::<F>(a[i], l, l[i], j));
        let (sum, t) = choose|sum: u64, t: u64|
            {
                &&& dot_is::<F>(l[i], l[j], 0, j, sum)
                &&& #[trigger] subtracted64::<F>(a[i][j], sum, t)
                &&& #[trigger] divided64::<F>(t, l[j][j], l[i][j])
            };
        lemma_quotient_makes_up::<F>(a[i][j], l[i], l[j], j, l[j][j], sum, t, l[i][j]);
    } else {
        assert(diagonal_is::<F>(a[i], l[i], i));
        let d = choose|d: u64|
            {
                &&& #[trigger] pivot_is::<F>(a[i], l[i], i, d)
                &&& !at_most64(d, 0)
                &&& rooted64::<F>(d, l[i][i])
            };
        let sum = choose|sum: u64|
            {
                &&& dot_is::<F>(l[i], l[i], 0, i, sum)
                &&& #[trigger] subtracted64::<F>(a[i][i], sum, d)
            };
        law_dot_products_are_sums::<F>(l[i], l[i], 0, i, sum);
        assert(subtracted64::<F>(a[i][i], sum, d));
        law_bounds_denote();
        law_numbers64_are_ordered(d, 0);
        assert(rooted64::<F>(d, l[i][i]));
        let r = number64(l[i][i]);
        assert(r != 0 as real) by (nonlinear_arith)
            requires
                r * r > 0 as real,
        ;
    }
    lemma_inner_grows(l[i], l[j], 0, j);
}

/// The entry of a factor at `p` in row `s`: zero right of the diagonal.
spec fn lower(l: Seq<Seq<u64>>, s: int, p: int) -> real {
    if p <= s {
        number64(l[s][p])
    } else {
        0 as real
    }
}

/// The product of rows `s` and `t` of a factor, over `n` columns.
spec fn gram(l: Seq<Seq<u64>>, s: int, t: int, n: int) -> real {
    total(|p: int| lower(l, s, p) * lower(l, t, p), 0, n)
}

proof fn lemma_gram_is_symmetric(l: Seq<Seq<u64>>, s: int, t: int, n: int)
    ensures
        gram(l, s, t, n) == gram(l, t, s, n),
{
    let f = |p: int| lower(l, s, p) * lower(l, t, p);
    let g = |p: int| lower(l, t, p) * lower(l, s, p);
    assert forall|p: int| 0 <= p < n implies #[trigger] f(p) == g(p) by {
        let x = lower(l, s, p);
        let y = lower(l, t, p);
        assert(x * y == y * x) by (nonlinear_arith);
    }
    lemma_total_congruent(f, g, 0, n);
}

proof fn lemma_gram_is_entry<F: FloatOps>(
    a: Seq<Seq<u64>>,
    l: Seq<Seq<u64>>,
    m: int,
    i: int,
    j: int,
    n: int,
)
    requires
        never_rounds::<F>(),
        factor_is::<F>(a, l, m),
        0 <= j <= i < m,
        j < n,
        forall|s: int, t: int| 0 <= s < m && 0 <= t <= s ==> is_finite64(#[trigger] a[s][t]),
    ensures
        gram(l, i, j, n) == number64(a[i][j]),
{
    lemma_factor_entry::<F>(a, l, m, i, j);
    let f = |p: int| lower(l, i, p) * lower(l, j, p);
    let g = |p: int| number64(l[i][p]) * number64(l[j][p]);
    assert forall|p: int| j + 1 <= p < n implies #[trigger] f(p) == 0 as real by {
        let x = lower(l, i, p);
        assert(x * 0 as real == 0 as real) by (nonlinear_arith);
    }
    lemma_total_cut(f, 0, j + 1, n);
    lemma_total_congruent(f, g, 0, j + 1);
}

/// Whether a matrix of rows is symmetric in its first `n` rows and columns.
pub open spec fn is_symmetric(a: Seq<Seq<u64>>, n: int) -> bool {
    forall|i: int, j: int|
        0 <= i < n && 0 <= j < n ==> number64(#[trigger] a[i][j]) == number64(a[j][i])
}

/// Whether a matrix of rows holds finite numbers in its first `n` rows and
/// columns.
pub open spec fn is_finite_matrix(a: Seq<Seq<u64>>, n: int) -> bool {
    forall|i: int, j: int| 0 <= i < n && 0 <= j < n ==> is_finite64(#[trigger] a[i][j])
}

proof fn lemma_forward<F: FloatOps>(
    a: Seq<Seq<u64>>,
    b: Seq<u64>,
    l: Seq<Seq<u64>>,
    y: Seq<u64>,
    x: Seq<u64>,
    i: int,
)
    requires
        never_rounds::<F>(),
        solved_through::<F>(a, b, l, y, x),
        0 <= i < a.len(),
        forall|s: int, t: int|
            0 <= s < a.len() && 0 <= t <= s ==> is_finite64(#[trigger] a[s][t]),
        all_finite(b),
        b.len() == a.len(),
    ensures
        is_finite64(y[i]),
        number64(b[i]) == inner(l[i], y, 0, i + 1),
    decreases i,
{
    let m = a.len() as int;
    assert forall|p: int| 0 <= p < i implies is_finite64(#[trigger] y[p]) by {
        lemma_forward::<F>(a, b, l, y, x, p);
    }
    assert forall|p: int| 0 <= p < i implies is_finite64(#[trigger] l[i][p]) by {
        lemma_factor_entry::<F>(a, l, m, i, p);
    }
    lemma_factor_entry::<F>(a, l, m, i, i);
    assert(forward_entry_is::<F>(l, b, y, i));
    let (sum, t) = choose|sum: u64, t: u64|
        {
            &&& dot_is::<F>(l[i], y, 0, i, sum)
            &&& #[trigger] subtracted64::<F>(b[i], sum, t)
            &&& #[trigger] divided64::<F>(t, l[i][i], y[i])
        };
    lemma_quotient_makes_up::<F>(b[i], l[i], y, i, l[i][i], sum, t, y[i]);
    let u = number64(y[i]);
    let v = number64(l[i][i]);
    assert(u * v == v * u) by (nonlinear_arith);
    lemma_inner_grows(l[i], y, 0, i);
}

proof fn lemma_backward<F: FloatOps>(
    a: Seq<Seq<u64>>,
    b: Seq<u64>,
    l: Seq<Seq<u64>>,
    y: Seq<u64>,
    x: Seq<u64>,
    i: int,
)
    requires
        never_rounds::<F>(),
        solved_through::<F>(a, b, l, y, x),
        0 <= i < a.len(),
        forall|s: int, t: int|
            0 <= s < a.len() && 0 <= t <= s ==> is_finite64(#[trigger] a[s][t]),
        all_finite(b),
        b.len() == a.len(),
    ensures
        is_finite64(x[i]),
        number64(y[i]) == total(|j: int| lower(l, j, i) * number64(x[j]), 0, a.len() as int),
    decreases a.len() - i,
{
    let m = a.len() as int;
    assert forall|p: int| i + 1 <= p < m implies is_finite64(#[trigger] x[p]) by {
        lemma_backward::<F>(a, b, l, y, x, p);
    }
    let c = column(l, i);
    assert forall|p: int| i + 1 <= p < m implies is_finite64(#[trigger] c[p]) by {
        lemma_factor_entry::<F>(a, l, m, p, i);
        assert(c[p] == l[p][i]);
    }
    lemma_factor_entry::<F>(a, l, m, i, i);
    lemma_forward::<F>(a, b, l, y, x, i);
    assert(backward_entry_is::<F>(l, y, x, i));
    let (sum, t) = choose|sum: u64, t: u64|
        {
            &&& dot_is::<F>(column(l, i), x, i + 1, x.len() as int, sum)
            &&& #[trigger] subtracted64::<F>(y[i], sum, t)
            &&& #[trigger] divided64::<F>(t, l[i][i], x[i])
        };
    law_dot_products_are_sums::<F>(c, x, i + 1, m, sum);
    assert(subtracted64::<F>(y[i], sum, t));
    assert(divided64::<F>(t, l[i][i], x[i]));
    let f = |j: int| lower(l, j, i) * number64(x[j]);
    let g = |p: int| number64(c[p]) * number64(x[p]);
    assert forall|p: int| i + 1 <= p < m implies #[trigger] f(p) == g(p) by {
        assert(c[p] == l[p][i]);
    }
    lemma_total_congruent(f, g, i + 1, m);
    assert forall|p: int| 0 <= p < i implies #[trigger] f(p) == 0 as real by {
        let u = number64(x[p]);
        assert(0 as real * u == 0 as real) by (nonlinear_arith);
    }
    lemma_total_cut_front(f, 0, i, m);
    lemma_total_splits(f, i, i + 1, m);
    assert(total(f, i, i + 1) == total(f, i, i) + f(i));
    let u = number64(x[i]);
    let v = number64(l[i][i]);
    assert(u * v == v * u) by (nonlinear_arith);
    assert(f(i) == v * u);
}

/// With exact arithmetic the Cholesky solution solves the system: every row of
/// the matrix times the solution is the right-hand side.
pub proof fn law_cholesky_solves_the_system<F: FloatOps>(
    a: Seq<Seq<u64>>,
    b: Seq<u64>,
    x: Seq<u64>,
    i: int,
)
    requires
        never_rounds::<F>(),
        is_square(a, a.len() as int),
        is_symmetric(a, a.len() as int),
        is_finite_matrix(a, a.len() as int),
        b.len() == a.len(),
        all_finite(b),
        solution_is::<F>(a, b, x),
        0 <= i < a.len(),
    ensures
        x.len() == a.len(),
        is_finite64(x[i]),
        total(|j: int| number64(a[i][j]) * number64(x[j]), 0, a.len() as int) == number64(b[i]),
{
    let n = a.len() as int;
    let (l, y) = choose|l: Seq<Seq<u64>>, y: Seq<u64>| #[trigger]
        solved_through::<F>(a, b, l, y, x);
    lemma_backward::<F>(a, b, l, y, x, i);
    lemma_forward::<F>(a, b, l, y, x, i);
    // Row i of the matrix, as a table of products over the factor.
    let f = |j: int, p: int| lower(l, i, p) * (lower(l, j, p) * number64(x[j]));
    let lhs = |j: int| number64(a[i][j]) * number64(x[j]);
    let rows = |j: int| across(f, j, n);
    assert forall|j: int| 0 <= j < n implies #[trigger] lhs(j) == rows(j) by {
        assert(a[i][j] == a[i][j] && a[j][i] == a[j][i]);
        if j <= i {
            lemma_gram_is_entry::<F>(a, l, n, i, j, n);
        } else {
            lemma_gram_is_entry::<F>(a, l, n, j, i, n);
            lemma_gram_is_symmetric(l, j, i, n);
        }
        let g = |p: int| lower(l, i, p) * lower(l, j, p);
        let h = |p: int| f(j, p);
        let u = number64(x[j]);
        assert forall|p: int| 0 <= p < n implies #[trigger] h(p) == u * g(p) by {
            let v = lower(l, i, p);
            let w = lower(l, j, p);
            assert(v * (w * u) == u * (v * w)) by (nonlinear_arith);
        }
        lemma_total_scales(u, g, h, 0, n);
        let e = number64(a[i][j]);
        assert(e * u == u * e) by (nonlinear_arith);
    }
    lemma_total_congruent(lhs, rows, 0, n);
    lemma_total_swaps(f, n, n);
    let columns = |p: int| down(f, p, n);
    let solved = |p: int| lower(l, i, p) * number64(y[p]);
    assert forall|p: int| 0 <= p < n implies #[trigger] columns(p) == solved(p) by {
        lemma_backward::<F>(a, b, l, y, x, p);
        let g = |j: int| lower(l, j, p) * number64(x[j]);
        let h = |j: int| f(j, p);
        let v = lower(l, i, p);
        assert forall|j: int| 0 <= j < n implies #[trigger] h(j) == v * g(j) by {}
        lemma_total_scales(v, g, h, 0, n);
    }
    lemma_total_congruent(columns, solved, 0, n);
    assert forall|p: int| i + 1 <= p < n implies #[trigger] solved(p) == 0 as real by {
        let u = number64(y[p]);
        assert(0 as real * u == 0 as real) by (nonlinear_arith);
    }
    lemma_total_cut(solved, 0, i + 1, n);
    let forward = |p: int| number64(l[i][p]) * number64(y[p]);
    lemma_total_congruent(solved, forward, 0, i + 1);
}

/// Numbers that give the entries of `r` from `p` on when multiplied with the
/// columns of the factor's first `i` rows.
proof fn lemma_columns_reach(l: Seq<Seq<u64>>, r: Seq<u64>, i: int, p: int) -> (z: Seq<real>)
    requires
        0 <= p <= i,
        forall|j: int| 0 <= j < i ==> number64(#[trigger] l[j][j]) != 0 as real,
    ensures
        z.len() == i,
        forall|j: int| 0 <= j < p ==> #[trigger] z[j] == 0 as real,
        forall|q: int|
            p <= q < i ==> total(|j: int| lower(l, j, q) * z[j], 0, i) == number64(#[trigger] r[q]),
    decreases i - p,
{
    if p == i {
        Seq::new(i as nat, |j: int| 0 as real)
    } else {
        let z1 = lemma_columns_reach(l, r, i, p + 1);
        let old_sum = |j: int| lower(l, j, p) * z1[j];
        let pivot = number64(l[p][p]);
        let missing = number64(r[p]) - total(old_sum, 0, i);
        let c = missing / pivot;
        assert(pivot * c == missing) by (nonlinear_arith)
            requires
                pivot != 0 as real,
                c == missing / pivot,
        ;
        let z = z1.update(p, c);
        assert forall|q: int| p <= q < i implies total(|j: int| lower(l, j, q) * z[j], 0, i)
            == number64(#[trigger] r[q]) by {
            let now = |j: int| lower(l, j, q) * z[j];
            if q == p {
                let one = |j: int|
                    if j == p {
                        pivot * c
                    } else {
                        0 as real
                    };
                assert forall|j: int| 0 <= j < i implies #[trigger] now(j) == old_sum(j) + one(j) by {
                    if j == p {
                        assert(z1[p] == 0 as real);
                        assert(pivot * 0 as real == 0 as real) by (nonlinear_arith);
                    }
                }
                lemma_total_adds(old_sum, one, now, 0, i);
                lemma_total_of_one(one, p, i);
            } else {
                let before = |j: int| lower(l, j, q) * z1[j];
                assert forall|j: int| 0 <= j < i implies #[trigger] now(j) == before(j) by {
                    if j == p {
                        let u = z1[p];
                        assert(0 as real * u == 0 as real) by (nonlinear_arith);
                        assert(0 as real * c == 0 as real) by (nonlinear_arith);
                    }
                }
                lemma_total_congruent(now, before, 0, i);
                assert(total(before, 0, i) == number64(r[q]));
            }
        }
        z
    }
}

/// The row on which a factorisation breaks down, times row `j` above it.
proof fn lemma_breaking_row<F: FloatOps>(
    a: Seq<Seq<u64>>,
    l: Seq<Seq<u64>>,
    r: Seq<u64>,
    i: int,
    d: u64,
    j: int,
)
    requires
        never_rounds::<F>(),
        breaks_down_at::<F>(a, l, r, i, d),
        0 <= j < i,
        forall|s: int, t: int| 0 <= s <= i && 0 <= t <= s ==> is_finite64(#[trigger] a[s][t]),
    ensures
        is_finite64(r[j]),
        number64(a[i][j]) == total(|p: int| number64(r[p]) * lower(l, j, p), 0, i),
    decreases j,
{
    assert forall|p: int| 0 <= p < j implies is_finite64(#[trigger] r[p]) by {
        lemma_breaking_row::<F>(a, l, r, i, d, p);
    }
    assert forall|p: int| 0 <= p < j implies is_finite64(#[trigger] l[j][p]) by {
        lemma_factor_entry::<F>(a, l, i, j, p);
    }
    lemma_factor_entry::<F>(a, l, i, j, j);
    assert(is_finite64(a[i][j]));
    assert(entry_is::<F>(a[i], l, r, j));
    let (sum, t) = choose|sum: u64, t: u64|
        {
            &&& dot_is::<F>(r, l[j], 0, j, sum)
            &&& #[trigger] subtracted64::<F>(a[i][j], sum, t)
            &&& #[trigger] divided64::<F>(t, l[j][j], r[j])
        };
    lemma_quotient_makes_up::<F>(a[i][j], r, l[j], j, l[j][j], sum, t, r[j]);
    let f = |p: int| number64(r[p]) * lower(l, j, p);
    let g = |p: int| number64(r[p]) * number64(l[j][p]);
    assert forall|p: int| j + 1 <= p < i implies #[trigger] f(p) == 0 as real by {
        let u = number64(r[p]);
        assert(u * 0 as real == 0 as real) by (nonlinear_arith);
    }
    lemma_total_cut(f, 0, j + 1, i);
    lemma_total_congruent(f, g, 0, j + 1);
    lemma_inner_grows(r, l[j], 0, j);
}

/// What a factor with the row `r` below its first `i` rows holds at `p` in row
/// `s`.
spec fn bordered(l: Seq<Seq<u64>>, r: Seq<u64>, i: int, s: int, p: int) -> real {
    if s < i {
        lower(l, s, p)
    } else {
        number64(r[p])
    }
}

/// Column `p` of such a factor times `y`.
spec fn against(l: Seq<Seq<u64>>, r: Seq<u64>, i: int, y: Seq<real>, p: int) -> real {
    total(|t: int| bordered(l, r, i, t, p) * y[t], 0, i + 1)
}

/// Entry `s` of the matrix times `y`.
pub open spec fn image(a: Seq<Seq<u64>>, y: Seq<real>, s: int) -> real {
    total(|t: int| number64(a[s][t]) * y[t], 0, a.len() as int)
}

/// The direction on which a factorisation breaks down: the matrix maps it to
/// a vector with the failed pivot as its only entry.
proof fn lemma_breaking_direction<F: FloatOps>(
    a: Seq<Seq<u64>>,
    l: Seq<Seq<u64>>,
    r: Seq<u64>,
    i: int,
    d: u64,
) -> (y: Seq<real>)
    requires
        never_rounds::<F>(),
        is_symmetric(a, a.len() as int),
        is_finite_matrix(a, a.len() as int),
        breaks_down_at::<F>(a, l, r, i, d),
    ensures
        y.len() == a.len(),
        y[i] == 1 as real,
        forall|t: int| i < t < a.len() ==> #[trigger] y[t] == 0 as real,
        forall|s: int|
            0 <= s <= i ==> #[trigger] image(a, y, s) == (if s == i {
                number64(d)
            } else {
                0 as real
            }),
        number64(d) <= 0 as real,
{
    let n = a.len() as int;
    assert forall|s: int, t: int| 0 <= s <= i && 0 <= t <= s implies is_finite64(
        #[trigger] a[s][t],
    ) by {}
    assert forall|j: int| 0 <= j < i implies number64(#[trigger] l[j][j]) != 0 as real by {
        lemma_factor_entry::<F>(a, l, i, j, j);
    }
    let z = lemma_columns_reach(l, r, i, 0);
    let y = Seq::new(
        a.len(),
        |t: int|
            if t < i {
                -z[t]
            } else if t == i {
                1 as real
            } else {
                0 as real
            },
    );
    // The failed pivot.
    let sum = choose|sum: u64|
        {
            &&& dot_is::<F>(r, r, 0, i, sum)
            &&& #[trigger] subtracted64::<F>(a[i][i], sum, d)
        };
    assert forall|p: int| 0 <= p < i implies is_finite64(#[trigger] r[p]) by {
        lemma_breaking_row::<F>(a, l, r, i, d, p);
    }
    law_dot_products_are_sums::<F>(r, r, 0, i, sum);
    assert(is_finite64(a[i][i]));
    assert(subtracted64::<F>(a[i][i], sum, d));
    law_bounds_denote();
    law_numbers64_are_ordered(d, 0);
    // Every column of the bordered factor is orthogonal to the direction.
    assert forall|p: int| 0 <= p < i implies #[trigger] against(l, r, i, y, p) == 0 as real by {
        let w = |t: int| bordered(l, r, i, t, p) * y[t];
        let g = |j: int| lower(l, j, p) * z[j];
        let minus: real = -(1 as real);
        assert forall|t: int| 0 <= t < i implies #[trigger] w(t) == minus * g(t) by {
            let u = lower(l, t, p);
            let v = z[t];
            assert(u * (-v) == minus * (u * v)) by (nonlinear_arith)
                requires
                    minus == -(1 as real),
            ;
        }
        lemma_total_scales(minus, g, w, 0, i);
        assert(total(g, 0, i) == number64(r[p]));
        let u = number64(r[p]);
        assert(minus * u == -u) by (nonlinear_arith)
            requires
                minus == -(1 as real),
        ;
        assert(u * 1 as real == u) by (nonlinear_arith);
        assert(w(i) == u);
    }
    assert forall|s: int| 0 <= s <= i implies #[trigger] image(a, y, s) == (if s == i {
        number64(d)
    } else {
        0 as real
    }) by {
        lemma_breaking_product::<F>(a, l, r, i, d, y, s);
    }
    y
}

proof fn lemma_breaking_product<F: FloatOps>(
    a: Seq<Seq<u64>>,
    l: Seq<Seq<u64>>,
    r: Seq<u64>,
    i: int,
    d: u64,
    y: Seq<real>,
    s: int,
)
    requires
        never_rounds::<F>(),
        is_symmetric(a, a.len() as int),
        is_finite_matrix(a, a.len() as int),
        breaks_down_at::<F>(a, l, r, i, d),
        y.len() == a.len(),
        y[i] == 1 as real,
        forall|t: int| i < t < a.len() ==> #[trigger] y[t] == 0 as real,
        forall|p: int|
            0 <= p < i ==> #[trigger] against(l, r, i, y, p) == 0 as real,
        number64(d) == number64(a[i][i]) - inner(r, r, 0, i),
        0 <= s <= i,
    ensures
        image(a, y, s) == (if s == i {
            number64(d)
        } else {
            0 as real
        }),
{
    let n = a.len() as int;
    let lhs = |t: int| number64(a[s][t]) * y[t];
    assert forall|t: int| i + 1 <= t < n implies #[trigger] lhs(t) == 0 as real by {
        let u = number64(a[s][t]);
        assert(y[t] == 0 as real);
        assert(u * 0 as real == 0 as real) by (nonlinear_arith);
    }
    lemma_total_cut(lhs, 0, i + 1, n);
    let f = |t: int, p: int| bordered(l, r, i, s, p) * (bordered(l, r, i, t, p) * y[t]);
    let rows = |t: int| across(f, t, i);
    let extra = |t: int|
        if s == i && t == i {
            number64(d)
        } else {
            0 as real
        };
    assert forall|t: int| 0 <= t < i + 1 implies #[trigger] lhs(t) == rows(t) + extra(t) by {
        let g = |p: int| bordered(l, r, i, s, p) * bordered(l, r, i, t, p);
        lemma_bordered_entry::<F>(a, l, r, i, d, s, t);
        let h = |p: int| f(t, p);
        let u = y[t];
        assert forall|p: int| 0 <= p < i implies #[trigger] h(p) == u * g(p) by {
            let v = bordered(l, r, i, s, p);
            let w = bordered(l, r, i, t, p);
            assert(v * (w * u) == u * (v * w)) by (nonlinear_arith);
        }
        lemma_total_scales(u, g, h, 0, i);
        let e = total(g, 0, i);
        let x = extra(t);
        assert((e + x) * u == u * e + x * u) by (nonlinear_arith);
        if s == i && t == i {
            assert(x * u == x) by (nonlinear_arith)
                requires
                    u == 1 as real,
            ;
        } else {
            assert(x * u == x) by (nonlinear_arith)
                requires
                    x == 0 as real,
            ;
        }
    }
    lemma_total_adds(rows, extra, lhs, 0, i + 1);
    lemma_total_swaps(f, i + 1, i);
    let columns = |p: int| down(f, p, i + 1);
    assert forall|p: int| 0 <= p < i implies #[trigger] columns(p) == 0 as real by {
        let g = |t: int| bordered(l, r, i, t, p) * y[t];
        let h = |t: int| f(t, p);
        let v = bordered(l, r, i, s, p);
        lemma_total_scales(v, g, h, 0, i + 1);
        assert(against(l, r, i, y, p) == total(g, 0, i + 1));
        assert(v * 0 as real == 0 as real) by (nonlinear_arith);
    }
    lemma_total_of_zeros(columns, 0, i);
    if s == i {
        lemma_total_of_one(extra, i, i + 1);
    } else {
        lemma_total_of_zeros(extra, 0, i + 1);
    }
}

proof fn lemma_bordered_entry<F: FloatOps>(
    a: Seq<Seq<u64>>,
    l: Seq<Seq<u64>>,
    r: Seq<u64>,
    i: int,
    d: u64,
    s: int,
    t: int,
)
    requires
        never_rounds::<F>(),
        is_symmetric(a, a.len() as int),
        is_finite_matrix(a, a.len() as int),
        breaks_down_at::<F>(a, l, r, i, d),
        number64(d) == number64(a[i][i]) - inner(r, r, 0, i),
        0 <= s <= i,
        0 <= t <= i,
    ensures
        number64(a[s][t]) == total(
            |p: int| bordered(l, r, i, s, p) * bordered(l, r, i, t, p),
            0,
            i,
        ) + (if s == i && t == i {
            number64(d)
        } else {
            0 as real
        }),
{
    assert forall|u: int, v: int| 0 <= u <= i && 0 <= v <= u implies is_finite64(
        #[trigger] a[u][v],
    ) by {}
    assert(number64(a[s][t]) == number64(a[t][s]));
    let g = |p: int| bordered(l, r, i, s, p) * bordered(l, r, i, t, p);
    if s < i && t < i {
        let h = |p: int| lower(l, s, p) * lower(l, t, p);
        lemma_total_congruent(g, h, 0, i);
        if t <= s {
            lemma_gram_is_entry::<F>(a, l, i, s, t, i);
        } else {
            lemma_gram_is_entry::<F>(a, l, i, t, s, i);
            lemma_gram_is_symmetric(l, t, s, i);
        }
    } else if s == i && t == i {
        let h = |p: int| number64(r[p]) * number64(r[p]);
        lemma_total_congruent(g, h, 0, i);
    } else if s == i {
        lemma_breaking_row::<F>(a, l, r, i, d, t);
        let h = |p: int| number64(r[p]) * lower(l, t, p);
        lemma_total_congruent(g, h, 0, i);
    } else {
        lemma_breaking_row::<F>(a, l, r, i, d, s);
        let h = |p: int| number64(r[p]) * lower(l, s, p);
        assert forall|p: int| 0 <= p < i implies #[trigger] g(p) == h(p) by {
            let u = number64(r[p]);
            let v = lower(l, s, p);
            assert(v * u == u * v) by (nonlinear_arith);
        }
        lemma_total_congruent(g, h, 0, i);
    }
}

/// With exact arithmetic a factorisation breaks down only where the matrix is
/// not positive definite: some direction with an entry of one has a product
/// with its own image that is not positive.
pub proof fn law_breakdown_shows_a_flat_direction<F: FloatOps>(a: Seq<Seq<u64>>) -> (r: (
    Seq<real>,
    int,
))
    requires
        never_rounds::<F>(),
        is_symmetric(a, a.len() as int),
        is_finite_matrix(a, a.len() as int),
        breaks_down::<F>(a),
    ensures
        r.0.len() == a.len(),
        0 <= r.1 < a.len(),
        r.0[r.1] == 1 as real,
        total(|s: int| r.0[s] * image(a, r.0, s), 0, a.len() as int) <= 0 as real,
{
    let (l, row, i, d) = choose|l: Seq<Seq<u64>>, row: Seq<u64>, i: int, d: u64| #[trigger]
        breaks_down_at::<F>(a, l, row, i, d);
    let y = lemma_breaking_direction::<F>(a, l, row, i, d);
    let n = a.len() as int;
    let f = |s: int| y[s] * image(a, y, s);
    assert forall|s: int| 0 <= s < n && s != i implies #[trigger] f(s) == 0 as real by {
        let u = image(a, y, s);
        if s < i {
            let v = y[s];
            assert(u == 0 as real);
            assert(v * 0 as real == 0 as real) by (nonlinear_arith);
        } else {
            assert(y[s] == 0 as real);
            assert(0 as real * u == 0 as real) by (nonlinear_arith);
        }
    }
    lemma_total_of_one(f, i, n);
    let u = image(a, y, i);
    assert(u == number64(d));
    assert(1 as real * u == u) by (nonlinear_arith);
    (y, i)
}

} // verus!
