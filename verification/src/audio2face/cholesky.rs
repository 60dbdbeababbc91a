//! Cholesky factorisation and triangular solves over bit patterns.

use vstd::prelude::*;

use crate::float_bits::{at_most64, le64};
use crate::float_ops::{add64, div64, divided64, dot, dot_is, lemma_dot_frame, lemma_dot_step,
    mul64, rooted64, sqrt64, sub64, subtracted64, FloatOps};

verus! {

/// The matrix held by a vector of rows.
pub open spec fn rows(m: Seq<Vec<u64>>) -> Seq<Seq<u64>> {
    Seq::new(m.len(), |i: int| m[i]@)
}

/// `m` has `n` rows of `n` entries.
pub open spec fn is_square(m: Seq<Seq<u64>>, n: int) -> bool {
    m.len() == n && forall|i: int| 0 <= i < n ==> (#[trigger] m[i]).len() == n
}

/// Column `i` of `m`.
pub open spec fn column(m: Seq<Seq<u64>>, i: int) -> Seq<u64> {
    Seq::new(m.len(), |j: int| m[j][i])
}

/// Entry `j` of factor row `r`, left of the diagonal: `(a[j] - r . l[j]) / l[j][j]`
/// with the dot product over the first `j` entries.
pub open spec fn entry_is<F: FloatOps>(
    a: Seq<u64>,
    l: Seq<Seq<u64>>,
    r: Seq<u64>,
    j: int,
) -> bool {
    exists|sum: u64, t: u64|
        {
            &&& dot_is::<F>(r, l[j], 0, j, sum)
            &&& #[trigger] subtracted64::<F>(a[j], sum, t)
            &&& #[trigger] divided64::<F>(t, l[j][j], r[j])
        }
}

/// `d` is the pivot of factor row `r` in row `i`: `a[i] - r . r` over the
/// first `i` entries.
pub open spec fn pivot_is<F: FloatOps>(a: Seq<u64>, r: Seq<u64>, i: int, d: u64) -> bool {
    exists|sum: u64|
        {
            &&& dot_is::<F>(r, r, 0, i, sum)
            &&& #[trigger] subtracted64::<F>(a[i], sum, d)
        }
}

/// The diagonal entry of factor row `r` is the root of a pivot that is not
/// zero or less.
pub open spec fn diagonal_is<F: FloatOps>(a: Seq<u64>, r: Seq<u64>, i: int) -> bool {
    exists|d: u64|
        {
            &&& #[trigger] pivot_is::<F>(a, r, i, d)
            &&& !at_most64(d, 0)
            &&& rooted64::<F>(d, r[i])
        }
}

/// `r` is row `i` of the lower-triangular factor of a matrix with row `a`,
/// given the rows `l` above it.
pub open spec fn factor_row_is<F: FloatOps>(
    a: Seq<u64>,
    l: Seq<Seq<u64>>,
    r: Seq<u64>,
    i: int,
) -> bool {
    &&& forall|j: int| 0 <= j < i ==> #[trigger] entry_is::<F>(a, l, r, j)
    &&& diagonal_is::<F>(a, r, i)
    &&& forall|j: int| i < j < r.len() ==> r[j] == 0
}

/// The first `m` rows of `l` are those of the lower-triangular factor of `a`.
pub open spec fn factor_is<F: FloatOps>(
    a: Seq<Seq<u64>>,
    l: Seq<Seq<u64>>,
    m: int,
) -> bool {
    forall|i: int| 0 <= i < m ==> #[trigger] factor_row_is::<F>(a[i], l, l[i], i)
}

/// Factoring `a` stops at some row `i`: the rows above it factor, and its
/// pivot `d` is zero or less.
pub open spec fn breaks_down_at<F: FloatOps>(
    a: Seq<Seq<u64>>,
    l: Seq<Seq<u64>>,
    r: Seq<u64>,
    i: int,
    d: u64,
) -> bool {
    &&& 0 <= i < a.len()
    &&& factor_is::<F>(a, l, i)
    &&& forall|j: int| 0 <= j < i ==> #[trigger] entry_is::<F>(a[i], l, r, j)
    &&& pivot_is::<F>(a[i], r, i, d)
    &&& at_most64(d, 0)
}

/// `a` is not positive definite: factoring it meets a pivot of zero or less.
pub open spec fn breaks_down<F: FloatOps>(a: Seq<Seq<u64>>) -> bool {
    exists|l: Seq<Seq<u64>>, r: Seq<u64>, i: int, d: u64|
        #[trigger] breaks_down_at::<F>(a, l, r, i, d)
}

/// `y[i]` is `(b[i] - l[i] . y) / l[i][i]` with the dot product over the
/// first `i` entries.
pub open spec fn forward_entry_is<F: FloatOps>(
    l: Seq<Seq<u64>>,
    b: Seq<u64>,
    y: Seq<u64>,
    i: int,
) -> bool {
    exists|sum: u64, t: u64|
        {
            &&& dot_is::<F>(l[i], y, 0, i, sum)
            &&& #[trigger] subtracted64::<F>(b[i], sum, t)
            &&& #[trigger] divided64::<F>(t, l[i][i], y[i])
        }
}

/// `x[i]` is `(y[i] - column i of l . x) / l[i][i]` with the dot product over
/// the entries after `i`.
pub open spec fn backward_entry_is<F: FloatOps>(
    l: Seq<Seq<u64>>,
    y: Seq<u64>,
    x: Seq<u64>,
    i: int,
) -> bool {
    exists|sum: u64, t: u64|
        {
            &&& dot_is::<F>(column(l, i), x, i + 1, x.len() as int, sum)
            &&& #[trigger] subtracted64::<F>(y[i], sum, t)
            &&& #[trigger] divided64::<F>(t, l[i][i], x[i])
        }
}

/// `x` comes out of factoring `a` as `l`, solving `l y = b` downwards and the
/// transposed system upwards.
pub open spec fn solved_through<F: FloatOps>(
    a: Seq<Seq<u64>>,
    b: Seq<u64>,
    l: Seq<Seq<u64>>,
    y: Seq<u64>,
    x: Seq<u64>,
) -> bool {
    &&& is_square(l, a.len() as int)
    &&& factor_is::<F>(a, l, a.len() as int)
    &&& y.len() == a.len()
    &&& forall|i: int| 0 <= i < a.len() ==> #[trigger] forward_entry_is::<F>(l, b, y, i)
    &&& x.len() == a.len()
    &&& forall|i: int| 0 <= i < a.len() ==> #[trigger] backward_entry_is::<F>(l, y, x, i)
}

/// `x` is the Cholesky solution of `a x = b`.
pub open spec fn solution_is<F: FloatOps>(a: Seq<Seq<u64>>, b: Seq<u64>, x: Seq<u64>) -> bool {
    exists|l: Seq<Seq<u64>>, y: Seq<u64>| #[trigger] solved_through::<F>(a, b, l, y, x)
}

proof fn lemma_entry_extends<F: FloatOps>(
    a: Seq<u64>,
    l: Seq<Seq<u64>>,
    r: Seq<u64>,
    m: Seq<Seq<u64>>,
    s: Seq<u64>,
    j: int,
)
    requires
        0 <= j < r.len(),
        j < l.len(),
        r.len() <= s.len(),
        l.len() <= m.len(),
        forall|i: int| 0 <= i < r.len() ==> r[i] == s[i],
        forall|i: int| 0 <= i < l.len() ==> l[i] == m[i],
        entry_is::<F>(a, l, r, j),
    ensures
        entry_is::<F>(a, m, s, j),
{
    let (sum, t) = choose|sum: u64, t: u64|
        {
            &&& dot_is::<F>(r, l[j], 0, j, sum)
            &&& #[trigger] subtracted64::<F>(a[j], sum, t)
            &&& #[trigger] divided64::<F>(t, l[j][j], r[j])
        };
    lemma_dot_frame::<F>(r, l[j], s, m[j], 0, j, sum);
    assert(subtracted64::<F>(a[j], sum, t));
    assert(divided64::<F>(t, m[j][j], s[j]));
}

/// Computes the entries of factor row `i` left of the diagonal.
fn factor_row_head<F: FloatOps>(a: &Vec<u64>, l: &Vec<Vec<u64>>, i: usize) -> (r: Vec<u64>)
    requires
        i == l@.len(),
        i <= a@.len(),
        forall|j: int| 0 <= j < i ==> (#[trigger] l@[j])@.len() == a@.len(),
    ensures
        r@.len() == i,
        forall|j: int| 0 <= j < i ==> #[trigger] entry_is::<F>(a@, rows(l@), r@, j),
{
    let mut r: Vec<u64> = Vec::new();
    let mut j: usize = 0;
    while j < i
        invariant
            j <= i <= a@.len(),
            i == l@.len(),
            r@.len() == j,
            forall|j: int| 0 <= j < i ==> (#[trigger] l@[j])@.len() == a@.len(),
            forall|p: int| 0 <= p < j ==> #[trigger] entry_is::<F>(a@, rows(l@), r@, p),
        decreases i - j,
    {
        let ghost before = r@;
        let lj: &Vec<u64> = &l[j];
        let sum: u64 = dot::<F>(r.as_slice(), lj.as_slice(), j);
        let t: u64 = sub64::<F>(a[j], sum);
        let e: u64 = div64::<F>(t, lj[j]);
        r.push(e);
        proof {
            let m = rows(l@);
            lemma_dot_frame::<F>(before, m[j as int], r@, m[j as int], 0, j as int, sum);
            assert(subtracted64::<F>(a@[j as int], sum, t));
            assert(divided64::<F>(t, m[j as int][j as int], r@[j as int]));
            assert(entry_is::<F>(a@, m, r@, j as int));
            assert forall|p: int| 0 <= p < j + 1 implies #[trigger] entry_is::<F>(
                a@,
                m,
                r@,
                p,
            ) by {
                if p < j {
                    lemma_entry_extends::<F>(a@, m, before, m, r@, p);
                }
            }
        }
        j = j + 1;
    }
    r
}

/// Lower-triangular factor of `a`, or `None` when a pivot is zero or less.
fn factor<F: FloatOps>(a: &Vec<Vec<u64>>) -> (r: Option<Vec<Vec<u64>>>)
    requires
        is_square(rows(a@), a@.len() as int),
    ensures
        match r {
            Some(l) => {
                &&& is_square(rows(l@), a@.len() as int)
                &&& factor_is::<F>(rows(a@), rows(l@), a@.len() as int)
            },
            None => breaks_down::<F>(rows(a@)),
        },
{
    let n: usize = a.len();
    let ghost am = rows(a@);
    let mut l: Vec<Vec<u64>> = Vec::new();
    let mut i: usize = 0;
    while i < n
        invariant
            i <= n,
            n == a@.len(),
            am == rows(a@),
            is_square(am, n as int),
            l@.len() == i,
            forall|j: int| 0 <= j < i ==> (#[trigger] l@[j])@.len() == n,
            factor_is::<F>(am, rows(l@), i as int),
        decreases n - i,
    {
        let ghost lm = rows(l@);
        let ai: &Vec<u64> = &a[i];
        assert(ai@ == am[i as int]);
        let mut r: Vec<u64> = factor_row_head::<F>(ai, &l, i);
        let ghost head = r@;
        let sum: u64 = dot::<F>(r.as_slice(), r.as_slice(), i);
        let d: u64 = sub64::<F>(ai[i], sum);
        assert(pivot_is::<F>(ai@, head, i as int, d)) by {
            assert(subtracted64::<F>(ai@[i as int], sum, d));
        }
        if le64(d, 0) {
            assert(breaks_down_at::<F>(am, lm, head, i as int, d));
            return None;
        }
        let e: u64 = sqrt64::<F>(d);
        r.push(e);
        let mut j: usize = i + 1;
        while j < n
            invariant
                i < j <= n,
                r@.len() == j,
                forall|p: int| 0 <= p < i ==> r@[p] == head[p],
                head.len() == i,
                r@[i as int] == e,
                forall|p: int| i < p < j ==> r@[p] == 0,
            decreases n - j,
        {
            r.push(0);
            j = j + 1;
        }
        let ghost row = r@;
        l.push(r);
        proof {
            let m = rows(l@);
            assert(m[i as int] == row);
            lemma_dot_frame::<F>(head, head, row, row, 0, i as int, sum);
            assert(subtracted64::<F>(ai@[i as int], sum, d));
            assert(pivot_is::<F>(ai@, row, i as int, d));
            assert(diagonal_is::<F>(am[i as int], row, i as int));
            assert forall|p: int| 0 <= p < i implies #[trigger] entry_is::<F>(
                am[i as int],
                m,
                row,
                p,
            ) by {
                assert(entry_is::<F>(ai@, lm, head, p));
                lemma_entry_extends::<F>(ai@, lm, head, m, row, p);
            }
            assert forall|q: int| 0 <= q < i + 1 implies #[trigger] factor_row_is::<F>(
                am[q],
                m,
                m[q],
                q,
            ) by {
                if q < i {
                    assert(factor_row_is::<F>(am[q], lm, lm[q], q));
                    assert forall|p: int| 0 <= p < q implies #[trigger] entry_is::<F>(
                        am[q],
                        m,
                        m[q],
                        p,
                    ) by {
                        assert(entry_is::<F>(am[q], lm, lm[q], p));
                        assert(lm[q].len() == n);
                        lemma_entry_extends::<F>(am[q], lm, lm[q], m, m[q], p);
                    }
                }
            }
        }
        i = i + 1;
    }
    Some(l)
}

/// Solves `l y = b` from the first entry to the last.
fn forward<F: FloatOps>(l: &Vec<Vec<u64>>, b: &Vec<u64>) -> (y: Vec<u64>)
    requires
        is_square(rows(l@), l@.len() as int),
        b@.len() == l@.len(),
    ensures
        y@.len() == l@.len(),
        forall|i: int| 0 <= i < l@.len() ==> #[trigger] forward_entry_is::<F>(
            rows(l@),
            b@,
            y@,
            i,
        ),
{
    let n: usize = l.len();
    let ghost lm = rows(l@);
    let mut y: Vec<u64> = Vec::new();
    let mut i: usize = 0;
    while i < n
        invariant
            i <= n,
            n == l@.len(),
            n == b@.len(),
            lm == rows(l@),
            is_square(lm, n as int),
            y@.len() == i,
            forall|p: int| 0 <= p < i ==> #[trigger] forward_entry_is::<F>(lm, b@, y@, p),
        decreases n - i,
    {
        let ghost before = y@;
        let li: &Vec<u64> = &l[i];
        assert(li@ == lm[i as int]);
        let sum: u64 = dot::<F>(li.as_slice(), y.as_slice(), i);
        let t: u64 = sub64::<F>(b[i], sum);
        let e: u64 = div64::<F>(t, li[i]);
        y.push(e);
        proof {
            lemma_dot_frame::<F>(li@, before, li@, y@, 0, i as int, sum);
            assert(subtracted64::<F>(b@[i as int], sum, t));
            assert(divided64::<F>(t, lm[i as int][i as int], y@[i as int]));
            assert forall|p: int| 0 <= p < i + 1 implies #[trigger] forward_entry_is::<F>(
                lm,
                b@,
                y@,
                p,
            ) by {
                if p < i {
                    assert(forward_entry_is::<F>(lm, b@, before, p));
                    let (s, u) = choose|s: u64, u: u64|
                        {
                            &&& dot_is::<F>(lm[p], before, 0, p, s)
                            &&& #[trigger] subtracted64::<F>(b@[p], s, u)
                            &&& #[trigger] divided64::<F>(u, lm[p][p], before[p])
                        };
                    lemma_dot_frame::<F>(lm[p], before, lm[p], y@, 0, p, s);
                    assert(subtracted64::<F>(b@[p], s, u));
                    assert(divided64::<F>(u, lm[p][p], y@[p]));
                }
            }
        }
        i = i + 1;
    }
    y
}

/// Dot product of column `i` of `l` with `x`, over the entries after `i`.
fn column_dot<F: FloatOps>(l: &Vec<Vec<u64>>, x: &Vec<u64>, i: usize) -> (r: u64)
    requires
        is_square(rows(l@), l@.len() as int),
        x@.len() == l@.len(),
        i < l@.len(),
    ensures
        dot_is::<F>(column(rows(l@), i as int), x@, i + 1, x@.len() as int, r),
{
    let n: usize = l.len();
    let ghost c = column(rows(l@), i as int);
    let mut sum: u64 = 0;
    let mut j: usize = i + 1;
    while j < n
        invariant
            i < j <= n,
            n == l@.len(),
            n == x@.len(),
            is_square(rows(l@), n as int),
            c == column(rows(l@), i as int),
            dot_is::<F>(c, x@, i + 1, j as int, sum),
        decreases n - j,
    {
        let lj: &Vec<u64> = &l[j];
        assert(lj@ == rows(l@)[j as int]);
        let p: u64 = mul64::<F>(lj[i], x[j]);
        let next: u64 = add64::<F>(sum, p);
        proof {
            assert(c[j as int] == lj@[i as int]);
            lemma_dot_step::<F>(c, x@, i + 1, j as int, sum, p, next);
        }
        sum = next;
        j = j + 1;
    }
    sum
}

/// Solves the transposed system `l' x = y` from the last entry to the first.
fn backward<F: FloatOps>(l: &Vec<Vec<u64>>, y: &Vec<u64>) -> (x: Vec<u64>)
    requires
        is_square(rows(l@), l@.len() as int),
        y@.len() == l@.len(),
    ensures
        x@.len() == l@.len(),
        forall|i: int| 0 <= i < l@.len() ==> #[trigger] backward_entry_is::<F>(
            rows(l@),
            y@,
            x@,
            i,
        ),
{
    let n: usize = l.len();
    let ghost lm = rows(l@);
    let mut x: Vec<u64> = vec![0u64; n];
    let mut i: usize = n;
    while i > 0
        invariant
            i <= n,
            n == l@.len(),
            n == y@.len(),
            n == x@.len(),
            lm == rows(l@),
            is_square(lm, n as int),
            forall|p: int| i <= p < n ==> #[trigger] backward_entry_is::<F>(lm, y@, x@, p),
        decreases i,
    {
        i = i - 1;
        let ghost before = x@;
        let li: &Vec<u64> = &l[i];
        assert(li@ == lm[i as int]);
        let sum: u64 = column_dot::<F>(l, &x, i);
        let t: u64 = sub64::<F>(y[i], sum);
        let e: u64 = div64::<F>(t, li[i]);
        x.set(i, e);
        proof {
            let c = column(lm, i as int);
            lemma_dot_frame::<F>(c, before, c, x@, i + 1, n as int, sum);
            assert(subtracted64::<F>(y@[i as int], sum, t));
            assert(divided64::<F>(t, lm[i as int][i as int], x@[i as int]));
            assert forall|p: int| i <= p < n implies #[trigger] backward_entry_is::<F>(
                lm,
                y@,
                x@,
                p,
            ) by {
                if p > i {
                    assert(backward_entry_is::<F>(lm, y@, before, p));
                    let cp = column(lm, p);
                    let (s, u) = choose|s: u64, u: u64|
                        {
                            &&& dot_is::<F>(cp, before, p + 1, before.len() as int, s)
                            &&& #[trigger] subtracted64::<F>(y@[p], s, u)
                            &&& #[trigger] divided64::<F>(u, lm[p][p], before[p])
                        };
                    lemma_dot_frame::<F>(cp, before, cp, x@, p + 1, n as int, s);
                    assert(subtracted64::<F>(y@[p], s, u));
                    assert(divided64::<F>(u, lm[p][p], x@[p]));
                }
            }
        }
    }
    x
}

/// Solves `a x = b` for a symmetric positive-definite `a`.
///
/// Returns `None` if the matrix is not positive definite: a diagonal entry
/// goes to zero or below during the decomposition.
pub fn cholesky_solve<F: FloatOps>(a: &Vec<Vec<u64>>, b: &Vec<u64>) -> (r: Option<Vec<u64>>)
    requires
        is_square(rows(a@), a@.len() as int),
        b@.len() == a@.len(),
    ensures
        match r {
            Some(x) => solution_is::<F>(rows(a@), b@, x@),
            None => breaks_down::<F>(rows(a@)),
        },
{
    match factor::<F>(a) {
        Some(l) => {
            let y: Vec<u64> = forward::<F>(&l, b);
            let x: Vec<u64> = backward::<F>(&l, &y);
            assert(solved_through::<F>(rows(a@), b@, rows(l@), y@, x@));
            Some(x)
        },
        None => None,
    }
}

} // verus!
