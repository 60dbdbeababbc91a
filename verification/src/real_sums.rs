//! Finite sums of real numbers.

use vstd::prelude::*;

use crate::float_rounding::distance;

verus! {

/// `f(lo) + ... + f(hi - 1)`.
pub open spec fn total(f: spec_fn(int) -> real, lo: int, hi: int) -> real
    decreases hi - lo,
{
    if hi <= lo {
        0 as real
    } else {
        total(f, lo, hi - 1) + f(hi - 1)
    }
}

/// A sum only reads the terms in its range.
pub proof fn lemma_total_congruent(
    f: spec_fn(int) -> real,
    g: spec_fn(int) -> real,
    lo: int,
    hi: int,
)
    requires
        forall|i: int| lo <= i < hi ==> #[trigger] f(i) == g(i),
    ensures
        total(f, lo, hi) == total(g, lo, hi),
    decreases hi - lo,
{
    if lo < hi {
        assert(f(hi - 1) == g(hi - 1));
        lemma_total_congruent(f, g, lo, hi - 1);
    }
}

/// A sum of zeros is zero.
pub proof fn lemma_total_of_zeros(f: spec_fn(int) -> real, lo: int, hi: int)
    requires
        forall|i: int| lo <= i < hi ==> #[trigger] f(i) == 0 as real,
    ensures
        total(f, lo, hi) == 0 as real,
    decreases hi - lo,
{
    if lo < hi {
        assert(f(hi - 1) == 0 as real);
        lemma_total_of_zeros(f, lo, hi - 1);
    }
}

/// Sums add term by term.
pub proof fn lemma_total_adds(
    f: spec_fn(int) -> real,
    g: spec_fn(int) -> real,
    h: spec_fn(int) -> real,
    lo: int,
    hi: int,
)
    requires
        forall|i: int| lo <= i < hi ==> #[trigger] h(i) == f(i) + g(i),
    ensures
        total(h, lo, hi) == total(f, lo, hi) + total(g, lo, hi),
    decreases hi - lo,
{
    if lo < hi {
        assert(h(hi - 1) == f(hi - 1) + g(hi - 1));
        lemma_total_adds(f, g, h, lo, hi - 1);
    }
}

/// A common factor comes out of a sum.
pub proof fn lemma_total_scales(
    c: real,
    f: spec_fn(int) -> real,
    h: spec_fn(int) -> real,
    lo: int,
    hi: int,
)
    requires
        forall|i: int| lo <= i < hi ==> #[trigger] h(i) == c * f(i),
    ensures
        total(h, lo, hi) == c * total(f, lo, hi),
    decreases hi - lo,
{
    if lo < hi {
        assert(h(hi - 1) == c * f(hi - 1));
        lemma_total_scales(c, f, h, lo, hi - 1);
        let a = total(f, lo, hi - 1);
        let b = f(hi - 1);
        assert(c * a + c * b == c * (a + b)) by (nonlinear_arith);
    } else {
        assert(c * 0 as real == 0 as real) by (nonlinear_arith);
    }
}

/// A sum is that of its two parts.
pub proof fn lemma_total_splits(f: spec_fn(int) -> real, lo: int, mid: int, hi: int)
    requires
        lo <= mid <= hi,
    ensures
        total(f, lo, hi) == total(f, lo, mid) + total(f, mid, hi),
    decreases hi - mid,
{
    if mid < hi {
        lemma_total_splits(f, lo, mid, hi - 1);
    }
}

/// The terms after `mid` may be left out where they are zero.
pub proof fn lemma_total_cut(f: spec_fn(int) -> real, lo: int, mid: int, hi: int)
    requires
        lo <= mid <= hi,
        forall|i: int| mid <= i < hi ==> #[trigger] f(i) == 0 as real,
    ensures
        total(f, lo, hi) == total(f, lo, mid),
{
    lemma_total_splits(f, lo, mid, hi);
    lemma_total_of_zeros(f, mid, hi);
}

/// The terms before `mid` may be left out where they are zero.
pub proof fn lemma_total_cut_front(f: spec_fn(int) -> real, lo: int, mid: int, hi: int)
    requires
        lo <= mid <= hi,
        forall|i: int| lo <= i < mid ==> #[trigger] f(i) == 0 as real,
    ensures
        total(f, lo, hi) == total(f, mid, hi),
{
    lemma_total_splits(f, lo, mid, hi);
    lemma_total_of_zeros(f, lo, mid);
}

/// The sum of row `i` of the table `f`, over `m` columns.
pub open spec fn across(f: spec_fn(int, int) -> real, i: int, m: int) -> real {
    total(|j: int| f(i, j), 0, m)
}

/// The sum of column `j` of the table `f`, over `n` rows.
pub open spec fn down(f: spec_fn(int, int) -> real, j: int, n: int) -> real {
    total(|i: int| f(i, j), 0, n)
}

/// Summing a table by rows or by columns comes to the same.
pub proof fn lemma_total_swaps(f: spec_fn(int, int) -> real, n: int, m: int)
    requires
        0 <= n,
    ensures
        total(|i: int| across(f, i, m), 0, n) == total(|j: int| down(f, j, n), 0, m),
    decreases n,
{
    let rows = |i: int| across(f, i, m);
    let columns = |j: int| down(f, j, n);
    if n <= 0 {
        assert forall|j: int| 0 <= j < m implies #[trigger] columns(j) == 0 as real by {
            assert(columns(j) == down(f, j, n));
        }
        lemma_total_of_zeros(columns, 0, m);
    } else {
        lemma_total_swaps(f, n - 1, m);
        let shorter = |j: int| down(f, j, n - 1);
        let last = |j: int| f(n - 1, j);
        assert forall|j: int| 0 <= j < m implies #[trigger] columns(j) == shorter(j) + last(j) by {
            let column = |i: int| f(i, j);
            assert(down(f, j, n) == total(column, 0, n));
            assert(down(f, j, n - 1) == total(column, 0, n - 1));
            assert(column(n - 1) == f(n - 1, j));
        }
        lemma_total_adds(shorter, last, columns, 0, m);
        assert(rows(n - 1) == across(f, n - 1, m));
    }
}

/// A sum with one term that is not zero is that term.
pub proof fn lemma_total_of_one(f: spec_fn(int) -> real, p: int, n: int)
    requires
        0 <= p < n,
        forall|j: int| 0 <= j < n && j != p ==> #[trigger] f(j) == 0 as real,
    ensures
        total(f, 0, n) == f(p),
{
    lemma_total_cut(f, 0, p + 1, n);
    lemma_total_of_zeros(f, 0, p);
}

/// Sums are no further apart than their terms are together.
pub proof fn lemma_total_distance(
    f: spec_fn(int) -> real,
    g: spec_fn(int) -> real,
    h: spec_fn(int) -> real,
    lo: int,
    hi: int,
)
    requires
        forall|i: int| lo <= i < hi ==> distance(#[trigger] f(i), g(i)) <= h(i),
    ensures
        distance(total(f, lo, hi), total(g, lo, hi)) <= total(h, lo, hi),
    decreases hi - lo,
{
    if lo < hi {
        lemma_total_distance(f, g, h, lo, hi - 1);
        assert(distance(f(hi - 1), g(hi - 1)) <= h(hi - 1));
    }
}

} // verus!
