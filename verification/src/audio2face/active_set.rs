//! The active-set method behind the BVLS solver: minimise over `[0, 1]^k` by
//! freeing one variable at a time and solving for the free ones.

use vstd::arithmetic::mul::{lemma_mul_inequality, lemma_mul_is_distributive_add_other_way};
use vstd::prelude::*;
use vstd::slice::slice_subrange;

use crate::audio2face::cholesky::{breaks_down, cholesky_solve, rows, solution_is};
use crate::float_bits::{
    at_most64, is_nan64, le64, less64, lt64, neg64, negated64, ONE64,
};
use crate::float_ops::{
    add64, added64, div64, divided64, dot, dot_is, mul64, multiplied64, sub64, subtracted64,
    FloatOps,
};

verus! {

/// Smallest violation that frees a variable: `1e-10`.
pub const TOLERANCE: u64 = 0x3ddb_7cdf_d9d7_bdbb;

/// `n` entries of `0.0`.
pub open spec fn zeros(n: nat) -> Seq<u64> {
    Seq::new(n, |i: int| 0u64)
}

/// `n` variables, none of them free.
pub open spec fn all_fixed(n: nat) -> Seq<bool> {
    Seq::new(n, |i: int| false)
}

/// Row `i` of a row-major matrix with rows of `w` entries.
pub open spec fn row(m: Seq<u64>, w: int, i: int) -> Seq<u64> {
    m.subrange(i * w, (i + 1) * w)
}

/// `g` is the gradient `A x - b`.
pub open spec fn gradient_is<F: FloatOps>(
    a: Seq<u64>,
    b: Seq<u64>,
    x: Seq<u64>,
    g: Seq<u64>,
) -> bool {
    &&& g.len() == b.len()
    &&& forall|i: int| 0 <= i < b.len() ==> #[trigger] gradient_entry_is::<F>(a, b, x, i, g[i])
}

pub open spec fn gradient_entry_is<F: FloatOps>(
    a: Seq<u64>,
    b: Seq<u64>,
    x: Seq<u64>,
    i: int,
    r: u64,
) -> bool {
    exists|sum: u64|
        {
            &&& dot_is::<F>(row(a, b.len() as int, i), x, 0, b.len() as int, sum)
            &&& #[trigger] subtracted64::<F>(sum, b[i], r)
        }
}

/// How strongly the gradient pushes a variable off its bound: upwards at the
/// lower bound, downwards at the upper one.
pub open spec fn violation(x: u64, g: u64) -> u64 {
    if at_most64(x, 0) {
        negated64(g)
    } else {
        g
    }
}

/// No fixed variable is pushed off its bound by more than [`TOLERANCE`].
pub open spec fn is_optimal(x: Seq<u64>, g: Seq<u64>, free: Seq<bool>) -> bool {
    forall|j: int|
        0 <= j < free.len() && !free[j] ==> !less64(TOLERANCE, #[trigger] violation(x[j], g[j]))
}

/// `i` is the fixed variable with the largest violation above
/// [`TOLERANCE`], the first one of equals.
pub open spec fn is_entering(x: Seq<u64>, g: Seq<u64>, free: Seq<bool>, i: int) -> bool {
    let best = violation(x[i], g[i]);
    &&& 0 <= i < free.len()
    &&& !free[i]
    &&& less64(TOLERANCE, best)
    &&& forall|j: int|
        0 <= j < free.len() && !free[j] ==> !less64(best, #[trigger] violation(x[j], g[j]))
    &&& forall|j: int|
        0 <= j < i && !free[j] ==> {
            ||| less64(#[trigger] violation(x[j], g[j]), best)
            ||| is_nan64(violation(x[j], g[j]))
        }
}

/// The free variables among the first `n`, in ascending order.
pub open spec fn free_list(free: Seq<bool>, n: int) -> Seq<int>
    decreases n,
{
    if n <= 0 {
        seq![]
    } else if free[n - 1] {
        free_list(free, n - 1).push(n - 1)
    } else {
        free_list(free, n - 1)
    }
}

/// The part of the row-major `k * k` matrix `a` that couples the variables
/// in `idx` with each other.
pub open spec fn sub_matrix(a: Seq<u64>, k: int, idx: Seq<int>) -> Seq<Seq<u64>> {
    Seq::new(
        idx.len(),
        |i: int| Seq::new(idx.len(), |j: int| row(a, k, idx[i])[idx[j]]),
    )
}

/// `r` is `init` less the contributions `arow[j] * x[j]` of the fixed
/// variables among the first `n`, subtracted in turn.
pub open spec fn residual_is<F: FloatOps>(
    arow: Seq<u64>,
    x: Seq<u64>,
    free: Seq<bool>,
    init: u64,
    n: int,
    r: u64,
) -> bool
    decreases n,
{
    if n <= 0 {
        r == init
    } else if free[n - 1] {
        residual_is::<F>(arow, x, free, init, n - 1, r)
    } else {
        exists|s: u64, p: u64|
            {
                &&& residual_is::<F>(arow, x, free, init, n - 1, s)
                &&& #[trigger] multiplied64::<F>(arow[n - 1], x[n - 1], p)
                &&& #[trigger] subtracted64::<F>(s, p, r)
            }
    }
}

/// `rhs` is the right-hand side of the system over the free variables.
pub open spec fn rhs_is<F: FloatOps>(
    a: Seq<u64>,
    b: Seq<u64>,
    x: Seq<u64>,
    free: Seq<bool>,
    idx: Seq<int>,
    rhs: Seq<u64>,
) -> bool {
    &&& rhs.len() == idx.len()
    &&& forall|i: int|
        0 <= i < idx.len() ==> #[trigger] residual_is::<F>(
            row(a, b.len() as int, idx[i]),
            x,
            free,
            b[idx[i]],
            b.len() as int,
            rhs[i],
        )
}

/// `c` lies below 0 or above 1.
pub open spec fn is_outside(c: u64) -> bool {
    less64(c, 0) || less64(ONE64, c)
}

pub open spec fn all_inside(cx: Seq<u64>) -> bool {
    forall|i: int| 0 <= i < cx.len() ==> !is_outside(#[trigger] cx[i])
}

/// `alpha` is the fraction of the way from `x` to `c` at which the variable
/// meets the bound that `c` oversteps.
pub open spec fn fraction_is<F: FloatOps>(x: u64, c: u64, alpha: u64) -> bool {
    if less64(c, 0) {
        exists|d: u64|
            {
                &&& #[trigger] subtracted64::<F>(x, c, d)
                &&& divided64::<F>(x, d, alpha)
            }
    } else {
        exists|n: u64, d: u64|
            {
                &&& #[trigger] subtracted64::<F>(ONE64, x, n)
                &&& #[trigger] subtracted64::<F>(c, x, d)
                &&& divided64::<F>(n, d, alpha)
            }
    }
}

/// `alphas` holds the fraction of every variable whose solution lies outside.
pub open spec fn fractions_are<F: FloatOps>(
    x: Seq<u64>,
    idx: Seq<int>,
    cx: Seq<u64>,
    alphas: Seq<u64>,
) -> bool {
    &&& alphas.len() == cx.len()
    &&& forall|i: int|
        0 <= i < cx.len() && is_outside(cx[i]) ==> fraction_is::<F>(
            x[idx[i]],
            cx[i],
            #[trigger] alphas[i],
        )
}

/// `w` is the variable that meets its bound first: the smallest fraction
/// below 1 among those outside, the first one of equals.
pub open spec fn is_blocking(cx: Seq<u64>, alphas: Seq<u64>, w: int) -> bool {
    &&& 0 <= w < cx.len()
    &&& is_outside(cx[w])
    &&& less64(alphas[w], ONE64)
    &&& forall|j: int|
        0 <= j < cx.len() && is_outside(cx[j]) ==> !less64(#[trigger] alphas[j], alphas[w])
    &&& forall|j: int|
        0 <= j < w && is_outside(cx[j]) ==> {
            ||| less64(alphas[w], #[trigger] alphas[j])
            ||| is_nan64(alphas[j])
        }
}

/// Nothing outside has a fraction below 1.
pub open spec fn none_blocking(cx: Seq<u64>, alphas: Seq<u64>) -> bool {
    forall|j: int|
        0 <= j < cx.len() && is_outside(cx[j]) ==> !less64(#[trigger] alphas[j], ONE64)
}

/// `r` is `x` moved the fraction `alpha` of the way towards `c`.
pub open spec fn moved_is<F: FloatOps>(x: u64, c: u64, alpha: u64, r: u64) -> bool {
    exists|d: u64, p: u64|
        {
            &&& #[trigger] subtracted64::<F>(c, x, d)
            &&& #[trigger] multiplied64::<F>(alpha, d, p)
            &&& added64::<F>(x, p, r)
        }
}

/// `x1` is `x` with the free variables replaced by their solution.
pub open spec fn is_placed(
    x: Seq<u64>,
    free: Seq<bool>,
    idx: Seq<int>,
    cx: Seq<u64>,
    x1: Seq<u64>,
) -> bool {
    &&& x1.len() == x.len()
    &&& forall|j: int| 0 <= j < x.len() && !free[j] ==> x1[j] == x[j]
    &&& forall|i: int| 0 <= i < idx.len() ==> x1[#[trigger] idx[i]] == cx[i]
}

/// The bound that a solution outside `[0, 1]` oversteps.
pub open spec fn overstepped_bound(c: u64) -> u64 {
    if less64(c, 0) {
        0
    } else {
        ONE64
    }
}

/// `x1` is `x` with the free variables moved the fraction of the blocking
/// variable `w`, which itself lands on its bound.
pub open spec fn is_moved<F: FloatOps>(
    x: Seq<u64>,
    free: Seq<bool>,
    idx: Seq<int>,
    cx: Seq<u64>,
    alphas: Seq<u64>,
    w: int,
    x1: Seq<u64>,
) -> bool {
    &&& x1.len() == x.len()
    &&& forall|j: int| 0 <= j < x.len() && !free[j] ==> x1[j] == x[j]
    &&& x1[idx[w]] == overstepped_bound(cx[w])
    &&& forall|i: int|
        0 <= i < idx.len() && i != w ==> moved_is::<F>(
            x[#[trigger] idx[i]],
            cx[i],
            alphas[w],
            x1[idx[i]],
        )
}

/// How one round over the free variables ends, with the variables and the
/// free set it leaves behind.
pub ghost enum Round {
    /// The free variables are settled, or the latest one was fixed again.
    Settled(Seq<u64>, Seq<bool>),
    /// One variable was fixed at its bound; the others go another round.
    Again(Seq<u64>, Seq<bool>),
    /// A solution lies outside, yet no step towards it is shorter than whole.
    Stuck,
}

/// Round in which the free system has the solution `cx`.
pub open spec fn round_through<F: FloatOps>(
    a: Seq<u64>,
    b: Seq<u64>,
    x: Seq<u64>,
    free: Seq<bool>,
    rhs: Seq<u64>,
    cx: Seq<u64>,
    alphas: Seq<u64>,
    o: Round,
) -> bool {
    let idx = free_list(free, b.len() as int);
    &&& rhs_is::<F>(a, b, x, free, idx, rhs)
    &&& solution_is::<F>(sub_matrix(a, b.len() as int, idx), rhs, cx)
    &&& match o {
        Round::Settled(x1, f1) => all_inside(cx) && is_placed(x, free, idx, cx, x1) && f1 == free,
        Round::Again(x1, f1) => {
            &&& !all_inside(cx)
            &&& fractions_are::<F>(x, idx, cx, alphas)
            &&& exists|w: int|
                {
                    &&& #[trigger] is_blocking(cx, alphas, w)
                    &&& is_moved::<F>(x, free, idx, cx, alphas, w, x1)
                    &&& f1 == free.update(idx[w], false)
                }
        },
        Round::Stuck => {
            &&& !all_inside(cx)
            &&& fractions_are::<F>(x, idx, cx, alphas)
            &&& none_blocking(cx, alphas)
        },
    }
}

/// One round over the free set: solve for the free variables, then settle
/// them, or step to the first bound and fix the variable that met it. Where
/// the system cannot be factored, the variable freed last is fixed again.
pub open spec fn round_is<F: FloatOps>(
    a: Seq<u64>,
    b: Seq<u64>,
    entered: int,
    x: Seq<u64>,
    free: Seq<bool>,
    o: Round,
) -> bool {
    let idx = free_list(free, b.len() as int);
    if idx.len() == 0 {
        o == Round::Settled(x, free)
    } else {
        ||| breaks_down::<F>(sub_matrix(a, b.len() as int, idx)) && o == Round::Settled(
            x,
            free.update(entered, false),
        )
        ||| exists|rhs: Seq<u64>, cx: Seq<u64>, alphas: Seq<u64>|
            #[trigger] round_through::<F>(a, b, x, free, rhs, cx, alphas, o)
    }
}

/// Rounds until the free set is settled, at most `rounds` of them. `out` is
/// `None` if one gets stuck.
pub open spec fn settles<F: FloatOps>(
    rounds: nat,
    a: Seq<u64>,
    b: Seq<u64>,
    entered: int,
    x: Seq<u64>,
    free: Seq<bool>,
    out: Option<(Seq<u64>, Seq<bool>)>,
) -> bool
    decreases rounds,
{
    &&& rounds > 0
    &&& exists|o: Round|
        {
            &&& #[trigger] round_is::<F>(a, b, entered, x, free, o)
            &&& match o {
                Round::Settled(x1, f1) => out == Some((x1, f1)),
                Round::Again(x1, f1) => settles::<F>(
                    (rounds - 1) as nat,
                    a,
                    b,
                    entered,
                    x1,
                    f1,
                    out,
                ),
                Round::Stuck => out is None,
            }
        }
}

/// At most `steps` times: stop if no fixed variable violates its bound, else
/// free the one that does most and settle the free set.
pub open spec fn minimises<F: FloatOps>(
    steps: nat,
    a: Seq<u64>,
    b: Seq<u64>,
    x: Seq<u64>,
    free: Seq<bool>,
    out: Option<Seq<u64>>,
) -> bool
    decreases steps,
{
    if steps == 0 {
        out == Some(x)
    } else {
        exists|g: Seq<u64>|
            {
                &&& #[trigger] gradient_is::<F>(a, b, x, g)
                &&& if is_optimal(x, g, free) {
                    out == Some(x)
                } else {
                    exists|i: int, s: Option<(Seq<u64>, Seq<bool>)>|
                        {
                            &&& is_entering(x, g, free, i)
                            &&& #[trigger] settles::<F>(
                                b.len() + 1,
                                a,
                                b,
                                i,
                                x,
                                free.update(i, true),
                                s,
                            )
                            &&& match s {
                                Some(xf) => minimises::<F>(
                                    (steps - 1) as nat,
                                    a,
                                    b,
                                    xf.0,
                                    xf.1,
                                    out,
                                ),
                                None => out is None,
                            }
                        }
                }
            }
    }
}

/// What [`free_list`] holds: every free variable once, in ascending order.
pub proof fn lemma_free_list(free: Seq<bool>, n: int)
    requires
        0 <= n <= free.len(),
    ensures
        free_list(free, n).len() <= n,
        forall|i: int|
            0 <= i < free_list(free, n).len() ==> {
                &&& 0 <= #[trigger] free_list(free, n)[i] < n
                &&& free[free_list(free, n)[i]]
            },
        forall|i: int, j: int|
            0 <= i < j < free_list(free, n).len() ==> free_list(free, n)[i] < free_list(
                free,
                n,
            )[j],
        forall|j: int| 0 <= j < n && #[trigger] free[j] ==> free_list(free, n).contains(j),
    decreases n,
{
    if n > 0 {
        lemma_free_list(free, n - 1);
        let before = free_list(free, n - 1);
        let list = free_list(free, n);
        if free[n - 1] {
            assert forall|j: int| 0 <= j < n && #[trigger] free[j] implies list.contains(j) by {
                if j < n - 1 {
                    let i = choose|i: int| 0 <= i < before.len() && before[i] == j;
                    assert(list[i] == j);
                } else {
                    assert(list[before.len() as int] == j);
                }
            }
        }
    }
}

/// Fixing a free variable takes it, and nothing else, off the list.
proof fn lemma_free_list_fixed(free: Seq<bool>, n: int, i: int)
    requires
        0 <= n <= free.len(),
        0 <= i < free.len(),
        free[i],
    ensures
        free_list(free.update(i, false), n).len() == free_list(free, n).len() - (if i < n {
            1int
        } else {
            0
        }),
    decreases n,
{
    if n > 0 {
        lemma_free_list_fixed(free, n - 1, i);
    }
}

/// `row` in range has `w` entries.
proof fn lemma_row_bounds(w: int, h: int, i: int)
    requires
        0 <= i < h,
        0 <= w,
    ensures
        0 <= i * w,
        i * w + w == (i + 1) * w,
        (i + 1) * w <= h * w,
{
    lemma_mul_inequality(0, i, w);
    lemma_mul_inequality(i + 1, h, w);
    lemma_mul_is_distributive_add_other_way(w, i, 1);
}

/// Row `i` of the row-major matrix `m` with `h` rows of `w` entries.
pub fn row_of(m: &Vec<u64>, w: usize, h: usize, i: usize) -> (r: &[u64])
    requires
        i < h,
        m@.len() == h * w,
    ensures
        r@ == row(m@, w as int, i as int),
        r@.len() == w,
{
    proof {
        lemma_row_bounds(w as int, h as int, i as int);
    }
    let len: usize = m.len();
    assert(i * w <= len && i * w + w <= len);
    let start: usize = i * w;
    slice_subrange(m.as_slice(), start, start + w)
}

fn gradient<F: FloatOps>(a: &Vec<u64>, b: &Vec<u64>, x: &Vec<u64>) -> (g: Vec<u64>)
    requires
        a@.len() == b@.len() * b@.len(),
        x@.len() == b@.len(),
    ensures
        gradient_is::<F>(a@, b@, x@, g@),
{
    let k: usize = b.len();
    let mut g: Vec<u64> = Vec::new();
    let mut i: usize = 0;
    while i < k
        invariant
            i <= k,
            k == b@.len(),
            k == x@.len(),
            a@.len() == k * k,
            g@.len() == i,
            forall|j: int|
                0 <= j < i ==> #[trigger] gradient_entry_is::<F>(a@, b@, x@, j, g@[j]),
        decreases k - i,
    {
        let r: &[u64] = row_of(a, k, k, i);
        let sum: u64 = dot::<F>(r, x.as_slice(), k);
        let e: u64 = sub64::<F>(sum, b[i]);
        assert(gradient_entry_is::<F>(a@, b@, x@, i as int, e)) by {
            assert(subtracted64::<F>(sum, b@[i as int], e));
        }
        g.push(e);
        i = i + 1;
    }
    g
}

/// Picks the fixed variable with the largest violation, if one violates its
/// bound at all.
pub fn entering(x: &Vec<u64>, g: &Vec<u64>, free: &Vec<bool>) -> (r: Option<usize>)
    requires
        x@.len() == free@.len(),
        g@.len() == free@.len(),
    ensures
        match r {
            Some(i) => is_entering(x@, g@, free@, i as int),
            None => is_optimal(x@, g@, free@),
        },
{
    let mut best: Option<usize> = None;
    let mut best_violation: u64 = TOLERANCE;
    let mut i: usize = 0;
    assert(!is_nan64(TOLERANCE));
    while i < free.len()
        invariant
            i <= free@.len(),
            x@.len() == free@.len(),
            g@.len() == free@.len(),
            !is_nan64(best_violation),
            match best {
                None => {
                    &&& best_violation == TOLERANCE
                    &&& forall|j: int|
                        0 <= j < i && !free@[j] ==> !less64(
                            TOLERANCE,
                            #[trigger] violation(x@[j], g@[j]),
                        )
                },
                Some(w) => {
                    &&& w < i
                    &&& !free@[w as int]
                    &&& best_violation == violation(x@[w as int], g@[w as int])
                    &&& less64(TOLERANCE, best_violation)
                    &&& forall|j: int|
                        0 <= j < i && !free@[j] ==> !less64(
                            best_violation,
                            #[trigger] violation(x@[j], g@[j]),
                        )
                    &&& forall|j: int|
                        0 <= j < w && !free@[j] ==> {
                            ||| less64(#[trigger] violation(x@[j], g@[j]), best_violation)
                            ||| is_nan64(violation(x@[j], g@[j]))
                        }
                },
            },
        decreases free@.len() - i,
    {
        if !free[i] {
            let v: u64 = if le64(x[i], 0) {
                neg64(g[i])
            } else {
                g[i]
            };
            assert(v == violation(x@[i as int], g@[i as int]));
            if lt64(best_violation, v) {
                best_violation = v;
                best = Some(i);
            }
        }
        i = i + 1;
    }
    best
}

fn free_indices(free: &Vec<bool>) -> (idx: Vec<usize>)
    ensures
        idx@.len() == free_list(free@, free@.len() as int).len(),
        forall|i: int|
            0 <= i < idx@.len() ==> #[trigger] idx@[i] == free_list(
                free@,
                free@.len() as int,
            )[i],
{
    let mut idx: Vec<usize> = Vec::new();
    let mut i: usize = 0;
    while i < free.len()
        invariant
            i <= free@.len(),
            idx@.len() == free_list(free@, i as int).len(),
            forall|j: int|
                0 <= j < idx@.len() ==> #[trigger] idx@[j] == free_list(free@, i as int)[j],
        decreases free@.len() - i,
    {
        if free[i] {
            idx.push(i);
        }
        i = i + 1;
    }
    idx
}

/// The indices as integers of the model.
pub open spec fn as_ints(idx: Seq<usize>) -> Seq<int> {
    Seq::new(idx.len(), |i: int| idx[i] as int)
}

fn gathered(a: &Vec<u64>, k: usize, idx: &Vec<usize>) -> (m: Vec<Vec<u64>>)
    requires
        a@.len() == k * k,
        forall|i: int| 0 <= i < idx@.len() ==> #[trigger] idx@[i] < k,
    ensures
        rows(m@) == sub_matrix(a@, k as int, as_ints(idx@)),
{
    let n: usize = idx.len();
    let ghost ix = as_ints(idx@);
    let mut m: Vec<Vec<u64>> = Vec::new();
    let mut i: usize = 0;
    while i < n
        invariant
            i <= n,
            n == idx@.len(),
            ix == as_ints(idx@),
            a@.len() == k * k,
            forall|p: int| 0 <= p < n ==> #[trigger] idx@[p] < k,
            m@.len() == i,
            forall|p: int|
                0 <= p < i ==> (#[trigger] m@[p])@ == sub_matrix(a@, k as int, ix)[p],
        decreases n - i,
    {
        let arow: &[u64] = row_of(a, k, k, idx[i]);
        let mut r: Vec<u64> = Vec::new();
        let mut j: usize = 0;
        while j < n
            invariant
                j <= n,
                n == idx@.len(),
                ix == as_ints(idx@),
                i < n,
                arow@ == row(a@, k as int, ix[i as int]),
                arow@.len() == k,
                forall|p: int| 0 <= p < n ==> #[trigger] idx@[p] < k,
                r@.len() == j,
                forall|p: int| 0 <= p < j ==> #[trigger] r@[p] == arow@[ix[p]],
            decreases n - j,
        {
            r.push(arow[idx[j]]);
            j = j + 1;
        }
        assert(r@ =~= sub_matrix(a@, k as int, ix)[i as int]);
        m.push(r);
        i = i + 1;
    }
    assert(rows(m@) =~= sub_matrix(a@, k as int, ix));
    m
}

fn residual<F: FloatOps>(arow: &[u64], x: &Vec<u64>, free: &Vec<bool>, init: u64) -> (r: u64)
    requires
        arow@.len() == x@.len(),
        free@.len() == x@.len(),
    ensures
        residual_is::<F>(arow@, x@, free@, init, x@.len() as int, r),
{
    let mut r: u64 = init;
    let mut j: usize = 0;
    while j < x.len()
        invariant
            j <= x@.len(),
            arow@.len() == x@.len(),
            free@.len() == x@.len(),
            residual_is::<F>(arow@, x@, free@, init, j as int, r),
        decreases x@.len() - j,
    {
        if !free[j] {
            let p: u64 = mul64::<F>(arow[j], x[j]);
            let next: u64 = sub64::<F>(r, p);
            assert(residual_is::<F>(arow@, x@, free@, init, j + 1, next)) by {
                assert(multiplied64::<F>(arow@[j + 1 - 1], x@[j + 1 - 1], p));
                assert(subtracted64::<F>(r, p, next));
            }
            r = next;
        }
        j = j + 1;
    }
    r
}

fn right_hand_side<F: FloatOps>(
    a: &Vec<u64>,
    b: &Vec<u64>,
    x: &Vec<u64>,
    free: &Vec<bool>,
    idx: &Vec<usize>,
) -> (rhs: Vec<u64>)
    requires
        a@.len() == b@.len() * b@.len(),
        x@.len() == b@.len(),
        free@.len() == b@.len(),
        forall|i: int| 0 <= i < idx@.len() ==> #[trigger] idx@[i] < b@.len(),
    ensures
        rhs_is::<F>(a@, b@, x@, free@, as_ints(idx@), rhs@),
{
    let k: usize = b.len();
    let ghost ix = as_ints(idx@);
    let mut rhs: Vec<u64> = Vec::new();
    let mut i: usize = 0;
    while i < idx.len()
        invariant
            i <= idx@.len(),
            k == b@.len(),
            a@.len() == k * k,
            x@.len() == k,
            free@.len() == k,
            ix == as_ints(idx@),
            forall|p: int| 0 <= p < idx@.len() ==> #[trigger] idx@[p] < k,
            rhs@.len() == i,
            forall|p: int|
                0 <= p < i ==> #[trigger] residual_is::<F>(
                    row(a@, k as int, ix[p]),
                    x@,
                    free@,
                    b@[ix[p]],
                    k as int,
                    rhs@[p],
                ),
        decreases idx@.len() - i,
    {
        let ii: usize = idx[i];
        let arow: &[u64] = row_of(a, k, k, ii);
        let e: u64 = residual::<F>(arow, x, free, b[ii]);
        rhs.push(e);
        i = i + 1;
    }
    rhs
}

fn outside(c: u64) -> (r: bool)
    ensures
        r == is_outside(c),
{
    lt64(c, 0) || lt64(ONE64, c)
}

fn fraction<F: FloatOps>(x: u64, c: u64) -> (alpha: u64)
    ensures
        fraction_is::<F>(x, c, alpha),
{
    if lt64(c, 0) {
        let d: u64 = sub64::<F>(x, c);
        div64::<F>(x, d)
    } else {
        let n: u64 = sub64::<F>(ONE64, x);
        let d: u64 = sub64::<F>(c, x);
        div64::<F>(n, d)
    }
}

fn fractions<F: FloatOps>(x: &Vec<u64>, idx: &Vec<usize>, cx: &Vec<u64>) -> (alphas: Vec<u64>)
    requires
        idx@.len() == cx@.len(),
        forall|i: int| 0 <= i < idx@.len() ==> #[trigger] idx@[i] < x@.len(),
    ensures
        fractions_are::<F>(x@, as_ints(idx@), cx@, alphas@),
{
    let mut alphas: Vec<u64> = Vec::new();
    let mut i: usize = 0;
    while i < cx.len()
        invariant
            i <= cx@.len(),
            idx@.len() == cx@.len(),
            forall|p: int| 0 <= p < idx@.len() ==> #[trigger] idx@[p] < x@.len(),
            alphas@.len() == i,
            forall|p: int|
                0 <= p < i && is_outside(cx@[p]) ==> fraction_is::<F>(
                    x@[as_ints(idx@)[p]],
                    cx@[p],
                    #[trigger] alphas@[p],
                ),
        decreases cx@.len() - i,
    {
        if outside(cx[i]) {
            let alpha: u64 = fraction::<F>(x[idx[i]], cx[i]);
            alphas.push(alpha);
        } else {
            alphas.push(ONE64);
        }
        i = i + 1;
    }
    alphas
}

fn inside(cx: &Vec<u64>) -> (r: bool)
    ensures
        r == all_inside(cx@),
{
    let mut i: usize = 0;
    while i < cx.len()
        invariant
            i <= cx@.len(),
            forall|p: int| 0 <= p < i ==> !is_outside(#[trigger] cx@[p]),
        decreases cx@.len() - i,
    {
        if outside(cx[i]) {
            return false;
        }
        i = i + 1;
    }
    true
}

/// Picks the variable that meets its bound first, if one does before the
/// whole step is taken.
pub fn blocking(cx: &Vec<u64>, alphas: &Vec<u64>) -> (r: Option<usize>)
    requires
        cx@.len() == alphas@.len(),
    ensures
        match r {
            Some(w) => is_blocking(cx@, alphas@, w as int),
            None => none_blocking(cx@, alphas@),
        },
{
    let mut worst: Option<usize> = None;
    let mut min_alpha: u64 = ONE64;
    let mut i: usize = 0;
    while i < cx.len()
        invariant
            i <= cx@.len(),
            cx@.len() == alphas@.len(),
            !is_nan64(min_alpha),
            match worst {
                None => {
                    &&& min_alpha == ONE64
                    &&& forall|j: int|
                        0 <= j < i && is_outside(cx@[j]) ==> !less64(
                            #[trigger] alphas@[j],
                            ONE64,
                        )
                },
                Some(w) => {
                    &&& w < i
                    &&& is_outside(cx@[w as int])
                    &&& min_alpha == alphas@[w as int]
                    &&& less64(min_alpha, ONE64)
                    &&& forall|j: int|
                        0 <= j < i && is_outside(cx@[j]) ==> !less64(
                            #[trigger] alphas@[j],
                            min_alpha,
                        )
                    &&& forall|j: int|
                        0 <= j < w && is_outside(cx@[j]) ==> {
                            ||| less64(min_alpha, #[trigger] alphas@[j])
                            ||| is_nan64(alphas@[j])
                        }
                },
            },
        decreases cx@.len() - i,
    {
        if outside(cx[i]) && lt64(alphas[i], min_alpha) {
            min_alpha = alphas[i];
            worst = Some(i);
        }
        i = i + 1;
    }
    worst
}

/// How one round ended.
enum RoundEnd {
    Settled,
    Again,
    Stuck,
}

/// The model of a round's end, given what it left behind.
spec fn round_model(end: RoundEnd, x: Seq<u64>, free: Seq<bool>) -> Round {
    match end {
        RoundEnd::Settled => Round::Settled(x, free),
        RoundEnd::Again => Round::Again(x, free),
        RoundEnd::Stuck => Round::Stuck,
    }
}

/// Writes the solution of the free system into the variables.
fn place(x: &mut Vec<u64>, free: &Vec<bool>, idx: &Vec<usize>, cx: &Vec<u64>)
    requires
        idx@.len() == cx@.len(),
        old(x)@.len() == free@.len(),
        as_ints(idx@) == free_list(free@, free@.len() as int),
    ensures
        is_placed(old(x)@, free@, as_ints(idx@), cx@, final(x)@),
{
    let ghost x0 = x@;
    let ghost ix = as_ints(idx@);
    proof {
        lemma_free_list(free@, free@.len() as int);
    }
    let mut i: usize = 0;
    while i < idx.len()
        invariant
            i <= idx@.len(),
            idx@.len() == cx@.len(),
            x0.len() == free@.len(),
            x@.len() == x0.len(),
            ix == as_ints(idx@),
            forall|p: int| 0 <= p < ix.len() ==> 0 <= #[trigger] ix[p] < x0.len() && free@[ix[p]],
            forall|p: int, q: int| 0 <= p < q < ix.len() ==> ix[p] < ix[q],
            forall|j: int| 0 <= j < x0.len() && !free@[j] ==> x@[j] == x0[j],
            forall|p: int| 0 <= p < i ==> x@[#[trigger] ix[p]] == cx@[p],
        decreases idx@.len() - i,
    {
        assert(ix[i as int] == idx@[i as int]);
        x.set(idx[i], cx[i]);
        i = i + 1;
    }
}

/// Moves the free variables towards the solution by the fraction of the
/// blocking variable `w`, and puts that one on its bound.
fn step<F: FloatOps>(
    x: &mut Vec<u64>,
    free: &Vec<bool>,
    idx: &Vec<usize>,
    cx: &Vec<u64>,
    alphas: &Vec<u64>,
    w: usize,
)
    requires
        idx@.len() == cx@.len(),
        alphas@.len() == cx@.len(),
        w < cx@.len(),
        old(x)@.len() == free@.len(),
        as_ints(idx@) == free_list(free@, free@.len() as int),
    ensures
        is_moved::<F>(
            old(x)@,
            free@,
            as_ints(idx@),
            cx@,
            alphas@,
            w as int,
            final(x)@,
        ),
{
    let ghost x0 = x@;
    let ghost ix = as_ints(idx@);
    proof {
        lemma_free_list(free@, free@.len() as int);
    }
    let alpha: u64 = alphas[w];
    let mut i: usize = 0;
    while i < idx.len()
        invariant
            i <= idx@.len(),
            idx@.len() == cx@.len(),
            x0.len() == free@.len(),
            x@.len() == x0.len(),
            ix == as_ints(idx@),
            forall|p: int| 0 <= p < ix.len() ==> 0 <= #[trigger] ix[p] < x0.len() && free@[ix[p]],
            forall|p: int, q: int| 0 <= p < q < ix.len() ==> ix[p] < ix[q],
            forall|j: int| 0 <= j < x0.len() && !free@[j] ==> x@[j] == x0[j],
            forall|p: int|
                0 <= p < i ==> moved_is::<F>(
                    x0[#[trigger] ix[p]],
                    cx@[p],
                    alpha,
                    x@[ix[p]],
                ),
            forall|p: int| i <= p < ix.len() ==> x@[#[trigger] ix[p]] == x0[ix[p]],
        decreases idx@.len() - i,
    {
        assert(ix[i as int] == idx@[i as int]);
        let v: usize = idx[i];
        let d: u64 = sub64::<F>(cx[i], x[v]);
        let p: u64 = mul64::<F>(alpha, d);
        let r: u64 = add64::<F>(x[v], p);
        proof {
            assert(subtracted64::<F>(cx@[i as int], x0[v as int], d));
            assert(multiplied64::<F>(alpha, d, p));
            assert(moved_is::<F>(x0[v as int], cx@[i as int], alpha, r));
        }
        x.set(v, r);
        i = i + 1;
    }
    assert(ix[w as int] == idx@[w as int]);
    let bound: u64 = if lt64(cx[w], 0) {
        0
    } else {
        ONE64
    };
    x.set(idx[w], bound);
}

/// Runs one round over the free set.
fn run_round<F: FloatOps>(
    a: &Vec<u64>,
    b: &Vec<u64>,
    entered: usize,
    x: &mut Vec<u64>,
    free: &mut Vec<bool>,
) -> (end: RoundEnd)
    requires
        a@.len() == b@.len() * b@.len(),
        entered < b@.len(),
        old(x)@.len() == b@.len(),
        old(free)@.len() == b@.len(),
    ensures
        final(x)@.len() == b@.len(),
        final(free)@.len() == b@.len(),
        round_is::<F>(
            a@,
            b@,
            entered as int,
            old(x)@,
            old(free)@,
            round_model(end, final(x)@, final(free)@),
        ),
        end is Again ==> free_list(final(free)@, b@.len() as int).len() < free_list(
            old(free)@,
            b@.len() as int,
        ).len(),
{
    let k: usize = b.len();
    let ghost x0 = x@;
    let ghost f0 = free@;
    let ghost list = free_list(f0, k as int);
    let idx: Vec<usize> = free_indices(free);
    proof {
        lemma_free_list(f0, k as int);
        assert(as_ints(idx@) =~= list);
        assert forall|i: int| 0 <= i < idx@.len() implies #[trigger] idx@[i] < k by {
            assert(idx@[i] == list[i]);
        }
    }
    if idx.len() == 0 {
        return RoundEnd::Settled;
    }
    let sub: Vec<Vec<u64>> = gathered(a, k, &idx);
    assert(sub@.len() == rows(sub@).len());
    let rhs: Vec<u64> = right_hand_side::<F>(a, b, x, free, &idx);
    match cholesky_solve::<F>(&sub, &rhs) {
        None => {
            free.set(entered, false);
            RoundEnd::Settled
        },
        Some(cx) => {
            if inside(&cx) {
                place(x, free, &idx, &cx);
                let ghost none: Seq<u64> = seq![];
                assert(round_through::<F>(
                    a@,
                    b@,
                    x0,
                    f0,
                    rhs@,
                    cx@,
                    none,
                    Round::Settled(x@, free@),
                ));
                RoundEnd::Settled
            } else {
                let alphas: Vec<u64> = fractions::<F>(x, &idx, &cx);
                match blocking(&cx, &alphas) {
                    None => {
                        assert(round_through::<F>(
                            a@,
                            b@,
                            x0,
                            f0,
                            rhs@,
                            cx@,
                            alphas@,
                            Round::Stuck,
                        ));
                        RoundEnd::Stuck
                    },
                    Some(w) => {
                        step::<F>(x, free, &idx, &cx, &alphas, w);
                        assert(list[w as int] == idx@[w as int]);
                        free.set(idx[w], false);
                        proof {
                            lemma_free_list_fixed(f0, k as int, idx@[w as int] as int);
                            assert(is_blocking(cx@, alphas@, w as int));
                            assert(round_through::<F>(
                                a@,
                                b@,
                                x0,
                                f0,
                                rhs@,
                                cx@,
                                alphas@,
                                Round::Again(x@, free@),
                            ));
                        }
                        RoundEnd::Again
                    },
                }
            }
        },
    }
}

/// Runs rounds until the free set is settled; false if one gets stuck.
fn settle<F: FloatOps>(
    a: &Vec<u64>,
    b: &Vec<u64>,
    entered: usize,
    x: &mut Vec<u64>,
    free: &mut Vec<bool>,
) -> (done: bool)
    requires
        a@.len() == b@.len() * b@.len(),
        entered < b@.len(),
        old(x)@.len() == b@.len(),
        old(free)@.len() == b@.len(),
    ensures
        final(x)@.len() == b@.len(),
        final(free)@.len() == b@.len(),
        settles::<F>(
            b@.len() + 1,
            a@,
            b@,
            entered as int,
            old(x)@,
            old(free)@,
            (if done {
                Some((final(x)@, final(free)@))
            } else {
                None
            }),
        ),
{
    let ghost x0 = x@;
    let ghost f0 = free@;
    let ghost mut left: nat = b@.len() + 1;
    proof {
        lemma_free_list(free@, b@.len() as int);
    }
    loop
        invariant
            x0 == old(x)@,
            f0 == old(free)@,
            a@.len() == b@.len() * b@.len(),
            entered < b@.len(),
            x@.len() == b@.len(),
            free@.len() == b@.len(),
            free_list(free@, b@.len() as int).len() < left,
            forall|out: Option<(Seq<u64>, Seq<bool>)>|
                settles::<F>(left, a@, b@, entered as int, x@, free@, out) ==> #[trigger] settles::<
                    F,
                >(b@.len() + 1, a@, b@, entered as int, x0, f0, out),
        decreases left,
    {
        let ghost xs = x@;
        let ghost fs = free@;
        let end = run_round::<F>(a, b, entered, x, free);
        let ghost o = round_model(end, x@, free@);
        assert(round_is::<F>(a@, b@, entered as int, xs, fs, o));
        match end {
            RoundEnd::Settled => {
                assert(settles::<F>(
                    left,
                    a@,
                    b@,
                    entered as int,
                    xs,
                    fs,
                    Some((x@, free@)),
                ));
                return true;
            },
            RoundEnd::Stuck => {
                let ghost none: Option<(Seq<u64>, Seq<bool>)> = None;
                assert(settles::<F>(left, a@, b@, entered as int, xs, fs, none));
                return false;
            },
            RoundEnd::Again => {
                proof {
                    let before = left;
                    left = (left - 1) as nat;
                    assert forall|out: Option<(Seq<u64>, Seq<bool>)>|
                        settles::<F>(left, a@, b@, entered as int, x@, free@, out) implies
                        #[trigger] settles::<F>(
                            b@.len() + 1,
                            a@,
                            b@,
                            entered as int,
                            x0,
                            f0,
                            out,
                        ) by {
                        assert(settles::<F>(before, a@, b@, entered as int, xs, fs, out));
                    }
                }
            },
        }
    }
}

/// Minimises over `[0, 1]^k`, starting with every variable fixed at zero and
/// freeing at most `steps` of them. `None` if a step gets stuck.
pub fn minimise<F: FloatOps>(a: &Vec<u64>, b: &Vec<u64>, steps: usize) -> (r: Option<Vec<u64>>)
    requires
        a@.len() == b@.len() * b@.len(),
    ensures
        r matches Some(x) ==> x@.len() == b@.len(),
        minimises::<F>(
            steps as nat,
            a@,
            b@,
            zeros(b@.len()),
            all_fixed(b@.len()),
            (match r {
                Some(x) => Some(x@),
                None => None,
            }),
        ),
{
    let k: usize = b.len();
    let mut x: Vec<u64> = vec![0u64; k];
    let mut free: Vec<bool> = vec![false; k];
    let ghost x0 = zeros(b@.len());
    let ghost f0 = all_fixed(b@.len());
    assert(x@ =~= x0);
    assert(free@ =~= f0);
    let mut left: usize = steps;
    while left > 0
        invariant
            x0 == zeros(b@.len()),
            f0 == all_fixed(b@.len()),
            k == b@.len(),
            a@.len() == k * k,
            x@.len() == k,
            free@.len() == k,
            forall|out: Option<Seq<u64>>|
                minimises::<F>(left as nat, a@, b@, x@, free@, out) ==> #[trigger] minimises::<F>(
                    steps as nat,
                    a@,
                    b@,
                    x0,
                    f0,
                    out,
                ),
        decreases left,
    {
        let g: Vec<u64> = gradient::<F>(a, b, &x);
        assert(gradient_is::<F>(a@, b@, x@, g@));
        match entering(&x, &g, &free) {
            None => {
                assert(minimises::<F>(left as nat, a@, b@, x@, free@, Some(x@)));
                return Some(x);
            },
            Some(i) => {
                let ghost xs = x@;
                let ghost fs = free@;
                free.set(i, true);
                let done: bool = settle::<F>(a, b, i, &mut x, &mut free);
                let ghost s: Option<(Seq<u64>, Seq<bool>)> = if done {
                    Some((x@, free@))
                } else {
                    None
                };
                proof {
                    assert(!is_optimal(xs, g@, fs)) by {
                        assert(less64(
                            TOLERANCE,
                            violation(xs[i as int], g@[i as int]),
                        ));
                    }
                    assert(settles::<F>(
                        b@.len() + 1,
                        a@,
                        b@,
                        i as int,
                        xs,
                        fs.update(i as int, true),
                        s,
                    ));
                }
                if !done {
                    let ghost none: Option<Seq<u64>> = None;
                    assert(minimises::<F>(left as nat, a@, b@, xs, fs, none));
                    return None;
                }
                proof {
                    assert forall|out: Option<Seq<u64>>|
                        minimises::<F>((left - 1) as nat, a@, b@, x@, free@, out) implies
                        #[trigger] minimises::<F>(steps as nat, a@, b@, x0, f0, out) by {
                        assert(minimises::<F>(left as nat, a@, b@, xs, fs, out));
                    }
                }
                left = left - 1;
            },
        }
    }
    assert(minimises::<F>(0, a@, b@, x@, free@, Some(x@)));
    Some(x)
}

} // verus!
