//! What a solve comes to with arithmetic that rounds, as long as it keeps the
//! signs of what it computes.

use vstd::prelude::*;

use crate::audio2face::active_set::{all_fixed, free_list, gradient_entry_is, gradient_is,
    is_entering, is_optimal, lemma_free_list, round_is, round_through, row, settles, sub_matrix,
    violation, zeros, Round, TOLERANCE};
use crate::audio2face::bvls_solver::BvlsSystem;
use crate::audio2face::cholesky::solved_through;
use crate::audio2face::optimum_laws::lemma_row_entry;
use crate::audio2face::solver_laws::{ends_after, law_minima_meet_the_stop_test, reaches, steps_once};
use crate::float_bits::{at_most64, is_finite32, is_finite64, is_nan64, less64, magnitude64, narrows,
    negated64, widens};
use crate::float_exact::{law_bounds_denote, law_narrowing_is_close, law_widening_keeps_the_number,
    number64};
use crate::float_ops::{added64, dot_is, multiplied64, subtracted64, FloatOps};
use crate::float_rounding::number32;

verus! {

/// Whether a pattern denotes zero or no number.
pub open spec fn is_blank(b: u64) -> bool {
    is_nan64(b) || magnitude64(b) == 0
}

/// Whether the binary64 operations of `F` keep signs: a product that is not
/// positive does not become so, nor does a sum of what is not positive; a zero
/// factor gives zero or no number, and so do sums of these; and taking what is
/// not positive off zero gives nothing negative. Rounding to nearest does not
/// change any of this.
pub open spec fn keeps_signs<F: FloatOps>() -> bool {
    &&& forall|a: u64, b: u64, r: u64| #[trigger]
        multiplied64::<F>(a, b, r) && is_finite64(a) && is_finite64(b) && number64(a) * number64(b)
            <= 0 as real ==> at_most64(r, 0)
    &&& forall|a: u64, b: u64, r: u64| #[trigger]
        added64::<F>(a, b, r) && at_most64(a, 0) && at_most64(b, 0) ==> at_most64(r, 0)
    &&& forall|a: u64, b: u64, r: u64| #[trigger]
        multiplied64::<F>(a, b, r) && (magnitude64(a) == 0 || magnitude64(b) == 0) ==> is_blank(r)
    &&& forall|a: u64, b: u64, r: u64| #[trigger]
        added64::<F>(a, b, r) && is_blank(a) && is_blank(b) ==> is_blank(r)
    &&& forall|a: u64, b: u64, r: u64| #[trigger]
        subtracted64::<F>(a, b, r) && is_blank(a) && at_most64(b, 0) ==> is_nan64(r) || at_most64(
            0,
            r,
        )
}

proof fn lemma_opposed_sum<F: FloatOps>(xs: Seq<u64>, ys: Seq<u64>, n: int, r: u64)
    requires
        keeps_signs::<F>(),
        forall|p: int| 0 <= p < n ==> is_finite64(#[trigger] xs[p]),
        forall|p: int| 0 <= p < n ==> is_finite64(#[trigger] ys[p]),
        forall|p: int|
            0 <= p < n ==> #[trigger] number64(xs[p]) * number64(ys[p]) <= 0 as real,
        dot_is::<F>(xs, ys, 0, n, r),
    ensures
        at_most64(r, 0),
    decreases n,
{
    if n > 0 {
        let (s, m) = choose|s: u64, m: u64|
            {
                &&& dot_is::<F>(xs, ys, 0, n - 1, s)
                &&& #[trigger] multiplied64::<F>(xs[n - 1], ys[n - 1], m)
                &&& #[trigger] added64::<F>(s, m, r)
            };
        lemma_opposed_sum::<F>(xs, ys, n - 1, s);
        assert(is_finite64(xs[n - 1]) && is_finite64(ys[n - 1]));
        assert(number64(xs[n - 1]) * number64(ys[n - 1]) <= 0 as real);
        assert(multiplied64::<F>(xs[n - 1], ys[n - 1], m));
        assert(added64::<F>(s, m, r));
    }
}

proof fn lemma_blank_sum<F: FloatOps>(xs: Seq<u64>, ys: Seq<u64>, n: int, r: u64)
    requires
        keeps_signs::<F>(),
        forall|p: int|
            0 <= p < n ==> magnitude64(#[trigger] xs[p]) == 0 || magnitude64(ys[p]) == 0,
        dot_is::<F>(xs, ys, 0, n, r),
    ensures
        is_blank(r),
    decreases n,
{
    if n > 0 {
        let (s, m) = choose|s: u64, m: u64|
            {
                &&& dot_is::<F>(xs, ys, 0, n - 1, s)
                &&& #[trigger] multiplied64::<F>(xs[n - 1], ys[n - 1], m)
                &&& #[trigger] added64::<F>(s, m, r)
            };
        lemma_blank_sum::<F>(xs, ys, n - 1, s);
        assert(magnitude64(xs[n - 1]) == 0 || magnitude64(ys[n - 1]) == 0);
        assert(multiplied64::<F>(xs[n - 1], ys[n - 1], m));
        assert(added64::<F>(s, m, r));
    }
}

/// Settling the free set leaves the fixed variables alone.
proof fn lemma_fixed_stay<F: FloatOps>(
    rounds: nat,
    a: Seq<u64>,
    b: Seq<u64>,
    entered: int,
    x: Seq<u64>,
    free: Seq<bool>,
    x1: Seq<u64>,
    f1: Seq<bool>,
    j: int,
)
    requires
        x.len() == b.len(),
        free.len() == b.len(),
        0 <= entered < b.len(),
        0 <= j < b.len(),
        !free[j],
        settles::<F>(rounds, a, b, entered, x, free, Some((x1, f1))),
    ensures
        x1.len() == b.len(),
        f1.len() == b.len(),
        x1[j] == x[j],
        !f1[j],
    decreases rounds,
{
    let o = choose|o: Round|
        {
            &&& #[trigger] round_is::<F>(a, b, entered, x, free, o)
            &&& match o {
                Round::Settled(x2, f2) => Some((x1, f1)) == Some((x2, f2)),
                Round::Again(x2, f2) => settles::<F>(
                    (rounds - 1) as nat,
                    a,
                    b,
                    entered,
                    x2,
                    f2,
                    Some((x1, f1)),
                ),
                Round::Stuck => false,
            }
        };
    let idx = free_list(free, b.len() as int);
    lemma_free_list(free, b.len() as int);
    if idx.len() > 0 {
        if exists|rhs: Seq<u64>, cx: Seq<u64>, alphas: Seq<u64>| #[trigger]
            round_through::<F>(a, b, x, free, rhs, cx, alphas, o) {
            let (rhs, cx, alphas) = choose|rhs: Seq<u64>, cx: Seq<u64>, alphas: Seq<u64>| #[trigger]
                round_through::<F>(a, b, x, free, rhs, cx, alphas, o);
            match o {
                Round::Settled(x2, f2) => {},
                Round::Again(x2, f2) => {
                    let sub = sub_matrix(a, b.len() as int, idx);
                    let (l, y) = choose|l: Seq<Seq<u64>>, y: Seq<u64>| #[trigger]
                        solved_through::<F>(sub, rhs, l, y, cx);
                    assert(cx.len() == idx.len());
                    lemma_fixed_stay::<F>(
                        (rounds - 1) as nat,
                        a,
                        b,
                        entered,
                        x2,
                        f2,
                        x1,
                        f1,
                        j,
                    );
                },
                Round::Stuck => {},
            }
        }
    }
}

/// A variable that is coupled with no other and that nothing pulls up is never
/// freed.
proof fn lemma_stays_down<F: FloatOps>(
    n: nat,
    a: Seq<u64>,
    b: Seq<u64>,
    x: Seq<u64>,
    free: Seq<bool>,
    x1: Seq<u64>,
    f1: Seq<bool>,
    i: int,
)
    requires
        keeps_signs::<F>(),
        a.len() == b.len() * b.len(),
        x.len() == b.len(),
        free.len() == b.len(),
        reaches::<F>(n, a, b, x, free, x1, f1),
        0 <= i < b.len(),
        !free[i],
        x[i] == 0,
        forall|j: int|
            0 <= j < b.len() && j != i ==> magnitude64(#[trigger] a[i * b.len() + j]) == 0,
        at_most64(b[i], 0),
    ensures
        x1.len() == b.len(),
        x1[i] == 0,
    decreases n,
{
    let k = b.len() as int;
    if n > 0 {
        let (x2, f2) = choose|x2: Seq<u64>, f2: Seq<bool>| #[trigger]
            steps_once::<F>(a, b, x, free, x2, f2) && reaches::<F>(
                (n - 1) as nat,
                a,
                b,
                x2,
                f2,
                x1,
                f1,
            );
        let (g, e) = choose|g: Seq<u64>, e: int|
            {
                &&& #[trigger] gradient_is::<F>(a, b, x, g)
                &&& !is_optimal(x, g, free)
                &&& is_entering(x, g, free, e)
                &&& #[trigger] settles::<F>(
                    b.len() + 1,
                    a,
                    b,
                    e,
                    x,
                    free.update(e, true),
                    Some((x2, f2)),
                )
            };
        assert(gradient_entry_is::<F>(a, b, x, i, g[i]));
        let arow = row(a, k, i);
        let sum = choose|sum: u64|
            {
                &&& dot_is::<F>(row(a, b.len() as int, i), x, 0, b.len() as int, sum)
                &&& #[trigger] subtracted64::<F>(sum, b[i], g[i])
            };
        assert forall|p: int| 0 <= p < k implies magnitude64(#[trigger] arow[p]) == 0
            || magnitude64(x[p]) == 0 by {
            lemma_row_entry(a, k, k, i, p);
            if p != i {
                assert(magnitude64(a[i * b.len() + p]) == 0);
            }
        }
        lemma_blank_sum::<F>(arow, x, k, sum);
        assert(subtracted64::<F>(sum, b[i], g[i]));
        assert(violation(x[i], g[i]) == negated64(g[i]));
        assert(!less64(TOLERANCE, negated64(g[i])));
        assert(e != i);
        lemma_fixed_stay::<F>(b.len() + 1, a, b, e, x, free.update(e, true), x2, f2, i);
        lemma_stays_down::<F>((n - 1) as nat, a, b, x2, f2, x1, f1, i);
    }
}

/// With arithmetic that keeps signs, whatever it rounds, a pose that is
/// orthogonal to all others gets no weight where no component of the delta goes
/// its way and the weight before does not pull it up.
pub proof fn law_poses_against_the_delta_get_no_weight<F: FloatOps>(
    s: BvlsSystem,
    delta: Seq<u32>,
    after: BvlsSystem,
    w: Seq<u32>,
    i: int,
)
    requires
        keeps_signs::<F>(),
        s.valid(),
        delta.len() == s.masked_position_count,
        s.solves::<F>(delta, after, Some(w)),
        0 <= i < s.active_count,
        forall|j: int|
            0 <= j < s.active_count && j != i ==> magnitude64(
                #[trigger] s.a[i * s.active_count + j],
            ) == 0,
        forall|p: int| 0 <= p < delta.len() ==> is_finite32(#[trigger] delta[p]),
        forall|p: int|
            0 <= p < delta.len() ==> is_finite64(
                #[trigger] s.dt[i * s.masked_position_count + p],
            ) && number64(s.dt[i * s.masked_position_count + p]) * number32(delta[p]) <= 0 as real,
        is_finite64(s.temporal_scale),
        is_finite64(s.prev_weights[i]),
        number64(s.temporal_scale) * number64(s.prev_weights[i]) <= 0 as real,
    ensures
        after.prev_weights[i] == 0,
        number32(w[i]) == 0 as real,
{
    let x = after.prev_weights;
    let k = s.active_count as int;
    let v = s.masked_position_count as int;
    let (d, b) = choose|d: Seq<u64>, b: Seq<u64>| #[trigger]
        s.minimum_through::<F>(delta, d, b, Some(x));
    assert(s.target_is::<F>(d, i, b[i]));
    let drow = row(s.dt, v, i);
    let (sum, t) = choose|sum: u64, t: u64|
        {
            &&& dot_is::<F>(
                row(s.dt, s.masked_position_count as int, i),
                d,
                0,
                s.masked_position_count as int,
                sum,
            )
            &&& #[trigger] multiplied64::<F>(s.temporal_scale, s.prev_weights[i], t)
            &&& #[trigger] added64::<F>(sum, t, b[i])
        };
    assert forall|p: int| 0 <= p < v implies is_finite64(#[trigger] drow[p]) by {
        lemma_row_entry(s.dt, v, k, i, p);
        assert(is_finite64(s.dt[i * s.masked_position_count + p]));
    }
    assert forall|p: int| 0 <= p < v implies is_finite64(#[trigger] d[p]) by {
        assert(widens(delta[p], d[p]));
        law_widening_keeps_the_number(delta[p], d[p]);
    }
    assert forall|p: int| 0 <= p < v implies #[trigger] number64(drow[p]) * number64(d[p])
        <= 0 as real by {
        lemma_row_entry(s.dt, v, k, i, p);
        assert(widens(delta[p], d[p]));
        law_widening_keeps_the_number(delta[p], d[p]);
        assert(is_finite64(s.dt[i * s.masked_position_count + p]));
    }
    lemma_opposed_sum::<F>(drow, d, v, sum);
    assert(multiplied64::<F>(s.temporal_scale, s.prev_weights[i], t));
    assert(added64::<F>(sum, t, b[i]));
    law_minima_meet_the_stop_test::<F>(200, s.a, b, zeros(b.len()), all_fixed(b.len()), x);
    let (n, f1) = choose|n: nat, f1: Seq<bool>| #[trigger]
        ends_after::<F>(n, 200, s.a, b, zeros(b.len()), all_fixed(b.len()), x, f1);
    lemma_stays_down::<F>(n, s.a, b, zeros(b.len()), all_fixed(b.len()), x, f1, i);
    law_bounds_denote();
    assert(narrows(x[i], w[i]));
    law_narrowing_is_close(x[i], w[i]);
}

} // verus!
