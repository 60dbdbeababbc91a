//! What smoothing comes to, with arithmetic that rounds to nearest.

use vstd::prelude::*;

use crate::arkit::{mean_is, means_are, Smoothing, ARKIT_52};
use crate::float_bits::{at_most32, clamped32, is_finite32, ONE32};
use crate::float_ops::{added32, is_repeatable, multiplied32, subtracted32, FloatOps};
use crate::float_rounding::{is_nearest32, law_constants_denote, law_exact_results_stay,
    law_finite_numbers_are_in_range, law_numbers_are_ordered, number32, rounds_to_nearest};
use crate::lip_sync::repeat_laws::law_smoothing_repeats;

verus! {

/// Whether `frame` holds a finite number for every blendshape.
pub open spec fn is_plain(frame: Seq<u32>) -> bool {
    frame.len() == ARKIT_52 && forall|i: int|
        0 <= i < ARKIT_52 ==> is_finite32(#[trigger] frame[i])
}

/// Whether two frames hold the same numbers. A zero may have either sign.
pub open spec fn same_numbers(a: Seq<u32>, b: Seq<u32>) -> bool {
    is_plain(a) && is_plain(b) && forall|i: int|
        0 <= i < ARKIT_52 ==> number32(#[trigger] a[i]) == number32(b[i])
}

/// Whether smoothing `inputs` one after the other gives `outs`.
pub open spec fn smooths_all<F: FloatOps>(
    s: Smoothing,
    inputs: Seq<Seq<u32>>,
    outs: Seq<Seq<u32>>,
) -> bool
    decreases inputs.len(),
{
    &&& inputs.len() == outs.len()
    &&& inputs.len() > 0 ==> s.smooths::<F>(inputs[0], outs[0]) && smooths_all::<F>(
        s.after(outs[0]),
        inputs.skip(1),
        outs.skip(1),
    )
}

proof fn lemma_mean_at_an_end<F: FloatOps>(a: u32, x: u32, b: u32, y: u32, r: u32)
    requires
        rounds_to_nearest::<F>(),
        is_finite32(a),
        is_finite32(x),
        is_finite32(b),
        is_finite32(y),
        mean_is::<F>(a, x, b, y, r),
        (number32(a) == 0 as real && number32(b) == 1 as real) || (number32(a) == 1 as real
            && number32(b) == 0 as real),
    ensures
        is_finite32(r),
        number32(r) == if number32(a) == 0 as real {
            number32(y)
        } else {
            number32(x)
        },
{
    let (p, q) = choose|p: u32, q: u32|
        multiplied32::<F>(a, x, p) && multiplied32::<F>(b, y, q) && #[trigger] added32::<F>(
            p,
            q,
            r,
        );
    let u = number32(x);
    let v = number32(y);
    law_constants_denote();
    law_finite_numbers_are_in_range(x);
    law_finite_numbers_are_in_range(y);
    law_finite_numbers_are_in_range(0);
    assert((0 as real) * u == 0 as real && (1 as real) * u == u && (0 as real) * v == 0 as real
        && (1 as real) * v == v) by (nonlinear_arith);
    assert(is_nearest32(number32(a) * u, p));
    assert(is_nearest32(number32(b) * v, q));
    if number32(a) == 0 as real {
        law_exact_results_stay(0 as real, 0, p);
        law_exact_results_stay(v, y, q);
        assert(is_nearest32(number32(p) + number32(q), r));
        law_exact_results_stay(v, y, r);
    } else {
        law_exact_results_stay(u, x, p);
        law_exact_results_stay(0 as real, 0, q);
        assert(is_nearest32(number32(p) + number32(q), r));
        law_exact_results_stay(u, x, r);
    }
}

proof fn lemma_rest_at_an_end<F: FloatOps>(alpha: u32, rest: u32)
    requires
        rounds_to_nearest::<F>(),
        is_finite32(alpha),
        number32(alpha) == 0 as real || number32(alpha) == 1 as real,
        subtracted32::<F>(ONE32, alpha, rest),
    ensures
        is_finite32(rest),
        number32(rest) == 1 as real - number32(alpha),
{
    law_constants_denote();
    law_finite_numbers_are_in_range(ONE32);
    law_finite_numbers_are_in_range(0);
    assert(is_nearest32(number32(ONE32) - number32(alpha), rest));
    if number32(alpha) == 0 as real {
        law_exact_results_stay(1 as real, ONE32, rest);
    } else {
        law_exact_results_stay(0 as real, 0, rest);
    }
}

proof fn lemma_frame_at_an_end<F: FloatOps>(s: Smoothing, input: Seq<u32>, out: Seq<u32>)
    requires
        rounds_to_nearest::<F>(),
        is_finite32(s.alpha),
        number32(s.alpha) == 0 as real || number32(s.alpha) == 1 as real,
        s.has_prev,
        is_plain(s.prev),
        is_plain(input),
        s.smooths::<F>(input, out),
    ensures
        same_numbers(
            out,
            if number32(s.alpha) == 0 as real {
                input
            } else {
                s.prev
            },
        ),
{
    let rest = choose|rest: u32| #[trigger]
        subtracted32::<F>(ONE32, s.alpha, rest) && means_are::<F>(
            s.alpha,
            s.prev,
            rest,
            input,
            out,
        );
    lemma_rest_at_an_end::<F>(s.alpha, rest);
    assert forall|i: int| 0 <= i < ARKIT_52 implies is_finite32(#[trigger] out[i]) && number32(
        out[i],
    ) == number32(
        if number32(s.alpha) == 0 as real {
            input[i]
        } else {
            s.prev[i]
        },
    ) by {
        assert(mean_is::<F>(s.alpha, s.prev[i], rest, input[i], out[i]));
        assert(is_finite32(s.prev[i]) && is_finite32(input[i]));
        lemma_mean_at_an_end::<F>(s.alpha, s.prev[i], rest, input[i], out[i]);
    }
}

proof fn lemma_all_pass<F: FloatOps>(s: Smoothing, inputs: Seq<Seq<u32>>, outs: Seq<Seq<u32>>)
    requires
        rounds_to_nearest::<F>(),
        is_finite32(s.alpha),
        number32(s.alpha) == 0 as real,
        s.has_prev ==> is_plain(s.prev),
        forall|k: int| 0 <= k < inputs.len() ==> is_plain(#[trigger] inputs[k]),
        smooths_all::<F>(s, inputs, outs),
    ensures
        forall|k: int| 0 <= k < inputs.len() ==> same_numbers(#[trigger] outs[k], inputs[k]),
    decreases inputs.len(),
{
    if inputs.len() > 0 {
        assert(is_plain(inputs[0]));
        if s.has_prev {
            lemma_frame_at_an_end::<F>(s, inputs[0], outs[0]);
        }
        assert(same_numbers(outs[0], inputs[0]));
        let next = inputs.skip(1);
        assert forall|k: int| 0 <= k < next.len() implies is_plain(#[trigger] next[k]) by {
            assert(next[k] == inputs[k + 1]);
        }
        lemma_all_pass::<F>(s.after(outs[0]), next, outs.skip(1));
        assert forall|k: int| 0 <= k < inputs.len() implies same_numbers(
            #[trigger] outs[k],
            inputs[k],
        ) by {
            if k > 0 {
                assert(same_numbers(outs.skip(1)[k - 1], next[k - 1]));
            }
        }
    }
}

proof fn lemma_all_stay<F: FloatOps>(
    s: Smoothing,
    first: Seq<u32>,
    inputs: Seq<Seq<u32>>,
    outs: Seq<Seq<u32>>,
)
    requires
        rounds_to_nearest::<F>(),
        is_finite32(s.alpha),
        number32(s.alpha) == 1 as real,
        s.has_prev,
        same_numbers(s.prev, first),
        forall|k: int| 0 <= k < inputs.len() ==> is_plain(#[trigger] inputs[k]),
        smooths_all::<F>(s, inputs, outs),
    ensures
        forall|k: int| 0 <= k < inputs.len() ==> same_numbers(#[trigger] outs[k], first),
    decreases inputs.len(),
{
    if inputs.len() > 0 {
        assert(is_plain(inputs[0]));
        lemma_frame_at_an_end::<F>(s, inputs[0], outs[0]);
        assert(same_numbers(outs[0], first)) by {
            assert forall|i: int| 0 <= i < ARKIT_52 implies number32(#[trigger] outs[0][i])
                == number32(first[i]) by {
                assert(number32(s.prev[i]) == number32(first[i]));
            }
        }
        let next = inputs.skip(1);
        assert forall|k: int| 0 <= k < next.len() implies is_plain(#[trigger] next[k]) by {
            assert(next[k] == inputs[k + 1]);
        }
        lemma_all_stay::<F>(s.after(outs[0]), first, next, outs.skip(1));
        assert forall|k: int| 0 <= k < inputs.len() implies same_numbers(
            #[trigger] outs[k],
            first,
        ) by {
            if k > 0 {
                assert(same_numbers(outs.skip(1)[k - 1], first));
            }
        }
    }
}

/// With a share of zero or less every frame passes through: each output holds
/// the numbers of its own input.
pub proof fn law_no_share_passes_everything<F: FloatOps>(
    alpha: u32,
    inputs: Seq<Seq<u32>>,
    outs: Seq<Seq<u32>>,
)
    requires
        rounds_to_nearest::<F>(),
        at_most32(alpha, 0),
        forall|k: int| 0 <= k < inputs.len() ==> is_plain(#[trigger] inputs[k]),
        smooths_all::<F>(Smoothing::fresh(clamped32(alpha, 0, ONE32)), inputs, outs),
    ensures
        forall|k: int| 0 <= k < inputs.len() ==> same_numbers(#[trigger] outs[k], inputs[k]),
{
    let share = clamped32(alpha, 0, ONE32);
    law_constants_denote();
    law_numbers_are_ordered(share, 0);
    law_numbers_are_ordered(0, share);
    lemma_all_pass::<F>(Smoothing::fresh(share), inputs, outs);
}

/// With a share of one or more the first frame stays forever: each output holds
/// its numbers.
pub proof fn law_whole_share_keeps_the_first_frame<F: FloatOps>(
    alpha: u32,
    inputs: Seq<Seq<u32>>,
    outs: Seq<Seq<u32>>,
)
    requires
        rounds_to_nearest::<F>(),
        at_most32(ONE32, alpha),
        forall|k: int| 0 <= k < inputs.len() ==> is_plain(#[trigger] inputs[k]),
        smooths_all::<F>(Smoothing::fresh(clamped32(alpha, 0, ONE32)), inputs, outs),
    ensures
        forall|k: int| 0 <= k < inputs.len() ==> same_numbers(#[trigger] outs[k], inputs[0]),
{
    let share = clamped32(alpha, 0, ONE32);
    law_constants_denote();
    law_numbers_are_ordered(share, ONE32);
    law_numbers_are_ordered(ONE32, share);
    if inputs.len() > 0 {
        let s = Smoothing::fresh(share);
        let next = inputs.skip(1);
        assert(is_plain(inputs[0]));
        assert(outs[0] == inputs[0]);
        assert forall|k: int| 0 <= k < next.len() implies is_plain(#[trigger] next[k]) by {
            assert(next[k] == inputs[k + 1]);
        }
        lemma_all_stay::<F>(s.after(outs[0]), inputs[0], next, outs.skip(1));
        assert forall|k: int| 0 <= k < inputs.len() implies same_numbers(
            #[trigger] outs[k],
            inputs[0],
        ) by {
            if k > 0 {
                assert(same_numbers(outs.skip(1)[k - 1], inputs[0]));
            }
        }
    }
}

/// Only the clamped share counts: a smoother made with it is the one made with
/// the share itself.
pub proof fn law_only_the_clamped_share_counts(alpha: u32)
    ensures
        Smoothing::fresh(clamped32(clamped32(alpha, 0, ONE32), 0, ONE32)) == Smoothing::fresh(
            clamped32(alpha, 0, ONE32),
        ),
{
}

/// From the same state, as a snapshot brings it back, the same inputs give the
/// same outputs again.
pub proof fn law_restored_smoothing_repeats<F: FloatOps>(
    s: Smoothing,
    t: Smoothing,
    inputs: Seq<Seq<u32>>,
    r: Seq<Seq<u32>>,
    q: Seq<Seq<u32>>,
)
    requires
        is_repeatable::<F>(),
        t.alpha == s.alpha,
        smooths_all::<F>(s, inputs, r),
        smooths_all::<F>(t.restored(s.prev, s.has_prev), inputs, q),
    ensures
        r == q,
    decreases inputs.len(),
{
    if inputs.len() > 0 {
        law_smoothing_repeats::<F>(s, inputs[0], r[0], q[0]);
        let next = s.after(r[0]);
        assert(next.restored(next.prev, next.has_prev) == next);
        law_restored_smoothing_repeats::<F>(next, next, inputs.skip(1), r.skip(1), q.skip(1));
        assert(r =~= seq![r[0]] + r.skip(1));
        assert(q =~= seq![q[0]] + q.skip(1));
    } else {
        assert(r =~= q);
    }
}

} // verus!
