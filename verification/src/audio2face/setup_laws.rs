//! What a solver is set up with.

use vstd::prelude::*;

use crate::audio2face::bvls_solver::{bounding_box_scale_is, set_up_is, BvlsBlendshapeSolver,
    BvlsSystem, Setup};
use crate::audio2face::solver_math::SolverMath;
use crate::audio2face::solver_trait::BlendshapeSolver;
use crate::float_bits::{is_finite32, is_finite64, widens};
use crate::float_exact::{law_bounds_denote, law_numbers64_are_ordered,
    law_widening_keeps_the_number, never_rounds, number64};
use crate::float_ops::{divided64, multiplied64, FloatOps};
use crate::float_rounding::{is_nearest32, law_constants_denote, law_numbers_are_ordered, number32};
use crate::narrowing_laws::law_narrowing_is_nearest;

verus! {

/// With exact arithmetic the scale of the regularisation is the square of how
/// much larger the face's box is than the template's, and zero where one of
/// them has no extent.
pub proof fn law_scale_is_the_squared_ratio<F: FloatOps>(
    bb_size: u64,
    template_bb_size: u32,
    scale: u64,
)
    requires
        never_rounds::<F>(),
        is_finite64(bb_size),
        is_finite32(template_bb_size),
        bounding_box_scale_is::<F>(bb_size, template_bb_size, scale),
    ensures
        is_finite64(scale),
        number64(bb_size) > 0 as real && number32(template_bb_size) > 0 as real ==> number64(scale)
            * (number32(template_bb_size) * number32(template_bb_size)) == number64(bb_size)
            * number64(bb_size),
        number64(bb_size) <= 0 as real || number32(template_bb_size) <= 0 as real ==> number64(
            scale,
        ) == 0 as real,
{
    law_bounds_denote();
    law_constants_denote();
    law_numbers64_are_ordered(0, bb_size);
    law_numbers_are_ordered(0, template_bb_size);
    if number64(bb_size) > 0 as real && number32(template_bb_size) > 0 as real {
        let (t, q) = choose|t: u64, q: u64|
            {
                &&& #[trigger] widens(template_bb_size, t)
                &&& #[trigger] divided64::<F>(bb_size, t, q)
                &&& multiplied64::<F>(q, q, scale)
            };
        law_widening_keeps_the_number(template_bb_size, t);
        assert(divided64::<F>(bb_size, t, q));
        assert(multiplied64::<F>(q, q, scale));
        let u = number64(t);
        let v = number64(q);
        let w = number64(bb_size);
        assert((v * v) * (u * u) == (v * u) * (v * u)) by (nonlinear_arith);
    }
}

/// A solver's system is made by transposing the poses, multiplying the
/// transpose with itself, and adding the regularisation by the three strengths,
/// each in its own place, at the scale that the face's box gives; its temporal
/// weight comes with the regularisation.
pub proof fn law_systems_come_from_the_poses<F: FloatOps, M: SolverMath>(
    delta_matrix: &Vec<u32>,
    v: usize,
    k: usize,
    neutral: &Vec<u32>,
    template_bb_size: u32,
    strength_l2: u32,
    strength_l1: u32,
    strength_temporal: u32,
    system: BvlsSystem,
)
    requires
        set_up_is::<F, M>(
            delta_matrix,
            v,
            k,
            neutral,
            template_bb_size,
            (strength_l2, strength_l1, strength_temporal),
            Some(system),
        ),
    ensures
        system.valid(),
        system.active_count == k,
        system.masked_position_count == v,
        forall|i: int| 0 <= i < k ==> #[trigger] system.prev_weights[i] == 0,
        exists|dt: Vec<u64>, product: Vec<u64>, bb_size: u64, scale: u64, a: Vec<u64>|
            {
                &&& #[trigger] call_ensures(M::compute_transpose, (delta_matrix, v, k), dt)
                &&& #[trigger] call_ensures(M::compute_dt_d, (&dt, k, v), product)
                &&& #[trigger] call_ensures(M::compute_bounding_box_diagonal, (neutral,), bb_size)
                &&& #[trigger] bounding_box_scale_is::<F>(bb_size, template_bb_size, scale)
                &&& #[trigger] call_ensures(
                    M::apply_regularization,
                    (product, k, scale, strength_l2, strength_l1, strength_temporal),
                    (a, system.temporal_scale),
                )
                &&& system.dt == dt@
                &&& system.a == a@
            },
{
    let made = choose|made: Setup| #[trigger]
        made.goes_into::<F, M>(
            delta_matrix,
            v,
            k,
            neutral,
            template_bb_size,
            (strength_l2, strength_l1, strength_temporal),
        ) && Some(system) == made.system(v, k);
    assert(call_ensures(M::compute_transpose, (delta_matrix, v, k), made.dt));
    assert(call_ensures(M::compute_dt_d, (&made.dt, k, v), made.product));
    assert(call_ensures(M::compute_bounding_box_diagonal, (neutral,), made.bb_size));
    assert(call_ensures(
        M::apply_regularization,
        (made.product, k, made.scale, strength_l2, strength_l1, strength_temporal),
        (made.a, system.temporal_scale),
    ));
}

/// What the solver reports of itself is what its system holds, and two solvers
/// pose the same system where they agree in all but the weights that they are
/// pulled towards.
pub proof fn law_solvers_report_their_system<F: FloatOps>(
    s: BvlsBlendshapeSolver<F>,
    t: BvlsBlendshapeSolver<F>,
)
    ensures
        s.temporal() == s@.prev_weights,
        s.weight_count() == s@.active_count,
        s.position_count() == s@.masked_position_count,
        s.same_system(&t) <==> {
            &&& s@.active_count == t@.active_count
            &&& s@.masked_position_count == t@.masked_position_count
            &&& s@.dt == t@.dt
            &&& s@.a == t@.a
            &&& s@.temporal_scale == t@.temporal_scale
        },
        s.valid() ==> {
            &&& s@.dt.len() == s@.active_count * s@.masked_position_count
            &&& s@.a.len() == s@.active_count * s@.active_count
            &&& s@.prev_weights.len() == s@.active_count
        },
{
    if s@.active_count == t@.active_count && s@.masked_position_count == t@.masked_position_count
        && s@.dt == t@.dt && s@.a == t@.a && s@.temporal_scale == t@.temporal_scale {
        assert(s@ =~= t@.pulled_to(s@.prev_weights));
    }
}

/// A solve that gives weights pulls the next one towards their wide forms; one
/// that gives none changes nothing. The system stays what it was.
pub proof fn law_solves_pull_the_next<F: FloatOps>(
    s: BvlsBlendshapeSolver<F>,
    delta: Seq<u32>,
    after: BvlsBlendshapeSolver<F>,
    r: Option<Seq<u32>>,
)
    requires
        s.solves(delta, &after, r),
    ensures
        after@.dt == s@.dt,
        after@.a == s@.a,
        after@.temporal_scale == s@.temporal_scale,
        after@.active_count == s@.active_count,
        after@.masked_position_count == s@.masked_position_count,
        r is None ==> after@.prev_weights == s@.prev_weights,
        r matches Some(w) ==> w.len() == after@.prev_weights.len() && forall|i: int|
            0 <= i < w.len() && is_finite64(after@.prev_weights[i]) && is_finite32(
                #[trigger] w[i],
            ) ==> is_nearest32(number64(after@.prev_weights[i]), w[i]),
{
    if let Some(w) = r {
        assert forall|i: int|
            0 <= i < w.len() && is_finite64(after@.prev_weights[i]) && is_finite32(
                #[trigger] w[i],
            ) implies is_nearest32(number64(after@.prev_weights[i]), w[i]) by {
            law_narrowing_is_nearest(after@.prev_weights[i], w[i]);
        }
    }
}

} // verus!
