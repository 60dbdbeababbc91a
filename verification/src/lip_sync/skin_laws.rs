//! What becomes of a skin frame: how far its vertices are displaced, and which
//! ARKit value each solver weight gives.

use vstd::prelude::*;

use crate::audio2face::animator_skin_config::AnimatorSkinConfig;
use crate::audio2face::blendshape_data::{BlendshapeConfig, BlendshapeData};
use crate::audio2face::solver_trait::BlendshapeSolver;
use crate::float_bits::{is_finite32, negated32};
use crate::float_ops::{added32, multiplied32, subtracted32, FloatOps};
use crate::float_rounding::{distance, half_step, in_range32, is_nearest32, law_constants_denote,
    law_exact_results_stay, law_finite_numbers_are_in_range, law_negation_denotes_the_opposite,
    law_numbers_are_ordered, law_products_are_near, law_quadruples_are_in_range,
    law_relative_rounding_error, law_rounding_keeps_bounds, law_sums_are_near, number32,
    rounds_to_nearest};
use crate::lip_sync::skin::{adjusted_is, component_is, config_fits, delta_entry_is, delta_is,
    expanded_is, in_mesh, mask_fits, spread, Motion, Rig};

verus! {

/// Where one vertex component is displaced to, over the reals: the frame's
/// displacement times its strength, the closed eye taken back by the eyelid
/// offset, the open lip added by the lip offset, on the model's neutral, less
/// the solver's neutral.
pub open spec fn displaced(
    config: AnimatorSkinConfig,
    skin: u32,
    eye: u32,
    lip: u32,
    model: u32,
    neutral: u32,
) -> real {
    number32(model) + number32(config.skin_strength) * number32(skin) - number32(
        config.eyelid_open_offset,
    ) * number32(eye) + number32(config.lip_open_offset) * number32(lip) - number32(neutral)
}

/// Whether all that goes into a vertex component is finite, and none of its
/// five parts exceeds half of `h`.
pub open spec fn is_tame(
    config: AnimatorSkinConfig,
    skin: u32,
    eye: u32,
    lip: u32,
    model: u32,
    neutral: u32,
    h: u32,
) -> bool {
    &&& 0x80_0000 <= h <= 0x7dff_ffff
    &&& is_finite32(config.skin_strength)
    &&& is_finite32(config.eyelid_open_offset)
    &&& is_finite32(config.lip_open_offset)
    &&& is_finite32(skin)
    &&& is_finite32(eye)
    &&& is_finite32(lip)
    &&& is_finite32(model)
    &&& is_finite32(neutral)
    &&& 2 as real * distance(
        number32(config.skin_strength) * number32(skin),
        0 as real,
    ) <= number32(h)
    &&& 2 as real * distance(
        number32(config.eyelid_open_offset) * number32(eye),
        0 as real,
    ) <= number32(h)
    &&& 2 as real * distance(
        number32(config.lip_open_offset) * number32(lip),
        0 as real,
    ) <= number32(h)
    &&& 2 as real * distance(number32(model), 0 as real) <= number32(h)
    &&& 2 as real * distance(number32(neutral), 0 as real) <= number32(h)
}

/// [`number32`], without its definition.
#[verifier::opaque]
spec fn denoted(b: u32) -> real {
    number32(b)
}

#[verifier::opaque]
spec fn rounds<F: FloatOps>() -> bool {
    rounds_to_nearest::<F>()
}

/// A rounding error for numbers up to four times `u`.
#[verifier::opaque]
spec fn error(u: real) -> real {
    2 as real * half_step() * u
}

proof fn lemma_error(u: real)
    requires
        u > 0 as real,
    ensures
        4194304 as real * error(u) == u,
{
    reveal(error);
    let e = 2 as real * half_step() * u;
    assert(4194304 as real * e == u) by (nonlinear_arith)
        requires
            e == 2 as real * half_step() * u,
            half_step() == 1 as real / 8388608 as real,
    ;
}

/// A product `x` that does not exceed half of `h`.
proof fn lemma_product<F: FloatOps>(a: u32, b: u32, h: u32, r: u32, x: real)
    requires
        rounds::<F>(),
        is_finite32(a),
        is_finite32(b),
        0x80_0000 <= h <= 0x7dff_ffff,
        multiplied32::<F>(a, b, r),
        x == number32(a) * number32(b),
        2 as real * distance(x, 0 as real) <= number32(h),
    ensures
        is_finite32(r),
        distance(denoted(r), x) <= error(denoted(h)),
{
    reveal(rounds);
    reveal(denoted);
    reveal(error);
    law_products_are_near::<F>(a, b, h, r);
}

/// The sum of two numbers that lie within `d` and `e` of `x` and `y`.
proof fn lemma_sum<F: FloatOps>(a: u32, b: u32, h: u32, r: u32, x: real, y: real, d: real, e: real)
    requires
        rounds::<F>(),
        is_finite32(a),
        is_finite32(b),
        0x80_0000 <= h <= 0x7dff_ffff,
        added32::<F>(a, b, r),
        distance(denoted(a), x) <= d,
        distance(denoted(b), y) <= e,
        distance(x + y, 0 as real) + d + e <= 4 as real * denoted(h),
    ensures
        is_finite32(r),
        distance(denoted(r), x + y) <= d + e + error(denoted(h)),
{
    reveal(rounds);
    reveal(denoted);
    reveal(error);
    lemma_sum_of_near(denoted(a), denoted(b), x, y, d, e);
    law_sums_are_near::<F>(a, b, h, r);
    lemma_further(number32(r), number32(a) + number32(b), x + y, error(number32(h)), d + e);
}

/// The difference of two numbers that lie within `d` of `x`, and at `y`.
proof fn lemma_difference<F: FloatOps>(a: u32, b: u32, h: u32, r: u32, x: real, d: real)
    requires
        rounds::<F>(),
        is_finite32(a),
        is_finite32(b),
        0x80_0000 <= h <= 0x7dff_ffff,
        subtracted32::<F>(a, b, r),
        distance(denoted(a), x) <= d,
        distance(x - denoted(b), 0 as real) + d <= 4 as real * denoted(h),
    ensures
        is_finite32(r),
        distance(denoted(r), x - denoted(b)) <= d + error(denoted(h)),
{
    reveal(rounds);
    reveal(denoted);
    reveal(error);
    law_quadruples_are_in_range(h);
    lemma_sum_of_near(number32(a), -number32(b), x, -number32(b), d, 0 as real);
    assert(is_nearest32(number32(a) - number32(b), r));
    law_relative_rounding_error(number32(a) - number32(b), h, r);
    lemma_further(
        number32(r),
        number32(a) - number32(b),
        x - number32(b),
        error(number32(h)),
        d,
    );
}

proof fn lemma_sum_of_near(a: real, b: real, x: real, y: real, d: real, e: real)
    requires
        distance(a, x) <= d,
        distance(b, y) <= e,
    ensures
        distance(a + b, x + y) <= d + e,
        distance(a + b, 0 as real) <= distance(x + y, 0 as real) + d + e,
{
}

proof fn lemma_further(r: real, a: real, x: real, d: real, e: real)
    requires
        distance(r, a) <= d,
        distance(a, x) <= e,
    ensures
        distance(r, x) <= d + e,
{
}

/// The operations on the way to a vertex component, from products `x`, `y` and
/// `z` that do not exceed half of `h`.
proof fn lemma_chain<F: FloatOps>(
    model: u32,
    neutral: u32,
    s: u32,
    e: u32,
    se: u32,
    l: u32,
    composed: u32,
    moved: u32,
    r: u32,
    h: u32,
    x: real,
    y: real,
    z: real,
)
    requires
        rounds::<F>(),
        0x80_0000 <= h <= 0x7dff_ffff,
        is_finite32(s),
        is_finite32(e),
        is_finite32(l),
        is_finite32(model),
        is_finite32(neutral),
        2 as real * distance(x, 0 as real) <= denoted(h),
        2 as real * distance(y, 0 as real) <= denoted(h),
        2 as real * distance(z, 0 as real) <= denoted(h),
        2 as real * distance(denoted(model), 0 as real) <= denoted(h),
        2 as real * distance(denoted(neutral), 0 as real) <= denoted(h),
        distance(denoted(s), x) <= error(denoted(h)),
        distance(denoted(e), y) <= error(denoted(h)),
        distance(denoted(l), z) <= error(denoted(h)),
        added32::<F>(s, e, se),
        added32::<F>(se, l, composed),
        added32::<F>(model, composed, moved),
        subtracted32::<F>(moved, neutral, r),
    ensures
        is_finite32(r),
        4194304 as real * distance(denoted(r), denoted(model) + (x + y + z) - denoted(neutral))
            <= 7 as real * denoted(h),
{
    let u = denoted(h);
    let d = error(u);
    let m = denoted(model);
    let n = denoted(neutral);
    assert(u > 0 as real) by {
        reveal(denoted);
        law_constants_denote();
        law_numbers_are_ordered(0, h);
    }
    lemma_error(u);
    lemma_halves(x, y, z, m, n, u);
    lemma_sum::<F>(s, e, h, se, x, y, d, d);
    lemma_sum::<F>(se, l, h, composed, x + y, z, d + d + d, d);
    let five = d + d + d + d + d;
    lemma_sum::<F>(model, composed, h, moved, m, x + y + z, 0 as real, five);
    lemma_difference::<F>(moved, neutral, h, r, m + (x + y + z), five + d);
}

proof fn lemma_halves(x: real, y: real, z: real, m: real, n: real, u: real)
    requires
        2 as real * distance(x, 0 as real) <= u,
        2 as real * distance(y, 0 as real) <= u,
        2 as real * distance(z, 0 as real) <= u,
        2 as real * distance(m, 0 as real) <= u,
        2 as real * distance(n, 0 as real) <= u,
    ensures
        distance(x + y, 0 as real) <= 3 as real * u,
        distance(x + y + z, 0 as real) <= 3 as real * u,
        distance(m + (x + y + z), 0 as real) <= 3 as real * u,
        distance(m + (x + y + z) - n, 0 as real) <= 3 as real * u,
{
}

/// With arithmetic that rounds to nearest, a vertex component is displaced to
/// where the formula over the reals says, up to seven roundings.
pub proof fn law_components_are_displaced<F: FloatOps>(
    config: AnimatorSkinConfig,
    skin: u32,
    eye: u32,
    lip: u32,
    model: u32,
    neutral: u32,
    h: u32,
    r: u32,
)
    requires
        rounds_to_nearest::<F>(),
        is_tame(config, skin, eye, lip, model, neutral, h),
        component_is::<F>(config, skin, eye, lip, model, neutral, r),
    ensures
        is_finite32(r),
        4194304 as real * distance(
            number32(r),
            displaced(config, skin, eye, lip, model, neutral),
        ) <= 7 as real * number32(h),
{
    let (s, e, se, l, composed, moved) = choose|
        s: u32,
        e: u32,
        se: u32,
        l: u32,
        composed: u32,
        moved: u32,
    |
        {
            &&& #[trigger] multiplied32::<F>(config.skin_strength, skin, s)
            &&& #[trigger] multiplied32::<F>(eye, negated32(config.eyelid_open_offset), e)
            &&& #[trigger] added32::<F>(s, e, se)
            &&& #[trigger] multiplied32::<F>(lip, config.lip_open_offset, l)
            &&& #[trigger] added32::<F>(se, l, composed)
            &&& #[trigger] added32::<F>(model, composed, moved)
            &&& subtracted32::<F>(moved, neutral, r)
        };
    assert(rounds::<F>()) by {
        reveal(rounds);
    }
    law_negation_denotes_the_opposite(config.eyelid_open_offset);
    let eyelid = number32(config.eyelid_open_offset);
    let eyed = number32(eye);
    let lipped = number32(lip);
    let offset = number32(config.lip_open_offset);
    assert(eyed * (-eyelid) == -(eyelid * eyed)) by (nonlinear_arith);
    assert(lipped * offset == offset * lipped) by (nonlinear_arith);
    let x = number32(config.skin_strength) * number32(skin);
    let y = eyed * (-eyelid);
    let z = lipped * offset;
    reveal(denoted);
    lemma_product::<F>(config.skin_strength, skin, h, s, x);
    lemma_product::<F>(eye, negated32(config.eyelid_open_offset), h, e, y);
    lemma_product::<F>(lip, config.lip_open_offset, h, l, z);
    lemma_chain::<F>(model, neutral, s, e, se, l, composed, moved, r, h, x, y, z);
}

/// Whatever the arithmetic, a vertex component is put together in this order:
/// the scaled frame, the closed eye times the offset with its sign flipped, the
/// open lip times its offset, then the model's neutral with these behind it,
/// and last the solver's neutral.
pub proof fn law_components_are_put_together_in_order<F: FloatOps>(
    config: AnimatorSkinConfig,
    skin: u32,
    eye: u32,
    lip: u32,
    model: u32,
    neutral: u32,
    r: u32,
    flipped: u32,
)
    requires
        component_is::<F>(config, skin, eye, lip, model, neutral, r),
        flipped != config.eyelid_open_offset,
        flipped as int % 0x8000_0000 == config.eyelid_open_offset as int % 0x8000_0000,
    ensures
        exists|parts: Seq<u32>| #[trigger]
            parts.len() == 7 && parts[6] == r && multiplied32::<F>(
                config.skin_strength,
                skin,
                parts[0],
            ) && multiplied32::<F>(eye, flipped, parts[1]) && added32::<F>(
                parts[0],
                parts[1],
                parts[2],
            ) && multiplied32::<F>(lip, config.lip_open_offset, parts[3]) && added32::<F>(
                parts[2],
                parts[3],
                parts[4],
            ) && added32::<F>(model, parts[4], parts[5]) && subtracted32::<F>(
                parts[5],
                neutral,
                parts[6],
            ),
{
    let (s, e, se, l, composed, moved) = choose|
        s: u32,
        e: u32,
        se: u32,
        l: u32,
        composed: u32,
        moved: u32,
    |
        {
            &&& #[trigger] multiplied32::<F>(config.skin_strength, skin, s)
            &&& #[trigger] multiplied32::<F>(eye, negated32(config.eyelid_open_offset), e)
            &&& #[trigger] added32::<F>(s, e, se)
            &&& #[trigger] multiplied32::<F>(lip, config.lip_open_offset, l)
            &&& #[trigger] added32::<F>(se, l, composed)
            &&& #[trigger] added32::<F>(model, composed, moved)
            &&& subtracted32::<F>(moved, neutral, r)
        };
    assert(flipped == negated32(config.eyelid_open_offset));
    let parts = seq![s, e, se, l, composed, moved, r];
    assert(parts.len() == 7);
}

/// Adding and taking away what denotes zero keeps the number.
proof fn lemma_zeros_change_nothing<F: FloatOps>(
    s: u32,
    e: u32,
    se: u32,
    l: u32,
    composed: u32,
    model: u32,
    moved: u32,
    neutral: u32,
    r: u32,
)
    requires
        rounds_to_nearest::<F>(),
        is_finite32(s),
        is_finite32(e),
        is_finite32(l),
        is_finite32(model),
        is_finite32(neutral),
        number32(s) == 0 as real,
        number32(e) == 0 as real || number32(l) == 0 as real,
        number32(model) == 0 as real,
        number32(neutral) == 0 as real,
        added32::<F>(s, e, se),
        added32::<F>(se, l, composed),
        added32::<F>(model, composed, moved),
        subtracted32::<F>(moved, neutral, r),
    ensures
        is_finite32(r),
        number32(r) == number32(e) + number32(l),
{
    law_finite_numbers_are_in_range(e);
    law_finite_numbers_are_in_range(l);
    assert(is_nearest32(number32(s) + number32(e), se));
    law_exact_results_stay(number32(s) + number32(e), e, se);
    assert(is_nearest32(number32(se) + number32(l), composed));
    if number32(l) == 0 as real {
        law_exact_results_stay(number32(se) + number32(l), e, composed);
    } else {
        law_exact_results_stay(number32(se) + number32(l), l, composed);
    }
    assert(is_nearest32(number32(model) + number32(composed), moved));
    law_exact_results_stay(number32(model) + number32(composed), composed, moved);
    assert(is_nearest32(number32(moved) - number32(neutral), r));
    law_exact_results_stay(number32(moved) - number32(neutral), moved, r);
}

/// Where only the eyelid moves, a component is the number nearest to the eye
/// pose times the offset, taken back: it never has the sign of that product.
pub proof fn law_eyelids_are_taken_back<F: FloatOps>(
    config: AnimatorSkinConfig,
    skin: u32,
    eye: u32,
    lip: u32,
    model: u32,
    neutral: u32,
    r: u32,
)
    requires
        rounds_to_nearest::<F>(),
        is_finite32(config.skin_strength),
        is_finite32(config.eyelid_open_offset),
        is_finite32(config.lip_open_offset),
        is_finite32(skin),
        is_finite32(eye),
        is_finite32(lip),
        is_finite32(model),
        is_finite32(neutral),
        number32(config.skin_strength) * number32(skin) == 0 as real,
        number32(config.lip_open_offset) * number32(lip) == 0 as real,
        number32(model) == 0 as real,
        number32(neutral) == 0 as real,
        in_range32(number32(config.eyelid_open_offset) * number32(eye)),
        component_is::<F>(config, skin, eye, lip, model, neutral, r),
    ensures
        is_nearest32(-(number32(config.eyelid_open_offset) * number32(eye)), r),
        number32(config.eyelid_open_offset) * number32(eye) > 0 as real ==> number32(r)
            <= 0 as real,
        number32(config.eyelid_open_offset) * number32(eye) < 0 as real ==> number32(r)
            >= 0 as real,
{
    let (s, e, se, l, composed, moved) = choose|
        s: u32,
        e: u32,
        se: u32,
        l: u32,
        composed: u32,
        moved: u32,
    |
        {
            &&& #[trigger] multiplied32::<F>(config.skin_strength, skin, s)
            &&& #[trigger] multiplied32::<F>(eye, negated32(config.eyelid_open_offset), e)
            &&& #[trigger] added32::<F>(s, e, se)
            &&& #[trigger] multiplied32::<F>(lip, config.lip_open_offset, l)
            &&& #[trigger] added32::<F>(se, l, composed)
            &&& #[trigger] added32::<F>(model, composed, moved)
            &&& subtracted32::<F>(moved, neutral, r)
        };
    law_constants_denote();
    law_finite_numbers_are_in_range(0);
    law_negation_denotes_the_opposite(config.eyelid_open_offset);
    let eyelid = number32(config.eyelid_open_offset);
    let eyed = number32(eye);
    let lipped = number32(lip);
    let offset = number32(config.lip_open_offset);
    assert(eyed * (-eyelid) == -(eyelid * eyed)) by (nonlinear_arith);
    assert(lipped * offset == offset * lipped) by (nonlinear_arith);
    assert(is_nearest32(number32(config.skin_strength) * number32(skin), s));
    law_exact_results_stay(0 as real, 0, s);
    assert(is_nearest32(eyed * (-eyelid), e));
    assert(is_nearest32(lipped * offset, l));
    law_exact_results_stay(0 as real, 0, l);
    lemma_zeros_change_nothing::<F>(s, e, se, l, composed, model, moved, neutral, r);
    law_rounding_keeps_bounds(-(eyelid * eyed), 0, r);
}

/// Where only the lips move, a component is the number nearest to the lip pose
/// times the offset: it never has the other sign.
pub proof fn law_lips_are_added<F: FloatOps>(
    config: AnimatorSkinConfig,
    skin: u32,
    eye: u32,
    lip: u32,
    model: u32,
    neutral: u32,
    r: u32,
)
    requires
        rounds_to_nearest::<F>(),
        is_finite32(config.skin_strength),
        is_finite32(config.eyelid_open_offset),
        is_finite32(config.lip_open_offset),
        is_finite32(skin),
        is_finite32(eye),
        is_finite32(lip),
        is_finite32(model),
        is_finite32(neutral),
        number32(config.skin_strength) * number32(skin) == 0 as real,
        number32(config.eyelid_open_offset) * number32(eye) == 0 as real,
        number32(model) == 0 as real,
        number32(neutral) == 0 as real,
        in_range32(number32(config.lip_open_offset) * number32(lip)),
        component_is::<F>(config, skin, eye, lip, model, neutral, r),
    ensures
        is_nearest32(number32(config.lip_open_offset) * number32(lip), r),
        number32(config.lip_open_offset) * number32(lip) > 0 as real ==> number32(r) >= 0 as real,
        number32(config.lip_open_offset) * number32(lip) < 0 as real ==> number32(r) <= 0 as real,
{
    let (s, e, se, l, composed, moved) = choose|
        s: u32,
        e: u32,
        se: u32,
        l: u32,
        composed: u32,
        moved: u32,
    |
        {
            &&& #[trigger] multiplied32::<F>(config.skin_strength, skin, s)
            &&& #[trigger] multiplied32::<F>(eye, negated32(config.eyelid_open_offset), e)
            &&& #[trigger] added32::<F>(s, e, se)
            &&& #[trigger] multiplied32::<F>(lip, config.lip_open_offset, l)
            &&& #[trigger] added32::<F>(se, l, composed)
            &&& #[trigger] added32::<F>(model, composed, moved)
            &&& subtracted32::<F>(moved, neutral, r)
        };
    law_constants_denote();
    law_finite_numbers_are_in_range(0);
    law_negation_denotes_the_opposite(config.eyelid_open_offset);
    let eyelid = number32(config.eyelid_open_offset);
    let eyed = number32(eye);
    let lipped = number32(lip);
    let offset = number32(config.lip_open_offset);
    assert(eyed * (-eyelid) == -(eyelid * eyed)) by (nonlinear_arith);
    assert(lipped * offset == offset * lipped) by (nonlinear_arith);
    assert(is_nearest32(number32(config.skin_strength) * number32(skin), s));
    law_exact_results_stay(0 as real, 0, s);
    assert(is_nearest32(eyed * (-eyelid), e));
    law_exact_results_stay(0 as real, 0, e);
    assert(is_nearest32(lipped * offset, l));
    lemma_zeros_change_nothing::<F>(s, e, se, l, composed, model, moved, neutral, r);
    law_rounding_keeps_bounds(offset * lipped, 0, r);
}

/// With arithmetic that rounds to nearest, component `c` of masked vertex `m`
/// is displaced by what the frame, the poses and the two neutrals hold for the
/// vertex that the mask names, at three components to a vertex.
pub proof fn law_masked_vertices_are_displaced<F: FloatOps>(
    config: AnimatorSkinConfig,
    data: BlendshapeData,
    skin: Seq<u32>,
    delta: Seq<u32>,
    m: int,
    c: int,
    v: int,
    h: u32,
)
    requires
        rounds_to_nearest::<F>(),
        delta_is::<F>(config, data, skin, delta),
        0 <= m < data.frontal_mask@.len(),
        0 <= c < 3,
        3 * m + c < data.masked_position_count,
        3 * m + 2 < data.neutral_flat@.len(),
        data.frontal_mask@[m] >= 0,
        v == 3 * data.frontal_mask@[m] + c,
        v - c + 2 < skin.len(),
        v - c + 2 < data.neutral_skin_flat@.len(),
        v - c + 2 < data.eye_close_pose_delta_flat@.len(),
        v - c + 2 < data.lip_open_pose_delta_flat@.len(),
        is_tame(
            config,
            skin[v],
            data.eye_close_pose_delta_flat@[v],
            data.lip_open_pose_delta_flat@[v],
            data.neutral_skin_flat@[v],
            data.neutral_flat@[3 * m + c],
            h,
        ),
    ensures
        delta.len() == data.masked_position_count,
        is_finite32(delta[3 * m + c]),
        4194304 as real * distance(
            number32(delta[3 * m + c]),
            displaced(
                config,
                skin[v],
                data.eye_close_pose_delta_flat@[v],
                data.lip_open_pose_delta_flat@[v],
                data.neutral_skin_flat@[v],
                data.neutral_flat@[3 * m + c],
            ),
        ) <= 7 as real * number32(h),
{
    let p = 3 * m + c;
    assert(p / 3 == m && p % 3 == c);
    assert(in_mesh(data, skin.len(), m));
    assert(delta_entry_is::<F>(config, data, skin, p, delta[p]));
    law_components_are_displaced::<F>(
        config,
        skin[v],
        data.eye_close_pose_delta_flat@[v],
        data.lip_open_pose_delta_flat@[v],
        data.neutral_skin_flat@[v],
        data.neutral_flat@[p],
        h,
        delta[p],
    );
}

/// A masked vertex that is not wholly in the frame and the data, and a place
/// beyond the mask, is not displaced.
pub proof fn law_missing_vertices_stay<F: FloatOps>(
    config: AnimatorSkinConfig,
    data: BlendshapeData,
    skin: Seq<u32>,
    delta: Seq<u32>,
    m: int,
    c: int,
)
    requires
        delta_is::<F>(config, data, skin, delta),
        0 <= m,
        0 <= c < 3,
        3 * m + c < data.masked_position_count,
        m < data.frontal_mask@.len() ==> {
            ||| data.frontal_mask@[m] < 0
            ||| 3 * data.frontal_mask@[m] + 2 >= skin.len()
            ||| 3 * data.frontal_mask@[m] + 2 >= data.neutral_skin_flat@.len()
            ||| 3 * data.frontal_mask@[m] + 2 >= data.eye_close_pose_delta_flat@.len()
            ||| 3 * data.frontal_mask@[m] + 2 >= data.lip_open_pose_delta_flat@.len()
            ||| 3 * m + 2 >= data.neutral_flat@.len()
        },
    ensures
        delta[3 * m + c] == 0,
{
    let p = 3 * m + c;
    assert(p / 3 == m && p % 3 == c);
    assert(delta_entry_is::<F>(config, data, skin, p, delta[p]));
}

/// Whether `raw` is `x` times the factor of ARKit blendshape `i`, plus its
/// offset.
pub open spec fn scales<F: FloatOps>(config: BlendshapeConfig, i: int, x: u32, raw: u32) -> bool {
    exists|p: u32| #[trigger]
        multiplied32::<F>(x, config.multipliers@[i], p) && added32::<F>(
            p,
            config.offsets@[i],
            raw,
        )
}

/// Whether `raw` is the value of ARKit blendshape `i` for the solver weights:
/// the weight of the last pose that the configuration places there, or zero
/// where it places none, scaled.
pub open spec fn shows<F: FloatOps>(
    config: BlendshapeConfig,
    weights: Seq<u32>,
    i: int,
    raw: u32,
) -> bool {
    &&& forall|k: int|
        0 <= k < config.active_indices@.len() && #[trigger] config.active_indices@[k] == i && (
        forall|j: int|
            k < j < config.active_indices@.len() ==> #[trigger] config.active_indices@[j] != i)
            ==> scales::<F>(config, i, weights[k], raw)
    &&& (forall|k: int|
        0 <= k < config.active_indices@.len() ==> #[trigger] config.active_indices@[k] != i)
        ==> scales::<F>(config, i, 0, raw)
}

proof fn lemma_spread(indices: Seq<usize>, weights: Seq<u32>, n: int, i: int)
    requires
        0 <= n <= indices.len(),
        0 <= i < 52,
    ensures
        spread(indices, weights, n).len() == 52,
        forall|k: int|
            0 <= k < n && #[trigger] indices[k] == i && (forall|j: int|
                k < j < n ==> #[trigger] indices[j] != i) ==> spread(indices, weights, n)[i]
                == weights[k],
        (forall|k: int| 0 <= k < n ==> #[trigger] indices[k] != i) ==> spread(
            indices,
            weights,
            n,
        )[i] == 0,
    decreases n,
{
    if n > 0 {
        lemma_spread(indices, weights, n - 1, i);
        assert forall|k: int|
            0 <= k < n && #[trigger] indices[k] == i && (forall|j: int|
                k < j < n ==> #[trigger] indices[j] != i) implies spread(indices, weights, n)[i]
            == weights[k] by {
            if k < n - 1 {
                assert(indices[n - 1] != i);
                assert(forall|j: int| k < j < n - 1 ==> #[trigger] indices[j] != i);
            }
        }
    }
}

/// Every pose below the fifty-second gets the weight of the last place that
/// names it, and a pose that none names gets zero, each times the factor plus
/// the offset of its own blendshape.
pub proof fn law_weights_go_where_they_are_named<F: FloatOps>(
    config: BlendshapeConfig,
    weights: Seq<u32>,
    raw: Seq<u32>,
)
    requires
        expanded_is::<F>(config, weights, raw),
    ensures
        raw.len() == 52,
        forall|i: int| 0 <= i < 52 ==> shows::<F>(config, weights, i, #[trigger] raw[i]),
        forall|k: int|
            0 <= k < config.active_indices@.len() && (#[trigger] config.active_indices@[k]) < 52
                && (forall|j: int|
                k < j < config.active_indices@.len() ==> #[trigger] config.active_indices@[j]
                    != config.active_indices@[k]) ==> exists|p: u32| #[trigger]
                multiplied32::<F>(
                    weights[k],
                    config.multipliers@[config.active_indices@[k] as int],
                    p,
                ) && added32::<F>(
                    p,
                    config.offsets@[config.active_indices@[k] as int],
                    raw[config.active_indices@[k] as int],
                ),
{
    let n = config.active_indices@.len() as int;
    let values = spread(config.active_indices@, weights, n);
    assert forall|i: int| 0 <= i < 52 implies shows::<F>(config, weights, i, #[trigger] raw[i]) by {
        lemma_spread(config.active_indices@, weights, n, i);
        assert(adjusted_is::<F>(
            values[i],
            config.multipliers@[i],
            config.offsets@[i],
            raw[i],
        ));
        let p = choose|p: u32| #[trigger]
            multiplied32::<F>(values[i], config.multipliers@[i], p) && added32::<F>(
                p,
                config.offsets@[i],
                raw[i],
            );
        assert(multiplied32::<F>(values[i], config.multipliers@[i], p));
        assert(scales::<F>(config, i, values[i], raw[i]));
    }
    assert forall|k: int|
        0 <= k < config.active_indices@.len() && (#[trigger] config.active_indices@[k]) < 52 && (
        forall|j: int|
            k < j < config.active_indices@.len() ==> #[trigger] config.active_indices@[j]
                != config.active_indices@[k]) implies exists|p: u32| #[trigger]
        multiplied32::<F>(
            weights[k],
            config.multipliers@[config.active_indices@[k] as int],
            p,
        ) && added32::<F>(
            p,
            config.offsets@[config.active_indices@[k] as int],
            raw[config.active_indices@[k] as int],
        ) by {
        let i = config.active_indices@[k] as int;
        assert(shows::<F>(config, weights, i, raw[i]));
        assert(scales::<F>(config, i, weights[k], raw[i]));
    }
}

/// With arithmetic that rounds to nearest, a value that is scaled lies within
/// two roundings of the product plus the offset.
pub proof fn law_scaled_values_are_near<F: FloatOps>(
    config: BlendshapeConfig,
    i: int,
    x: u32,
    raw: u32,
    h: u32,
)
    requires
        rounds_to_nearest::<F>(),
        scales::<F>(config, i, x, raw),
        is_finite32(x),
        is_finite32(config.multipliers@[i]),
        is_finite32(config.offsets@[i]),
        0x80_0000 <= h <= 0x7dff_ffff,
        2 as real * distance(number32(x) * number32(config.multipliers@[i]), 0 as real)
            <= number32(h),
        2 as real * distance(number32(config.offsets@[i]), 0 as real) <= number32(h),
    ensures
        is_finite32(raw),
        4194304 as real * distance(
            number32(raw),
            number32(x) * number32(config.multipliers@[i]) + number32(config.offsets@[i]),
        ) <= 2 as real * number32(h),
{
    let p = choose|p: u32| #[trigger]
        multiplied32::<F>(x, config.multipliers@[i], p) && added32::<F>(
            p,
            config.offsets@[i],
            raw,
        );
    law_constants_denote();
    law_numbers_are_ordered(0, h);
    lemma_error(number32(h));
    assert(rounds::<F>()) by {
        reveal(rounds);
    }
    reveal(denoted);
    let product = number32(x) * number32(config.multipliers@[i]);
    let d = error(number32(h));
    lemma_product::<F>(x, config.multipliers@[i], h, p, product);
    lemma_sum::<F>(
        p,
        config.offsets@[i],
        h,
        raw,
        product,
        number32(config.offsets@[i]),
        d,
        0 as real,
    );
}

/// The mask fits where every masked vertex that is wholly in the frame and the
/// data has its three places in the delta.
pub proof fn law_masks_fit(data: BlendshapeData, skin_len: nat)
    ensures
        mask_fits(data, skin_len) <==> forall|m: int|
            0 <= m < data.frontal_mask@.len() && 3 * m + 2 >= data.masked_position_count ==> {
                ||| #[trigger] data.frontal_mask@[m] < 0
                ||| 3 * data.frontal_mask@[m] + 2 >= skin_len
                ||| 3 * data.frontal_mask@[m] + 2 >= data.neutral_skin_flat@.len()
                ||| 3 * data.frontal_mask@[m] + 2 >= data.eye_close_pose_delta_flat@.len()
                ||| 3 * data.frontal_mask@[m] + 2 >= data.lip_open_pose_delta_flat@.len()
                ||| 3 * m + 2 >= data.neutral_flat@.len()
            },
{
    if mask_fits(data, skin_len) {
        assert forall|m: int|
            0 <= m < data.frontal_mask@.len() && 3 * m + 2 >= data.masked_position_count implies {
            ||| #[trigger] data.frontal_mask@[m] < 0
            ||| 3 * data.frontal_mask@[m] + 2 >= skin_len
            ||| 3 * data.frontal_mask@[m] + 2 >= data.neutral_skin_flat@.len()
            ||| 3 * data.frontal_mask@[m] + 2 >= data.eye_close_pose_delta_flat@.len()
            ||| 3 * data.frontal_mask@[m] + 2 >= data.lip_open_pose_delta_flat@.len()
            ||| 3 * m + 2 >= data.neutral_flat@.len()
        } by {
            assert(!in_mesh(data, skin_len, m));
        }
    } else {
        let m = choose|m: int|
            0 <= m < data.frontal_mask@.len() && #[trigger] in_mesh(data, skin_len, m) && !(m * 3 + 2
                < data.masked_position_count);
        assert(data.frontal_mask@[m] >= 0);
    }
}

/// A configuration fits where there is a weight for every place that names one
/// of the fifty-two blendshapes, and a factor and an offset for each of them.
pub proof fn law_configurations_fit(config: BlendshapeConfig, weight_count: nat)
    ensures
        config_fits(config, weight_count) <==> {
            &&& config.multipliers@.len() >= 52
            &&& config.offsets@.len() >= 52
            &&& forall|k: int|
                weight_count <= k < config.active_indices@.len()
                    ==> #[trigger] config.active_indices@[k] >= 52
        },
{
}

/// A skin frame becomes values where the mask and the configuration fit and the
/// solver answers, and nothing where one of these is not so; then the smoothing
/// stays as it was. The solver goes on from the displacement in any case, unless
/// the mask does not fit, when it stays as well.
pub proof fn law_frames_fail_for_a_reason<S: BlendshapeSolver>(
    motion: Motion<S>,
    rig: Rig,
    skin: Seq<u32>,
    after: Motion<S>,
    out: Option<Seq<u32>>,
)
    requires
        motion.converts(rig, skin, after, out),
    ensures
        out is Some ==> mask_fits(rig.data, skin.len()) && config_fits(
            rig.bs_config,
            motion.solver.weight_count(),
        ),
        out is None ==> after.smoothing == motion.smoothing,
        !mask_fits(rig.data, skin.len()) ==> out is None && after == motion,
        out is None && mask_fits(rig.data, skin.len()) && config_fits(
            rig.bs_config,
            motion.solver.weight_count(),
        ) ==> exists|delta: Seq<u32>|
            delta_is::<S::Ops>(rig.animator_config, rig.data, skin, delta)
                && #[trigger] motion.solver.solves(delta, &after.solver, None),
        mask_fits(rig.data, skin.len()) ==> exists|delta: Seq<u32>, r: Option<Seq<u32>>|
            delta_is::<S::Ops>(rig.animator_config, rig.data, skin, delta)
                && #[trigger] motion.solver.solves(delta, &after.solver, r),
{
    if mask_fits(rig.data, skin.len()) {
        let delta = choose|delta: Seq<u32>| #[trigger]
            motion.converts_through(rig, skin, delta, after, out);
    }
}

} // verus!
