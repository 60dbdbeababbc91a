//! With a solver and arithmetic that repeat themselves, so do keyframes.

use vstd::prelude::*;

use crate::arkit::{mean_is, means_are, BlendshapeFrame, Smoothing, ARKIT_52};
use crate::audio2face::animator_skin_config::AnimatorSkinConfig;
use crate::audio2face::blendshape_data::{BlendshapeConfig, BlendshapeData};
use crate::audio2face::bvls_solver::BvlsBlendshapeSolver;
use crate::audio2face::solver_laws::law_solving_repeats;
use crate::audio2face::solver_trait::BlendshapeSolver;
use crate::float_bits::{negated32, ONE32};
use crate::float_ops::{added32, is_repeatable, multiplied32, subtracted32, FloatOps};
use crate::lip_sync::skin::{adjusted_is, component_is, delta_entry_is, delta_is, expanded_is,
    in_mesh, mask_fits, spread, Motion, Rig};
use crate::lip_sync::window::{skin_of, NUM_CENTER_FRAMES};

verus! {

/// Whether two solvers pose the same system and are pulled the same way.
pub open spec fn alike<S: BlendshapeSolver>(s: S, t: S) -> bool {
    s.same_system(&t) && s.temporal() == t.temporal()
}

/// Whether solvers that are alike answer a delta alike and stay alike, also
/// where both are then pulled elsewhere.
pub open spec fn answers_repeat<S: BlendshapeSolver>() -> bool {
    &&& forall|s: S| #[trigger] alike(s, s)
    &&& forall|s: S, t: S| #[trigger] alike(s, t) ==> s.weight_count() == t.weight_count()
    &&& forall|s: S, t: S, s_after: S, t_after: S|
        #![trigger s_after.same_system(&s), t_after.same_system(&t)]
        alike(s, t) && s_after.same_system(&s) && t_after.same_system(&t) && s_after.temporal()
            == t_after.temporal() ==> alike(s_after, t_after)
    &&& forall|
        s: S,
        t: S,
        delta: Seq<u32>,
        s_after: S,
        t_after: S,
        r: Option<Seq<u32>>,
        q: Option<Seq<u32>>,
    |
        #![trigger s.solves(delta, &s_after, r), t.solves(delta, &t_after, q)]
        alike(s, t) && s.solves(delta, &s_after, r) && t.solves(delta, &t_after, q) ==> r == q
            && alike(s_after, t_after)
    &&& is_repeatable::<S::Ops>()
}

/// The active-set solver repeats itself where its arithmetic does.
pub proof fn law_active_set_answers_repeat<F: FloatOps>()
    requires
        is_repeatable::<F>(),
    ensures
        answers_repeat::<BvlsBlendshapeSolver<F>>(),
{
    assert forall|s: BvlsBlendshapeSolver<F>| #[trigger] alike(s, s) by {
        assert(s@ =~= s@.pulled_to(s@.prev_weights));
    }
    assert forall|
        s: BvlsBlendshapeSolver<F>,
        t: BvlsBlendshapeSolver<F>,
        delta: Seq<u32>,
        s_after: BvlsBlendshapeSolver<F>,
        t_after: BvlsBlendshapeSolver<F>,
        r: Option<Seq<u32>>,
        q: Option<Seq<u32>>,
    |
        #![trigger s.solves(delta, &s_after, r), t.solves(delta, &t_after, q)]
        alike(s, t) && s.solves(delta, &s_after, r) && t.solves(delta, &t_after, q) implies r == q
        && alike(s_after, t_after) by {
        assert(s@ =~= t@);
        law_solving_repeats::<F>(s@, delta, s_after@, t_after@, r, q);
        assert(s_after@ =~= t_after@.pulled_to(s_after@.prev_weights));
    }
    assert forall|
        s: BvlsBlendshapeSolver<F>,
        t: BvlsBlendshapeSolver<F>,
        s_after: BvlsBlendshapeSolver<F>,
        t_after: BvlsBlendshapeSolver<F>,
    |
        #![trigger s_after.same_system(&s), t_after.same_system(&t)]
        alike(s, t) && s_after.same_system(&s) && t_after.same_system(&t) && s_after.temporal()
            == t_after.temporal() implies alike(s_after, t_after) by {
        assert(s@ =~= t@);
        assert(s_after@ =~= t_after@.pulled_to(s_after@.prev_weights));
    }
    assert forall|s: BvlsBlendshapeSolver<F>, t: BvlsBlendshapeSolver<F>| #[trigger]
        alike(s, t) implies s.weight_count() == t.weight_count() by {
        assert(s@ =~= t@);
    }
}

/// Whether a solver poses the same system before and after an answer, and
/// whether that carries over from answer to answer.
pub open spec fn systems_stay<S: BlendshapeSolver>() -> bool {
    &&& forall|s: S| #[trigger] s.same_system(&s)
    &&& forall|s: S, t: S, u: S|
        #![trigger s.same_system(&t), t.same_system(&u)]
        s.same_system(&t) && t.same_system(&u) ==> s.same_system(&u)
    &&& forall|s: S, delta: Seq<u32>, after: S, r: Option<Seq<u32>>| #[trigger]
        s.solves(delta, &after, r) ==> after.same_system(&s) && after.weight_count()
            == s.weight_count()
}

/// The active-set solver poses the system that it was made with all along.
pub proof fn law_active_set_systems_stay<F: FloatOps>()
    ensures
        systems_stay::<BvlsBlendshapeSolver<F>>(),
{
    assert forall|s: BvlsBlendshapeSolver<F>| #[trigger] s.same_system(&s) by {
        assert(s@ =~= s@.pulled_to(s@.prev_weights));
    }
    assert forall|
        s: BvlsBlendshapeSolver<F>,
        delta: Seq<u32>,
        after: BvlsBlendshapeSolver<F>,
        r: Option<Seq<u32>>,
    | #[trigger] s.solves(delta, &after, r) implies after.same_system(&s) && after.weight_count()
        == s.weight_count() by {
        assert(s@ =~= s@.pulled_to(s@.prev_weights));
    }
}

proof fn lemma_component_repeats<F: FloatOps>(
    config: AnimatorSkinConfig,
    skin: u32,
    eye: u32,
    lip: u32,
    model: u32,
    neutral: u32,
    r: u32,
    q: u32,
)
    requires
        is_repeatable::<F>(),
        component_is::<F>(config, skin, eye, lip, model, neutral, r),
        component_is::<F>(config, skin, eye, lip, model, neutral, q),
    ensures
        r == q,
{
    let eyelid = negated32(config.eyelid_open_offset);
    let (s, e, se, l, c, m) = choose|s: u32, e: u32, se: u32, l: u32, c: u32, m: u32|
        {
            &&& #[trigger] multiplied32::<F>(config.skin_strength, skin, s)
            &&& #[trigger] multiplied32::<F>(eye, eyelid, e)
            &&& #[trigger] added32::<F>(s, e, se)
            &&& #[trigger] multiplied32::<F>(lip, config.lip_open_offset, l)
            &&& #[trigger] added32::<F>(se, l, c)
            &&& #[trigger] added32::<F>(model, c, m)
            &&& subtracted32::<F>(m, neutral, r)
        };
    let (s2, e2, se2, l2, c2, m2) = choose|s: u32, e: u32, se: u32, l: u32, c: u32, m: u32|
        {
            &&& #[trigger] multiplied32::<F>(config.skin_strength, skin, s)
            &&& #[trigger] multiplied32::<F>(eye, eyelid, e)
            &&& #[trigger] added32::<F>(s, e, se)
            &&& #[trigger] multiplied32::<F>(lip, config.lip_open_offset, l)
            &&& #[trigger] added32::<F>(se, l, c)
            &&& #[trigger] added32::<F>(model, c, m)
            &&& subtracted32::<F>(m, neutral, q)
        };
    assert(multiplied32::<F>(config.skin_strength, skin, s) && multiplied32::<F>(
        config.skin_strength,
        skin,
        s2,
    ));
    assert(multiplied32::<F>(eye, eyelid, e) && multiplied32::<F>(eye, eyelid, e2));
    assert(added32::<F>(s, e, se) && added32::<F>(s, e, se2));
    assert(multiplied32::<F>(lip, config.lip_open_offset, l) && multiplied32::<F>(
        lip,
        config.lip_open_offset,
        l2,
    ));
    assert(added32::<F>(se, l, c) && added32::<F>(se, l, c2));
    assert(added32::<F>(model, c, m) && added32::<F>(model, c, m2));
    assert(subtracted32::<F>(m, neutral, r) && subtracted32::<F>(m, neutral, q));
}

proof fn lemma_delta_repeats<F: FloatOps>(
    config: AnimatorSkinConfig,
    data: BlendshapeData,
    skin: Seq<u32>,
    d: Seq<u32>,
    e: Seq<u32>,
)
    requires
        is_repeatable::<F>(),
        delta_is::<F>(config, data, skin, d),
        delta_is::<F>(config, data, skin, e),
    ensures
        d == e,
{
    assert forall|p: int| 0 <= p < d.len() implies d[p] == e[p] by {
        assert(delta_entry_is::<F>(config, data, skin, p, d[p]));
        assert(delta_entry_is::<F>(config, data, skin, p, e[p]));
        if p / 3 < data.frontal_mask@.len() && in_mesh(data, skin.len(), p / 3) {
            let v = data.frontal_mask@[p / 3] * 3 + p % 3;
            lemma_component_repeats::<F>(
                config,
                skin[v],
                data.eye_close_pose_delta_flat@[v],
                data.lip_open_pose_delta_flat@[v],
                data.neutral_skin_flat@[v],
                data.neutral_flat@[p],
                d[p],
                e[p],
            );
        }
    }
    assert(d =~= e);
}

proof fn lemma_adjusting_repeats<F: FloatOps>(x: u32, factor: u32, offset: u32, r: u32, q: u32)
    requires
        is_repeatable::<F>(),
        adjusted_is::<F>(x, factor, offset, r),
        adjusted_is::<F>(x, factor, offset, q),
    ensures
        r == q,
{
    let p = choose|p: u32| #[trigger]
        multiplied32::<F>(x, factor, p) && added32::<F>(p, offset, r);
    let s = choose|p: u32| #[trigger]
        multiplied32::<F>(x, factor, p) && added32::<F>(p, offset, q);
    assert(multiplied32::<F>(x, factor, p) && multiplied32::<F>(x, factor, s));
    assert(added32::<F>(p, offset, r) && added32::<F>(p, offset, q));
}

proof fn lemma_expanding_repeats<F: FloatOps>(
    config: BlendshapeConfig,
    weights: Seq<u32>,
    r: Seq<u32>,
    q: Seq<u32>,
)
    requires
        is_repeatable::<F>(),
        expanded_is::<F>(config, weights, r),
        expanded_is::<F>(config, weights, q),
    ensures
        r == q,
{
    let spread = spread(config.active_indices@, weights, config.active_indices@.len() as int);
    assert forall|i: int| 0 <= i < ARKIT_52 implies r[i] == q[i] by {
        assert(adjusted_is::<F>(spread[i], config.multipliers@[i], config.offsets@[i], r[i]));
        assert(adjusted_is::<F>(spread[i], config.multipliers@[i], config.offsets@[i], q[i]));
        lemma_adjusting_repeats::<F>(
            spread[i],
            config.multipliers@[i],
            config.offsets@[i],
            r[i],
            q[i],
        );
    }
    assert(r =~= q);
}

proof fn lemma_mean_repeats<F: FloatOps>(a: u32, x: u32, b: u32, y: u32, r: u32, q: u32)
    requires
        is_repeatable::<F>(),
        mean_is::<F>(a, x, b, y, r),
        mean_is::<F>(a, x, b, y, q),
    ensures
        r == q,
{
    let (p, s) = choose|p: u32, s: u32|
        multiplied32::<F>(a, x, p) && multiplied32::<F>(b, y, s) && #[trigger] added32::<F>(
            p,
            s,
            r,
        );
    let (t, u) = choose|p: u32, s: u32|
        multiplied32::<F>(a, x, p) && multiplied32::<F>(b, y, s) && #[trigger] added32::<F>(
            p,
            s,
            q,
        );
    assert(multiplied32::<F>(a, x, p) && multiplied32::<F>(a, x, t));
    assert(multiplied32::<F>(b, y, s) && multiplied32::<F>(b, y, u));
    assert(added32::<F>(p, s, r) && added32::<F>(p, s, q));
}

/// Smoothing the same frame again gives the same.
pub proof fn law_smoothing_repeats<F: FloatOps>(
    s: Smoothing,
    input: Seq<u32>,
    r: Seq<u32>,
    q: Seq<u32>,
)
    requires
        is_repeatable::<F>(),
        s.smooths::<F>(input, r),
        s.smooths::<F>(input, q),
    ensures
        r == q,
{
    if s.has_prev {
        let c = choose|rest: u32| #[trigger]
            subtracted32::<F>(ONE32, s.alpha, rest) && means_are::<F>(
                s.alpha,
                s.prev,
                rest,
                input,
                r,
            );
        let d = choose|rest: u32| #[trigger]
            subtracted32::<F>(ONE32, s.alpha, rest) && means_are::<F>(
                s.alpha,
                s.prev,
                rest,
                input,
                q,
            );
        assert(subtracted32::<F>(ONE32, s.alpha, c) && subtracted32::<F>(ONE32, s.alpha, d));
        assert forall|i: int| 0 <= i < r.len() implies r[i] == q[i] by {
            assert(mean_is::<F>(s.alpha, s.prev[i], c, input[i], r[i]));
            assert(mean_is::<F>(s.alpha, s.prev[i], c, input[i], q[i]));
            lemma_mean_repeats::<F>(s.alpha, s.prev[i], c, input[i], r[i], q[i]);
        }
        assert(r =~= q);
    }
}

/// Whether two motions go on alike.
pub open spec fn motions_alike<S: BlendshapeSolver>(m: Motion<S>, n: Motion<S>) -> bool {
    alike(m.solver, n.solver) && m.smoothing == n.smoothing
}

proof fn lemma_converting_repeats<S: BlendshapeSolver>(
    m: Motion<S>,
    n: Motion<S>,
    rig: Rig,
    skin: Seq<u32>,
    m_after: Motion<S>,
    n_after: Motion<S>,
    r: Seq<u32>,
    q: Seq<u32>,
)
    requires
        answers_repeat::<S>(),
        motions_alike(m, n),
        m.converts(rig, skin, m_after, Some(r)),
        n.converts(rig, skin, n_after, Some(q)),
    ensures
        r == q,
        motions_alike(m_after, n_after),
{
    let d = choose|d: Seq<u32>| #[trigger] m.converts_through(rig, skin, d, m_after, Some(r));
    let e = choose|d: Seq<u32>| #[trigger] n.converts_through(rig, skin, d, n_after, Some(q));
    lemma_delta_repeats::<S::Ops>(rig.animator_config, rig.data, skin, d, e);
    assert(m.answered(rig, d, m_after, r));
    assert(n.answered(rig, d, n_after, q));
    let (w, raw) = choose|w: Seq<u32>, raw: Seq<u32>| #[trigger]
        m.answers(rig, d, w, raw, m_after, r);
    let (v, raw2) = choose|w: Seq<u32>, raw: Seq<u32>| #[trigger]
        n.answers(rig, d, w, raw, n_after, q);
    assert(m.solver.solves(d, &m_after.solver, Some(w)));
    assert(n.solver.solves(d, &n_after.solver, Some(v)));
    assert(w == v);
    lemma_expanding_repeats::<S::Ops>(rig.bs_config, w, raw, raw2);
    law_smoothing_repeats::<S::Ops>(m.smoothing, raw, r, q);
}

/// A window gives the same keyframes again, from motions that are alike.
pub proof fn law_windows_repeat<S: BlendshapeSolver>(
    m: Motion<S>,
    n: Motion<S>,
    rig: Rig,
    skins: Seq<u32>,
    window_start_ms: u64,
    turn_id: Option<u64>,
    count: nat,
    m_after: Motion<S>,
    n_after: Motion<S>,
    r: Seq<BlendshapeFrame>,
    q: Seq<BlendshapeFrame>,
)
    requires
        answers_repeat::<S>(),
        motions_alike(m, n),
        m.plays(rig, skins, window_start_ms, turn_id, count, m_after, r),
        n.plays(rig, skins, window_start_ms, turn_id, count, n_after, q),
    ensures
        same_frames(r, q),
        motions_alike(m_after, n_after),
    decreases count,
{
    if count > 0 {
        let f = count - 1;
        let u = choose|mid: Motion<S>|
            m.plays(
                rig,
                skins,
                window_start_ms,
                turn_id,
                f as nat,
                mid,
                r.drop_last(),
            ) && #[trigger] mid.keys(
                rig,
                skins,
                window_start_ms,
                turn_id,
                f,
                m_after,
                r.last(),
            );
        let v = choose|mid: Motion<S>|
            n.plays(
                rig,
                skins,
                window_start_ms,
                turn_id,
                f as nat,
                mid,
                q.drop_last(),
            ) && #[trigger] mid.keys(
                rig,
                skins,
                window_start_ms,
                turn_id,
                f,
                n_after,
                q.last(),
            );
        law_windows_repeat(
            m,
            n,
            rig,
            skins,
            window_start_ms,
            turn_id,
            f as nat,
            u,
            v,
            r.drop_last(),
            q.drop_last(),
        );
        lemma_converting_repeats(
            u,
            v,
            rig,
            skin_of(skins, f),
            m_after,
            n_after,
            r.last().arkit_52@,
            q.last().arkit_52@,
        );
        assert forall|i: int| 0 <= i < r.len() implies same_frame(#[trigger] r[i], q[i]) by {
            if i < f {
                assert(same_frame(r.drop_last()[i], q.drop_last()[i]));
            }
        }
    }
}

/// Whether two keyframes hold the same.
pub open spec fn same_frame(r: BlendshapeFrame, q: BlendshapeFrame) -> bool {
    r.arkit_52@ == q.arkit_52@ && r.pts_ms == q.pts_ms && r.turn_id == q.turn_id
}

/// Whether two sequences hold the same keyframes in the same order.
pub open spec fn same_frames(r: Seq<BlendshapeFrame>, q: Seq<BlendshapeFrame>) -> bool {
    r.len() == q.len() && forall|i: int|
        0 <= i < r.len() ==> same_frame(#[trigger] r[i], q[i])
}

/// A frame that becomes nothing becomes nothing again, from motions that are
/// alike.
proof fn lemma_balking_repeats<S: BlendshapeSolver>(
    m: Motion<S>,
    n: Motion<S>,
    rig: Rig,
    skin: Seq<u32>,
    m_after: Motion<S>,
    n_after: Motion<S>,
    q: Option<Seq<u32>>,
)
    requires
        answers_repeat::<S>(),
        motions_alike(m, n),
        m.converts(rig, skin, m_after, None),
        n.converts(rig, skin, n_after, q),
    ensures
        q is None,
        motions_alike(m_after, n_after),
{
    if mask_fits(rig.data, skin.len()) {
        let d = choose|d: Seq<u32>| #[trigger] m.converts_through(rig, skin, d, m_after, None);
        let e = choose|d: Seq<u32>| #[trigger] n.converts_through(rig, skin, d, n_after, q);
        lemma_delta_repeats::<S::Ops>(rig.animator_config, rig.data, skin, d, e);
        assert(m.balks(rig, d, m_after));
        assert(alike(m.solver, n.solver));
        match q {
            Some(o) => {
                assert(n.answered(rig, d, n_after, o));
                let (w, raw) = choose|w: Seq<u32>, raw: Seq<u32>| #[trigger]
                    n.answers(rig, d, w, raw, n_after, o);
                assert(n.solver.solves(d, &n_after.solver, Some(w)));
            },
            None => {
                assert(n.balks(rig, d, n_after));
            },
        }
    }
}

proof fn lemma_plays_begin<S: BlendshapeSolver>(
    m: Motion<S>,
    rig: Rig,
    skins: Seq<u32>,
    window_start_ms: u64,
    turn_id: Option<u64>,
    count: nat,
    after: Motion<S>,
    frames: Seq<BlendshapeFrame>,
    k: nat,
) -> (r: (Motion<S>, Motion<S>))
    requires
        m.plays(rig, skins, window_start_ms, turn_id, count, after, frames),
        k < count,
    ensures
        m.plays(rig, skins, window_start_ms, turn_id, k, r.0, frames.take(k as int)),
        r.0.keys(rig, skins, window_start_ms, turn_id, k as int, r.1, frames[k as int]),
    decreases count,
{
    let f = count - 1;
    let mid = choose|mid: Motion<S>|
        m.plays(
            rig,
            skins,
            window_start_ms,
            turn_id,
            f as nat,
            mid,
            frames.drop_last(),
        ) && #[trigger] mid.keys(
            rig,
            skins,
            window_start_ms,
            turn_id,
            f,
            after,
            frames.last(),
        );
    if k == f {
        assert(frames.take(k as int) =~= frames.drop_last());
        (mid, after)
    } else {
        assert(frames.drop_last().take(k as int) =~= frames.take(k as int));
        lemma_plays_begin(
            m,
            rig,
            skins,
            window_start_ms,
            turn_id,
            f as nat,
            mid,
            frames.drop_last(),
            k,
        )
    }
}

proof fn lemma_no_play_past_a_break<S: BlendshapeSolver>(
    m: Motion<S>,
    n: Motion<S>,
    rig: Rig,
    skins: Seq<u32>,
    window_start_ms: u64,
    turn_id: Option<u64>,
    k: nat,
    m_mid: Motion<S>,
    r: Seq<BlendshapeFrame>,
    m_after: Motion<S>,
    count: nat,
    n_after: Motion<S>,
    q: Seq<BlendshapeFrame>,
)
    requires
        answers_repeat::<S>(),
        motions_alike(m, n),
        m.sticks_at(rig, skins, window_start_ms, turn_id, k, m_mid, r, m_after),
        n.plays(rig, skins, window_start_ms, turn_id, count, n_after, q),
    ensures
        count <= k,
{
    if k < count {
        let (mid, next) = lemma_plays_begin(
            n,
            rig,
            skins,
            window_start_ms,
            turn_id,
            count,
            n_after,
            q,
            k,
        );
        law_windows_repeat(
            m,
            n,
            rig,
            skins,
            window_start_ms,
            turn_id,
            k,
            m_mid,
            mid,
            r,
            q.take(k as int),
        );
        lemma_balking_repeats(
            m_mid,
            mid,
            rig,
            skin_of(skins, k as int),
            m_after,
            next,
            Some(q[k as int].arkit_52@),
        );
    }
}

/// A window that breaks off breaks off again, at the same keyframe and with the
/// same motion left, and one that does not gives the same keyframes; from
/// motions that are alike.
pub proof fn law_windows_break_off_again<S: BlendshapeSolver>(
    m: Motion<S>,
    n: Motion<S>,
    rig: Rig,
    skins: Seq<u32>,
    window_start_ms: u64,
    turn_id: Option<u64>,
    m_after: Motion<S>,
    n_after: Motion<S>,
    q: Option<Seq<BlendshapeFrame>>,
)
    requires
        answers_repeat::<S>(),
        motions_alike(m, n),
        m.windows(rig, skins, window_start_ms, turn_id, m_after, None),
        n.windows(rig, skins, window_start_ms, turn_id, n_after, q),
    ensures
        q is None,
        motions_alike(m_after, n_after),
{
    let (k, m_mid, r) = choose|k: nat, mid: Motion<S>, frames: Seq<BlendshapeFrame>| #[trigger]
        m.sticks_at(rig, skins, window_start_ms, turn_id, k, mid, frames, m_after);
    match q {
        Some(frames) => {
            lemma_no_play_past_a_break(
                m,
                n,
                rig,
                skins,
                window_start_ms,
                turn_id,
                k,
                m_mid,
                r,
                m_after,
                NUM_CENTER_FRAMES as nat,
                n_after,
                frames,
            );
        },
        None => {
            let (j, n_mid, s) = choose|j: nat, mid: Motion<S>, frames: Seq<BlendshapeFrame>|
                #[trigger]
                n.sticks_at(rig, skins, window_start_ms, turn_id, j, mid, frames, n_after);
            lemma_alike_is_symmetric(m, n);
            lemma_no_play_past_a_break(
                m,
                n,
                rig,
                skins,
                window_start_ms,
                turn_id,
                k,
                m_mid,
                r,
                m_after,
                j,
                n_mid,
                s,
            );
            lemma_no_play_past_a_break(
                n,
                m,
                rig,
                skins,
                window_start_ms,
                turn_id,
                j,
                n_mid,
                s,
                n_after,
                k,
                m_mid,
                r,
            );
            law_windows_repeat(
                m,
                n,
                rig,
                skins,
                window_start_ms,
                turn_id,
                k,
                m_mid,
                n_mid,
                r,
                s,
            );
            lemma_balking_repeats(
                m_mid,
                n_mid,
                rig,
                skin_of(skins, k as int),
                m_after,
                n_after,
                None,
            );
        },
    }
}

proof fn lemma_alike_is_symmetric<S: BlendshapeSolver>(m: Motion<S>, n: Motion<S>)
    requires
        answers_repeat::<S>(),
        motions_alike(m, n),
    ensures
        motions_alike(n, m),
{
    assert(alike(n.solver, n.solver));
    assert(n.solver.same_system(&n.solver));
    assert(m.solver.same_system(&n.solver));
}

} // verus!
