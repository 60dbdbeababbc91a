//! What a call hands on, keyframe by keyframe: which samples, which part of the
//! network's answer and which share of the keyframe before go into it, and when
//! it is shown.

use vstd::prelude::*;

use crate::arkit::{mean_is, means_are, BlendshapeFrame, Smoothing};
use crate::audio2face::solver_trait::BlendshapeSolver;
use crate::float_bits::{is_finite32, less32, ONE32};
use crate::float_ops::{added32, multiplied32, subtracted32, FloatOps};
use crate::float_rounding::{distance, number32, rounds_to_nearest};
use crate::lip_sync::buffer::{window_of, windows_of};
use crate::lip_sync::call::stamp;
use crate::lip_sync::node::{AudioChunk, NodeState};
use crate::lip_sync::run_laws::{law_calls_hand_on_what_the_windows_give, performs, window_start,
    Run};
use crate::lip_sync::skin::{delta_is, Motion, Rig};
use crate::lip_sync::skin_laws::{law_frames_fail_for_a_reason, law_weights_go_where_they_are_named,
    shows};
use crate::lip_sync::window::{frame_pts, skin_of, NUM_CENTER_FRAMES};
use crate::smoothing_range_laws::law_means_are_near;

verus! {

/// A node smooths by the share that its configuration asks for, where that
/// lies between zero and one, and by the nearer of the two where it does not.
pub proof fn law_share_is_the_configured_one<S: BlendshapeSolver>(node: NodeState<S>)
    requires
        node.valid() || node.is_fresh(),
    ensures
        !less32(node.config.smoothing_alpha, 0) && !less32(
            0x3f80_0000,
            node.config.smoothing_alpha,
        ) ==> node.motion.smoothing.alpha == node.config.smoothing_alpha,
        less32(node.config.smoothing_alpha, 0) ==> node.motion.smoothing.alpha == 0,
        less32(0x3f80_0000, node.config.smoothing_alpha) ==> node.motion.smoothing.alpha
            == 0x3f80_0000,
{
}

/// Whether `out` is `share` times `before` plus the rest of one times `raw`.
pub open spec fn blends<F: FloatOps>(share: u32, before: u32, raw: u32, out: u32) -> bool {
    exists|rest: u32, p: u32, q: u32|
        {
            &&& #[trigger] subtracted32::<F>(0x3f80_0000, share, rest)
            &&& #[trigger] multiplied32::<F>(share, before, p)
            &&& #[trigger] multiplied32::<F>(rest, raw, q)
            &&& added32::<F>(p, q, out)
        }
}

/// With arithmetic that rounds to nearest, a blended value lies within `2^-20`
/// of `h` of the share times the value before plus the rest of one times the
/// raw value, both of which `h` bounds.
pub proof fn law_blends_are_near<F: FloatOps>(share: u32, before: u32, raw: u32, out: u32, h: u32)
    requires
        rounds_to_nearest::<F>(),
        blends::<F>(share, before, raw, out),
        is_finite32(share),
        is_finite32(before),
        is_finite32(raw),
        0 as real <= number32(share) <= 1 as real,
        0x80_0000 <= h <= 0x7dff_ffff,
        distance(number32(before), 0 as real) <= number32(h),
        distance(number32(raw), 0 as real) <= number32(h),
    ensures
        is_finite32(out),
        1048576 as real * distance(
            number32(out),
            number32(share) * number32(before) + (1 as real - number32(share)) * number32(raw),
        ) <= number32(h),
{
    let (rest, p, q) = choose|rest: u32, p: u32, q: u32|
        {
            &&& #[trigger] subtracted32::<F>(0x3f80_0000, share, rest)
            &&& #[trigger] multiplied32::<F>(share, before, p)
            &&& #[trigger] multiplied32::<F>(rest, raw, q)
            &&& added32::<F>(p, q, out)
        };
    assert(mean_is::<F>(share, before, rest, raw, out));
    law_means_are_near::<F>(share, before, rest, raw, h, out);
}

/// Whether `out` is what `raw` becomes behind the values `last`, entry by
/// entry; itself where there were none.
pub open spec fn follows<F: FloatOps>(
    share: u32,
    last: Option<Seq<u32>>,
    raw: Seq<u32>,
    out: Seq<u32>,
) -> bool {
    match last {
        Some(before) => forall|i: int|
            0 <= i < 52 ==> blends::<F>(share, before[i], raw[i], #[trigger] out[i]),
        None => forall|i: int| 0 <= i < 52 ==> #[trigger] out[i] == raw[i],
    }
}

/// Whether `out` are the ARKit values for the skin frame `skin`, behind the
/// values `last`: the solver answers the displacement of the masked vertices
/// with weights and goes on as `after`; these are shown in the blendshapes that
/// they are placed at and follow the values before.
#[verifier::opaque]
pub open spec fn is_keyed<S: BlendshapeSolver>(
    rig: Rig,
    share: u32,
    last: Option<Seq<u32>>,
    skin: Seq<u32>,
    solver: S,
    after: S,
    out: Seq<u32>,
) -> bool {
    exists|delta: Seq<u32>, weights: Seq<u32>, raw: Seq<u32>|
        {
            &&& delta_is::<S::Ops>(rig.animator_config, rig.data, skin, delta)
            &&& #[trigger] solver.solves(delta, &after, Some(weights))
            &&& #[trigger] raw.len() == 52
            &&& out.len() == 52
            &&& forall|i: int|
                0 <= i < 52 ==> shows::<S::Ops>(rig.bs_config, weights, i, #[trigger] raw[i])
            &&& follows::<S::Ops>(share, last, raw, out)
        }
}

/// Keyed values have a displacement, weights and raw values that they come
/// from: the displacement is that of the skin frame, the weights are the
/// solver's answer to it, each raw value is that of the weights, and each value
/// is the raw one, or blends it by the share with the one before.
pub proof fn law_keyed_values_come_from_the_frame<S: BlendshapeSolver>(
    rig: Rig,
    share: u32,
    last: Option<Seq<u32>>,
    skin: Seq<u32>,
    solver: S,
    after: S,
    out: Seq<u32>,
) -> (r: (Seq<u32>, Seq<u32>, Seq<u32>))
    requires
        is_keyed::<S>(rig, share, last, skin, solver, after, out),
    ensures
        delta_is::<S::Ops>(rig.animator_config, rig.data, skin, r.0),
        solver.solves(r.0, &after, Some(r.1)),
        out.len() == 52,
        forall|i: int| 0 <= i < 52 ==> shows::<S::Ops>(rig.bs_config, r.1, i, #[trigger] r.2[i]),
        last is None ==> forall|i: int| 0 <= i < 52 ==> #[trigger] out[i] == r.2[i],
        last matches Some(before) ==> forall|i: int|
            0 <= i < 52 ==> blends::<S::Ops>(share, before[i], r.2[i], #[trigger] out[i]),
{
    reveal(is_keyed);
    choose|delta: Seq<u32>, weights: Seq<u32>, raw: Seq<u32>|
        {
            &&& delta_is::<S::Ops>(rig.animator_config, rig.data, skin, delta)
            &&& #[trigger] solver.solves(delta, &after, Some(weights))
            &&& #[trigger] raw.len() == 52
            &&& out.len() == 52
            &&& forall|i: int|
                0 <= i < 52 ==> shows::<S::Ops>(rig.bs_config, weights, i, #[trigger] raw[i])
            &&& follows::<S::Ops>(share, last, raw, out)
        }
}

/// The values before keyframe `f` of `frames`: those of the keyframe before,
/// and before the first those that the motion was left with.
pub open spec fn values_before<S: BlendshapeSolver>(
    motion: Motion<S>,
    frames: Seq<BlendshapeFrame>,
    f: int,
) -> Option<Seq<u32>> {
    if f > 0 {
        Some(frames[f - 1].arkit_52@)
    } else if motion.smoothing.has_prev {
        Some(motion.smoothing.prev)
    } else {
        None
    }
}

proof fn lemma_smoothed<F: FloatOps>(s: Smoothing, raw: Seq<u32>, out: Seq<u32>)
    requires
        s.smooths::<F>(raw, out),
        raw.len() == 52,
    ensures
        out.len() == 52,
        follows::<F>(
            s.alpha,
            if s.has_prev {
                Some(s.prev)
            } else {
                None
            },
            raw,
            out,
        ),
{
    if s.has_prev {
        let rest = choose|rest: u32| #[trigger]
            subtracted32::<F>(ONE32, s.alpha, rest) && means_are::<F>(
                s.alpha,
                s.prev,
                rest,
                raw,
                out,
            );
        assert forall|i: int| 0 <= i < 52 implies blends::<F>(
            s.alpha,
            s.prev[i],
            raw[i],
            #[trigger] out[i],
        ) by {
            assert(mean_is::<F>(s.alpha, s.prev[i], rest, raw[i], out[i]));
            let (p, q) = choose|p: u32, q: u32|
                multiplied32::<F>(s.alpha, s.prev[i], p) && multiplied32::<F>(rest, raw[i], q)
                    && #[trigger] added32::<F>(p, q, out[i]);
            assert(subtracted32::<F>(0x3f80_0000, s.alpha, rest));
            assert(multiplied32::<F>(s.alpha, s.prev[i], p));
            assert(multiplied32::<F>(rest, raw[i], q));
        }
    }
}

proof fn lemma_converted<S: BlendshapeSolver>(
    motion: Motion<S>,
    rig: Rig,
    skin: Seq<u32>,
    after: Motion<S>,
    out: Seq<u32>,
)
    requires
        motion.converts(rig, skin, after, Some(out)),
    ensures
        is_keyed::<S>(
            rig,
            motion.smoothing.alpha,
            if motion.smoothing.has_prev {
                Some(motion.smoothing.prev)
            } else {
                None
            },
            skin,
            motion.solver,
            after.solver,
            out,
        ),
        after.smoothing.alpha == motion.smoothing.alpha,
        after.smoothing.has_prev,
        after.smoothing.prev == out,
{
    let delta = choose|delta: Seq<u32>| #[trigger]
        motion.converts_through(rig, skin, delta, after, Some(out));
    let (weights, raw) = choose|weights: Seq<u32>, raw: Seq<u32>| #[trigger]
        motion.answers(rig, delta, weights, raw, after, out);
    law_weights_go_where_they_are_named::<S::Ops>(rig.bs_config, weights, raw);
    lemma_smoothed::<S::Ops>(motion.smoothing, raw, out);
    reveal(is_keyed);
    assert(motion.solver.solves(delta, &after.solver, Some(weights)));
    assert(raw.len() == 52);
}

/// Keyframe `f` of a window comes from frame `f` of the network's answer, which
/// holds 72006 numbers, and follows the keyframe before; it is shown as many
/// thirtieths of a second after the window's start. The solver goes from
/// keyframe to keyframe as it was left.
pub proof fn law_windows_key_every_frame<S: BlendshapeSolver>(
    motion: Motion<S>,
    rig: Rig,
    skins: Seq<u32>,
    window_start_ms: u64,
    turn_id: Option<u64>,
    n: nat,
    after: Motion<S>,
    frames: Seq<BlendshapeFrame>,
) -> (solvers: Seq<S>)
    requires
        motion.plays(rig, skins, window_start_ms, turn_id, n, after, frames),
    ensures
        frames.len() == n,
        solvers.len() == n + 1,
        solvers[0] == motion.solver,
        solvers[n as int] == after.solver,
        after.smoothing.alpha == motion.smoothing.alpha,
        n == 0 ==> after == motion,
        n > 0 ==> after.smoothing.has_prev && after.smoothing.prev == frames.last().arkit_52@,
        forall|f: int|
            0 <= f < n ==> {
                &&& (#[trigger] frames[f]).turn_id == turn_id
                &&& window_start_ms + f * 1000 / 30 <= u64::MAX ==> frames[f].pts_ms
                    == window_start_ms + f * 1000 / 30
                &&& is_keyed::<S>(
                    rig,
                    motion.smoothing.alpha,
                    values_before(motion, frames, f),
                    skins.subrange(72006 * f, 72006 * f + 72006),
                    solvers[f],
                    solvers[f + 1],
                    frames[f].arkit_52@,
                )
            },
    decreases n,
{
    if n == 0 {
        seq![motion.solver]
    } else {
        let mid = choose|mid: Motion<S>|
            motion.plays(
                rig,
                skins,
                window_start_ms,
                turn_id,
                (n - 1) as nat,
                mid,
                frames.drop_last(),
            ) && #[trigger] mid.keys(
                rig,
                skins,
                window_start_ms,
                turn_id,
                n - 1,
                after,
                frames.last(),
            );
        let earlier = frames.drop_last();
        let before = law_windows_key_every_frame(
            motion,
            rig,
            skins,
            window_start_ms,
            turn_id,
            (n - 1) as nat,
            mid,
            earlier,
        );
        let solvers = before.push(after.solver);
        let last = frames.last();
        lemma_converted(mid, rig, skin_of(skins, n - 1), after, last.arkit_52@);
        assert(skin_of(skins, n - 1) == skins.subrange(72006 * (n - 1), 72006 * (n - 1) + 72006));
        assert forall|f: int| 0 <= f < n implies {
            &&& (#[trigger] frames[f]).turn_id == turn_id
            &&& window_start_ms + f * 1000 / 30 <= u64::MAX ==> frames[f].pts_ms
                == window_start_ms + f * 1000 / 30
            &&& is_keyed::<S>(
                rig,
                motion.smoothing.alpha,
                values_before(motion, frames, f),
                skins.subrange(72006 * f, 72006 * f + 72006),
                solvers[f],
                solvers[f + 1],
                frames[f].arkit_52@,
            )
        } by {
            if f < n - 1 {
                assert(before[f] == solvers[f] && before[f + 1] == solvers[f + 1]);
                assert(earlier[f] == frames[f]);
                assert(values_before(motion, earlier, f) == values_before(motion, frames, f));
            } else {
                assert(frames[f] == last);
                if window_start_ms + f * 1000 / 30 <= u64::MAX {
                    assert(frame_pts(window_start_ms, f) == window_start_ms + f * 1000 / 30);
                }
                if n > 1 {
                    assert(earlier.last() == frames[f - 1]);
                }
            }
        }
        solvers
    }
}

/// A window that breaks off does so at one of its thirty skin frames; what was
/// keyed before that frame has gone into the motion, and smoothing goes on from
/// the last of it.
pub proof fn law_broken_windows_keep_what_was_keyed<S: BlendshapeSolver>(
    motion: Motion<S>,
    rig: Rig,
    skins: Seq<u32>,
    window_start_ms: u64,
    turn_id: Option<u64>,
    after: Motion<S>,
) -> (r: (Seq<BlendshapeFrame>, Seq<S>))
    requires
        motion.windows(rig, skins, window_start_ms, turn_id, after, None),
    ensures
        r.0.len() < 30,
        r.1.len() == r.0.len() + 1,
        r.1[0] == motion.solver,
        forall|f: int|
            0 <= f < r.0.len() ==> is_keyed::<S>(
                rig,
                motion.smoothing.alpha,
                values_before(motion, r.0, f),
                skins.subrange(72006 * f, 72006 * f + 72006),
                r.1[f],
                r.1[f + 1],
                (#[trigger] r.0[f]).arkit_52@,
            ),
        after.smoothing.alpha == motion.smoothing.alpha,
        r.0.len() == 0 ==> after.smoothing == motion.smoothing,
        r.0.len() > 0 ==> after.smoothing.has_prev && after.smoothing.prev
            == r.0.last().arkit_52@,
{
    let (n, mid, frames) = choose|n: nat, mid: Motion<S>, frames: Seq<BlendshapeFrame>| #[trigger]
        motion.sticks_at(rig, skins, window_start_ms, turn_id, n, mid, frames, after);
    let solvers = law_windows_key_every_frame(
        motion,
        rig,
        skins,
        window_start_ms,
        turn_id,
        n,
        mid,
        frames,
    );
    law_frames_fail_for_a_reason(mid, rig, skin_of(skins, n as int), after, None);
    (frames, solvers)
}

proof fn lemma_window_start(start_ms: u64, n: nat)
    requires
        start_ms + 1000 * n <= u64::MAX,
    ensures
        window_start(start_ms, n) == start_ms + 1000 * n,
    decreases n,
{
    if n > 0 {
        lemma_window_start(start_ms, (n - 1) as nat);
    }
}

/// Whether keyframe `f` of `frames` is as it should be: the thirty keyframes of
/// a window follow those of the window before, a second later, and the solver
/// goes from one to the next.
pub open spec fn is_performed<S: BlendshapeSolver>(
    rig: Rig,
    motion: Motion<S>,
    share: u32,
    start_ms: u64,
    turn_id: Option<u64>,
    skins: Seq<Seq<u32>>,
    solvers: Seq<S>,
    frames: Seq<BlendshapeFrame>,
    f: int,
) -> bool {
    let w = f / 30;
    let g = f % 30;
    &&& frames[f].turn_id == turn_id
    &&& start_ms + 1000 * w + g * 1000 / 30 <= u64::MAX ==> frames[f].pts_ms == start_ms + 1000 * w
        + g * 1000 / 30
    &&& is_keyed::<S>(
        rig,
        share,
        values_before(motion, frames, f),
        skins[w].subrange(72006 * g, 72006 * g + 72006),
        solvers[f],
        solvers[f + 1],
        frames[f].arkit_52@,
    )
}

proof fn lemma_performed<S: BlendshapeSolver>(
    rig: Rig,
    motion: Motion<S>,
    start_ms: u64,
    turn_id: Option<u64>,
    skins: Seq<Seq<u32>>,
    after: Motion<S>,
    frames: Seq<BlendshapeFrame>,
) -> (solvers: Seq<S>)
    requires
        performs(rig, motion, start_ms, turn_id, skins, after, frames),
    ensures
        frames.len() == 30 * skins.len(),
        solvers.len() == frames.len() + 1,
        solvers[0] == motion.solver,
        solvers[frames.len() as int] == after.solver,
        after.smoothing.alpha == motion.smoothing.alpha,
        skins.len() == 0 ==> after == motion,
        skins.len() > 0 ==> after.smoothing.has_prev && after.smoothing.prev
            == frames.last().arkit_52@,
        forall|f: int|
            0 <= f < frames.len() ==> #[trigger] is_performed(
                rig,
                motion,
                motion.smoothing.alpha,
                start_ms,
                turn_id,
                skins,
                solvers,
                frames,
                f,
            ),
    decreases skins.len(),
{
    if skins.len() == 0 {
        seq![motion.solver]
    } else {
        let cut = frames.len() - NUM_CENTER_FRAMES;
        let n = (skins.len() - 1) as nat;
        let mid = choose|mid: Motion<S>|
            performs(
                rig,
                motion,
                start_ms,
                turn_id,
                skins.drop_last(),
                mid,
                frames.take(cut),
            ) && #[trigger] mid.plays(
                rig,
                skins.last(),
                window_start(start_ms, (skins.len() - 1) as nat),
                turn_id,
                NUM_CENTER_FRAMES as nat,
                after,
                frames.skip(cut),
            );
        let earlier = frames.take(cut);
        let later = frames.skip(cut);
        let before = lemma_performed(
            rig,
            motion,
            start_ms,
            turn_id,
            skins.drop_last(),
            mid,
            earlier,
        );
        let behind = law_windows_key_every_frame(
            mid,
            rig,
            skins.last(),
            window_start(start_ms, n),
            turn_id,
            30,
            after,
            later,
        );
        assert(cut == 30 * n);
        let solvers = before + behind.skip(1);
        assert forall|f: int| 0 <= f < frames.len() implies #[trigger] is_performed(
            rig,
            motion,
            motion.smoothing.alpha,
            start_ms,
            turn_id,
            skins,
            solvers,
            frames,
            f,
        ) by {
            if f < cut {
                assert(is_performed(
                    rig,
                    motion,
                    motion.smoothing.alpha,
                    start_ms,
                    turn_id,
                    skins.drop_last(),
                    before,
                    earlier,
                    f,
                ));
                assert(before[f] == solvers[f] && before[f + 1] == solvers[f + 1]);
                assert(earlier[f] == frames[f]);
                assert(values_before(motion, earlier, f) == values_before(motion, frames, f));
                assert(0 <= f / 30 < n);
                assert(skins.drop_last()[f / 30] == skins[f / 30]);
            } else {
                let g = f - cut;
                assert(f / 30 == n && f % 30 == g);
                assert(later[g] == frames[f]);
                assert(solvers[f + 1] == behind[g + 1]);
                assert(solvers[f] == behind[g]);
                if start_ms + 1000 * n + g * 1000 / 30 <= u64::MAX {
                    lemma_window_start(start_ms, n);
                }
                if g > 0 {
                    assert(later[g - 1] == frames[f - 1]);
                } else if n > 0 {
                    assert(earlier.last() == frames[f - 1]);
                }
                assert(values_before(mid, later, g) == values_before(motion, frames, f));
            }
        }
        assert(later.last() == frames.last());
        solvers
    }
}

/// Where the audio that waits before a chunk begins, in milliseconds: as long
/// before the chunk as it takes to play at sixteen samples to the millisecond,
/// but not before zero; and where the last window ended, if the chunk does not
/// say when it is shown.
pub open spec fn audio_start<S: BlendshapeSolver>(node: NodeState<S>, pts_us: Option<u64>) -> int {
    match pts_us {
        Some(us) => {
            let start = us / 1000 - node.buffer.len() as int / 16;
            if start >= 0 {
                start
            } else {
                0
            }
        },
        None => node.cum_window_ms as int,
    }
}

/// A call on audio that ends well runs the network on every sixteen thousand
/// samples, in order and from the first that waits, and keeps the rest. For
/// each answer it hands on thirty keyframes, which follow each other by the
/// configured share and are shown thirtieths of a second apart. The solver goes
/// from the node through all of them and back into the node.
pub proof fn law_calls_key_their_audio<S: BlendshapeSolver>(
    run: Run<S>,
    node: NodeState<S>,
    chunk: AudioChunk,
    start_ms: u64,
    windows: int,
) -> (solvers: Seq<S>)
    requires
        node.valid(),
        run.hears(node, chunk),
        run.is_done(),
        start_ms == audio_start(node, stamp(chunk.metadata, "pts_us"@)),
        windows == (node.buffer + chunk.samples@).len() as int / 16000,
    ensures
        chunk.sample_rate == 16000,
        run.asked().len() == windows,
        run.answers().len() == windows,
        forall|w: int|
            0 <= w < windows ==> #[trigger] run.asked()[w] == (node.buffer
                + chunk.samples@).subrange(16000 * w, 16000 * w + 16000),
        run.end().buffer == (node.buffer + chunk.samples@).skip(16000 * windows),
        start_ms + 1000 * windows <= u64::MAX ==> run.end().cum_window_ms == start_ms + 1000
            * windows,
        run.handed().len() == 30 * windows,
        solvers.len() == 30 * windows + 1,
        solvers[0] == node.motion.solver,
        solvers[30 * windows] == run.end().motion.solver,
        forall|f: int|
            0 <= f < 30 * windows ==> #[trigger] is_performed(
                node.rig,
                node.motion,
                node.motion.smoothing.alpha,
                start_ms,
                stamp(chunk.metadata, "turn_id"@),
                run.answers(),
                solvers,
                run.handed(),
                f,
            ),
        !less32(node.config.smoothing_alpha, 0) && !less32(
            0x3f80_0000,
            node.config.smoothing_alpha,
        ) ==> forall|f: int|
            0 <= f < 30 * windows ==> #[trigger] is_performed(
                node.rig,
                node.motion,
                node.config.smoothing_alpha,
                start_ms,
                stamp(chunk.metadata, "turn_id"@),
                run.answers(),
                solvers,
                run.handed(),
                f,
            ),
{
    law_calls_hand_on_what_the_windows_give(run, node, chunk);
    law_share_is_the_configured_one(node);
    let pts = stamp(chunk.metadata, "pts_us"@);
    let samples = node.buffer + chunk.samples@;
    assert(node.heard(chunk.samples@, pts).cum_window_ms == start_ms) by {
        let n = node.buffer.len() as int;
        assert(n * 1000 / 16000 == n / 16);
    }
    assert forall|w: int| 0 <= w < windows implies #[trigger] run.asked()[w] == samples.subrange(
        16000 * w,
        16000 * w + 16000,
    ) by {
        assert(windows_of(samples)[w] == window_of(samples, w));
    }
    if start_ms + 1000 * windows <= u64::MAX {
        lemma_window_start(start_ms, windows as nat);
    }
    lemma_performed(
        node.rig,
        node.motion,
        start_ms,
        stamp(chunk.metadata, "turn_id"@),
        run.answers(),
        run.end().motion,
        run.handed(),
    )
}

} // verus!
