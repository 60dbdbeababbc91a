//! From the network's answer for one audio window to timed keyframes.

use vstd::prelude::*;
use vstd::slice::slice_subrange;

use crate::arkit::{ArkitSmoother, BlendshapeFrame};
use crate::audio2face::animator_skin_config::AnimatorSkinConfig;
use crate::audio2face::blendshape_data::{BlendshapeConfig, BlendshapeData};
use crate::audio2face::solver_trait::BlendshapeSolver;
use crate::lip_sync::skin::{skin_frame_to_arkit, Motion, Rig};

verus! {

/// Samples in one inference window: a second at 16 kHz.
pub const AUDIO_BUFFER_LEN: usize = 16_000;

/// Keyframes that the network gives for one window.
pub const NUM_CENTER_FRAMES: usize = 30;

/// Components of one predicted skin frame: 24002 vertices of three.
pub const SKIN_SIZE: usize = 72_006;

/// Skin frame `f` within the network's answer.
pub open spec fn skin_of(skins: Seq<u32>, f: int) -> Seq<u32> {
    skins.subrange(f * SKIN_SIZE, (f + 1) * SKIN_SIZE)
}

/// Presentation time of keyframe `f` of a window: the frames divide a second
/// evenly, in whole milliseconds.
pub open spec fn frame_pts(window_start_ms: u64, f: int) -> u64 {
    window_start_ms.wrapping_add((f * 1000 / (NUM_CENTER_FRAMES as int)) as u64)
}

impl<S: BlendshapeSolver> Motion<S> {
    /// Whether `frame` is keyframe `f` of a window in the turn `turn_id` and
    /// leaves `after` behind.
    pub open spec fn keys(
        self,
        rig: Rig,
        skins: Seq<u32>,
        window_start_ms: u64,
        turn_id: Option<u64>,
        f: int,
        after: Motion<S>,
        frame: BlendshapeFrame,
    ) -> bool {
        &&& self.converts(rig, skin_of(skins, f), after, Some(frame.arkit_52@))
        &&& frame.pts_ms == frame_pts(window_start_ms, f)
        &&& frame.turn_id == turn_id
    }

    /// Whether `frames` are the first `n` keyframes of a window and leave
    /// `after` behind.
    pub open spec fn plays(
        self,
        rig: Rig,
        skins: Seq<u32>,
        window_start_ms: u64,
        turn_id: Option<u64>,
        n: nat,
        after: Motion<S>,
        frames: Seq<BlendshapeFrame>,
    ) -> bool
        decreases n,
    {
        &&& frames.len() == n
        &&& if n == 0 {
            after == self
        } else {
            exists|mid: Motion<S>|
                self.plays(
                    rig,
                    skins,
                    window_start_ms,
                    turn_id,
                    (n - 1) as nat,
                    mid,
                    frames.drop_last(),
                ) && #[trigger] mid.keys(
                    rig,
                    skins,
                    window_start_ms,
                    turn_id,
                    n - 1,
                    after,
                    frames.last(),
                )
        }
    }

    /// Whether there is no keyframe `n` of a window, after the
    /// keyframes `frames`, and leaves `after` behind.
    pub open spec fn sticks_at(
        self,
        rig: Rig,
        skins: Seq<u32>,
        window_start_ms: u64,
        turn_id: Option<u64>,
        n: nat,
        mid: Motion<S>,
        frames: Seq<BlendshapeFrame>,
        after: Motion<S>,
    ) -> bool {
        &&& n < NUM_CENTER_FRAMES
        &&& self.plays(rig, skins, window_start_ms, turn_id, n, mid, frames)
        &&& mid.converts(rig, skin_of(skins, n as int), after, None)
    }

    /// Whether a window breaks off at one of its keyframes and leaves `after`
    /// behind.
    pub open spec fn sticks(
        self,
        rig: Rig,
        skins: Seq<u32>,
        window_start_ms: u64,
        turn_id: Option<u64>,
        after: Motion<S>,
    ) -> bool {
        exists|n: nat, mid: Motion<S>, frames: Seq<BlendshapeFrame>| #[trigger]
            self.sticks_at(rig, skins, window_start_ms, turn_id, n, mid, frames, after)
    }

    /// Whether a window gives the keyframes `r` and leaves `after` behind.
    /// `r` is None where it breaks off.
    pub open spec fn windows(
        self,
        rig: Rig,
        skins: Seq<u32>,
        window_start_ms: u64,
        turn_id: Option<u64>,
        after: Motion<S>,
        r: Option<Seq<BlendshapeFrame>>,
    ) -> bool {
        match r {
            Some(frames) => self.plays(
                rig,
                skins,
                window_start_ms,
                turn_id,
                NUM_CENTER_FRAMES as nat,
                after,
                frames,
            ),
            None => self.sticks(rig, skins, window_start_ms, turn_id, after),
        }
    }
}

/// The model of an optional list of keyframes.
pub open spec fn frames_view(r: Option<Vec<BlendshapeFrame>>) -> Option<Seq<BlendshapeFrame>> {
    match r {
        Some(v) => Some(v@),
        None => None,
    }
}

/// Turns the network's answer for one window into its keyframes, which carry
/// `turn_id`. None where there is no keyframe for one of its frames.
pub fn run_window<S: BlendshapeSolver>(
    skin_flat: &[u32],
    window_start_ms: u64,
    turn_id: Option<u64>,
    solver: &mut S,
    smoother: &mut ArkitSmoother,
    bs_config: &BlendshapeConfig,
    animator_config: &AnimatorSkinConfig,
    data: &BlendshapeData,
) -> (r: Option<Vec<BlendshapeFrame>>)
    requires
        skin_flat@.len() >= NUM_CENTER_FRAMES * SKIN_SIZE,
        old(solver).valid(),
        data.masked_position_count == old(solver).position_count(),
    ensures
        final(solver).valid(),
        final(solver).position_count() == old(solver).position_count(),
        final(solver).weight_count() == old(solver).weight_count(),
        final(smoother)@.alpha == old(smoother)@.alpha,
        (Motion { solver: *old(solver), smoothing: old(smoother)@ }).windows(
            (Rig { bs_config: *bs_config, animator_config: *animator_config, data: *data }),
            skin_flat@,
            window_start_ms,
            turn_id,
            (Motion { solver: *final(solver), smoothing: final(smoother)@ }),
            frames_view(r),
        ),
{
    let ghost before = Motion { solver: *solver, smoothing: smoother@ };
    let ghost rig = Rig {
        bs_config: *bs_config,
        animator_config: *animator_config,
        data: *data,
    };
    let mut frames: Vec<BlendshapeFrame> = Vec::new();
    let mut f: usize = 0;
    while f < NUM_CENTER_FRAMES
        invariant
            f <= NUM_CENTER_FRAMES,
            skin_flat@.len() >= NUM_CENTER_FRAMES * SKIN_SIZE,
            solver.valid(),
            solver.position_count() == old(solver).position_count(),
            solver.weight_count() == old(solver).weight_count(),
            smoother@.alpha == old(smoother)@.alpha,
            data.masked_position_count == solver.position_count(),
            before == (Motion { solver: *old(solver), smoothing: old(smoother)@ }),
            rig == (Rig { bs_config: *bs_config, animator_config: *animator_config, data: *data }),
            before.plays(
                rig,
                skin_flat@,
                window_start_ms,
                turn_id,
                f as nat,
                Motion { solver: *solver, smoothing: smoother@ },
                frames@,
            ),
        decreases NUM_CENTER_FRAMES - f,
    {
        let ghost mid = Motion { solver: *solver, smoothing: smoother@ };
        let skin: &[u32] = slice_subrange(skin_flat, f * SKIN_SIZE, (f + 1) * SKIN_SIZE);
        assert(skin@ =~= skin_of(skin_flat@, f as int));
        match skin_frame_to_arkit(skin, solver, smoother, bs_config, animator_config, data) {
            None => {
                let ghost after = Motion { solver: *solver, smoothing: smoother@ };
                assert(before.sticks_at(
                    rig,
                    skin_flat@,
                    window_start_ms,
                    turn_id,
                    f as nat,
                    mid,
                    frames@,
                    after,
                ));
                assert(before.sticks(rig, skin_flat@, window_start_ms, turn_id, after));
                return None;
            },
            Some(arkit) => {
                let ghost after = Motion { solver: *solver, smoothing: smoother@ };
                let ghost earlier = frames@;
                let pts_ms: u64 = window_start_ms.wrapping_add(
                    (f * 1000 / NUM_CENTER_FRAMES) as u64,
                );
                let frame = BlendshapeFrame::new(arkit, pts_ms, turn_id);
                frames.push(frame);
                assert(frames@.drop_last() =~= earlier);
                assert(mid.keys(
                    rig,
                    skin_flat@,
                    window_start_ms,
                    turn_id,
                    f as int,
                    after,
                    frames@.last(),
                ));
                assert(before.plays(
                    rig,
                    skin_flat@,
                    window_start_ms,
                    turn_id,
                    (f + 1) as nat,
                    after,
                    frames@,
                ));
            },
        }
        f = f + 1;
    }
    Some(frames)
}

/// A window gives one keyframe for each of its frames, timed in order, and all
/// in its turn.
pub proof fn law_window_times_its_frames<S: BlendshapeSolver>(
    before: Motion<S>,
    rig: Rig,
    skins: Seq<u32>,
    window_start_ms: u64,
    turn_id: Option<u64>,
    n: nat,
    after: Motion<S>,
    frames: Seq<BlendshapeFrame>,
)
    requires
        before.plays(rig, skins, window_start_ms, turn_id, n, after, frames),
    ensures
        frames.len() == n,
        forall|f: int|
            0 <= f < n ==> (#[trigger] frames[f]).pts_ms == frame_pts(window_start_ms, f)
                && frames[f].turn_id == turn_id,
    decreases n,
{
    if n > 0 {
        let mid = choose|mid: Motion<S>|
            before.plays(
                rig,
                skins,
                window_start_ms,
                turn_id,
                (n - 1) as nat,
                mid,
                frames.drop_last(),
            ) && #[trigger] mid.keys(rig, skins, window_start_ms, turn_id, n - 1, after, frames.last());
        law_window_times_its_frames(
            before,
            rig,
            skins,
            window_start_ms,
            turn_id,
            (n - 1) as nat,
            mid,
            frames.drop_last(),
        );
        assert forall|f: int| 0 <= f < n implies (#[trigger] frames[f]).pts_ms == frame_pts(
            window_start_ms,
            f,
        ) && frames[f].turn_id == turn_id by {
            if f < n - 1 {
                assert(frames.drop_last()[f] == frames[f]);
            } else {
                assert(frames.last() == frames[f]);
            }
        }
    }
}

/// The keyframes of a window lie within its second, in ascending order, and
/// the first at its start.
pub proof fn law_frames_stay_in_window(window_start_ms: u64, f: int, g: int)
    requires
        window_start_ms + 1000 <= u64::MAX,
        0 <= f < g < NUM_CENTER_FRAMES,
    ensures
        frame_pts(window_start_ms, 0) == window_start_ms,
        window_start_ms <= frame_pts(window_start_ms, f) < frame_pts(window_start_ms, g),
        frame_pts(window_start_ms, g) < window_start_ms + 1000,
{
}

/// Keyframes follow each other every 33 or 34 milliseconds, across windows too.
pub proof fn law_frames_are_evenly_spaced(window_start_ms: u64, f: int)
    requires
        window_start_ms + 1000 <= u64::MAX,
        0 <= f < NUM_CENTER_FRAMES,
    ensures
        f + 1 < NUM_CENTER_FRAMES ==> 33 <= frame_pts(window_start_ms, f + 1) - frame_pts(
            window_start_ms,
            f,
        ) <= 34,
        f + 1 == NUM_CENTER_FRAMES ==> 33 <= window_start_ms + 1000 - frame_pts(
            window_start_ms,
            f,
        ) <= 34,
{
}

} // verus!
