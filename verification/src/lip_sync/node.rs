//! The lip-sync node: what it holds between calls, and barge-in.

use vstd::prelude::*;

use crate::arkit::{ArkitSmoother, BlendshapeFrame, Smoothing};
use crate::audio2face::active_set::zeros;
use crate::audio2face::animator_skin_config::AnimatorSkinConfig;
use crate::audio2face::blendshape_data::{BlendshapeConfig, BlendshapeData};
use crate::audio2face::bvls_solver::{bounding_box_scale_is, set_up_is, BvlsBlendshapeSolver,
    BvlsSystem};
use crate::audio2face::solver_math::SolverMath;
use crate::audio2face::solver_trait::BlendshapeSolver;
use crate::error::Error;
use crate::float_bits::{clamped32, less32, ONE32};
use crate::float_ops::FloatOps;
use crate::json::{text_member, text_members};
use crate::lip_sync::buffer::{buffer_start, buffer_start_ms, law_chunking_does_not_matter,
    remainder_of, take_windows, windows_of, windows_view, SAMPLE_RATE, STRIDE_MS};
use crate::lip_sync::config::Audio2FaceLipSyncConfig;
use crate::lip_sync::pacing::{next_anchor, pace, wait_ns, PaceAnchor};
use crate::lip_sync::skin::{Motion, Rig};
use crate::lip_sync::window::{frames_view, run_window, AUDIO_BUFFER_LEN, NUM_CENTER_FRAMES,
    SKIN_SIZE};
use crate::text::same;

verus! {

/// A piece of audio on the stream: what of it the node reads.
#[derive(Debug)]
pub struct AudioChunk {
    /// Samples, as binary32 bit patterns.
    pub samples: Vec<u32>,
    /// Samples to the second.
    pub sample_rate: u32,
    /// What was said of the audio upstream.
    pub metadata: Option<serde_json::Value>,
}

/// What comes in on the stream.
#[derive(Debug)]
pub enum StreamData {
    /// A JSON message.
    Json(serde_json::Value),
    /// Audio.
    Audio(AudioChunk),
    /// Anything else.
    Other,
}

/// The port that a message is addressed to.
pub open spec fn aux_port(data: StreamData) -> Option<Seq<char>> {
    match data {
        StreamData::Json(v) => if text_members(v).contains_key("__aux_port__"@) {
            Some(text_members(v)["__aux_port__"@])
        } else {
            None
        },
        _ => None,
    }
}

/// The port that a message is addressed to.
pub fn aux_port_of(data: &StreamData) -> (r: Option<String>)
    ensures
        match r {
            Some(port) => aux_port(*data) == Some(port@),
            None => aux_port(*data) is None,
        },
        r matches Some(port) ==> (*data matches StreamData::Json(v) && text_members(
            v,
        ).contains_key("__aux_port__"@) && text_members(v)["__aux_port__"@] == port@),
        r is None ==> !(*data matches StreamData::Json(v) && text_members(v).contains_key(
            "__aux_port__"@,
        )),
{
    match data {
        StreamData::Json(v) => text_member(v, "__aux_port__"),
        _ => None,
    }
}

/// The model of an [`Audio2FaceLipSyncNode`].
pub ghost struct NodeState<S: BlendshapeSolver> {
    pub config: Audio2FaceLipSyncConfig,
    pub rig: Rig,
    pub motion: Motion<S>,
    /// Audio that no window has taken yet.
    pub buffer: Seq<u32>,
    /// Presentation time at which the next window begins.
    pub cum_window_ms: u64,
    pub pace_anchor: Option<PaceAnchor>,
}

impl<S: BlendshapeSolver> NodeState<S> {
    /// The solver takes the deltas that the data give, and less than a window
    /// of audio is waiting.
    pub open spec fn valid(self) -> bool {
        &&& self.motion.solver.valid()
        &&& self.rig.data.masked_position_count == self.motion.solver.position_count()
        &&& self.motion.smoothing.alpha == clamped32(self.config.smoothing_alpha, 0, ONE32)
        &&& self.buffer.len() < AUDIO_BUFFER_LEN
    }

    /// Whether nothing is left of earlier audio but the solver's system.
    pub open spec fn is_fresh(self) -> bool {
        &&& self.motion.solver.temporal() == zeros(self.motion.solver.weight_count())
        &&& self.motion.smoothing == Smoothing::fresh(
            clamped32(self.config.smoothing_alpha, 0, ONE32),
        )
        &&& self.buffer == Seq::<u32>::empty()
        &&& self.cum_window_ms == 0
        &&& self.pace_anchor is None
    }

    /// Whether `after` is this node with everything dropped that belongs to
    /// earlier audio.
    pub open spec fn barged(self, after: NodeState<S>) -> bool {
        &&& after.is_fresh()
        &&& after.config == self.config
        &&& after.rig == self.rig
        &&& after.motion.solver.same_system(&self.motion.solver)
        &&& after.motion.solver.weight_count() == self.motion.solver.weight_count()
    }

    /// The node after audio came in: a known presentation time moves the start
    /// of the next window, and the whole windows are taken out.
    pub open spec fn heard(self, samples: Seq<u32>, pts_us: Option<u64>) -> NodeState<S> {
        NodeState {
            buffer: remainder_of(self.buffer + samples),
            cum_window_ms: match pts_us {
                Some(us) => buffer_start_ms(us, self.buffer.len()) as u64,
                None => self.cum_window_ms,
            },
            ..self
        }
    }

    /// The node after a window was handed out.
    pub open spec fn window_started(self) -> NodeState<S> {
        NodeState { cum_window_ms: self.cum_window_ms.wrapping_add(STRIDE_MS), ..self }
    }

    /// The node after keyframes were made.
    pub open spec fn moved(self, motion: Motion<S>) -> NodeState<S> {
        NodeState { motion, ..self }
    }

    /// The node after a keyframe was timed.
    pub open spec fn paced(self, pts_ms: u64, now_ns: u64) -> NodeState<S> {
        NodeState {
            pace_anchor: Some(next_anchor(self.pace_anchor, pts_ms, now_ns)),
            ..self
        }
    }
}

/// Turns audio into timed ARKit keyframes.
pub struct Audio2FaceLipSyncNode<S: BlendshapeSolver> {
    config: Audio2FaceLipSyncConfig,
    solver: S,
    smoother: ArkitSmoother,
    bs_config: BlendshapeConfig,
    animator_config: AnimatorSkinConfig,
    data: BlendshapeData,
    audio_buffer: Vec<u32>,
    cum_window_ms: u64,
    pace_anchor: Option<PaceAnchor>,
}

impl<S: BlendshapeSolver> View for Audio2FaceLipSyncNode<S> {
    type V = NodeState<S>;

    closed spec fn view(&self) -> NodeState<S> {
        NodeState {
            config: self.config,
            rig: Rig {
                bs_config: self.bs_config,
                animator_config: self.animator_config,
                data: self.data,
            },
            motion: Motion { solver: self.solver, smoothing: self.smoother@ },
            buffer: self.audio_buffer@,
            cum_window_ms: self.cum_window_ms,
            pace_anchor: self.pace_anchor,
        }
    }
}

impl<S: BlendshapeSolver> Audio2FaceLipSyncNode<S> {
    /// A node over the parts of a loaded bundle.
    pub fn new(
        config: Audio2FaceLipSyncConfig,
        solver: S,
        bs_config: BlendshapeConfig,
        animator_config: AnimatorSkinConfig,
        data: BlendshapeData,
    ) -> (r: Self)
        requires
            solver.valid(),
            solver.temporal() == zeros(solver.weight_count()),
            data.masked_position_count == solver.position_count(),
        ensures
            r@.valid(),
            r@.is_fresh(),
            r@.config == config,
            r@.rig == (Rig { bs_config, animator_config, data }),
            r@.motion.solver == solver,
            !less32(config.smoothing_alpha, 0) && !less32(0x3f80_0000, config.smoothing_alpha)
                ==> r@.motion.smoothing.alpha == config.smoothing_alpha,
            less32(config.smoothing_alpha, 0) ==> r@.motion.smoothing.alpha == 0,
            less32(0x3f80_0000, config.smoothing_alpha) ==> r@.motion.smoothing.alpha
                == 0x3f80_0000,
            !r@.motion.smoothing.has_prev,
            r@.buffer.len() == 0,
            r@.cum_window_ms == 0,
            r@.pace_anchor is None,
    {
        let smoother = ArkitSmoother::new(config.smoothing_alpha);
        Audio2FaceLipSyncNode {
            config,
            solver,
            smoother,
            bs_config,
            animator_config,
            data,
            audio_buffer: Vec::new(),
            cum_window_ms: 0,
            pace_anchor: None,
        }
    }

    /// The name that the node is registered under.
    pub fn node_type(&self) -> (r: &'static str)
        ensures
            r@ == "Audio2FaceLipSyncNode"@,
    {
        "Audio2FaceLipSyncNode"
    }

    /// One input at a time is not enough: the node only runs on a stream.
    pub fn process(&self, _data: StreamData) -> (r: Result<StreamData, Error>)
        ensures
            r matches Err(Error::Execution(text)) && text@
                == "Audio2FaceLipSyncNode requires streaming mode — use process_streaming()"@,
    {
        Err(
            Error::Execution(
                "Audio2FaceLipSyncNode requires streaming mode — use process_streaming()".to_owned(),
            ),
        )
    }

    /// Drops everything that belongs to earlier audio. Whoever runs the
    /// network drops its recurrent state as well.
    pub fn barge(&mut self)
        requires
            old(self)@.valid(),
        ensures
            final(self)@.valid(),
            old(self)@.barged(final(self)@),
    {
        self.solver.reset_temporal();
        self.smoother.reset();
        self.audio_buffer = Vec::new();
        self.cum_window_ms = 0;
        self.pace_anchor = None;
    }

    /// Handles a control message: one to the port `barge_in` drops everything
    /// that belongs to earlier audio. Whether the message was one.
    pub fn process_control_message(&mut self, message: &StreamData) -> (r: bool)
        requires
            old(self)@.valid(),
        ensures
            final(self)@.valid(),
            r == (aux_port(*message) == Some("barge_in"@)),
            r <==> (*message matches StreamData::Json(v) && text_members(v).contains_key(
                "__aux_port__"@,
            ) && text_members(v)["__aux_port__"@] == "barge_in"@),
            r ==> old(self)@.barged(final(self)@),
            !r ==> final(self)@ == old(self)@,
    {
        match aux_port_of(message) {
            Some(port) => {
                if same(port.as_str(), "barge_in") {
                    self.barge();
                    return true;
                }
                false
            },
            None => false,
        }
    }

    /// Takes in 16 kHz audio and gives the windows that are now whole.
    pub(crate) fn hear(&mut self, samples: &Vec<u32>, pts_us: Option<u64>) -> (windows: Vec<
        Vec<u32>,
    >)
        requires
            old(self)@.valid(),
        ensures
            final(self)@.valid(),
            final(self)@ == old(self)@.heard(samples@, pts_us),
            windows_view(windows@) == windows_of(old(self)@.buffer + samples@),
            windows@.len() * AUDIO_BUFFER_LEN <= usize::MAX,
    {
        match pts_us {
            Some(us) => {
                self.cum_window_ms = buffer_start(us, self.audio_buffer.len());
            },
            None => {},
        }
        self.audio_buffer.extend_from_slice(samples.as_slice());
        assert(self.audio_buffer@ =~= old(self)@.buffer + samples@);
        take_windows(&mut self.audio_buffer)
    }

    /// Starts the next window: its presentation time.
    pub(crate) fn start_window(&mut self) -> (start_ms: u64)
        requires
            old(self)@.valid(),
        ensures
            final(self)@.valid(),
            start_ms == old(self)@.cum_window_ms,
            final(self)@ == old(self)@.window_started(),
    {
        let start_ms: u64 = self.cum_window_ms;
        self.cum_window_ms = start_ms.wrapping_add(STRIDE_MS);
        start_ms
    }

    /// Turns the network's answer for a window into keyframes.
    pub(crate) fn key(
        &mut self,
        skin_flat: &Vec<u32>,
        window_start_ms: u64,
        turn_id: Option<u64>,
    ) -> (r: Option<Vec<BlendshapeFrame>>)
        requires
            old(self)@.valid(),
            skin_flat@.len() >= NUM_CENTER_FRAMES * SKIN_SIZE,
        ensures
            final(self)@.valid(),
            final(self)@ == old(self)@.moved(final(self)@.motion),
            old(self)@.motion.windows(
                old(self)@.rig,
                skin_flat@,
                window_start_ms,
                turn_id,
                final(self)@.motion,
                frames_view(r),
            ),
    {
        run_window(
            skin_flat.as_slice(),
            window_start_ms,
            turn_id,
            &mut self.solver,
            &mut self.smoother,
            &self.bs_config,
            &self.animator_config,
            &self.data,
        )
    }

    /// Times a keyframe: how many nanoseconds it has to wait.
    pub(crate) fn time(&mut self, pts_ms: u64, now_ns: u64) -> (wait: u128)
        requires
            old(self)@.valid(),
        ensures
            final(self)@.valid(),
            wait == wait_ns(old(self)@.pace_anchor, pts_ms, now_ns),
            final(self)@ == old(self)@.paced(pts_ms, now_ns),
    {
        pace(&mut self.pace_anchor, pts_ms, now_ns)
    }

    /// Whether keyframes are held back until their time has come.
    pub(crate) fn paces(&self) -> (r: bool)
        ensures
            r == self@.config.pace_realtime,
    {
        self.config.pace_realtime
    }

    /// The identity's slot in the network's input.
    pub(crate) fn identity(&self) -> (r: usize)
        ensures
            r == self@.config.identity.slot(),
    {
        self.config.identity.one_hot_index()
    }
}

/// Whether `r` is the system of a node over the active-set solver with these
/// blendshapes, as `M` computes it.
pub open spec fn solver_set_up_is<F: FloatOps, M: SolverMath>(
    bs_config: BlendshapeConfig,
    data: BlendshapeData,
    r: Option<BvlsSystem>,
) -> bool {
    set_up_is::<F, M>(
        &data.delta_matrix,
        data.masked_position_count,
        data.active_count,
        &data.neutral_flat,
        bs_config.template_bb_size,
        (bs_config.strength_l2, bs_config.strength_l1, bs_config.strength_temporal),
        r,
    )
}

impl<F: FloatOps> Audio2FaceLipSyncNode<BvlsBlendshapeSolver<F>> {
    /// A node over the active-set solver, from the parts of a loaded bundle.
    /// None where the solver cannot be set up. Whether the mask and the
    /// configuration fit shows when a window is run.
    pub fn assemble<M: SolverMath>(
        config: Audio2FaceLipSyncConfig,
        bs_config: BlendshapeConfig,
        animator_config: AnimatorSkinConfig,
        data: BlendshapeData,
    ) -> (r: Option<Self>)
        requires
            data.delta_matrix@.len() == data.masked_position_count * data.active_count,
        ensures
            match r {
                Some(node) => {
                    &&& node@.valid()
                    &&& node@.is_fresh()
                    &&& node@.config == config
                    &&& node@.rig == (Rig { bs_config, animator_config, data })
                    &&& solver_set_up_is::<F, M>(bs_config, data, Some(node@.motion.solver@))
                    &&& !less32(config.smoothing_alpha, 0) && !less32(
                        0x3f80_0000,
                        config.smoothing_alpha,
                    ) ==> node@.motion.smoothing.alpha == config.smoothing_alpha
                    &&& less32(config.smoothing_alpha, 0) ==> node@.motion.smoothing.alpha == 0
                    &&& less32(0x3f80_0000, config.smoothing_alpha)
                        ==> node@.motion.smoothing.alpha == 0x3f80_0000
                    &&& !node@.motion.smoothing.has_prev
                    &&& node@.buffer.len() == 0
                    &&& node@.cum_window_ms == 0
                    &&& node@.pace_anchor is None
                },
                None => solver_set_up_is::<F, M>(bs_config, data, None),
            },
            (exists|
                dt: Vec<u64>,
                product: Vec<u64>,
                bb_size: u64,
                scale: u64,
                a: Vec<u64>,
                temporal_scale: u64,
            |
                {
                    &&& #[trigger] call_ensures(
                        M::compute_transpose,
                        (&data.delta_matrix, data.masked_position_count, data.active_count),
                        dt,
                    )
                    &&& #[trigger] call_ensures(
                        M::compute_dt_d,
                        (&dt, data.active_count, data.masked_position_count),
                        product,
                    )
                    &&& #[trigger] call_ensures(
                        M::compute_bounding_box_diagonal,
                        (&data.neutral_flat,),
                        bb_size,
                    )
                    &&& #[trigger] bounding_box_scale_is::<F>(
                        bb_size,
                        bs_config.template_bb_size,
                        scale,
                    )
                    &&& #[trigger] call_ensures(
                        M::apply_regularization,
                        (
                            product,
                            data.active_count,
                            scale,
                            bs_config.strength_l2,
                            bs_config.strength_l1,
                            bs_config.strength_temporal,
                        ),
                        (a, temporal_scale),
                    )
                    &&& match r {
                        Some(node) => {
                            &&& node@.motion.solver@.dt == dt@
                            &&& node@.motion.solver@.a == a@
                            &&& node@.motion.solver@.temporal_scale == temporal_scale
                            &&& node@.motion.solver@.active_count == data.active_count
                            &&& node@.motion.solver@.masked_position_count
                                == data.masked_position_count
                        },
                        None => dt@.len() != data.active_count * data.masked_position_count
                            || a@.len() != data.active_count * data.active_count,
                    }
                }),
    {
        match BvlsBlendshapeSolver::<F>::new::<M>(
            &data.delta_matrix,
            data.masked_position_count,
            data.active_count,
            &data.neutral_flat,
            bs_config.template_bb_size,
            bs_config.strength_l2,
            bs_config.strength_l1,
            bs_config.strength_temporal,
        ) {
            Some(solver) => Some(
                Audio2FaceLipSyncNode::new(config, solver, bs_config, animator_config, data),
            ),
            None => None,
        }
    }
}

/// Barging in twice is barging in once.
pub proof fn law_barge_is_idempotent<S: BlendshapeSolver>(
    node: NodeState<S>,
    once: NodeState<S>,
    twice: NodeState<S>,
)
    requires
        node.barged(once),
        once.barged(twice),
    ensures
        twice.config == once.config,
        twice.rig == once.rig,
        twice.motion.smoothing == once.motion.smoothing,
        twice.motion.solver.temporal() == once.motion.solver.temporal(),
        twice.buffer == once.buffer,
        twice.cum_window_ms == once.cum_window_ms,
        twice.pace_anchor == once.pace_anchor,
{
}

/// A node that was barged in on holds what a newly made node of the same
/// configuration holds.
pub proof fn law_barge_makes_new<S: BlendshapeSolver>(
    node: NodeState<S>,
    after: NodeState<S>,
    made: NodeState<S>,
)
    requires
        node.barged(after),
        made.is_fresh(),
        made.config == node.config,
        made.rig == node.rig,
        made.motion.solver.weight_count() == node.motion.solver.weight_count(),
    ensures
        after.config == made.config,
        after.rig == made.rig,
        after.motion.smoothing == made.motion.smoothing,
        after.motion.solver.temporal() == made.motion.solver.temporal(),
        after.buffer == made.buffer,
        after.cum_window_ms == made.cum_window_ms,
        after.pace_anchor == made.pace_anchor,
{
}

/// Over the active-set solver barging in brings the solver back to the very
/// system it was made with.
pub proof fn law_barge_restores_the_solver<F: FloatOps>(
    node: NodeState<BvlsBlendshapeSolver<F>>,
    once: NodeState<BvlsBlendshapeSolver<F>>,
    twice: NodeState<BvlsBlendshapeSolver<F>>,
)
    requires
        node.barged(once),
        once.barged(twice),
    ensures
        once.motion.solver@ == node.motion.solver@.pulled_to(
            zeros(node.motion.solver@.active_count),
        ),
        twice.motion.solver@ == once.motion.solver@,
{
}

/// Audio without presentation times may come in any pieces.
pub proof fn law_pieces_are_heard_as_one<S: BlendshapeSolver>(
    node: NodeState<S>,
    first: Seq<u32>,
    second: Seq<u32>,
)
    ensures
        node.heard(first, None).heard(second, None) == node.heard(first + second, None),
        windows_of(node.buffer + first) + windows_of(node.heard(first, None).buffer + second)
            == windows_of(node.buffer + (first + second)),
{
    law_chunking_does_not_matter(node.buffer + first, second);
    assert(node.buffer + first + second =~= node.buffer + (first + second));
}

/// A stamped chunk begins at its presentation time: the windows start as much
/// before it as audio is waiting.
pub proof fn law_stamped_audio_keeps_its_time<S: BlendshapeSolver>(
    node: NodeState<S>,
    samples: Seq<u32>,
    pts_us: u64,
)
    requires
        node.valid(),
        node.buffer.len() * 1000 / (SAMPLE_RATE as nat) <= pts_us / 1000,
    ensures
        node.heard(samples, Some(pts_us)).cum_window_ms + node.buffer.len() * 1000 / (
        SAMPLE_RATE as nat) == pts_us / 1000,
{
}

} // verus!
