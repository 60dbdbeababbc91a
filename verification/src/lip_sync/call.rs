//! One call of the streaming node, as a machine: every step takes what the
//! surroundings report and says what they have to do next.

use vstd::prelude::*;

use crate::arkit::{encodes, names_in, BlendshapeFrame};
use crate::audio2face::solver_trait::BlendshapeSolver;
use crate::error::Error;
use crate::json::{count_member, count_members, list_members, member_names, text_member,
    text_members};
use crate::lip_sync::buffer::{windows_of, windows_view, SAMPLE_RATE};
use crate::lip_sync::node::{Audio2FaceLipSyncNode, NodeState, StreamData};
use crate::lip_sync::pacing::wait_ns;
use crate::lip_sync::window::{AUDIO_BUFFER_LEN, NUM_CENTER_FRAMES, SKIN_SIZE};
use crate::text::{decimal_text, digits_of, joined, same};

verus! {

/// What the surroundings have to do next.
#[derive(Debug)]
pub enum Action {
    /// Drop the recurrent state of the network.
    ResetModel,
    /// Hand the input on unchanged.
    Forward,
    /// Run the network on a window for the identity in this slot.
    Infer { window: Vec<u32>, identity: usize },
    /// Read the clock.
    ReadClock,
    /// Wait so many nanoseconds.
    Sleep(u128),
    /// Hand a keyframe on.
    Emit(serde_json::Value),
    /// The call is over: how much was handed on, or what went wrong.
    Finish(Result<usize, Error>),
}

/// What the surroundings report.
#[derive(Debug)]
pub enum Event {
    /// The network's recurrent state is dropped.
    ModelReset,
    /// The input is handed on.
    Forwarded,
    /// The network's answer for the window: the skin frames, one after the
    /// other, as binary32 bit patterns.
    Inferred(Vec<u32>),
    /// The clock's time in nanoseconds.
    Now(u64),
    /// The wait is over.
    Slept,
    /// The keyframe is handed on.
    Emitted,
}

/// What a call is waiting for.
#[derive(Debug, Clone, Copy, PartialEq, Eq, Structural)]
pub enum Stage {
    /// The network's state to be dropped.
    Resetting,
    /// Input without audio to be handed on.
    Passing,
    /// Audio to be handed on.
    Listening,
    /// The network's answer.
    Inferring,
    /// The clock's time.
    Timing,
    /// The end of a wait.
    Sleeping,
    /// A keyframe to be handed on.
    Emitting,
    /// Nothing.
    Finished,
}

/// The model of a [`Call`].
pub ghost struct CallState {
    pub stage: Stage,
    /// The audio that came in.
    pub samples: Seq<u32>,
    pub sample_rate: u32,
    pub pts_us: Option<u64>,
    /// The conversational turn of the audio.
    pub turn_id: Option<u64>,
    /// The windows to be run.
    pub windows: Seq<Seq<u32>>,
    /// How many of them were handed to the network.
    pub next_window: nat,
    /// Presentation time of the last of these.
    pub window_start_ms: u64,
    /// The keyframes of that window.
    pub frames: Seq<BlendshapeFrame>,
    /// How many of them were handed on.
    pub next_frame: nat,
    /// How much was handed on in all.
    pub emitted: nat,
}

impl CallState {
    /// How many windows are done with.
    pub open spec fn windows_done(self) -> nat {
        if self.next_window == 0 {
            0
        } else {
            (self.next_window - 1) as nat
        }
    }

    /// The counts agree with each other and with the stage.
    pub open spec fn valid(self) -> bool {
        &&& self.next_window <= self.windows.len()
        &&& self.windows.len() * AUDIO_BUFFER_LEN <= usize::MAX
        &&& self.next_frame <= self.frames.len()
        &&& self.frames.len() <= NUM_CENTER_FRAMES
        &&& match self.stage {
            Stage::Resetting | Stage::Passing | Stage::Listening => self.next_window == 0
                && self.frames.len() == 0,
            Stage::Inferring => self.next_window > 0 && self.frames.len() == 0 && self.emitted == 1
                + NUM_CENTER_FRAMES * self.windows_done(),
            Stage::Timing | Stage::Sleeping | Stage::Emitting => self.next_window > 0
                && self.frames.len() == NUM_CENTER_FRAMES && self.next_frame < NUM_CENTER_FRAMES
                && self.emitted == 1 + NUM_CENTER_FRAMES * self.windows_done() + self.next_frame,
            Stage::Finished => true,
        }
    }

    /// The call at another stage.
    pub open spec fn at(self, stage: Stage) -> CallState {
        CallState { stage, ..self }
    }

    /// Whether the call is waiting for `event`.
    pub open spec fn awaits(self, event: Event) -> bool {
        match event {
            Event::ModelReset => self.stage == Stage::Resetting,
            Event::Forwarded => self.stage == Stage::Passing || self.stage == Stage::Listening,
            Event::Inferred(skin) => self.stage == Stage::Inferring && skin@.len()
                >= NUM_CENTER_FRAMES * SKIN_SIZE,
            Event::Now(_) => self.stage == Stage::Timing,
            Event::Slept => self.stage == Stage::Sleeping,
            Event::Emitted => self.stage == Stage::Emitting,
        }
    }
}

/// Whether a JSON message asks to drop everything that belongs to earlier
/// audio.
pub open spec fn is_barge(v: serde_json::Value) -> bool {
    text_members(v).contains_key("kind"@) && text_members(v)["kind"@] == "barge_in"@
}

/// The count that `metadata` gives under `key`.
pub open spec fn stamp(metadata: Option<serde_json::Value>, key: Seq<char>) -> Option<u64> {
    match metadata {
        Some(v) => if count_members(v).contains_key(key) {
            Some(count_members(v)[key])
        } else {
            None
        },
        None => None,
    }
}

/// A call that has just begun at `stage`.
pub open spec fn begun(
    stage: Stage,
    samples: Seq<u32>,
    sample_rate: u32,
    pts_us: Option<u64>,
    turn_id: Option<u64>,
) -> CallState {
    CallState {
        stage,
        samples,
        sample_rate,
        pts_us,
        turn_id,
        windows: Seq::empty(),
        next_window: 0,
        window_start_ms: 0,
        frames: Seq::empty(),
        next_frame: 0,
        emitted: 0,
    }
}

/// How a call begins: a barge-in message empties the node, anything else is
/// handed on first.
pub open spec fn begins<S: BlendshapeSolver>(
    node: NodeState<S>,
    data: StreamData,
    after: NodeState<S>,
    call: CallState,
    action: Action,
) -> bool {
    match data {
        StreamData::Json(v) => if is_barge(v) {
            &&& node.barged(after)
            &&& call == begun(Stage::Resetting, Seq::empty(), 0, None, None)
            &&& action is ResetModel
        } else {
            &&& after == node
            &&& call == begun(Stage::Passing, Seq::empty(), 0, None, None)
            &&& action is Forward
        },
        StreamData::Audio(chunk) => {
            &&& after == node
            &&& call == begun(
                Stage::Listening,
                chunk.samples@,
                chunk.sample_rate,
                stamp(chunk.metadata, "pts_us"@),
                stamp(chunk.metadata, "turn_id"@),
            )
            &&& action is Forward
        },
        StreamData::Other => {
            &&& after == node
            &&& call == begun(Stage::Passing, Seq::empty(), 0, None, None)
            &&& action is Forward
        },
    }
}

/// Whether `action` hands `frame` on, as a JSON object with the members of the
/// frame and no others.
pub open spec fn hands_on(action: Action, frame: BlendshapeFrame) -> bool {
    action matches Action::Emit(v) && encodes(
        frame,
        text_members(v),
        count_members(v),
        list_members(v),
    ) && member_names(v) == names_in(frame)
}

/// Whether `action` ends the call with the count `n`.
pub open spec fn ends_with(action: Action, n: nat) -> bool {
    action matches Action::Finish(Ok(count)) && count == n
}

/// Whether `action` runs the network on `window`.
pub open spec fn runs(action: Action, window: Seq<u32>, identity: usize) -> bool {
    action matches Action::Infer { window: w, identity: i } && w@ == window && i == identity
}

/// How a call goes on: with the next keyframe of the window, or else with the
/// next window, or else it is over.
pub open spec fn goes_on<S: BlendshapeSolver>(
    node: NodeState<S>,
    call: CallState,
    node_after: NodeState<S>,
    call_after: CallState,
    action: Action,
) -> bool {
    if call.next_frame < call.frames.len() {
        &&& node_after == node
        &&& if node.config.pace_realtime {
            call_after == call.at(Stage::Timing) && action is ReadClock
        } else {
            call_after == call.at(Stage::Emitting) && hands_on(
                action,
                call.frames[call.next_frame as int],
            )
        }
    } else if call.next_window < call.windows.len() {
        &&& node_after == node.window_started()
        &&& call_after == CallState {
            stage: Stage::Inferring,
            next_window: call.next_window + 1,
            window_start_ms: node.cum_window_ms,
            frames: Seq::empty(),
            next_frame: 0,
            ..call
        }
        &&& runs(action, call.windows[call.next_window as int], node.config.identity.slot())
    } else {
        &&& node_after == node
        &&& call_after == call.at(Stage::Finished)
        &&& ends_with(action, call.emitted)
    }
}

/// What a call ends with on audio that is not at 16 kHz.
pub open spec fn rate_fault(sample_rate: u32) -> Seq<char> {
    "Audio2FaceLipSyncNode requires 16 kHz audio (capability resolver should insert a resampler upstream); got "@
        + digits_of(sample_rate as nat)
}

/// What a call ends with where a window breaks off.
pub open spec fn window_fault() -> Seq<char> {
    "Audio2FaceLipSyncNode inference task panicked: the window broke off"@
}

/// How a call takes the audio in that was handed on.
pub open spec fn listens<S: BlendshapeSolver>(
    node: NodeState<S>,
    call: CallState,
    node_after: NodeState<S>,
    call_after: CallState,
    action: Action,
) -> bool {
    if call.sample_rate != SAMPLE_RATE {
        &&& node_after == node
        &&& call_after == CallState { stage: Stage::Finished, emitted: 1, ..call }
        &&& action matches Action::Finish(Err(Error::InvalidData(text))) && text@ == rate_fault(
            call.sample_rate,
        )
    } else {
        goes_on(
            node.heard(call.samples, call.pts_us),
            CallState { windows: windows_of(node.buffer + call.samples), emitted: 1, ..call },
            node_after,
            call_after,
            action,
        )
    }
}

/// How a call takes the network's answer in.
pub open spec fn answers<S: BlendshapeSolver>(
    node: NodeState<S>,
    call: CallState,
    skins: Seq<u32>,
    node_after: NodeState<S>,
    call_after: CallState,
    action: Action,
) -> bool {
    ||| exists|frames: Seq<BlendshapeFrame>, mid: NodeState<S>| #[trigger]
        answers_with(node, call, skins, frames, mid, node_after, call_after, action)
    ||| {
        &&& node.motion.sticks(
            node.rig,
            skins,
            call.window_start_ms,
            call.turn_id,
            node_after.motion,
        )
        &&& node_after == node.moved(node_after.motion)
        &&& call_after == call.at(Stage::Finished)
        &&& action matches Action::Finish(Err(Error::Execution(text))) && text@ == window_fault()
    }
}

/// How a call goes on with the keyframes `frames`, which leave the node as
/// `mid`.
pub open spec fn answers_with<S: BlendshapeSolver>(
    node: NodeState<S>,
    call: CallState,
    skins: Seq<u32>,
    frames: Seq<BlendshapeFrame>,
    mid: NodeState<S>,
    node_after: NodeState<S>,
    call_after: CallState,
    action: Action,
) -> bool {
    &&& mid == node.moved(mid.motion)
    &&& node.motion.plays(
        node.rig,
        skins,
        call.window_start_ms,
        call.turn_id,
        NUM_CENTER_FRAMES as nat,
        mid.motion,
        frames,
    )
    &&& goes_on(
        mid,
        CallState { frames, next_frame: 0, ..call },
        node_after,
        call_after,
        action,
    )
}

/// What one step does.
pub open spec fn steps<S: BlendshapeSolver>(
    node: NodeState<S>,
    call: CallState,
    event: Event,
    node_after: NodeState<S>,
    call_after: CallState,
    action: Action,
) -> bool {
    let frame = call.frames[call.next_frame as int];
    match event {
        Event::ModelReset => {
            &&& node_after == node
            &&& call_after == call.at(Stage::Finished)
            &&& ends_with(action, 0)
        },
        Event::Forwarded => if call.stage == Stage::Passing {
            &&& node_after == node
            &&& call_after == CallState { stage: Stage::Finished, emitted: 1, ..call }
            &&& ends_with(action, 1)
        } else {
            listens(node, call, node_after, call_after, action)
        },
        Event::Inferred(skins) => answers(node, call, skins@, node_after, call_after, action),
        Event::Now(now_ns) => {
            let wait = wait_ns(node.pace_anchor, frame.pts_ms, now_ns);
            &&& node_after == node.paced(frame.pts_ms, now_ns)
            &&& if wait > 0 {
                call_after == call.at(Stage::Sleeping) && (action matches Action::Sleep(ns) && ns
                    == wait)
            } else {
                call_after == call.at(Stage::Emitting) && hands_on(action, frame)
            }
        },
        Event::Slept => {
            &&& node_after == node
            &&& call_after == call.at(Stage::Emitting)
            &&& hands_on(action, frame)
        },
        Event::Emitted => goes_on(
            node,
            CallState { next_frame: call.next_frame + 1, emitted: call.emitted + 1, ..call },
            node_after,
            call_after,
            action,
        ),
    }
}

/// One call of the streaming node.
pub struct Call {
    stage: Stage,
    samples: Vec<u32>,
    sample_rate: u32,
    pts_us: Option<u64>,
    turn_id: Option<u64>,
    windows: Vec<Vec<u32>>,
    next_window: usize,
    window_start_ms: u64,
    frames: Vec<BlendshapeFrame>,
    next_frame: usize,
    emitted: usize,
}

impl View for Call {
    type V = CallState;

    closed spec fn view(&self) -> CallState {
        CallState {
            stage: self.stage,
            samples: self.samples@,
            sample_rate: self.sample_rate,
            pts_us: self.pts_us,
            turn_id: self.turn_id,
            windows: windows_view(self.windows@),
            next_window: self.next_window as nat,
            window_start_ms: self.window_start_ms,
            frames: self.frames@,
            next_frame: self.next_frame as nat,
            emitted: self.emitted as nat,
        }
    }
}

impl Call {
    fn at_start(
        stage: Stage,
        samples: Vec<u32>,
        sample_rate: u32,
        pts_us: Option<u64>,
        turn_id: Option<u64>,
    ) -> (r: Self)
        requires
            stage == Stage::Resetting || stage == Stage::Passing || stage == Stage::Listening,
        ensures
            r@ == begun(stage, samples@, sample_rate, pts_us, turn_id),
            r@.valid(),
    {
        let r = Call {
            stage,
            samples,
            sample_rate,
            pts_us,
            turn_id,
            windows: Vec::new(),
            next_window: 0,
            window_start_ms: 0,
            frames: Vec::new(),
            next_frame: 0,
            emitted: 0,
        };
        assert(r@.windows =~= Seq::empty());
        r
    }

    /// Begins a call on `data`.
    pub fn begin<S: BlendshapeSolver>(
        node: &mut Audio2FaceLipSyncNode<S>,
        data: StreamData,
    ) -> (r: (Call, Action))
        requires
            old(node)@.valid(),
        ensures
            final(node)@.valid(),
            r.0@.valid(),
            begins(old(node)@, data, final(node)@, r.0@, r.1),
    {
        match data {
            StreamData::Json(v) => {
                let barge = match text_member(&v, "kind") {
                    Some(kind) => same(kind.as_str(), "barge_in"),
                    None => false,
                };
                if barge {
                    node.barge();
                    (Call::at_start(Stage::Resetting, Vec::new(), 0, None, None), Action::ResetModel)
                } else {
                    (Call::at_start(Stage::Passing, Vec::new(), 0, None, None), Action::Forward)
                }
            },
            StreamData::Audio(chunk) => {
                let (pts_us, turn_id): (Option<u64>, Option<u64>) = match &chunk.metadata {
                    Some(v) => (count_member(v, "pts_us"), count_member(v, "turn_id")),
                    None => (None, None),
                };
                let call = Call::at_start(
                    Stage::Listening,
                    chunk.samples,
                    chunk.sample_rate,
                    pts_us,
                    turn_id,
                );
                (call, Action::Forward)
            },
            StreamData::Other => (
                Call::at_start(Stage::Passing, Vec::new(), 0, None, None),
                Action::Forward,
            ),
        }
    }

    /// Whether the call is waiting for `event`.
    pub fn expects(&self, event: &Event) -> (r: bool)
        ensures
            r == self@.awaits(*event),
    {
        match event {
            Event::ModelReset => self.stage == Stage::Resetting,
            Event::Forwarded => self.stage == Stage::Passing || self.stage == Stage::Listening,
            Event::Inferred(skin) => self.stage == Stage::Inferring && skin.len()
                >= NUM_CENTER_FRAMES * SKIN_SIZE,
            Event::Now(_) => self.stage == Stage::Timing,
            Event::Slept => self.stage == Stage::Sleeping,
            Event::Emitted => self.stage == Stage::Emitting,
        }
    }

    fn hand_on(&mut self) -> (action: Action)
        requires
            old(self)@.next_frame < old(self)@.frames.len(),
        ensures
            final(self)@ == old(self)@.at(Stage::Emitting),
            hands_on(action, old(self)@.frames[old(self)@.next_frame as int]),
    {
        self.stage = Stage::Emitting;
        Action::Emit(self.frames[self.next_frame].to_json())
    }

    fn go_on<S: BlendshapeSolver>(&mut self, node: &mut Audio2FaceLipSyncNode<S>) -> (action: Action)
        requires
            old(node)@.valid(),
            old(self)@.next_window <= old(self)@.windows.len(),
            old(self)@.next_frame <= old(self)@.frames.len(),
        ensures
            final(node)@.valid(),
            goes_on(old(node)@, old(self)@, final(node)@, final(self)@, action),
    {
        if self.next_frame < self.frames.len() {
            if node.paces() {
                self.stage = Stage::Timing;
                Action::ReadClock
            } else {
                self.hand_on()
            }
        } else if self.next_window < self.windows.len() {
            self.window_start_ms = node.start_window();
            let window: Vec<u32> = self.windows[self.next_window].clone();
            assert(window@ =~= old(self)@.windows[old(self)@.next_window as int]);
            self.stage = Stage::Inferring;
            self.next_window = self.next_window + 1;
            self.frames = Vec::new();
            self.next_frame = 0;
            Action::Infer { window, identity: node.identity() }
        } else {
            self.stage = Stage::Finished;
            Action::Finish(Ok(self.emitted))
        }
    }

    fn listen<S: BlendshapeSolver>(&mut self, node: &mut Audio2FaceLipSyncNode<S>) -> (action:
        Action)
        requires
            old(node)@.valid(),
            old(self)@.valid(),
            old(self)@.stage == Stage::Listening,
        ensures
            final(node)@.valid(),
            final(self)@.valid(),
            listens(old(node)@, old(self)@, final(node)@, final(self)@, action),
    {
        self.emitted = 1;
        if self.sample_rate != SAMPLE_RATE {
            self.stage = Stage::Finished;
            let text = joined(
                "Audio2FaceLipSyncNode requires 16 kHz audio (capability resolver should insert a resampler upstream); got ",
                decimal_text(self.sample_rate as u64).as_str(),
            );
            return Action::Finish(Err(Error::InvalidData(text)));
        }
        self.windows = node.hear(&self.samples, self.pts_us);
        self.go_on(node)
    }

    fn take_answer<S: BlendshapeSolver>(
        &mut self,
        node: &mut Audio2FaceLipSyncNode<S>,
        skins: Vec<u32>,
    ) -> (action: Action)
        requires
            old(node)@.valid(),
            old(self)@.valid(),
            old(self)@.awaits(Event::Inferred(skins)),
        ensures
            final(node)@.valid(),
            final(self)@.valid(),
            answers(old(node)@, old(self)@, skins@, final(node)@, final(self)@, action),
    {
        match node.key(&skins, self.window_start_ms, self.turn_id) {
            None => {
                self.stage = Stage::Finished;
                Action::Finish(
                    Err(
                        Error::Execution(
                            "Audio2FaceLipSyncNode inference task panicked: the window broke off".to_owned(),
                        ),
                    ),
                )
            },
            Some(frames) => {
                let ghost mid = node@;
                let ghost made = frames@;
                self.frames = frames;
                self.next_frame = 0;
                let action = self.go_on(node);
                assert(answers_with(
                    old(node)@,
                    old(self)@,
                    skins@,
                    made,
                    mid,
                    node@,
                    self@,
                    action,
                ));
                action
            },
        }
    }

    /// Goes one step on: takes in what the surroundings report, and says what
    /// they have to do next.
    pub fn step<S: BlendshapeSolver>(
        &mut self,
        node: &mut Audio2FaceLipSyncNode<S>,
        event: Event,
    ) -> (action: Action)
        requires
            old(node)@.valid(),
            old(self)@.valid(),
            old(self)@.awaits(event),
        ensures
            final(node)@.valid(),
            final(self)@.valid(),
            steps(old(node)@, old(self)@, event, final(node)@, final(self)@, action),
    {
        match event {
            Event::ModelReset => {
                self.stage = Stage::Finished;
                Action::Finish(Ok(0))
            },
            Event::Forwarded => {
                if self.stage == Stage::Passing {
                    self.stage = Stage::Finished;
                    self.emitted = 1;
                    Action::Finish(Ok(1))
                } else {
                    self.listen(node)
                }
            },
            Event::Inferred(skins) => self.take_answer(node, skins),
            Event::Now(now_ns) => {
                let pts_ms: u64 = self.frames[self.next_frame].pts_ms;
                let wait: u128 = node.time(pts_ms, now_ns);
                if wait > 0 {
                    self.stage = Stage::Sleeping;
                    Action::Sleep(wait)
                } else {
                    self.hand_on()
                }
            },
            Event::Slept => self.hand_on(),
            Event::Emitted => {
                proof {
                    lemma_emitted_fits(self@);
                }
                self.next_frame = self.next_frame + 1;
                self.emitted = self.emitted + 1;
                self.go_on(node)
            },
        }
    }
}

proof fn lemma_emitted_fits(call: CallState)
    requires
        call.valid(),
        call.stage == Stage::Emitting,
    ensures
        call.emitted < usize::MAX,
{
    assert(call.windows.len() >= 1);
    assert(NUM_CENTER_FRAMES * call.windows_done() + NUM_CENTER_FRAMES
        <= NUM_CENTER_FRAMES * call.windows.len());
    assert(NUM_CENTER_FRAMES * call.windows.len() < AUDIO_BUFFER_LEN * call.windows.len());
}

/// What a call that ends well has handed on: nothing for a barge-in, the input
/// alone where it is no audio, and otherwise the input and all keyframes of
/// all windows.
#[verifier::spinoff_prover]
pub proof fn law_calls_count_what_they_hand_on<S: BlendshapeSolver>(
    node: NodeState<S>,
    call: CallState,
    event: Event,
    node_after: NodeState<S>,
    call_after: CallState,
    action: Action,
    n: nat,
)
    requires
        call.valid(),
        call.awaits(event),
        steps(node, call, event, node_after, call_after, action),
        ends_with(action, n),
    ensures
        n == match call.stage {
            Stage::Resetting => 0,
            Stage::Passing => 1,
            _ => 1 + NUM_CENTER_FRAMES * call_after.windows.len(),
        },
{
    match event {
        Event::Inferred(skins) => {
            let (frames, mid) = choose|frames: Seq<BlendshapeFrame>, mid: NodeState<S>| #[trigger]
                answers_with(node, call, skins@, frames, mid, node_after, call_after, action);
            assert(answers_with(
                node,
                call,
                skins@,
                frames,
                mid,
                node_after,
                call_after,
                action,
            ));
            assert(frames.len() == NUM_CENTER_FRAMES);
        },
        _ => {},
    }
}

/// The windows that a call runs follow each other without a gap, a second of
/// presentation time each.
pub proof fn law_windows_follow_each_other<S: BlendshapeSolver>(
    node: NodeState<S>,
    call: CallState,
    node_after: NodeState<S>,
    call_after: CallState,
    action: Action,
)
    requires
        goes_on(node, call, node_after, call_after, action),
        action is Infer,
    ensures
        call_after.window_start_ms == node.cum_window_ms,
        node_after.cum_window_ms == node.cum_window_ms.wrapping_add(1000),
        runs(action, call.windows[call.next_window as int], node.config.identity.slot()),
{
}

/// Input that is no barge-in is handed on before anything else is done with
/// it, and leaves the node as it is until then.
pub proof fn law_input_is_handed_on_first<S: BlendshapeSolver>(
    node: NodeState<S>,
    data: StreamData,
    after: NodeState<S>,
    call: CallState,
    action: Action,
)
    requires
        begins(node, data, after, call, action),
        data matches StreamData::Json(v) ==> !is_barge(v),
    ensures
        action is Forward,
        after == node,
{
}

/// A barge-in message hands nothing on.
pub proof fn law_barge_hands_nothing_on<S: BlendshapeSolver>(
    node: NodeState<S>,
    message: serde_json::Value,
    after: NodeState<S>,
    call: CallState,
    action: Action,
    end: NodeState<S>,
    call_end: CallState,
    last: Action,
)
    requires
        is_barge(message),
        begins(node, StreamData::Json(message), after, call, action),
        steps(after, call, Event::ModelReset, end, call_end, last),
    ensures
        action is ResetModel,
        ends_with(last, 0),
        node.barged(end),
{
}

/// How much is left to do in a call: three steps for each keyframe, and one
/// more for each window.
pub open spec fn work_left(call: CallState) -> int {
    let ahead = (call.windows.len() - call.next_window) * 91;
    let frames = (NUM_CENTER_FRAMES - call.next_frame) * 3;
    match call.stage {
        Stage::Finished => 0,
        Stage::Resetting | Stage::Passing | Stage::Listening => 1,
        Stage::Inferring => ahead + 91,
        Stage::Timing => ahead + frames,
        Stage::Sleeping => ahead + frames - 1,
        Stage::Emitting => ahead + frames - 2,
    }
}

/// Every step after the input was handed on brings the call nearer to its end.
#[verifier::spinoff_prover]
pub proof fn law_calls_end<S: BlendshapeSolver>(
    node: NodeState<S>,
    call: CallState,
    event: Event,
    node_after: NodeState<S>,
    call_after: CallState,
    action: Action,
)
    requires
        call.valid(),
        call.stage != Stage::Listening,
        call.awaits(event),
        steps(node, call, event, node_after, call_after, action),
    ensures
        0 <= work_left(call_after) < work_left(call),
        action is Finish <==> call_after.stage == Stage::Finished,
{
    match event {
        Event::Inferred(skins) => {
            if exists|frames: Seq<BlendshapeFrame>, mid: NodeState<S>| #[trigger]
                answers_with(node, call, skins@, frames, mid, node_after, call_after, action) {
                let (frames, mid) = choose|frames: Seq<BlendshapeFrame>, mid: NodeState<S>|
                    #[trigger]
                    answers_with(node, call, skins@, frames, mid, node_after, call_after, action);
                assert(frames.len() == NUM_CENTER_FRAMES);
                assert(call_after.stage == Stage::Timing || call_after.stage == Stage::Emitting);
                assert(call_after.next_frame == 0);
            }
        },
        _ => {},
    }
}

} // verus!
