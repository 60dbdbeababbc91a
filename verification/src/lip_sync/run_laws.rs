//! Whole calls of the streaming node: what they ask of the network and what
//! they hand on, however the audio is cut and whether or not it is paced.

use vstd::prelude::*;

use crate::arkit::BlendshapeFrame;
use crate::audio2face::solver_trait::BlendshapeSolver;
use crate::lip_sync::buffer::{windows_of, SAMPLE_RATE, STRIDE_MS};
use crate::lip_sync::call::{answers_with, begins, ends_with, goes_on, hands_on, stamp, steps,
    Action, CallState, Event, Stage};
use crate::lip_sync::node::{law_pieces_are_heard_as_one, AudioChunk, NodeState, StreamData};
use crate::lip_sync::pacing::{anchored, due_ns};
use crate::lip_sync::repeat_laws::{answers_repeat, law_windows_repeat, motions_alike, same_frame,
    same_frames};
use crate::lip_sync::skin::{Motion, Rig};
use crate::lip_sync::window::NUM_CENTER_FRAMES;

verus! {

/// Presentation time of window `n` where the first begins at `start_ms`.
pub open spec fn window_start(start_ms: u64, n: nat) -> u64
    decreases n,
{
    if n == 0 {
        start_ms
    } else {
        window_start(start_ms, (n - 1) as nat).wrapping_add(STRIDE_MS)
    }
}

/// Whether the windows that the network answered with `skins`, the first of
/// which begins at `start_ms`, give the keyframes `frames` and leave the motion
/// as `after`.
pub open spec fn performs<S: BlendshapeSolver>(
    rig: Rig,
    motion: Motion<S>,
    start_ms: u64,
    turn_id: Option<u64>,
    skins: Seq<Seq<u32>>,
    after: Motion<S>,
    frames: Seq<BlendshapeFrame>,
) -> bool
    decreases skins.len(),
{
    if skins.len() == 0 {
        after == motion && frames.len() == 0
    } else {
        let cut = frames.len() - NUM_CENTER_FRAMES;
        cut >= 0 && exists|mid: Motion<S>|
            performs(
                rig,
                motion,
                start_ms,
                turn_id,
                skins.drop_last(),
                mid,
                frames.take(cut),
            ) && #[trigger] mid.plays(
                rig,
                skins.last(),
                window_start(start_ms, (skins.len() - 1) as nat),
                turn_id,
                NUM_CENTER_FRAMES as nat,
                after,
                frames.skip(cut),
            )
    }
}

/// A moment of a call: the node and the call after a step, and what that step
/// asked for.
pub ghost struct Moment<S: BlendshapeSolver> {
    pub node: NodeState<S>,
    pub call: CallState,
    pub action: Action,
}

/// The windows that the network was run on.
pub open spec fn asked_in<S: BlendshapeSolver>(moments: Seq<Moment<S>>) -> Seq<Seq<u32>>
    decreases moments.len(),
{
    if moments.len() == 0 {
        Seq::empty()
    } else {
        match moments.last().action {
            Action::Infer { window, .. } => asked_in(moments.drop_last()).push(window@),
            _ => asked_in(moments.drop_last()),
        }
    }
}

/// What the network answered.
pub open spec fn answered_in(events: Seq<Event>) -> Seq<Seq<u32>>
    decreases events.len(),
{
    if events.len() == 0 {
        Seq::empty()
    } else {
        match events.last() {
            Event::Inferred(skins) => answered_in(events.drop_last()).push(skins@),
            _ => answered_in(events.drop_last()),
        }
    }
}

/// The keyframes that were handed on.
pub open spec fn handed_in<S: BlendshapeSolver>(moments: Seq<Moment<S>>) -> Seq<BlendshapeFrame>
    decreases moments.len(),
{
    if moments.len() == 0 {
        Seq::empty()
    } else if moments.last().action is Emit {
        handed_in(moments.drop_last()).push(
            moments.last().call.frames[moments.last().call.next_frame as int],
        )
    } else {
        handed_in(moments.drop_last())
    }
}

/// A call from its beginning on: its moments, and what was reported between
/// them.
pub ghost struct Run<S: BlendshapeSolver> {
    pub moments: Seq<Moment<S>>,
    pub events: Seq<Event>,
}

impl<S: BlendshapeSolver> Run<S> {
    /// Whether moment `k + 1` follows moment `k`.
    pub open spec fn goes(self, k: int) -> bool {
        let m = self.moments[k];
        let n = self.moments[k + 1];
        m.call.awaits(self.events[k]) && steps(
            m.node,
            m.call,
            self.events[k],
            n.node,
            n.call,
            n.action,
        )
    }

    /// Whether this is a call of `node` on `chunk`, up to some moment.
    pub open spec fn hears(self, node: NodeState<S>, chunk: AudioChunk) -> bool {
        let m = self.moments[0];
        &&& self.moments.len() == self.events.len() + 1
        &&& begins(node, StreamData::Audio(chunk), m.node, m.call, m.action)
        &&& forall|k: int| 0 <= k < self.events.len() ==> #[trigger] self.goes(k)
    }

    /// Whether the call has come to its end without an error.
    pub open spec fn is_done(self) -> bool {
        self.moments.last().action matches Action::Finish(Ok(_))
    }

    /// The node as the call leaves it.
    pub open spec fn end(self) -> NodeState<S> {
        self.moments.last().node
    }

    /// The windows that the call ran the network on.
    pub open spec fn asked(self) -> Seq<Seq<u32>> {
        asked_in(self.moments)
    }

    /// What the network answered.
    pub open spec fn answers(self) -> Seq<Seq<u32>> {
        answered_in(self.events)
    }

    /// The keyframes that the call handed on.
    pub open spec fn handed(self) -> Seq<BlendshapeFrame> {
        handed_in(self.moments)
    }

    /// Whether the answers are those of `network`, a function of all windows
    /// that it was run on: those of `past`, and then those of this call.
    pub open spec fn is_answered_by(
        self,
        network: spec_fn(Seq<Seq<u32>>) -> Seq<u32>,
        past: Seq<Seq<u32>>,
    ) -> bool {
        forall|k: int|
            0 <= k < self.answers().len() ==> #[trigger] self.answers()[k] == network(
                past + self.asked().take(k + 1),
            )
    }
}

/// Whether the last window that the network answered gives the keyframes
/// `frames`, of which the first `count` are handed on, behind those of the
/// windows before.
spec fn midway<S: BlendshapeSolver>(
    start: NodeState<S>,
    turn_id: Option<u64>,
    answers: Seq<Seq<u32>>,
    after: Motion<S>,
    frames: Seq<BlendshapeFrame>,
    handed: Seq<BlendshapeFrame>,
    count: nat,
) -> bool {
    let cut = handed.len() - count;
    &&& answers.len() > 0
    &&& count <= frames.len()
    &&& cut >= 0
    &&& handed.skip(cut) == frames.take(count as int)
    &&& exists|mid: Motion<S>|
        performs(
            start.rig,
            start.motion,
            start.cum_window_ms,
            turn_id,
            answers.drop_last(),
            mid,
            handed.take(cut),
        ) && #[trigger] mid.plays(
            start.rig,
            answers.last(),
            window_start(start.cum_window_ms, (answers.len() - 1) as nat),
            turn_id,
            NUM_CENTER_FRAMES as nat,
            after,
            frames,
        )
}

/// What does not change from the moment on that the audio was taken in.
spec fn on_course<S: BlendshapeSolver>(
    start: NodeState<S>,
    windows: Seq<Seq<u32>>,
    turn_id: Option<u64>,
    node: NodeState<S>,
    call: CallState,
    asked: Seq<Seq<u32>>,
) -> bool {
    &&& call.windows == windows
    &&& call.turn_id == turn_id
    &&& call.next_window <= windows.len()
    &&& asked == windows.take(call.next_window as int)
    &&& node.config == start.config
    &&& node.rig == start.rig
    &&& node.buffer == start.buffer
    &&& node.cum_window_ms == window_start(start.cum_window_ms, call.next_window)
}

/// Whether all that the network answered is handed on up to the next keyframe
/// of the call.
spec fn is_ready<S: BlendshapeSolver>(
    start: NodeState<S>,
    turn_id: Option<u64>,
    node: NodeState<S>,
    call: CallState,
    answers: Seq<Seq<u32>>,
    handed: Seq<BlendshapeFrame>,
) -> bool {
    &&& answers.len() == call.next_window
    &&& call.emitted == 1 + handed.len()
    &&& if call.next_window == 0 {
        node.motion == start.motion && call.frames.len() == 0 && handed.len() == 0
    } else {
        midway(
            start,
            turn_id,
            answers,
            node.motion,
            call.frames,
            handed,
            call.next_frame,
        )
    }
}

/// What holds at a moment after the audio was taken in.
spec fn reached<S: BlendshapeSolver>(
    start: NodeState<S>,
    windows: Seq<Seq<u32>>,
    turn_id: Option<u64>,
    m: Moment<S>,
    asked: Seq<Seq<u32>>,
    answers: Seq<Seq<u32>>,
    handed: Seq<BlendshapeFrame>,
) -> bool {
    let call = m.call;
    &&& on_course(start, windows, turn_id, m.node, call, asked)
    &&& match call.stage {
        Stage::Inferring => {
            &&& m.action is Infer
            &&& call.next_window > 0
            &&& answers.len() == call.next_window - 1
            &&& call.emitted == 1 + handed.len()
            &&& call.window_start_ms == window_start(
                start.cum_window_ms,
                (call.next_window - 1) as nat,
            )
            &&& performs(
                start.rig,
                start.motion,
                start.cum_window_ms,
                turn_id,
                answers,
                m.node.motion,
                handed,
            )
        },
        Stage::Timing | Stage::Sleeping => {
            &&& call.stage == Stage::Timing ==> m.action is ReadClock
            &&& call.stage == Stage::Sleeping ==> m.action is Sleep
            &&& m.node.config.pace_realtime
            &&& call.next_window > 0
            &&& call.next_frame < call.frames.len()
            &&& is_ready(start, turn_id, m.node, call, answers, handed)
        },
        Stage::Emitting => {
            &&& call.next_window > 0
            &&& call.next_frame < call.frames.len()
            &&& hands_on(m.action, call.frames[call.next_frame as int])
            &&& answers.len() == call.next_window
            &&& call.emitted == handed.len()
            &&& midway(
                start,
                turn_id,
                answers,
                m.node.motion,
                call.frames,
                handed,
                call.next_frame + 1,
            )
        },
        Stage::Finished => {
            &&& m.action is Finish
            &&& m.action matches Action::Finish(Ok(_)) ==> {
                &&& call.next_window == windows.len()
                &&& answers.len() == windows.len()
                &&& ends_with(m.action, 1 + handed.len())
                &&& performs(
                    start.rig,
                    start.motion,
                    start.cum_window_ms,
                    turn_id,
                    answers,
                    m.node.motion,
                    handed,
                )
            }
        },
        _ => false,
    }
}

proof fn lemma_window_performed<S: BlendshapeSolver>(
    start: NodeState<S>,
    turn_id: Option<u64>,
    answers: Seq<Seq<u32>>,
    after: Motion<S>,
    frames: Seq<BlendshapeFrame>,
    handed: Seq<BlendshapeFrame>,
)
    requires
        midway(start, turn_id, answers, after, frames, handed, frames.len()),
    ensures
        performs(
            start.rig,
            start.motion,
            start.cum_window_ms,
            turn_id,
            answers,
            after,
            handed,
        ),
{
    let cut = handed.len() - frames.len();
    let mid = choose|mid: Motion<S>|
        performs(
            start.rig,
            start.motion,
            start.cum_window_ms,
            turn_id,
            answers.drop_last(),
            mid,
            handed.take(cut),
        ) && #[trigger] mid.plays(
            start.rig,
            answers.last(),
            window_start(start.cum_window_ms, (answers.len() - 1) as nat),
            turn_id,
            NUM_CENTER_FRAMES as nat,
            after,
            frames,
        );
    assert(frames.len() == NUM_CENTER_FRAMES);
    assert(frames.take(frames.len() as int) =~= frames);
    assert(mid.plays(
        start.rig,
        answers.last(),
        window_start(start.cum_window_ms, (answers.len() - 1) as nat),
        turn_id,
        NUM_CENTER_FRAMES as nat,
        after,
        handed.skip(cut),
    ));
}

proof fn lemma_handing_on<S: BlendshapeSolver>(
    start: NodeState<S>,
    turn_id: Option<u64>,
    answers: Seq<Seq<u32>>,
    after: Motion<S>,
    frames: Seq<BlendshapeFrame>,
    handed: Seq<BlendshapeFrame>,
    count: nat,
)
    requires
        midway(start, turn_id, answers, after, frames, handed, count),
        count < frames.len(),
    ensures
        midway(
            start,
            turn_id,
            answers,
            after,
            frames,
            handed.push(frames[count as int]),
            count + 1,
        ),
{
    let cut = handed.len() - count;
    let more = handed.push(frames[count as int]);
    assert(more.take(cut) =~= handed.take(cut));
    assert forall|i: int| 0 <= i < count + 1 implies more.skip(cut)[i] == frames.take(
        count as int + 1,
    )[i] by {
        if i < count {
            assert(handed.skip(cut)[i] == frames.take(count as int)[i]);
        }
    }
    assert(more.skip(cut) =~= frames.take(count as int + 1));
}

proof fn lemma_going_on<S: BlendshapeSolver>(
    start: NodeState<S>,
    windows: Seq<Seq<u32>>,
    turn_id: Option<u64>,
    node: NodeState<S>,
    call: CallState,
    m: Moment<S>,
    asked: Seq<Seq<u32>>,
    answers: Seq<Seq<u32>>,
    handed: Seq<BlendshapeFrame>,
)
    requires
        on_course(start, windows, turn_id, node, call, asked),
        is_ready(start, turn_id, node, call, answers, handed),
        goes_on(node, call, m.node, m.call, m.action),
    ensures
        reached(
            start,
            windows,
            turn_id,
            m,
            match m.action {
                Action::Infer { window, .. } => asked.push(window@),
                _ => asked,
            },
            answers,
            if m.action is Emit {
                handed.push(m.call.frames[m.call.next_frame as int])
            } else {
                handed
            },
        ),
{
    if call.next_frame < call.frames.len() {
        if !node.config.pace_realtime {
            lemma_handing_on(
                start,
                turn_id,
                answers,
                node.motion,
                call.frames,
                handed,
                call.next_frame,
            );
        }
    } else {
        if call.next_window > 0 {
            lemma_window_performed(start, turn_id, answers, node.motion, call.frames, handed);
        }
        if call.next_window < windows.len() {
            assert(asked.push(windows[call.next_window as int]) =~= windows.take(
                call.next_window as int + 1,
            ));
        }
    }
}

proof fn lemma_answering<S: BlendshapeSolver>(
    start: NodeState<S>,
    turn_id: Option<u64>,
    motion: Motion<S>,
    answers: Seq<Seq<u32>>,
    skins: Seq<u32>,
    after: Motion<S>,
    frames: Seq<BlendshapeFrame>,
    handed: Seq<BlendshapeFrame>,
)
    requires
        performs(
            start.rig,
            start.motion,
            start.cum_window_ms,
            turn_id,
            answers,
            motion,
            handed,
        ),
        motion.plays(
            start.rig,
            skins,
            window_start(start.cum_window_ms, answers.len()),
            turn_id,
            NUM_CENTER_FRAMES as nat,
            after,
            frames,
        ),
    ensures
        midway(start, turn_id, answers.push(skins), after, frames, handed, 0),
{
    let more = answers.push(skins);
    assert(more.drop_last() =~= answers);
    assert(handed.take(handed.len() as int) =~= handed);
    assert(handed.skip(handed.len() as int) =~= frames.take(0));
    assert(motion.plays(
        start.rig,
        more.last(),
        window_start(start.cum_window_ms, (more.len() - 1) as nat),
        turn_id,
        NUM_CENTER_FRAMES as nat,
        after,
        frames,
    ));
}

#[verifier::spinoff_prover]
proof fn lemma_step<S: BlendshapeSolver>(
    start: NodeState<S>,
    windows: Seq<Seq<u32>>,
    turn_id: Option<u64>,
    m: Moment<S>,
    event: Event,
    n: Moment<S>,
    asked: Seq<Seq<u32>>,
    answers: Seq<Seq<u32>>,
    handed: Seq<BlendshapeFrame>,
)
    requires
        reached(start, windows, turn_id, m, asked, answers, handed),
        m.call.awaits(event),
        steps(m.node, m.call, event, n.node, n.call, n.action),
    ensures
        reached(
            start,
            windows,
            turn_id,
            n,
            match n.action {
                Action::Infer { window, .. } => asked.push(window@),
                _ => asked,
            },
            match event {
                Event::Inferred(skins) => answers.push(skins@),
                _ => answers,
            },
            if n.action is Emit {
                handed.push(n.call.frames[n.call.next_frame as int])
            } else {
                handed
            },
        ),
{
    match event {
        Event::Inferred(skins) => {
            if exists|frames: Seq<BlendshapeFrame>, mid: NodeState<S>| #[trigger]
                answers_with(m.node, m.call, skins@, frames, mid, n.node, n.call, n.action) {
                let (frames, mid) = choose|frames: Seq<BlendshapeFrame>, mid: NodeState<S>|
                    #[trigger]
                    answers_with(m.node, m.call, skins@, frames, mid, n.node, n.call, n.action);
                lemma_answering(
                    start,
                    turn_id,
                    m.node.motion,
                    answers,
                    skins@,
                    mid.motion,
                    frames,
                    handed,
                );
                lemma_going_on(
                    start,
                    windows,
                    turn_id,
                    mid,
                    CallState { frames, next_frame: 0, ..m.call },
                    n,
                    asked,
                    answers.push(skins@),
                    handed,
                );
            }
        },
        Event::Now(_) | Event::Slept => {
            lemma_handing_on(
                start,
                turn_id,
                answers,
                m.node.motion,
                m.call.frames,
                handed,
                m.call.next_frame,
            );
        },
        Event::Emitted => {
            let call = CallState {
                next_frame: m.call.next_frame + 1,
                emitted: m.call.emitted + 1,
                ..m.call
            };
            lemma_going_on(start, windows, turn_id, m.node, call, n, asked, answers, handed);
        },
        _ => {},
    }
}

proof fn lemma_taken_in<S: BlendshapeSolver>(run: Run<S>, node: NodeState<S>, chunk: AudioChunk)
    requires
        run.hears(node, chunk),
        run.events.len() > 0,
        chunk.sample_rate == SAMPLE_RATE,
    ensures
        reached(
            node.heard(chunk.samples@, stamp(chunk.metadata, "pts_us"@)),
            windows_of(node.buffer + chunk.samples@),
            stamp(chunk.metadata, "turn_id"@),
            run.moments[1],
            asked_in(run.moments.take(2)),
            answered_in(run.events.take(1)),
            handed_in(run.moments.take(2)),
        ),
{
    let windows = windows_of(node.buffer + chunk.samples@);
    let m = run.moments[0];
    assert(run.goes(0));
    assert(run.events[0] is Forwarded);
    let two = run.moments.take(2);
    assert(two.drop_last() =~= run.moments.take(1));
    let one = run.moments.take(1);
    assert(one.drop_last().len() == 0);
    assert(one.last() == m);
    assert(asked_in(one) == asked_in(one.drop_last()));
    assert(asked_in(one) =~= windows.take(0));
    assert(handed_in(one) == handed_in(one.drop_last()));
    let reports = run.events.take(1);
    assert(reports.drop_last().len() == 0);
    assert(reports.last() == run.events[0]);
    assert(answered_in(reports) == answered_in(reports.drop_last()));
    assert(answered_in(run.events.take(1)) =~= Seq::empty());
    lemma_going_on(
        node.heard(chunk.samples@, stamp(chunk.metadata, "pts_us"@)),
        windows,
        stamp(chunk.metadata, "turn_id"@),
        node.heard(chunk.samples@, stamp(chunk.metadata, "pts_us"@)),
        CallState { windows, emitted: 1, ..m.call },
        run.moments[1],
        asked_in(one),
        answered_in(run.events.take(1)),
        handed_in(one),
    );
}

proof fn lemma_all_reached<S: BlendshapeSolver>(
    run: Run<S>,
    node: NodeState<S>,
    chunk: AudioChunk,
    k: int,
)
    requires
        run.hears(node, chunk),
        1 <= k <= run.events.len(),
        chunk.sample_rate == SAMPLE_RATE,
    ensures
        reached(
            node.heard(chunk.samples@, stamp(chunk.metadata, "pts_us"@)),
            windows_of(node.buffer + chunk.samples@),
            stamp(chunk.metadata, "turn_id"@),
            run.moments[k],
            asked_in(run.moments.take(k + 1)),
            answered_in(run.events.take(k)),
            handed_in(run.moments.take(k + 1)),
        ),
    decreases k,
{
    if k == 1 {
        lemma_taken_in(run, node, chunk);
    } else {
        lemma_all_reached(run, node, chunk, k - 1);
        assert(run.goes(k - 1));
        assert(run.moments.take(k + 1).drop_last() =~= run.moments.take(k));
        assert(run.events.take(k).drop_last() =~= run.events.take(k - 1));
        lemma_step(
            node.heard(chunk.samples@, stamp(chunk.metadata, "pts_us"@)),
            windows_of(node.buffer + chunk.samples@),
            stamp(chunk.metadata, "turn_id"@),
            run.moments[k - 1],
            run.events[k - 1],
            run.moments[k],
            asked_in(run.moments.take(k)),
            answered_in(run.events.take(k - 1)),
            handed_in(run.moments.take(k)),
        );
    }
}

proof fn lemma_heard_at_rate<S: BlendshapeSolver>(
    run: Run<S>,
    node: NodeState<S>,
    chunk: AudioChunk,
)
    requires
        run.hears(node, chunk),
        run.is_done(),
    ensures
        run.events.len() > 0,
        chunk.sample_rate == SAMPLE_RATE,
{
    if run.events.len() > 0 {
        assert(run.goes(0));
        if chunk.sample_rate != SAMPLE_RATE && run.events.len() > 1 {
            assert(run.goes(1));
        }
    }
}

/// A call on audio that ends well runs the network on every window that the
/// audio makes whole, once and in order, hands on the keyframes that its
/// answers give, reports them and the audio itself as its count, and keeps the
/// audio that is left.
pub proof fn law_calls_hand_on_what_the_windows_give<S: BlendshapeSolver>(
    run: Run<S>,
    node: NodeState<S>,
    chunk: AudioChunk,
)
    requires
        run.hears(node, chunk),
        run.is_done(),
    ensures
        chunk.sample_rate == SAMPLE_RATE,
        run.asked() == windows_of(node.buffer + chunk.samples@),
        run.answers().len() == run.asked().len(),
        performs(
            node.rig,
            node.motion,
            node.heard(chunk.samples@, stamp(chunk.metadata, "pts_us"@)).cum_window_ms,
            stamp(chunk.metadata, "turn_id"@),
            run.answers(),
            run.end().motion,
            run.handed(),
        ),
        ends_with(run.moments.last().action, 1 + run.handed().len()),
        run.end().config == node.config,
        run.end().rig == node.rig,
        run.end().buffer == node.heard(
            chunk.samples@,
            stamp(chunk.metadata, "pts_us"@),
        ).buffer,
        run.end().cum_window_ms == window_start(
            node.heard(chunk.samples@, stamp(chunk.metadata, "pts_us"@)).cum_window_ms,
            run.asked().len(),
        ),
{
    lemma_heard_at_rate(run, node, chunk);
    lemma_all_reached(run, node, chunk, run.events.len() as int);
    let windows = windows_of(node.buffer + chunk.samples@);
    assert(run.moments.take(run.events.len() as int + 1) =~= run.moments);
    assert(run.events.take(run.events.len() as int) =~= run.events);
    assert(windows.take(windows.len() as int) =~= windows);
}

/// Whatever a call hands on as a keyframe encodes that keyframe.
pub proof fn law_handed_keyframes_are_encoded<S: BlendshapeSolver>(
    run: Run<S>,
    node: NodeState<S>,
    chunk: AudioChunk,
    k: int,
)
    requires
        run.hears(node, chunk),
        0 <= k < run.moments.len(),
        run.moments[k].action is Emit,
    ensures
        hands_on(
            run.moments[k].action,
            run.moments[k].call.frames[run.moments[k].call.next_frame as int],
        ),
{
    if chunk.sample_rate == SAMPLE_RATE {
        lemma_all_reached(run, node, chunk, k);
    } else {
        assert(run.goes(0));
        if k > 1 {
            assert(run.goes(1));
        }
    }
}

/// A call of a node that does not pace never waits, and never asks for the
/// time.
pub proof fn law_unpaced_calls_do_not_wait<S: BlendshapeSolver>(
    run: Run<S>,
    node: NodeState<S>,
    chunk: AudioChunk,
    k: int,
)
    requires
        run.hears(node, chunk),
        !node.config.pace_realtime,
        0 <= k < run.moments.len(),
    ensures
        run.moments[k].action !is ReadClock,
        run.moments[k].action !is Sleep,
{
    if k > 0 {
        if chunk.sample_rate == SAMPLE_RATE {
            lemma_all_reached(run, node, chunk, k);
        } else {
            assert(run.goes(0));
            if k > 1 {
                assert(run.goes(1));
            }
        }
    }
}

/// The same answers give the same keyframes again, from motions that are
/// alike.
pub proof fn law_performances_repeat<S: BlendshapeSolver>(
    rig: Rig,
    m: Motion<S>,
    n: Motion<S>,
    start_ms: u64,
    turn_id: Option<u64>,
    skins: Seq<Seq<u32>>,
    m_after: Motion<S>,
    n_after: Motion<S>,
    r: Seq<BlendshapeFrame>,
    q: Seq<BlendshapeFrame>,
)
    requires
        answers_repeat::<S>(),
        motions_alike(m, n),
        performs(rig, m, start_ms, turn_id, skins, m_after, r),
        performs(rig, n, start_ms, turn_id, skins, n_after, q),
    ensures
        same_frames(r, q),
        motions_alike(m_after, n_after),
    decreases skins.len(),
{
    if skins.len() > 0 {
        let at_ms = window_start(start_ms, (skins.len() - 1) as nat);
        let count = NUM_CENTER_FRAMES as nat;
        let r_cut = r.len() - count;
        let q_cut = q.len() - count;
        let u = choose|mid: Motion<S>|
            performs(rig, m, start_ms, turn_id, skins.drop_last(), mid, r.take(r_cut))
                && #[trigger] mid.plays(
                rig,
                skins.last(),
                at_ms,
                turn_id,
                count,
                m_after,
                r.skip(r_cut),
            );
        let v = choose|mid: Motion<S>|
            performs(rig, n, start_ms, turn_id, skins.drop_last(), mid, q.take(q_cut))
                && #[trigger] mid.plays(
                rig,
                skins.last(),
                at_ms,
                turn_id,
                count,
                n_after,
                q.skip(q_cut),
            );
        law_performances_repeat(
            rig,
            m,
            n,
            start_ms,
            turn_id,
            skins.drop_last(),
            u,
            v,
            r.take(r_cut),
            q.take(q_cut),
        );
        law_windows_repeat(
            u,
            v,
            rig,
            skins.last(),
            at_ms,
            turn_id,
            count,
            m_after,
            n_after,
            r.skip(r_cut),
            q.skip(q_cut),
        );
        assert forall|i: int| 0 <= i < r.len() implies same_frame(#[trigger] r[i], q[i]) by {
            if i < r_cut {
                assert(same_frame(r.take(r_cut)[i], q.take(q_cut)[i]));
            } else {
                assert(same_frame(r.skip(r_cut)[i - r_cut], q.skip(q_cut)[i - r_cut]));
            }
        }
    }
}

proof fn lemma_window_starts_join(start_ms: u64, m: nat, n: nat)
    ensures
        window_start(window_start(start_ms, m), n) == window_start(start_ms, m + n),
    decreases n,
{
    if n > 0 {
        lemma_window_starts_join(start_ms, m, (n - 1) as nat);
    }
}

/// Windows performed after others are performed as the end of all of them.
pub proof fn law_performances_join<S: BlendshapeSolver>(
    rig: Rig,
    motion: Motion<S>,
    start_ms: u64,
    turn_id: Option<u64>,
    first: Seq<Seq<u32>>,
    second: Seq<Seq<u32>>,
    mid: Motion<S>,
    after: Motion<S>,
    r: Seq<BlendshapeFrame>,
    q: Seq<BlendshapeFrame>,
)
    requires
        performs(rig, motion, start_ms, turn_id, first, mid, r),
        performs(rig, mid, window_start(start_ms, first.len()), turn_id, second, after, q),
    ensures
        performs(rig, motion, start_ms, turn_id, first + second, after, r + q),
    decreases second.len(),
{
    if second.len() == 0 {
        assert(first + second =~= first);
        assert(r + q =~= r);
    } else {
        let begin_ms = window_start(start_ms, first.len());
        let count = NUM_CENTER_FRAMES as nat;
        let cut = q.len() - count;
        let last = choose|last: Motion<S>|
            performs(rig, mid, begin_ms, turn_id, second.drop_last(), last, q.take(cut))
                && #[trigger] last.plays(
                rig,
                second.last(),
                window_start(begin_ms, (second.len() - 1) as nat),
                turn_id,
                count,
                after,
                q.skip(cut),
            );
        law_performances_join(
            rig,
            motion,
            start_ms,
            turn_id,
            first,
            second.drop_last(),
            mid,
            last,
            r,
            q.take(cut),
        );
        lemma_window_starts_join(start_ms, first.len(), (second.len() - 1) as nat);
        let all = first + second;
        let frames = r + q;
        assert(all.drop_last() =~= first + second.drop_last());
        assert(frames.take(frames.len() - count) =~= r + q.take(cut));
        assert(frames.skip(frames.len() - count) =~= q.skip(cut));
        assert(last.plays(
            rig,
            all.last(),
            window_start(start_ms, (all.len() - 1) as nat),
            turn_id,
            count,
            after,
            frames.skip(frames.len() - count),
        ));
    }
}

/// Whether two nodes go on alike. Whether they pace, and by what, does not
/// count.
pub open spec fn nodes_alike<S: BlendshapeSolver>(p: NodeState<S>, q: NodeState<S>) -> bool {
    &&& p.config.identity == q.config.identity
    &&& p.rig == q.rig
    &&& motions_alike(p.motion, q.motion)
    &&& p.buffer == q.buffer
    &&& p.cum_window_ms == q.cum_window_ms
}

/// With a network that is a function of the windows it was run on, the
/// keyframes do not depend on how the audio is cut: a call on two chunks in
/// one runs the network on the same windows, hands on the same keyframes in
/// the same order, and leaves the node the same, as a call on the first chunk
/// and then one on the second. This holds of audio without presentation times
/// and of one turn.
pub proof fn law_keyframes_do_not_depend_on_the_chunks<S: BlendshapeSolver>(
    p: NodeState<S>,
    q: NodeState<S>,
    whole: AudioChunk,
    one: Run<S>,
    head: AudioChunk,
    first: Run<S>,
    tail: AudioChunk,
    second: Run<S>,
    network: spec_fn(Seq<Seq<u32>>) -> Seq<u32>,
    past: Seq<Seq<u32>>,
)
    requires
        answers_repeat::<S>(),
        nodes_alike(p, q),
        whole.samples@ == head.samples@ + tail.samples@,
        stamp(whole.metadata, "pts_us"@) is None,
        stamp(head.metadata, "pts_us"@) is None,
        stamp(tail.metadata, "pts_us"@) is None,
        stamp(head.metadata, "turn_id"@) == stamp(whole.metadata, "turn_id"@),
        stamp(tail.metadata, "turn_id"@) == stamp(whole.metadata, "turn_id"@),
        one.hears(p, whole),
        one.is_done(),
        one.is_answered_by(network, past),
        first.hears(q, head),
        first.is_done(),
        first.is_answered_by(network, past),
        second.hears(first.end(), tail),
        second.is_done(),
        second.is_answered_by(network, past + first.asked()),
    ensures
        one.asked() == first.asked() + second.asked(),
        same_frames(one.handed(), first.handed() + second.handed()),
        nodes_alike(one.end(), second.end()),
{
    let turn_id = stamp(whole.metadata, "turn_id"@);
    law_calls_hand_on_what_the_windows_give(one, p, whole);
    law_calls_hand_on_what_the_windows_give(first, q, head);
    law_calls_hand_on_what_the_windows_give(second, first.end(), tail);
    law_pieces_are_heard_as_one(q, head.samples@, tail.samples@);
    let n = first.asked().len();
    assert forall|k: int| 0 <= k < one.answers().len() implies one.answers()[k] == (first.answers()
        + second.answers())[k] by {
        if k < n {
            assert(one.asked().take(k + 1) =~= first.asked().take(k + 1));
            assert(first.answers()[k] == network(past + first.asked().take(k + 1)));
        } else {
            assert(past + one.asked().take(k + 1) =~= past + first.asked()
                + second.asked().take(k - n + 1));
            assert(second.answers()[k - n] == network(
                past + first.asked() + second.asked().take(k - n + 1),
            ));
        }
    }
    assert(one.answers() =~= first.answers() + second.answers());
    law_performances_join(
        q.rig,
        q.motion,
        q.cum_window_ms,
        turn_id,
        first.answers(),
        second.answers(),
        first.end().motion,
        second.end().motion,
        first.handed(),
        second.handed(),
    );
    law_performances_repeat(
        p.rig,
        p.motion,
        q.motion,
        p.cum_window_ms,
        turn_id,
        one.answers(),
        one.end().motion,
        second.end().motion,
        one.handed(),
        first.handed() + second.handed(),
    );
    lemma_window_starts_join(q.cum_window_ms, n, second.asked().len());
}

/// Pacing only delays: with a network that is a function of the windows it was
/// run on, a node that paces and one that does not run it on the same windows,
/// hand the same keyframes on in the same order, and report the same count;
/// and they go on alike. The one that does not pace never waits.
pub proof fn law_pacing_only_delays<S: BlendshapeSolver>(
    p: NodeState<S>,
    q: NodeState<S>,
    chunk: AudioChunk,
    paced: Run<S>,
    unpaced: Run<S>,
    network: spec_fn(Seq<Seq<u32>>) -> Seq<u32>,
    past: Seq<Seq<u32>>,
)
    requires
        answers_repeat::<S>(),
        nodes_alike(p, q),
        p.config.pace_realtime,
        !q.config.pace_realtime,
        paced.hears(p, chunk),
        paced.is_done(),
        paced.is_answered_by(network, past),
        unpaced.hears(q, chunk),
        unpaced.is_done(),
        unpaced.is_answered_by(network, past),
    ensures
        paced.asked() == unpaced.asked(),
        same_frames(paced.handed(), unpaced.handed()),
        ends_with(paced.moments.last().action, 1 + paced.handed().len()),
        ends_with(unpaced.moments.last().action, 1 + paced.handed().len()),
        nodes_alike(paced.end(), unpaced.end()),
        forall|k: int|
            0 <= k < unpaced.moments.len() ==> !((#[trigger] unpaced.moments[k]).action is Sleep),
{
    law_calls_hand_on_what_the_windows_give(paced, p, chunk);
    law_calls_hand_on_what_the_windows_give(unpaced, q, chunk);
    assert forall|k: int| 0 <= k < paced.answers().len() implies paced.answers()[k]
        == unpaced.answers()[k] by {
        assert(unpaced.answers()[k] == network(past + unpaced.asked().take(k + 1)));
    }
    assert(paced.answers() =~= unpaced.answers());
    law_performances_repeat(
        p.rig,
        p.motion,
        q.motion,
        p.heard(chunk.samples@, stamp(chunk.metadata, "pts_us"@)).cum_window_ms,
        stamp(chunk.metadata, "turn_id"@),
        paced.answers(),
        paced.end().motion,
        unpaced.end().motion,
        paced.handed(),
        unpaced.handed(),
    );
    assert forall|k: int| 0 <= k < unpaced.moments.len() implies !((
    #[trigger] unpaced.moments[k]).action is Sleep) by {
        law_unpaced_calls_do_not_wait(unpaced, q, chunk, k);
    }
}

/// Whether the keyframe at `pts_ms` was timed at moment `k` of a call, and its
/// time has come once what was asked for then is done.
pub open spec fn is_timed_at<S: BlendshapeSolver>(run: Run<S>, k: int, pts_ms: u64) -> bool {
    match run.events[k] {
        Event::Now(now_ns) => {
            let due = due_ns(anchored(run.moments[k].node.pace_anchor, pts_ms, now_ns), pts_ms);
            match run.moments[k + 1].action {
                Action::Sleep(ns) => now_ns + ns >= due,
                _ => now_ns >= due,
            }
        },
        _ => false,
    }
}

/// A node that paces hands no keyframe on before its time: the clock was read
/// for it, and where it was early, the wait until it is due came first.
pub proof fn law_paced_keyframes_are_not_early<S: BlendshapeSolver>(
    run: Run<S>,
    node: NodeState<S>,
    chunk: AudioChunk,
    k: int,
)
    requires
        run.hears(node, chunk),
        run.is_done(),
        node.config.pace_realtime,
        0 <= k < run.moments.len(),
        run.moments[k].action is Emit,
    ensures
        ({
            let call = run.moments[k].call;
            let pts_ms = call.frames[call.next_frame as int].pts_ms;
            ||| k >= 1 && is_timed_at(run, k - 1, pts_ms)
            ||| k >= 2 && run.events[k - 1] is Slept && run.moments[k - 1].action is Sleep
                && is_timed_at(run, k - 2, pts_ms)
        }),
{
    lemma_heard_at_rate(run, node, chunk);
    lemma_all_reached(run, node, chunk, k);
    assert(run.goes(k - 1));
    if k >= 2 {
        lemma_all_reached(run, node, chunk, k - 1);
        assert(run.goes(k - 2));
    }
}

} // verus!
