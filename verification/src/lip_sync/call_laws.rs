//! How a call answers what it is given, in the words and numbers that callers
//! see.

use vstd::prelude::*;

use crate::audio2face::identity::Audio2FaceIdentity;
use crate::audio2face::solver_trait::BlendshapeSolver;
use crate::error::Error;
use crate::json::{count_members, text_members};
use crate::lip_sync::call::{begins, steps, Action, CallState, Event, Stage};
use crate::lip_sync::node::{NodeState, StreamData};
use crate::lip_sync::pacing::{next_anchor, wait_ns, PaceAnchor};
use crate::text::{all_digits, decimal, digits_of, law_digits_write_the_number};

verus! {

/// A JSON message whose `kind` is `barge_in` drops the network's state and
/// everything of earlier audio; whatever else comes in is handed on first, and
/// leaves the node alone.
pub proof fn law_only_barge_messages_reset<S: BlendshapeSolver>(
    node: NodeState<S>,
    data: StreamData,
    after: NodeState<S>,
    call: CallState,
    action: Action,
)
    requires
        begins(node, data, after, call, action),
    ensures
        action is ResetModel <==> (data matches StreamData::Json(v) && text_members(v).contains_key(
            "kind"@,
        ) && text_members(v)["kind"@] == "barge_in"@),
        action is ResetModel || action is Forward,
        action is Forward ==> after == node,
        action is ResetModel ==> {
            &&& after.buffer.len() == 0
            &&& after.cum_window_ms == 0
            &&& after.pace_anchor is None
            &&& !after.motion.smoothing.has_prev
            &&& after.motion.solver.temporal().len() == node.motion.solver.weight_count()
            &&& forall|i: int|
                0 <= i < node.motion.solver.weight_count()
                    ==> #[trigger] after.motion.solver.temporal()[i] == 0
            &&& after.rig == node.rig
            &&& after.config == node.config
        },
{
}

/// The presentation time and the turn of audio are what its metadata say under
/// those names.
pub proof fn law_stamps_come_from_the_metadata<S: BlendshapeSolver>(
    node: NodeState<S>,
    data: StreamData,
    after: NodeState<S>,
    call: CallState,
    action: Action,
)
    requires
        begins(node, data, after, call, action),
        data is Audio,
    ensures
        call.samples == data->Audio_0.samples@,
        call.sample_rate == data->Audio_0.sample_rate,
        match data->Audio_0.metadata {
            Some(v) => {
                &&& count_members(v).contains_key("pts_us"@) ==> call.pts_us == Some(
                    count_members(v)["pts_us"@],
                )
                &&& !count_members(v).contains_key("pts_us"@) ==> call.pts_us is None
                &&& count_members(v).contains_key("turn_id"@) ==> call.turn_id == Some(
                    count_members(v)["turn_id"@],
                )
                &&& !count_members(v).contains_key("turn_id"@) ==> call.turn_id is None
            },
            None => call.pts_us is None && call.turn_id is None,
        },
{
}

/// Audio at any rate but sixteen thousand samples to the second ends the call
/// with an error that names the rate, and leaves the node alone; audio at that
/// rate does not.
pub proof fn law_other_rates_are_refused<S: BlendshapeSolver>(
    node: NodeState<S>,
    call: CallState,
    after: NodeState<S>,
    call_after: CallState,
    action: Action,
)
    requires
        call.stage == Stage::Listening,
        steps(node, call, Event::Forwarded, after, call_after, action),
    ensures
        call.sample_rate != 16000 ==> after == node && call_after.stage == Stage::Finished && exists|
            digits: Seq<char>,
            text: String,
        |
            {
                &&& action == Action::Finish(Err(Error::InvalidData(text)))
                &&& #[trigger] text@
                    == "Audio2FaceLipSyncNode requires 16 kHz audio (capability resolver should insert a resampler upstream); got "@
                    + digits
                &&& #[trigger] all_digits(digits)
                &&& decimal(digits) == call.sample_rate
            },
        call.sample_rate == 16000 ==> !(action matches Action::Finish(Err(_))),
{
    if call.sample_rate != 16000 {
        law_digits_write_the_number(call.sample_rate as nat);
        let digits = digits_of(call.sample_rate as nat);
        let text = action->Finish_0->Err_0->InvalidData_0;
        assert(action == Action::Finish(Err(Error::InvalidData(text))));
        assert(all_digits(digits));
        assert(text@
            == "Audio2FaceLipSyncNode requires 16 kHz audio (capability resolver should insert a resampler upstream); got "@
            + digits);
    }
}

/// Where the network's answer for a window gives no keyframes, the call ends
/// with an error that says so; that is the only way that an answer ends it
/// badly.
pub proof fn law_broken_windows_end_the_call<S: BlendshapeSolver>(
    node: NodeState<S>,
    call: CallState,
    skin: Vec<u32>,
    after: NodeState<S>,
    call_after: CallState,
    action: Action,
)
    requires
        steps(node, call, Event::Inferred(skin), after, call_after, action),
        action matches Action::Finish(Err(_)),
    ensures
        action matches Action::Finish(Err(Error::Execution(text))) && text@
            == "Audio2FaceLipSyncNode inference task panicked: the window broke off"@,
        call_after.stage == Stage::Finished,
        after.config == node.config,
        after.rig == node.rig,
        after.buffer == node.buffer,
        after.cum_window_ms == node.cum_window_ms,
        after.pace_anchor == node.pace_anchor,
{
}

/// The network is run for the identity of the configuration: slot zero for
/// Claire, one for James, two for Mark.
pub proof fn law_network_runs_for_the_identity<S: BlendshapeSolver>(
    node: NodeState<S>,
    call: CallState,
    event: Event,
    after: NodeState<S>,
    call_after: CallState,
    action: Action,
)
    requires
        steps(node, call, event, after, call_after, action),
        action is Infer,
    ensures
        node.config.identity == Audio2FaceIdentity::Claire ==> action->identity == 0,
        node.config.identity == Audio2FaceIdentity::James ==> action->identity == 1,
        node.config.identity == Audio2FaceIdentity::Mark ==> action->identity == 2,
{
}

/// A message without audio is handed on and is the only thing that the call
/// hands on; a barge-in hands nothing on.
pub proof fn law_messages_are_counted_once<S: BlendshapeSolver>(
    node: NodeState<S>,
    call: CallState,
    event: Event,
    after: NodeState<S>,
    call_after: CallState,
    action: Action,
)
    requires
        steps(node, call, event, after, call_after, action),
        event is ModelReset || (event is Forwarded && call.stage == Stage::Passing),
    ensures
        after == node,
        call_after.stage == Stage::Finished,
        event is ModelReset ==> (action matches Action::Finish(Ok(n)) && n == 0),
        event is Forwarded ==> (action matches Action::Finish(Ok(n)) && n == 1),
{
}

/// A keyframe waits until a million nanoseconds have passed for every
/// millisecond between it and the anchor; one that is not early does not wait,
/// and becomes the anchor.
pub proof fn law_keyframes_wait_for_their_time(anchor: PaceAnchor, pts_ms: u64, now_ns: u64)
    ensures
        pts_ms >= anchor.pts_ms && anchor.wall_ns + 1000000 * (pts_ms - anchor.pts_ms) > now_ns
            ==> now_ns + wait_ns(Some(anchor), pts_ms, now_ns) == anchor.wall_ns + 1000000 * (pts_ms
            - anchor.pts_ms) && next_anchor(Some(anchor), pts_ms, now_ns) == anchor,
        pts_ms >= anchor.pts_ms && anchor.wall_ns + 1000000 * (pts_ms - anchor.pts_ms) <= now_ns
            ==> wait_ns(Some(anchor), pts_ms, now_ns) == 0 && next_anchor(
            Some(anchor),
            pts_ms,
            now_ns,
        ) == (PaceAnchor { wall_ns: now_ns, pts_ms }),
        pts_ms < anchor.pts_ms && anchor.wall_ns <= now_ns ==> wait_ns(Some(anchor), pts_ms, now_ns)
            == 0 && next_anchor(Some(anchor), pts_ms, now_ns) == (PaceAnchor {
            wall_ns: now_ns,
            pts_ms,
        }),
        pts_ms < anchor.pts_ms && anchor.wall_ns > now_ns ==> now_ns + wait_ns(
            Some(anchor),
            pts_ms,
            now_ns,
        ) == anchor.wall_ns && next_anchor(Some(anchor), pts_ms, now_ns) == anchor,
        wait_ns(None, pts_ms, now_ns) == 0,
        next_anchor(None, pts_ms, now_ns) == (PaceAnchor { wall_ns: now_ns, pts_ms }),
{
}

/// A keyframe that is paced waits as long as its anchor asks for, and goes out
/// at once where that is no time.
pub proof fn law_early_keyframes_sleep<S: BlendshapeSolver>(
    node: NodeState<S>,
    call: CallState,
    now_ns: u64,
    after: NodeState<S>,
    call_after: CallState,
    action: Action,
    anchor: PaceAnchor,
    pts_ms: u64,
)
    requires
        steps(node, call, Event::Now(now_ns), after, call_after, action),
        node.pace_anchor == Some(anchor),
        pts_ms == call.frames[call.next_frame as int].pts_ms,
        pts_ms >= anchor.pts_ms,
    ensures
        anchor.wall_ns + 1000000 * (pts_ms - anchor.pts_ms) > now_ns ==> (action matches Action::Sleep(
            ns,
        ) && now_ns + ns == anchor.wall_ns + 1000000 * (pts_ms - anchor.pts_ms)
            && after.pace_anchor == Some(anchor)),
        anchor.wall_ns + 1000000 * (pts_ms - anchor.pts_ms) <= now_ns ==> action is Emit
            && after.pace_anchor == Some(PaceAnchor { wall_ns: now_ns, pts_ms }),
{
}

/// A call takes the network's answer only while it waits for one, and only one
/// of thirty skin frames of 72006 numbers or more; it takes every other event
/// at its own stage alone.
pub proof fn law_calls_take_what_they_asked_for(call: CallState, event: Event)
    ensures
        event matches Event::Inferred(skin) ==> (call.awaits(event) <==> call.stage
            == Stage::Inferring && skin@.len() >= 2160180),
        event is ModelReset ==> (call.awaits(event) <==> call.stage == Stage::Resetting),
        event is Forwarded ==> (call.awaits(event) <==> call.stage == Stage::Passing || call.stage
            == Stage::Listening),
        event is Now ==> (call.awaits(event) <==> call.stage == Stage::Timing),
        event is Slept ==> (call.awaits(event) <==> call.stage == Stage::Sleeping),
        event is Emitted ==> (call.awaits(event) <==> call.stage == Stage::Emitting),
{
}

/// Where keyframes are paced, none goes out but on the clock's time or at the
/// end of a wait; where they are not, the clock is not read and nothing waits.
pub proof fn law_paced_keyframes_are_timed_first<S: BlendshapeSolver>(
    node: NodeState<S>,
    call: CallState,
    event: Event,
    after: NodeState<S>,
    call_after: CallState,
    action: Action,
)
    requires
        steps(node, call, event, after, call_after, action),
    ensures
        node.config.pace_realtime && action is Emit ==> event is Now || event is Slept,
        !node.config.pace_realtime ==> !(action is ReadClock),
        action is Sleep ==> event is Now,
        action is ReadClock ==> event is Forwarded || event is Inferred || event is Emitted,
{
}

} // verus!
