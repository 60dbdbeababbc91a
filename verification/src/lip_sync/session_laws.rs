//! A node over many calls: nodes that are alike answer the same inputs alike,
//! and a node that was barged in on is like one that was just loaded.

use vstd::prelude::*;

use crate::arkit::{all_widened, encodes, BlendshapeFrame};
use crate::audio2face::solver_trait::BlendshapeSolver;
use crate::error::Error;
use crate::float_convert::law_widening_is_unique;
use crate::json::{count_members, list_members, member_names, numbers, text_members};
use crate::lip_sync::buffer::{windows_of, SAMPLE_RATE};
use crate::lip_sync::call::{answers, answers_with, begins, goes_on, hands_on, is_barge, steps, Action,
    CallState, Event, Stage};
use crate::lip_sync::node::{aux_port, NodeState, StreamData};
use crate::lip_sync::repeat_laws::{alike, answers_repeat, law_windows_break_off_again,
    law_windows_repeat, same_frame, same_frames, systems_stay};
use crate::lip_sync::run_laws::{nodes_alike, Run};
use crate::lip_sync::skin::{mask_fits, Motion, Rig};
use crate::lip_sync::window::{skin_of, NUM_CENTER_FRAMES};

verus! {

/// Whether two reports say the same.
pub open spec fn events_alike(e: Event, f: Event) -> bool {
    match e {
        Event::ModelReset => f is ModelReset,
        Event::Forwarded => f is Forwarded,
        Event::Inferred(skins) => f matches Event::Inferred(others) && others@ == skins@,
        Event::Now(now_ns) => f == Event::Now(now_ns),
        Event::Slept => f is Slept,
        Event::Emitted => f is Emitted,
    }
}

/// Whether two JSON objects have the same members.
pub open spec fn values_alike(v: serde_json::Value, w: serde_json::Value) -> bool {
    &&& member_names(v) == member_names(w)
    &&& text_members(v) == text_members(w)
    &&& count_members(v) == count_members(w)
    &&& list_members(v) == list_members(w)
}

/// Whether two errors are of the same kind and text.
pub open spec fn errors_alike(e: Error, f: Error) -> bool {
    match e {
        Error::Execution(text) => f matches Error::Execution(other) && other@ == text@,
        Error::InvalidData(text) => f matches Error::InvalidData(other) && other@ == text@,
    }
}

/// Whether two steps ask for the same.
pub open spec fn actions_alike(a: Action, b: Action) -> bool {
    match a {
        Action::ResetModel => b is ResetModel,
        Action::Forward => b is Forward,
        Action::Infer { window, identity } => b matches Action::Infer { window: w, identity: i }
            && w@ == window@ && i == identity,
        Action::ReadClock => b is ReadClock,
        Action::Sleep(ns) => b == Action::Sleep(ns),
        Action::Emit(v) => b matches Action::Emit(w) && values_alike(v, w),
        Action::Finish(Ok(n)) => b == Action::Finish(Ok(n)),
        Action::Finish(Err(e)) => b matches Action::Finish(Err(f)) && errors_alike(e, f),
    }
}

/// Whether two calls stand alike.
pub open spec fn calls_alike(c: CallState, d: CallState) -> bool {
    &&& same_frames(c.frames, d.frames)
    &&& c == CallState { frames: c.frames, ..d }
}

/// Whether two nodes go on alike, and at the same times.
pub open spec fn nodes_match<S: BlendshapeSolver>(p: NodeState<S>, q: NodeState<S>) -> bool {
    &&& nodes_alike(p, q)
    &&& p.config == q.config
    &&& p.pace_anchor == q.pace_anchor
}

proof fn lemma_same_frames_are_written_alike(
    f: BlendshapeFrame,
    g: BlendshapeFrame,
    a: Action,
    b: Action,
)
    requires
        same_frame(f, g),
        hands_on(a, f),
        hands_on(b, g),
    ensures
        actions_alike(a, b),
{
    let v = a->Emit_0;
    let w = b->Emit_0;
    let wide = choose|wide: Seq<u64>| #[trigger]
        all_widened(f.arkit_52@, wide) && list_members(v) == map!["arkit_52"@ => numbers(wide)];
    let other = choose|wide: Seq<u64>| #[trigger]
        all_widened(g.arkit_52@, wide) && list_members(w) == map!["arkit_52"@ => numbers(wide)];
    assert(encodes(f, text_members(v), count_members(v), list_members(v)));
    assert(encodes(g, text_members(w), count_members(w), list_members(w)));
    assert forall|i: int| 0 <= i < wide.len() implies wide[i] == other[i] by {
        law_widening_is_unique(f.arkit_52@[i], wide[i], other[i]);
    }
    assert(wide =~= other);
}

proof fn lemma_going_on_alike<S: BlendshapeSolver>(
    p: NodeState<S>,
    c: CallState,
    p_after: NodeState<S>,
    c_after: CallState,
    a: Action,
    q: NodeState<S>,
    d: CallState,
    q_after: NodeState<S>,
    d_after: CallState,
    b: Action,
)
    requires
        nodes_match(p, q),
        calls_alike(c, d),
        goes_on(p, c, p_after, c_after, a),
        goes_on(q, d, q_after, d_after, b),
    ensures
        nodes_match(p_after, q_after),
        calls_alike(c_after, d_after),
        actions_alike(a, b),
{
    if c.next_frame < c.frames.len() && !p.config.pace_realtime {
        lemma_same_frames_are_written_alike(
            c.frames[c.next_frame as int],
            d.frames[d.next_frame as int],
            a,
            b,
        );
    }
}

proof fn lemma_answers_alike<S: BlendshapeSolver>(
    p: NodeState<S>,
    c: CallState,
    skins: Seq<u32>,
    p_after: NodeState<S>,
    c_after: CallState,
    a: Action,
    q: NodeState<S>,
    d: CallState,
    q_after: NodeState<S>,
    d_after: CallState,
    b: Action,
)
    requires
        answers_repeat::<S>(),
        nodes_match(p, q),
        calls_alike(c, d),
        answers(p, c, skins, p_after, c_after, a),
        answers(q, d, skins, q_after, d_after, b),
    ensures
        nodes_match(p_after, q_after),
        calls_alike(c_after, d_after),
        actions_alike(a, b),
{
    let start_ms = c.window_start_ms;
    let count = NUM_CENTER_FRAMES as nat;
    let p_plays = exists|frames: Seq<BlendshapeFrame>, mid: NodeState<S>| #[trigger]
        answers_with(p, c, skins, frames, mid, p_after, c_after, a);
    let q_plays = exists|frames: Seq<BlendshapeFrame>, mid: NodeState<S>| #[trigger]
        answers_with(q, d, skins, frames, mid, q_after, d_after, b);
    if p_plays && q_plays {
        let (r, p_mid) = choose|frames: Seq<BlendshapeFrame>, mid: NodeState<S>| #[trigger]
            answers_with(p, c, skins, frames, mid, p_after, c_after, a);
        let (s, q_mid) = choose|frames: Seq<BlendshapeFrame>, mid: NodeState<S>| #[trigger]
            answers_with(q, d, skins, frames, mid, q_after, d_after, b);
        law_windows_repeat(
            p.motion,
            q.motion,
            p.rig,
            skins,
            start_ms,
            c.turn_id,
            count,
            p_mid.motion,
            q_mid.motion,
            r,
            s,
        );
        lemma_going_on_alike(
            p_mid,
            CallState { frames: r, next_frame: 0, ..c },
            p_after,
            c_after,
            a,
            q_mid,
            CallState { frames: s, next_frame: 0, ..d },
            q_after,
            d_after,
            b,
        );
    } else if !p_plays {
        if q_plays {
            let (s, q_mid) = choose|frames: Seq<BlendshapeFrame>, mid: NodeState<S>| #[trigger]
                answers_with(q, d, skins, frames, mid, q_after, d_after, b);
            assert(q.motion.windows(p.rig, skins, start_ms, c.turn_id, q_mid.motion, Some(s)));
            law_windows_break_off_again(
                p.motion,
                q.motion,
                p.rig,
                skins,
                start_ms,
                c.turn_id,
                p_after.motion,
                q_mid.motion,
                Some(s),
            );
        } else {
            law_windows_break_off_again(
                p.motion,
                q.motion,
                p.rig,
                skins,
                start_ms,
                c.turn_id,
                p_after.motion,
                q_after.motion,
                None,
            );
        }
    } else {
        let (r, p_mid) = choose|frames: Seq<BlendshapeFrame>, mid: NodeState<S>| #[trigger]
            answers_with(p, c, skins, frames, mid, p_after, c_after, a);
        assert(p.motion.windows(p.rig, skins, start_ms, c.turn_id, p_mid.motion, Some(r)));
        assert(alike(q.motion.solver, q.motion.solver));
        assert(q.motion.solver.same_system(&q.motion.solver));
        law_windows_break_off_again(
            q.motion,
            p.motion,
            p.rig,
            skins,
            start_ms,
            c.turn_id,
            q_after.motion,
            p_mid.motion,
            Some(r),
        );
    }
}

/// Nodes and calls that stand alike take the same step on the same report: they
/// ask for the same and stand alike afterwards.
#[verifier::spinoff_prover]
pub proof fn law_alike_steps<S: BlendshapeSolver>(
    p: NodeState<S>,
    c: CallState,
    e: Event,
    p_after: NodeState<S>,
    c_after: CallState,
    a: Action,
    q: NodeState<S>,
    d: CallState,
    f: Event,
    q_after: NodeState<S>,
    d_after: CallState,
    b: Action,
)
    requires
        answers_repeat::<S>(),
        nodes_match(p, q),
        calls_alike(c, d),
        events_alike(e, f),
        c.awaits(e),
        c.valid(),
        steps(p, c, e, p_after, c_after, a),
        steps(q, d, f, q_after, d_after, b),
    ensures
        d.awaits(f),
        nodes_match(p_after, q_after),
        calls_alike(c_after, d_after),
        actions_alike(a, b),
{
    match e {
        Event::Inferred(skins) => {
            lemma_answers_alike(
                p,
                c,
                skins@,
                p_after,
                c_after,
                a,
                q,
                d,
                q_after,
                d_after,
                b,
            );
        },
        Event::Now(_) | Event::Slept => {
            let i = c.next_frame as int;
            assert(same_frame(c.frames[i], d.frames[i]));
            if a is Emit {
                lemma_same_frames_are_written_alike(c.frames[i], d.frames[i], a, b);
            }
        },
        Event::Emitted => {
            let next = CallState {
                next_frame: c.next_frame + 1,
                emitted: c.emitted + 1,
                ..c
            };
            let other = CallState {
                next_frame: d.next_frame + 1,
                emitted: d.emitted + 1,
                ..d
            };
            lemma_going_on_alike(p, next, p_after, c_after, a, q, other, q_after, d_after, b);
        },
        Event::Forwarded => {
            if c.stage == Stage::Listening && c.sample_rate
                == SAMPLE_RATE {
                let windows = windows_of(p.buffer + c.samples);
                lemma_going_on_alike(
                    p.heard(c.samples, c.pts_us),
                    CallState { windows, emitted: 1, ..c },
                    p_after,
                    c_after,
                    a,
                    q.heard(d.samples, d.pts_us),
                    CallState { windows, emitted: 1, ..d },
                    q_after,
                    d_after,
                    b,
                );
            }
        },
        Event::ModelReset => {},
    }
}

/// Whether `run` is a call of `node` on `data`, up to some moment.
pub open spec fn takes<S: BlendshapeSolver>(
    run: Run<S>,
    node: NodeState<S>,
    data: StreamData,
) -> bool {
    let m = run.moments[0];
    &&& run.moments.len() == run.events.len() + 1
    &&& begins(node, data, m.node, m.call, m.action)
    &&& forall|k: int| 0 <= k < run.events.len() ==> #[trigger] run.goes(k)
    &&& forall|k: int| 0 <= k < run.moments.len() ==> (#[trigger] run.moments[k]).call.valid()
}

/// Whether the surroundings reported the same in two calls.
pub open spec fn reports_alike<S: BlendshapeSolver>(r: Run<S>, s: Run<S>) -> bool {
    r.events.len() == s.events.len() && forall|k: int|
        0 <= k < r.events.len() ==> events_alike(#[trigger] r.events[k], s.events[k])
}

/// Whether two calls asked for the same, moment for moment.
pub open spec fn requests_alike<S: BlendshapeSolver>(r: Run<S>, s: Run<S>) -> bool {
    r.moments.len() == s.moments.len() && forall|k: int|
        0 <= k < r.moments.len() ==> actions_alike(
            (#[trigger] r.moments[k]).action,
            s.moments[k].action,
        )
}

proof fn lemma_barged_alike<S: BlendshapeSolver>(
    p: NodeState<S>,
    p_after: NodeState<S>,
    q: NodeState<S>,
    q_after: NodeState<S>,
)
    requires
        answers_repeat::<S>(),
        nodes_match(p, q),
        p.barged(p_after),
        q.barged(q_after),
    ensures
        nodes_match(p_after, q_after),
{
    assert(alike(p.motion.solver, q.motion.solver));
    assert(p_after.motion.solver.same_system(&p.motion.solver));
    assert(q_after.motion.solver.same_system(&q.motion.solver));
}

proof fn lemma_moments_alike<S: BlendshapeSolver>(
    p: NodeState<S>,
    r: Run<S>,
    q: NodeState<S>,
    s: Run<S>,
    data: StreamData,
    k: int,
)
    requires
        answers_repeat::<S>(),
        nodes_match(p, q),
        takes(r, p, data),
        takes(s, q, data),
        reports_alike(r, s),
        0 <= k < r.moments.len(),
    ensures
        nodes_match(r.moments[k].node, s.moments[k].node),
        calls_alike(r.moments[k].call, s.moments[k].call),
        actions_alike(r.moments[k].action, s.moments[k].action),
    decreases k,
{
    if k == 0 {
        match data {
            StreamData::Json(v) => {
                if is_barge(v) {
                    lemma_barged_alike(p, r.moments[0].node, q, s.moments[0].node);
                }
            },
            _ => {},
        }
    } else {
        lemma_moments_alike(p, r, q, s, data, k - 1);
        assert(r.goes(k - 1));
        assert(s.goes(k - 1));
        assert(events_alike(r.events[k - 1], s.events[k - 1]));
        assert(r.moments[k - 1].call.valid());
        law_alike_steps(
            r.moments[k - 1].node,
            r.moments[k - 1].call,
            r.events[k - 1],
            r.moments[k].node,
            r.moments[k].call,
            r.moments[k].action,
            s.moments[k - 1].node,
            s.moments[k - 1].call,
            s.events[k - 1],
            s.moments[k].node,
            s.moments[k].call,
            s.moments[k].action,
        );
    }
}

/// Nodes that go on alike answer the same input alike: where the surroundings
/// report the same, both ask for the same, moment for moment, and go on alike.
pub proof fn law_alike_nodes_answer_alike<S: BlendshapeSolver>(
    p: NodeState<S>,
    r: Run<S>,
    q: NodeState<S>,
    s: Run<S>,
    data: StreamData,
)
    requires
        answers_repeat::<S>(),
        nodes_match(p, q),
        takes(r, p, data),
        takes(s, q, data),
        reports_alike(r, s),
    ensures
        requests_alike(r, s),
        nodes_match(r.end(), s.end()),
{
    assert forall|k: int| 0 <= k < r.moments.len() implies actions_alike(
        (#[trigger] r.moments[k]).action,
        s.moments[k].action,
    ) by {
        lemma_moments_alike(p, r, q, s, data, k);
    }
    lemma_moments_alike(p, r, q, s, data, r.moments.len() - 1);
}

/// Something that happens to a node: a call on an input, or a control message
/// that it handles or not.
pub ghost enum Turn<S: BlendshapeSolver> {
    Call { data: StreamData, run: Run<S> },
    Control { message: StreamData, handled: bool, after: NodeState<S> },
}

impl<S: BlendshapeSolver> Turn<S> {
    /// Whether this happens to `node`.
    pub open spec fn befalls(self, node: NodeState<S>) -> bool {
        match self {
            Turn::Call { data, run } => takes(run, node, data),
            Turn::Control { message, handled, after } => {
                &&& handled == (aux_port(message) == Some("barge_in"@))
                &&& if handled {
                    node.barged(after)
                } else {
                    after == node
                }
            },
        }
    }

    /// The node as this leaves it.
    pub open spec fn end(self) -> NodeState<S> {
        match self {
            Turn::Call { run, .. } => run.end(),
            Turn::Control { after, .. } => after,
        }
    }

    /// Whether the same comes in, here and in `other`.
    pub open spec fn same_input(self, other: Turn<S>) -> bool {
        match self {
            Turn::Call { data, run } => other matches Turn::Call { data: d, run: s } && d == data
                && reports_alike(run, s),
            Turn::Control { message, .. } => other matches Turn::Control { message: m, .. } && m
                == message,
        }
    }

    /// Whether the same comes out, here and in `other`.
    pub open spec fn same_output(self, other: Turn<S>) -> bool {
        match self {
            Turn::Call { run, .. } => other matches Turn::Call { run: s, .. } && requests_alike(
                run,
                s,
            ),
            Turn::Control { handled, .. } => other matches Turn::Control { handled: h, .. } && h
                == handled,
        }
    }
}

/// The node after the first `i` of `turns`.
pub open spec fn node_after<S: BlendshapeSolver>(
    node: NodeState<S>,
    turns: Seq<Turn<S>>,
    i: int,
) -> NodeState<S> {
    if i <= 0 {
        node
    } else {
        turns[i - 1].end()
    }
}

/// Whether the next of `turns` happens to `node` after the first `i` did.
pub open spec fn goes_through<S: BlendshapeSolver>(
    node: NodeState<S>,
    turns: Seq<Turn<S>>,
    i: int,
) -> bool {
    turns[i].befalls(node_after(node, turns, i))
}

/// Whether `turns` happen to `node` one after the other.
pub open spec fn lives<S: BlendshapeSolver>(node: NodeState<S>, turns: Seq<Turn<S>>) -> bool {
    forall|i: int| 0 <= i < turns.len() ==> #[trigger] goes_through(node, turns, i)
}

proof fn lemma_turn_alike<S: BlendshapeSolver>(
    p: NodeState<S>,
    t: Turn<S>,
    q: NodeState<S>,
    u: Turn<S>,
)
    requires
        answers_repeat::<S>(),
        nodes_match(p, q),
        t.befalls(p),
        u.befalls(q),
        t.same_input(u),
    ensures
        t.same_output(u),
        nodes_match(t.end(), u.end()),
{
    match t {
        Turn::Call { data, run } => {
            law_alike_nodes_answer_alike(p, run, q, u->run, data);
        },
        Turn::Control { handled, after, .. } => {
            if handled {
                lemma_barged_alike(p, after, q, u->after);
            }
        },
    }
}

/// Nodes that go on alike answer any sequence of inputs alike.
pub proof fn law_alike_nodes_live_alike<S: BlendshapeSolver>(
    p: NodeState<S>,
    ps: Seq<Turn<S>>,
    q: NodeState<S>,
    qs: Seq<Turn<S>>,
    n: int,
)
    requires
        answers_repeat::<S>(),
        nodes_match(p, q),
        lives(p, ps),
        lives(q, qs),
        ps.len() == qs.len(),
        forall|i: int| 0 <= i < ps.len() ==> (#[trigger] ps[i]).same_input(qs[i]),
        0 <= n <= ps.len(),
    ensures
        nodes_match(node_after(p, ps, n), node_after(q, qs, n)),
        forall|i: int| 0 <= i < n ==> (#[trigger] ps[i]).same_output(qs[i]),
    decreases n,
{
    if n > 0 {
        law_alike_nodes_live_alike(p, ps, q, qs, n - 1);
        let before = node_after(p, ps, n - 1);
        let other = node_after(q, qs, n - 1);
        assert(goes_through(p, ps, n - 1) && goes_through(q, qs, n - 1));
        assert(ps[n - 1].same_input(qs[n - 1]));
        lemma_turn_alike(before, ps[n - 1], other, qs[n - 1]);
        assert(ps[n - 1].same_output(qs[n - 1]));
    }
}

/// Whether `q` is the node `p` at a later time: its configuration, its rig and
/// the system of its solver are the same.
pub open spec fn is_same_node<S: BlendshapeSolver>(p: NodeState<S>, q: NodeState<S>) -> bool {
    &&& q.config == p.config
    &&& q.rig == p.rig
    &&& q.motion.solver.same_system(&p.motion.solver)
    &&& q.motion.solver.weight_count() == p.motion.solver.weight_count()
}

/// Whether the solver of `n` poses the system of that of `m`.
spec fn keeps_system<S: BlendshapeSolver>(m: Motion<S>, n: Motion<S>) -> bool {
    n.solver.same_system(&m.solver) && n.solver.weight_count() == m.solver.weight_count()
}

proof fn lemma_converting_keeps_system<S: BlendshapeSolver>(
    m: Motion<S>,
    rig: Rig,
    skin: Seq<u32>,
    after: Motion<S>,
    out: Option<Seq<u32>>,
)
    requires
        systems_stay::<S>(),
        m.converts(rig, skin, after, out),
    ensures
        keeps_system(m, after),
{
    assert(m.solver.same_system(&m.solver));
    if mask_fits(rig.data, skin.len()) {
        let d = choose|d: Seq<u32>| #[trigger] m.converts_through(rig, skin, d, after, out);
        match out {
            Some(o) => {
                assert(m.answered(rig, d, after, o));
                let (w, raw) = choose|w: Seq<u32>, raw: Seq<u32>| #[trigger]
                    m.answers(rig, d, w, raw, after, o);
                assert(m.solver.solves(d, &after.solver, Some(w)));
            },
            None => {
                assert(m.balks(rig, d, after));
            },
        }
    }
}

proof fn lemma_playing_keeps_system<S: BlendshapeSolver>(
    m: Motion<S>,
    rig: Rig,
    skins: Seq<u32>,
    window_start_ms: u64,
    turn_id: Option<u64>,
    count: nat,
    after: Motion<S>,
    frames: Seq<BlendshapeFrame>,
)
    requires
        systems_stay::<S>(),
        m.plays(rig, skins, window_start_ms, turn_id, count, after, frames),
    ensures
        keeps_system(m, after),
    decreases count,
{
    assert(m.solver.same_system(&m.solver));
    if count > 0 {
        let f = count - 1;
        let mid = choose|mid: Motion<S>|
            m.plays(
                rig,
                skins,
                window_start_ms,
                turn_id,
                f as nat,
                mid,
                frames.drop_last(),
            ) && #[trigger] mid.keys(
                rig,
                skins,
                window_start_ms,
                turn_id,
                f,
                after,
                frames.last(),
            );
        lemma_playing_keeps_system(
            m,
            rig,
            skins,
            window_start_ms,
            turn_id,
            f as nat,
            mid,
            frames.drop_last(),
        );
        lemma_converting_keeps_system(
            mid,
            rig,
            skin_of(skins, f),
            after,
            Some(frames.last().arkit_52@),
        );
        assert(after.solver.same_system(&mid.solver) && mid.solver.same_system(&m.solver));
    }
}

proof fn lemma_step_keeps_node<S: BlendshapeSolver>(
    p: NodeState<S>,
    c: CallState,
    e: Event,
    p_after: NodeState<S>,
    c_after: CallState,
    a: Action,
)
    requires
        systems_stay::<S>(),
        steps(p, c, e, p_after, c_after, a),
    ensures
        is_same_node(p, p_after),
{
    assert(p.motion.solver.same_system(&p.motion.solver));
    match e {
        Event::Inferred(skins) => {
            if exists|frames: Seq<BlendshapeFrame>, mid: NodeState<S>| #[trigger]
                answers_with(p, c, skins@, frames, mid, p_after, c_after, a) {
                let (frames, mid) = choose|frames: Seq<BlendshapeFrame>, mid: NodeState<S>|
                    #[trigger]
                    answers_with(p, c, skins@, frames, mid, p_after, c_after, a);
                lemma_playing_keeps_system(
                    p.motion,
                    p.rig,
                    skins@,
                    c.window_start_ms,
                    c.turn_id,
                    NUM_CENTER_FRAMES as nat,
                    mid.motion,
                    frames,
                );
            } else {
                let (n, mid, frames) = choose|
                    n: nat,
                    mid: Motion<S>,
                    frames: Seq<BlendshapeFrame>,
                | #[trigger]
                    p.motion.sticks_at(
                        p.rig,
                        skins@,
                        c.window_start_ms,
                        c.turn_id,
                        n,
                        mid,
                        frames,
                        p_after.motion,
                    );
                lemma_playing_keeps_system(
                    p.motion,
                    p.rig,
                    skins@,
                    c.window_start_ms,
                    c.turn_id,
                    n,
                    mid,
                    frames,
                );
                lemma_converting_keeps_system(
                    mid,
                    p.rig,
                    skin_of(skins@, n as int),
                    p_after.motion,
                    None,
                );
                assert(p_after.motion.solver.same_system(&mid.solver) && mid.solver.same_system(
                    &p.motion.solver,
                ));
            }
        },
        _ => {},
    }
}

proof fn lemma_moments_keep_node<S: BlendshapeSolver>(
    p: NodeState<S>,
    r: Run<S>,
    data: StreamData,
    k: int,
)
    requires
        systems_stay::<S>(),
        takes(r, p, data),
        0 <= k < r.moments.len(),
    ensures
        is_same_node(p, r.moments[k].node),
    decreases k,
{
    assert(p.motion.solver.same_system(&p.motion.solver));
    if k > 0 {
        lemma_moments_keep_node(p, r, data, k - 1);
        assert(r.goes(k - 1));
        let m = r.moments[k - 1];
        let n = r.moments[k];
        lemma_step_keeps_node(m.node, m.call, r.events[k - 1], n.node, n.call, n.action);
        assert(n.node.motion.solver.same_system(&m.node.motion.solver)
            && m.node.motion.solver.same_system(&p.motion.solver));
    }
}

/// Whatever happens to a node, its configuration, its rig and the system of its
/// solver stay what they are.
pub proof fn law_nodes_keep_their_parts<S: BlendshapeSolver>(
    node: NodeState<S>,
    turns: Seq<Turn<S>>,
    n: int,
)
    requires
        systems_stay::<S>(),
        lives(node, turns),
        0 <= n <= turns.len(),
    ensures
        is_same_node(node, node_after(node, turns, n)),
    decreases n,
{
    assert(node.motion.solver.same_system(&node.motion.solver));
    if n > 0 {
        law_nodes_keep_their_parts(node, turns, n - 1);
        let before = node_after(node, turns, n - 1);
        let after = turns[n - 1].end();
        assert(goes_through(node, turns, n - 1));
        assert(before.motion.solver.same_system(&before.motion.solver));
        match turns[n - 1] {
            Turn::Call { data, run } => {
                lemma_moments_keep_node(before, run, data, run.moments.len() - 1);
            },
            Turn::Control { .. } => {},
        }
        assert(after.motion.solver.same_system(&before.motion.solver)
            && before.motion.solver.same_system(&node.motion.solver));
    }
}

/// Barging in brings a node back to what it was when it was loaded, whatever
/// happened to it since.
pub proof fn law_barge_brings_back_the_loaded_node<S: BlendshapeSolver>(
    loaded: NodeState<S>,
    turns: Seq<Turn<S>>,
    after: NodeState<S>,
)
    requires
        answers_repeat::<S>(),
        systems_stay::<S>(),
        loaded.is_fresh(),
        lives(loaded, turns),
        node_after(loaded, turns, turns.len() as int).barged(after),
    ensures
        nodes_match(after, loaded),
{
    let node = node_after(loaded, turns, turns.len() as int);
    law_nodes_keep_their_parts(loaded, turns, turns.len() as int);
    let system = loaded.motion.solver;
    assert(alike(system, system));
    assert(after.motion.solver.same_system(&node.motion.solver) && node.motion.solver.same_system(
        &system,
    ));
    assert(after.motion.solver.same_system(&system) && system.same_system(&system));
    assert(alike(after.motion.solver, system));
}

/// After a barge-in a node answers every later sequence of inputs as the node
/// did that was just loaded: it asks for the same at every moment, so it hands
/// on the same, runs the network on the same windows, waits as long and ends
/// its calls alike.
pub proof fn law_barged_nodes_live_as_new_ones<S: BlendshapeSolver>(
    loaded: NodeState<S>,
    turns: Seq<Turn<S>>,
    after: NodeState<S>,
    later: Seq<Turn<S>>,
    fresh: Seq<Turn<S>>,
)
    requires
        answers_repeat::<S>(),
        systems_stay::<S>(),
        loaded.is_fresh(),
        lives(loaded, turns),
        node_after(loaded, turns, turns.len() as int).barged(after),
        lives(after, later),
        lives(loaded, fresh),
        later.len() == fresh.len(),
        forall|i: int| 0 <= i < later.len() ==> (#[trigger] later[i]).same_input(fresh[i]),
    ensures
        forall|i: int| 0 <= i < later.len() ==> (#[trigger] later[i]).same_output(fresh[i]),
{
    law_barge_brings_back_the_loaded_node(loaded, turns, after);
    law_alike_nodes_live_alike(after, later, loaded, fresh, later.len() as int);
}

} // verus!
