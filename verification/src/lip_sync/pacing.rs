//! Holding keyframes back until their time has come.
//!
//! Wall-clock times are nanoseconds on a clock that never goes back.

use vstd::prelude::*;

verus! {

/// Nanoseconds in a millisecond.
pub const NANOS_PER_MS: u64 = 1_000_000;

/// A keyframe's presentation time and the wall-clock time it went out at, from
/// which later ones are timed.
#[derive(Debug, Clone, Copy, PartialEq, Eq, Structural)]
pub struct PaceAnchor {
    pub wall_ns: u64,
    pub pts_ms: u64,
}

/// Wall-clock time at which the keyframe at `pts_ms` is due. One from before
/// the anchor is due at once.
pub open spec fn due_ns(anchor: PaceAnchor, pts_ms: u64) -> int {
    if pts_ms > anchor.pts_ms {
        anchor.wall_ns + (pts_ms - anchor.pts_ms) * NANOS_PER_MS
    } else {
        anchor.wall_ns as int
    }
}

/// The anchor that the keyframe at `pts_ms` is timed by, seen at `now_ns`: the
/// first one is its own anchor.
pub open spec fn anchored(anchor: Option<PaceAnchor>, pts_ms: u64, now_ns: u64) -> PaceAnchor {
    match anchor {
        Some(a) => a,
        None => PaceAnchor { wall_ns: now_ns, pts_ms },
    }
}

/// How long the keyframe at `pts_ms` has to wait, seen at `now_ns`.
pub open spec fn wait_ns(anchor: Option<PaceAnchor>, pts_ms: u64, now_ns: u64) -> int {
    let due = due_ns(anchored(anchor, pts_ms, now_ns), pts_ms);
    if due > now_ns {
        due - now_ns
    } else {
        0
    }
}

/// The anchor for later keyframes: one that is not early becomes the anchor
/// itself.
pub open spec fn next_anchor(anchor: Option<PaceAnchor>, pts_ms: u64, now_ns: u64) -> PaceAnchor {
    if wait_ns(anchor, pts_ms, now_ns) > 0 {
        anchored(anchor, pts_ms, now_ns)
    } else {
        PaceAnchor { wall_ns: now_ns, pts_ms }
    }
}

/// Times the keyframe at `pts_ms`: how many nanoseconds it has to wait.
pub fn pace(anchor: &mut Option<PaceAnchor>, pts_ms: u64, now_ns: u64) -> (wait: u128)
    ensures
        wait == wait_ns(*old(anchor), pts_ms, now_ns),
        *final(anchor) == Some(next_anchor(*old(anchor), pts_ms, now_ns)),
{
    let a: PaceAnchor = match *anchor {
        Some(a) => a,
        None => PaceAnchor { wall_ns: now_ns, pts_ms },
    };
    let late: PaceAnchor = PaceAnchor { wall_ns: now_ns, pts_ms };
    if pts_ms <= a.pts_ms {
        if a.wall_ns > now_ns {
            *anchor = Some(a);
            return (a.wall_ns - now_ns) as u128;
        }
        *anchor = Some(late);
        return 0;
    }
    let ahead: u128 = (pts_ms - a.pts_ms) as u128;
    assert(ahead * 1_000_000 <= 0xffff_ffff_ffff_ffff * 1_000_000);
    let due: u128 = a.wall_ns as u128 + ahead * NANOS_PER_MS as u128;
    if due > now_ns as u128 {
        *anchor = Some(a);
        due - now_ns as u128
    } else {
        *anchor = Some(late);
        0
    }
}

/// The first keyframe goes out at once and becomes the anchor.
pub proof fn law_first_frame_is_not_held(pts_ms: u64, now_ns: u64)
    ensures
        wait_ns(None, pts_ms, now_ns) == 0,
        next_anchor(None, pts_ms, now_ns) == (PaceAnchor { wall_ns: now_ns, pts_ms }),
{
}

/// Keyframes that follow each other go out no closer than their presentation
/// times lie apart: once one went out at its anchor's time or waited until it
/// was due, the next one, seen from then on, is due that much later.
pub proof fn law_frames_keep_their_distance(
    anchor: Option<PaceAnchor>,
    first_ms: u64,
    first_ns: u64,
    second_ms: u64,
    second_ns: u64,
)
    requires
        first_ms <= second_ms,
        anchor matches Some(a) ==> a.pts_ms <= first_ms,
        first_ns + wait_ns(anchor, first_ms, first_ns) <= second_ns,
    ensures
        second_ns + wait_ns(
            Some(next_anchor(anchor, first_ms, first_ns)),
            second_ms,
            second_ns,
        ) >= first_ns + wait_ns(anchor, first_ms, first_ns) + (second_ms - first_ms)
            * NANOS_PER_MS,
{
}

/// A keyframe that comes late does not make later ones hurry: the next is due
/// as far after it as their presentation times lie apart.
pub proof fn law_late_frames_are_not_caught_up(
    anchor: Option<PaceAnchor>,
    late_ms: u64,
    late_ns: u64,
    next_ms: u64,
)
    requires
        wait_ns(anchor, late_ms, late_ns) == 0,
        late_ms <= next_ms,
    ensures
        due_ns(next_anchor(anchor, late_ms, late_ns), next_ms) == late_ns + (next_ms - late_ms)
            * NANOS_PER_MS,
{
}

} // verus!
