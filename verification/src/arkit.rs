//! The ARKit blendshape set, timed keyframes over it and their smoothing.
//!
//! Weights are binary32 bit patterns.

use vstd::prelude::*;

use crate::error::Error;
use crate::float_bits::{at_most32, clamp32, clamped32, is_finite32, is_nan32, less32, narrows,
    widens, ONE32};
use crate::float_convert::{law_narrow_undoes_widen, narrow, widen};
use crate::float_ops::{add32, added32, mul32, multiplied32, sub32, subtracted32, FloatOps};
use crate::json::{count_map, count_member, count_members, list_map, list_member, list_members,
    member_names, numbers, object_of, text_map, text_member, text_members};
use crate::text::{debug_quoted, debug_text, decimal_text, digits_of, joined, same};

verus! {

/// Number of ARKit blendshapes.
pub const ARKIT_52: usize = 52;

/// Blendshape names in canonical order: entry `i` of a frame's weights belongs
/// to name `i`.
pub const ARKIT_BLENDSHAPE_NAMES: [&'static str; ARKIT_52] = [
    "eyeBlinkLeft",
    "eyeLookDownLeft",
    "eyeLookInLeft",
    "eyeLookOutLeft",
    "eyeLookUpLeft",
    "eyeSquintLeft",
    "eyeWideLeft",
    "eyeBlinkRight",
    "eyeLookDownRight",
    "eyeLookInRight",
    "eyeLookOutRight",
    "eyeLookUpRight",
    "eyeSquintRight",
    "eyeWideRight",
    "jawForward",
    "jawLeft",
    "jawRight",
    "jawOpen",
    "mouthClose",
    "mouthFunnel",
    "mouthPucker",
    "mouthLeft",
    "mouthRight",
    "mouthSmileLeft",
    "mouthSmileRight",
    "mouthFrownLeft",
    "mouthFrownRight",
    "mouthDimpleLeft",
    "mouthDimpleRight",
    "mouthStretchLeft",
    "mouthStretchRight",
    "mouthRollLower",
    "mouthRollUpper",
    "mouthShrugLower",
    "mouthShrugUpper",
    "mouthPressLeft",
    "mouthPressRight",
    "mouthLowerDownLeft",
    "mouthLowerDownRight",
    "mouthUpperUpLeft",
    "mouthUpperUpRight",
    "browDownLeft",
    "browDownRight",
    "browInnerUp",
    "browOuterUpLeft",
    "browOuterUpRight",
    "cheekPuff",
    "cheekSquintLeft",
    "cheekSquintRight",
    "noseSneerLeft",
    "noseSneerRight",
    "tongueOut",
];

/// One timed blendshape keyframe.
#[derive(Debug, Clone, Copy)]
pub struct BlendshapeFrame {
    /// The weights, in the order of [`ARKIT_BLENDSHAPE_NAMES`]. They are not
    /// bounded.
    pub arkit_52: [u32; ARKIT_52],
    /// Presentation time of the audio that the keyframe belongs to.
    pub pts_ms: u64,
    /// The conversational turn, where it is known.
    pub turn_id: Option<u64>,
}

/// Whether `wide` are the numbers `narrow` as binary64.
pub open spec fn all_widened(narrow: Seq<u32>, wide: Seq<u64>) -> bool {
    narrow.len() == wide.len() && forall|i: int|
        0 <= i < narrow.len() ==> widens(narrow[i], #[trigger] wide[i])
}

/// Whether these members of a JSON object are how `frame` is written.
pub open spec fn encodes(
    frame: BlendshapeFrame,
    texts: Map<Seq<char>, Seq<char>>,
    counts: Map<Seq<char>, u64>,
    lists: Map<Seq<char>, Seq<Option<u64>>>,
) -> bool {
    &&& texts == map!["kind"@ => "blendshapes"@]
    &&& counts == match frame.turn_id {
        None => map!["pts_ms"@ => frame.pts_ms],
        Some(turn) => map!["pts_ms"@ => frame.pts_ms, "turn_id"@ => turn],
    }
    &&& exists|wide: Seq<u64>| #[trigger]
        all_widened(frame.arkit_52@, wide) && lists == map!["arkit_52"@ => numbers(wide)]
}

/// The names of all members of the JSON object that `frame` is written as.
pub open spec fn names_in(frame: BlendshapeFrame) -> Set<Seq<char>> {
    match frame.turn_id {
        None => set!["kind"@, "arkit_52"@, "pts_ms"@],
        Some(_) => set!["kind"@, "arkit_52"@, "pts_ms"@, "turn_id"@],
    }
}

/// Where the first entry without a number is, from `from` on.
pub open spec fn first_missing(list: Seq<Option<u64>>, from: int) -> Option<int>
    decreases list.len() - from,
{
    if from >= list.len() {
        None
    } else if list[from] is None {
        Some(from)
    } else {
        first_missing(list, from + 1)
    }
}

/// Why these members of a JSON object write no frame.
pub open spec fn decoding_fault(
    texts: Map<Seq<char>, Seq<char>>,
    counts: Map<Seq<char>, u64>,
    lists: Map<Seq<char>, Seq<Option<u64>>>,
) -> Option<Seq<char>> {
    let kind = if texts.contains_key("kind"@) {
        texts["kind"@]
    } else {
        ""@
    };
    let list = lists["arkit_52"@];
    if kind != "blendshapes"@ {
        Some(
            "BlendshapeFrame::from_json: expected kind='blendshapes', got "@ + debug_quoted(kind),
        )
    } else if !lists.contains_key("arkit_52"@) {
        Some("missing arkit_52 array"@)
    } else if list.len() != ARKIT_52 {
        Some("arkit_52 must have 52 entries, got "@ + digits_of(list.len()))
    } else {
        match first_missing(list, 0) {
            Some(i) => Some("arkit_52["@ + digits_of(i as nat) + "] is not a number"@),
            None => if counts.contains_key("pts_ms"@) {
                None
            } else {
                Some("missing or non-u64 pts_ms"@)
            },
        }
    }
}

/// Whether these members of a JSON object write `frame`.
pub open spec fn decodes(
    texts: Map<Seq<char>, Seq<char>>,
    counts: Map<Seq<char>, u64>,
    lists: Map<Seq<char>, Seq<Option<u64>>>,
    frame: BlendshapeFrame,
) -> bool {
    let list = lists["arkit_52"@];
    &&& decoding_fault(texts, counts, lists) is None
    &&& forall|i: int|
        0 <= i < ARKIT_52 ==> narrows((#[trigger] list[i])->Some_0, frame.arkit_52@[i])
    &&& frame.pts_ms == counts["pts_ms"@]
    &&& frame.turn_id == if counts.contains_key("turn_id"@) {
        Some(counts["turn_id"@])
    } else {
        None
    }
}

impl BlendshapeFrame {
    /// A frame of these parts.
    pub fn new(arkit_52: [u32; ARKIT_52], pts_ms: u64, turn_id: Option<u64>) -> (r: Self)
        ensures
            r == (BlendshapeFrame { arkit_52, pts_ms, turn_id }),
    {
        BlendshapeFrame { arkit_52, pts_ms, turn_id }
    }

    /// The neutral pose: every weight is zero.
    pub fn neutral(pts_ms: u64) -> (r: Self)
        ensures
            forall|i: int| 0 <= i < ARKIT_52 ==> r.arkit_52@[i] == 0,
            r.pts_ms == pts_ms,
            r.turn_id is None,
    {
        BlendshapeFrame::new([0; ARKIT_52], pts_ms, None)
    }

    /// The frame as a JSON object.
    pub fn to_json(&self) -> (v: serde_json::Value)
        ensures
            encodes(*self, text_members(v), count_members(v), list_members(v)),
            member_names(v) == names_in(*self),
    {
        proof {
            lemma_member_names();
        }
        let mut wide: Vec<u64> = Vec::new();
        let mut i: usize = 0;
        while i < ARKIT_52
            invariant
                i <= ARKIT_52,
                all_widened(self.arkit_52@.take(i as int), wide@),
            decreases ARKIT_52 - i,
        {
            wide.push(widen(self.arkit_52[i]));
            i = i + 1;
        }
        assert(self.arkit_52@.take(i as int) =~= self.arkit_52@);
        let ghost written = wide@;
        let mut texts: Vec<(String, String)> = Vec::new();
        texts.push(("kind".to_owned(), "blendshapes".to_owned()));
        let mut counts: Vec<(String, u64)> = Vec::new();
        counts.push(("pts_ms".to_owned(), self.pts_ms));
        assert(counts@.drop_last() =~= Seq::empty());
        match self.turn_id {
            None => {},
            Some(turn) => {
                let ghost before = counts@;
                counts.push(("turn_id".to_owned(), turn));
                assert(counts@.drop_last() =~= before);
            },
        }
        let mut lists: Vec<(String, Vec<u64>)> = Vec::new();
        lists.push(("arkit_52".to_owned(), wide));
        proof {
            reveal_with_fuel(text_map, 2);
            reveal_with_fuel(count_map, 3);
            reveal_with_fuel(list_map, 2);
            assert(texts@.drop_last() =~= Seq::empty());
            assert(lists@.drop_last() =~= Seq::empty());
            assert(text_map(texts@) =~= map!["kind"@ => "blendshapes"@]);
            assert(list_map(lists@) =~= map!["arkit_52"@ => numbers(written)]);
            match self.turn_id {
                None => {
                    assert(count_map(counts@) =~= map!["pts_ms"@ => self.pts_ms]);
                },
                Some(turn) => {
                    assert(count_map(counts@) =~= map![
                        "pts_ms"@ => self.pts_ms,
                        "turn_id"@ => turn,
                    ]);
                },
            }
        }
        object_of(texts, counts, lists)
    }

    /// Reads the frame that `to_json` writes. A missing turn is fine; any
    /// other missing or misshapen member is an error.
    pub fn from_json(v: &serde_json::Value) -> (r: Result<Self, Error>)
        ensures
            match r {
                Ok(frame) => decodes(
                    text_members(*v),
                    count_members(*v),
                    list_members(*v),
                    frame,
                ),
                Err(Error::InvalidData(text)) => decoding_fault(
                    text_members(*v),
                    count_members(*v),
                    list_members(*v),
                ) == Some(text@),
                Err(_) => false,
            },
    {
        let kind = match text_member(v, "kind") {
            Some(k) => k,
            None => "".to_owned(),
        };
        if !same(kind.as_str(), "blendshapes") {
            return Err(
                Error::InvalidData(
                    joined(
                        "BlendshapeFrame::from_json: expected kind='blendshapes', got ",
                        debug_text(kind.as_str()).as_str(),
                    ),
                ),
            );
        }
        let list = match list_member(v, "arkit_52") {
            Some(list) => list,
            None => {
                return Err(Error::InvalidData("missing arkit_52 array".to_owned()));
            },
        };
        if list.len() != ARKIT_52 {
            return Err(
                Error::InvalidData(
                    joined(
                        "arkit_52 must have 52 entries, got ",
                        decimal_text(list.len() as u64).as_str(),
                    ),
                ),
            );
        }
        let mut arkit_52: [u32; ARKIT_52] = [0; ARKIT_52];
        let mut i: usize = 0;
        while i < ARKIT_52
            invariant
                i <= ARKIT_52,
                list@.len() == ARKIT_52,
                list@ == list_members(*v)["arkit_52"@],
                decoding_fault(text_members(*v), count_members(*v), list_members(*v)) == (
                match first_missing(list@, i as int) {
                    Some(k) => Some("arkit_52["@ + digits_of(k as nat) + "] is not a number"@),
                    None => if count_members(*v).contains_key("pts_ms"@) {
                        None
                    } else {
                        Some("missing or non-u64 pts_ms"@)
                    },
                }),
                forall|k: int|
                    0 <= k < i ==> narrows((#[trigger] list@[k])->Some_0, arkit_52@[k]),
            decreases ARKIT_52 - i,
        {
            match list[i] {
                Some(bits) => {
                    arkit_52[i] = narrow(bits);
                },
                None => {
                    let text = joined(
                        joined("arkit_52[", decimal_text(i as u64).as_str()).as_str(),
                        "] is not a number",
                    );
                    return Err(Error::InvalidData(text));
                },
            }
            i = i + 1;
        }
        match count_member(v, "pts_ms") {
            Some(pts_ms) => Ok(BlendshapeFrame::new(arkit_52, pts_ms, count_member(v, "turn_id"))),
            None => Err(Error::InvalidData("missing or non-u64 pts_ms".to_owned())),
        }
    }
}

/// The state of an [`ArkitSmoother`].
pub ghost struct Smoothing {
    pub alpha: u32,
    pub prev: Seq<u32>,
    pub has_prev: bool,
}

impl Smoothing {
    /// The state before the first frame.
    pub open spec fn fresh(alpha: u32) -> Smoothing {
        Smoothing { alpha, prev: Seq::new(ARKIT_52 as nat, |i: int| 0u32), has_prev: false }
    }

    /// The state after a reset.
    pub open spec fn reset(self) -> Smoothing {
        Smoothing::fresh(self.alpha)
    }

    /// Whether `out` is the mean of the last output and `input`, the former
    /// with weight `alpha`, with the arithmetic of `F`; `input` itself where
    /// there was no output yet.
    pub open spec fn smooths<F: FloatOps>(self, input: Seq<u32>, out: Seq<u32>) -> bool {
        if self.has_prev {
            exists|rest: u32| #[trigger]
                subtracted32::<F>(ONE32, self.alpha, rest) && means_are::<F>(
                    self.alpha,
                    self.prev,
                    rest,
                    input,
                    out,
                )
        } else {
            out == input
        }
    }

    /// The state after `out` was given.
    pub open spec fn after(self, out: Seq<u32>) -> Smoothing {
        Smoothing { prev: out, has_prev: true, ..self }
    }

    /// The state taken over from a snapshot.
    pub open spec fn restored(self, prev: Seq<u32>, has_prev: bool) -> Smoothing {
        Smoothing { prev, has_prev, ..self }
    }
}

/// Whether `r` is `a * x + b * y` with the arithmetic of `F`.
pub open spec fn mean_is<F: FloatOps>(a: u32, x: u32, b: u32, y: u32, r: u32) -> bool {
    exists|p: u32, q: u32|
        multiplied32::<F>(a, x, p) && multiplied32::<F>(b, y, q) && #[trigger] added32::<F>(
            p,
            q,
            r,
        )
}

/// Whether `out` is `a * xs + b * ys`, entry by entry.
pub open spec fn means_are<F: FloatOps>(
    a: u32,
    xs: Seq<u32>,
    b: u32,
    ys: Seq<u32>,
    out: Seq<u32>,
) -> bool {
    out.len() == ys.len() && forall|i: int|
        0 <= i < out.len() ==> mean_is::<F>(a, xs[i], b, ys[i], #[trigger] out[i])
}

/// Exponential smoothing of the weights from frame to frame.
pub struct ArkitSmoother {
    alpha: u32,
    prev: [u32; ARKIT_52],
    has_prev: bool,
}

impl View for ArkitSmoother {
    type V = Smoothing;

    closed spec fn view(&self) -> Smoothing {
        Smoothing { alpha: self.alpha, prev: self.prev@, has_prev: self.has_prev }
    }
}

impl ArkitSmoother {
    /// A smoother that keeps the share `alpha` of its last output. `alpha` is
    /// clamped to the range from zero to one.
    pub fn new(alpha: u32) -> (r: Self)
        ensures
            r@ == Smoothing::fresh(clamped32(alpha, 0, ONE32)),
            !less32(alpha, 0) && !less32(0x3f80_0000, alpha) ==> r@.alpha == alpha,
            less32(alpha, 0) ==> r@.alpha == 0,
            less32(0x3f80_0000, alpha) ==> r@.alpha == 0x3f80_0000,
            !r@.has_prev,
    {
        let r = ArkitSmoother {
            alpha: clamp32(alpha, 0, ONE32),
            prev: [0; ARKIT_52],
            has_prev: false,
        };
        assert(r@.prev =~= Smoothing::fresh(r.alpha).prev);
        r
    }

    /// Smooths one frame. The first passes through unchanged.
    pub fn smooth<F: FloatOps>(&mut self, input: &[u32; ARKIT_52]) -> (out: [u32; ARKIT_52])
        ensures
            old(self)@.smooths::<F>(input@, out@),
            final(self)@ == old(self)@.after(out@),
            !old(self)@.has_prev ==> out@ == input@,
            final(self)@.alpha == old(self)@.alpha,
            final(self)@.prev == out@,
            final(self)@.has_prev,
    {
        if !self.has_prev {
            self.has_prev = true;
            self.prev = *input;
            return *input;
        }
        let mut out: [u32; ARKIT_52] = [0; ARKIT_52];
        let a: u32 = self.alpha;
        let rest: u32 = sub32::<F>(ONE32, a);
        let mut i: usize = 0;
        while i < ARKIT_52
            invariant
                i <= ARKIT_52,
                *self == *old(self),
                a == self.alpha,
                subtracted32::<F>(ONE32, a, rest),
                forall|k: int|
                    0 <= k < i ==> mean_is::<F>(
                        a,
                        self.prev@[k],
                        rest,
                        input@[k],
                        #[trigger] out@[k],
                    ),
            decreases ARKIT_52 - i,
        {
            let p: u32 = mul32::<F>(a, self.prev[i]);
            let q: u32 = mul32::<F>(rest, input[i]);
            let r: u32 = add32::<F>(p, q);
            assert(mean_is::<F>(a, self.prev@[i as int], rest, input@[i as int], r));
            out[i] = r;
            i = i + 1;
        }
        assert(means_are::<F>(a, self.prev@, rest, input@, out@));
        assert(subtracted32::<F>(ONE32, old(self)@.alpha, rest));
        self.prev = out;
        out
    }

    /// Forgets the last output: the next frame passes through.
    pub fn reset(&mut self)
        ensures
            final(self)@ == old(self)@.reset(),
            final(self)@.alpha == old(self)@.alpha,
            !final(self)@.has_prev,
    {
        self.prev = [0; ARKIT_52];
        self.has_prev = false;
        assert(self.prev@ =~= Smoothing::fresh(self.alpha).prev);
    }

    /// A snapshot of the last output, and whether there was one.
    pub fn save(&self) -> (r: ([u32; ARKIT_52], bool))
        ensures
            r.0@ == self@.prev,
            r.1 == self@.has_prev,
    {
        (self.prev, self.has_prev)
    }

    /// Takes over a snapshot.
    pub fn restore(&mut self, state: ([u32; ARKIT_52], bool))
        ensures
            final(self)@ == old(self)@.restored(state.0@, state.1),
            final(self)@.alpha == old(self)@.alpha,
            final(self)@.prev == state.0@,
            final(self)@.has_prev == state.1,
    {
        self.prev = state.0;
        self.has_prev = state.1;
    }
}

proof fn lemma_none_missing(list: Seq<Option<u64>>, from: int)
    requires
        0 <= from,
        forall|i: int| from <= i < list.len() ==> (#[trigger] list[i]) is Some,
    ensures
        first_missing(list, from) is None,
    decreases list.len() - from,
{
    if from < list.len() {
        lemma_none_missing(list, from + 1);
    }
}

proof fn lemma_some_missing(list: Seq<Option<u64>>, from: int, i: int)
    requires
        0 <= from <= i < list.len(),
        list[i] is None,
    ensures
        first_missing(list, from) is Some,
    decreases list.len() - from,
{
    if list[from] is Some {
        lemma_some_missing(list, from + 1, i);
    }
}

/// Reading what was written gives the frame back, as long as every weight is
/// finite.
pub proof fn law_decoding_undoes_encoding(
    frame: BlendshapeFrame,
    texts: Map<Seq<char>, Seq<char>>,
    counts: Map<Seq<char>, u64>,
    lists: Map<Seq<char>, Seq<Option<u64>>>,
    read: BlendshapeFrame,
)
    requires
        encodes(frame, texts, counts, lists),
        forall|i: int| 0 <= i < ARKIT_52 ==> is_finite32(#[trigger] frame.arkit_52@[i]),
    ensures
        decoding_fault(texts, counts, lists) is None,
        decodes(texts, counts, lists, read) ==> read.arkit_52@ == frame.arkit_52@ && read.pts_ms
            == frame.pts_ms && read.turn_id == frame.turn_id,
{
    lemma_member_names();
    let wide = choose|wide: Seq<u64>| #[trigger]
        all_widened(frame.arkit_52@, wide) && lists == map!["arkit_52"@ => numbers(wide)];
    let list = lists["arkit_52"@];
    assert forall|i: int| 0 <= i < ARKIT_52 implies #[trigger] list[i] == Some(wide[i]) by {
        assert(widens(frame.arkit_52@[i], wide[i]));
    }
    lemma_none_missing(list, 0);
    if decodes(texts, counts, lists, read) {
        assert forall|i: int| 0 <= i < ARKIT_52 implies #[trigger] read.arkit_52@[i]
            == frame.arkit_52@[i] by {
            assert(list[i] == Some(wide[i]));
            assert(is_finite32(frame.arkit_52@[i]));
            law_narrow_undoes_widen(frame.arkit_52@[i], wide[i], read.arkit_52@[i]);
        }
        assert(read.arkit_52@ =~= frame.arkit_52@);
    }
}

/// A frame with a weight that is not finite cannot be read back.
pub proof fn law_infinite_weights_do_not_decode(
    frame: BlendshapeFrame,
    texts: Map<Seq<char>, Seq<char>>,
    counts: Map<Seq<char>, u64>,
    lists: Map<Seq<char>, Seq<Option<u64>>>,
    i: int,
)
    requires
        encodes(frame, texts, counts, lists),
        0 <= i < ARKIT_52,
        !is_finite32(frame.arkit_52@[i]),
    ensures
        decoding_fault(texts, counts, lists) is Some,
{
    lemma_member_names();
    let wide = choose|wide: Seq<u64>| #[trigger]
        all_widened(frame.arkit_52@, wide) && lists == map!["arkit_52"@ => numbers(wide)];
    let list = lists["arkit_52"@];
    assert(widens(frame.arkit_52@[i], wide[i]));
    assert(list[i] is None);
    lemma_some_missing(list, 0, i);
}

/// The first frame passes through unchanged.
pub proof fn law_first_frame_passes_through<F: FloatOps>(
    alpha: u32,
    input: Seq<u32>,
    out: Seq<u32>,
)
    requires
        Smoothing::fresh(alpha).smooths::<F>(input, out),
    ensures
        out == input,
{
}

/// After a reset the next frame passes through unchanged.
pub proof fn law_reset_passes_next_frame<F: FloatOps>(
    s: Smoothing,
    input: Seq<u32>,
    out: Seq<u32>,
)
    requires
        s.reset().smooths::<F>(input, out),
    ensures
        out == input,
{
}

/// Restoring a snapshot brings back the state it was taken from, after a frame
/// and after a reset.
pub proof fn law_restore_undoes_smoothing(s: Smoothing, out: Seq<u32>)
    ensures
        s.after(out).restored(s.prev, s.has_prev) == s,
        s.reset().restored(s.prev, s.has_prev) == s,
{
}

/// Resetting twice is resetting once.
pub proof fn law_reset_is_idempotent(s: Smoothing)
    ensures
        s.reset().reset() == s.reset(),
{
}

/// The share that a smoother keeps lies between zero and one, unless it is
/// not a number.
pub proof fn law_share_is_bounded(alpha: u32)
    requires
        !is_nan32(alpha),
    ensures
        at_most32(0, clamped32(alpha, 0, ONE32)),
        at_most32(clamped32(alpha, 0, ONE32), ONE32),
{
}

proof fn lemma_member_names()
    ensures
        "kind"@.len() == 4,
        "pts_ms"@.len() == 6,
        "turn_id"@.len() == 7,
        "arkit_52"@.len() == 8,
{
    reveal_strlit("kind");
    reveal_strlit("pts_ms");
    reveal_strlit("turn_id");
    reveal_strlit("arkit_52");
}

} // verus!
