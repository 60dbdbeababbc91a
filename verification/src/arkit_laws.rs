//! How a keyframe is named, written and read.

use vstd::prelude::*;

use crate::arkit::{all_widened, decodes, decoding_fault, encodes, first_missing, names_in,
    BlendshapeFrame, Smoothing, ARKIT_BLENDSHAPE_NAMES};
use crate::float_bits::{is_finite32, is_finite64, narrows, widens};
use crate::float_exact::{law_narrowing_is_close, law_widening_keeps_the_number, number64};
use crate::float_rounding::{distance, is_nearest32, number32};
use crate::json::numbers;
use crate::narrowing_laws::law_narrowing_is_nearest;
use crate::text::{debug_quoted, digits_of};

verus! {

/// The blendshapes in their canonical order.
pub proof fn law_names_are_canonical()
    ensures
        ARKIT_BLENDSHAPE_NAMES@.len() == 52,
        ARKIT_BLENDSHAPE_NAMES@[0]@ == "eyeBlinkLeft"@,
        ARKIT_BLENDSHAPE_NAMES@[1]@ == "eyeLookDownLeft"@,
        ARKIT_BLENDSHAPE_NAMES@[2]@ == "eyeLookInLeft"@,
        ARKIT_BLENDSHAPE_NAMES@[3]@ == "eyeLookOutLeft"@,
        ARKIT_BLENDSHAPE_NAMES@[4]@ == "eyeLookUpLeft"@,
        ARKIT_BLENDSHAPE_NAMES@[5]@ == "eyeSquintLeft"@,
        ARKIT_BLENDSHAPE_NAMES@[6]@ == "eyeWideLeft"@,
        ARKIT_BLENDSHAPE_NAMES@[7]@ == "eyeBlinkRight"@,
        ARKIT_BLENDSHAPE_NAMES@[8]@ == "eyeLookDownRight"@,
        ARKIT_BLENDSHAPE_NAMES@[9]@ == "eyeLookInRight"@,
        ARKIT_BLENDSHAPE_NAMES@[10]@ == "eyeLookOutRight"@,
        ARKIT_BLENDSHAPE_NAMES@[11]@ == "eyeLookUpRight"@,
        ARKIT_BLENDSHAPE_NAMES@[12]@ == "eyeSquintRight"@,
        ARKIT_BLENDSHAPE_NAMES@[13]@ == "eyeWideRight"@,
        ARKIT_BLENDSHAPE_NAMES@[14]@ == "jawForward"@,
        ARKIT_BLENDSHAPE_NAMES@[15]@ == "jawLeft"@,
        ARKIT_BLENDSHAPE_NAMES@[16]@ == "jawRight"@,
        ARKIT_BLENDSHAPE_NAMES@[17]@ == "jawOpen"@,
        ARKIT_BLENDSHAPE_NAMES@[18]@ == "mouthClose"@,
        ARKIT_BLENDSHAPE_NAMES@[19]@ == "mouthFunnel"@,
        ARKIT_BLENDSHAPE_NAMES@[20]@ == "mouthPucker"@,
        ARKIT_BLENDSHAPE_NAMES@[21]@ == "mouthLeft"@,
        ARKIT_BLENDSHAPE_NAMES@[22]@ == "mouthRight"@,
        ARKIT_BLENDSHAPE_NAMES@[23]@ == "mouthSmileLeft"@,
        ARKIT_BLENDSHAPE_NAMES@[24]@ == "mouthSmileRight"@,
        ARKIT_BLENDSHAPE_NAMES@[25]@ == "mouthFrownLeft"@,
        ARKIT_BLENDSHAPE_NAMES@[26]@ == "mouthFrownRight"@,
        ARKIT_BLENDSHAPE_NAMES@[27]@ == "mouthDimpleLeft"@,
        ARKIT_BLENDSHAPE_NAMES@[28]@ == "mouthDimpleRight"@,
        ARKIT_BLENDSHAPE_NAMES@[29]@ == "mouthStretchLeft"@,
        ARKIT_BLENDSHAPE_NAMES@[30]@ == "mouthStretchRight"@,
        ARKIT_BLENDSHAPE_NAMES@[31]@ == "mouthRollLower"@,
        ARKIT_BLENDSHAPE_NAMES@[32]@ == "mouthRollUpper"@,
        ARKIT_BLENDSHAPE_NAMES@[33]@ == "mouthShrugLower"@,
        ARKIT_BLENDSHAPE_NAMES@[34]@ == "mouthShrugUpper"@,
        ARKIT_BLENDSHAPE_NAMES@[35]@ == "mouthPressLeft"@,
        ARKIT_BLENDSHAPE_NAMES@[36]@ == "mouthPressRight"@,
        ARKIT_BLENDSHAPE_NAMES@[37]@ == "mouthLowerDownLeft"@,
        ARKIT_BLENDSHAPE_NAMES@[38]@ == "mouthLowerDownRight"@,
        ARKIT_BLENDSHAPE_NAMES@[39]@ == "mouthUpperUpLeft"@,
        ARKIT_BLENDSHAPE_NAMES@[40]@ == "mouthUpperUpRight"@,
        ARKIT_BLENDSHAPE_NAMES@[41]@ == "browDownLeft"@,
        ARKIT_BLENDSHAPE_NAMES@[42]@ == "browDownRight"@,
        ARKIT_BLENDSHAPE_NAMES@[43]@ == "browInnerUp"@,
        ARKIT_BLENDSHAPE_NAMES@[44]@ == "browOuterUpLeft"@,
        ARKIT_BLENDSHAPE_NAMES@[45]@ == "browOuterUpRight"@,
        ARKIT_BLENDSHAPE_NAMES@[46]@ == "cheekPuff"@,
        ARKIT_BLENDSHAPE_NAMES@[47]@ == "cheekSquintLeft"@,
        ARKIT_BLENDSHAPE_NAMES@[48]@ == "cheekSquintRight"@,
        ARKIT_BLENDSHAPE_NAMES@[49]@ == "noseSneerLeft"@,
        ARKIT_BLENDSHAPE_NAMES@[50]@ == "noseSneerRight"@,
        ARKIT_BLENDSHAPE_NAMES@[51]@ == "tongueOut"@,
{
}

proof fn lemma_first_missing(list: Seq<Option<u64>>, from: int, j: int)
    requires
        0 <= from <= j < list.len(),
        list[j] is None,
        forall|i: int| from <= i < j ==> #[trigger] list[i] is Some,
    ensures
        first_missing(list, from) == Some(j),
    decreases j - from,
{
    if from < j {
        assert(list[from] is Some);
        lemma_first_missing(list, from + 1, j);
    }
}

proof fn lemma_nothing_missing(list: Seq<Option<u64>>, from: int)
    requires
        0 <= from <= list.len(),
        forall|i: int| from <= i < list.len() ==> #[trigger] list[i] is Some,
    ensures
        first_missing(list, from) is None,
    decreases list.len() - from,
{
    if from < list.len() {
        assert(list[from] is Some);
        lemma_nothing_missing(list, from + 1);
    }
}

/// Members of a JSON object write a keyframe where its kind is `blendshapes`,
/// it lists fifty-two numbers and it has a presentation time; where one of
/// these is not so, the first of them is what is complained of, and of the
/// numbers the first that is none.
pub proof fn law_faults_are_told_apart(
    texts: Map<Seq<char>, Seq<char>>,
    counts: Map<Seq<char>, u64>,
    lists: Map<Seq<char>, Seq<Option<u64>>>,
    list: Seq<Option<u64>>,
    j: int,
)
    requires
        list == lists["arkit_52"@],
    ensures
        !texts.contains_key("kind"@) ==> decoding_fault(texts, counts, lists) == Some(
            "BlendshapeFrame::from_json: expected kind='blendshapes', got "@ + debug_quoted(""@),
        ),
        texts.contains_key("kind"@) && texts["kind"@] != "blendshapes"@ ==> decoding_fault(
            texts,
            counts,
            lists,
        ) == Some(
            "BlendshapeFrame::from_json: expected kind='blendshapes', got "@ + debug_quoted(
                texts["kind"@],
            ),
        ),
        texts.contains_key("kind"@) && texts["kind"@] == "blendshapes"@ ==> {
            &&& !lists.contains_key("arkit_52"@) ==> decoding_fault(texts, counts, lists) == Some(
                "missing arkit_52 array"@,
            )
            &&& lists.contains_key("arkit_52"@) && list.len() != 52 ==> decoding_fault(
                texts,
                counts,
                lists,
            ) == Some("arkit_52 must have 52 entries, got "@ + digits_of(list.len()))
            &&& lists.contains_key("arkit_52"@) && list.len() == 52 ==> {
                &&& 0 <= j < 52 && list[j] is None && (forall|i: int|
                    0 <= i < j ==> #[trigger] list[i] is Some) ==> decoding_fault(
                    texts,
                    counts,
                    lists,
                ) == Some("arkit_52["@ + digits_of(j as nat) + "] is not a number"@)
                &&& (forall|i: int| 0 <= i < 52 ==> #[trigger] list[i] is Some) ==> {
                    &&& !counts.contains_key("pts_ms"@) ==> decoding_fault(texts, counts, lists)
                        == Some("missing or non-u64 pts_ms"@)
                    &&& counts.contains_key("pts_ms"@) ==> decoding_fault(
                        texts,
                        counts,
                        lists,
                    ) is None
                }
            }
        },
{
    reveal_strlit("");
    reveal_strlit("blendshapes");
    assert(""@.len() != "blendshapes"@.len());
    if list.len() == 52 {
        if 0 <= j < 52 && list[j] is None && (forall|i: int|
            0 <= i < j ==> #[trigger] list[i] is Some) {
            lemma_first_missing(list, 0, j);
        }
        if forall|i: int| 0 <= i < 52 ==> #[trigger] list[i] is Some {
            lemma_nothing_missing(list, 0);
        }
    }
}

/// A keyframe is written with the very numbers of its weights, in their order,
/// with its presentation time, and with its turn where it has one.
pub proof fn law_written_frames_hold_their_numbers(
    frame: BlendshapeFrame,
    texts: Map<Seq<char>, Seq<char>>,
    counts: Map<Seq<char>, u64>,
    lists: Map<Seq<char>, Seq<Option<u64>>>,
    i: int,
)
    requires
        encodes(frame, texts, counts, lists),
        0 <= i < 52,
        is_finite32(frame.arkit_52@[i]),
    ensures
        texts["kind"@] == "blendshapes"@,
        counts.contains_key("pts_ms"@),
        counts["pts_ms"@] == frame.pts_ms,
        frame.turn_id matches Some(turn) ==> counts.contains_key("turn_id"@)
            && counts["turn_id"@] == turn,
        frame.turn_id is None ==> !counts.contains_key("turn_id"@),
        lists.contains_key("arkit_52"@),
        lists["arkit_52"@].len() == 52,
        lists["arkit_52"@][i] matches Some(w) && is_finite64(w) && number64(w) == number32(
            frame.arkit_52@[i],
        ),
{
    reveal_strlit("pts_ms");
    reveal_strlit("turn_id");
    assert("pts_ms"@.len() != "turn_id"@.len());
    let wide = choose|wide: Seq<u64>| #[trigger]
        all_widened(frame.arkit_52@, wide) && lists == map!["arkit_52"@ => numbers(wide)];
    assert(widens(frame.arkit_52@[i], wide[i]));
    law_widening_keeps_the_number(frame.arkit_52@[i], wide[i]);
}

/// A keyframe that is read has the binary32 numbers nearest to those that were
/// listed, in their order; where these lie between zero and one, they are off by
/// no more than a sixteen-millionth.
pub proof fn law_read_frames_hold_the_listed_numbers(
    texts: Map<Seq<char>, Seq<char>>,
    counts: Map<Seq<char>, u64>,
    lists: Map<Seq<char>, Seq<Option<u64>>>,
    frame: BlendshapeFrame,
    i: int,
)
    requires
        decodes(texts, counts, lists, frame),
        0 <= i < 52,
        lists["arkit_52"@][i] matches Some(w) && is_finite64(w),
    ensures
        is_finite32(frame.arkit_52@[i]) ==> is_nearest32(
            number64(lists["arkit_52"@][i]->Some_0),
            frame.arkit_52@[i],
        ),
        0 as real <= number64(lists["arkit_52"@][i]->Some_0) && number64(
            lists["arkit_52"@][i]->Some_0,
        ) <= 1 as real ==> is_finite32(frame.arkit_52@[i]) && distance(
            number32(frame.arkit_52@[i]),
            number64(lists["arkit_52"@][i]->Some_0),
        ) <= 1 as real / 16777216 as real,
        frame.pts_ms == counts["pts_ms"@],
        counts.contains_key("turn_id"@) ==> frame.turn_id == Some(counts["turn_id"@]),
        !counts.contains_key("turn_id"@) ==> frame.turn_id is None,
{
    let list = lists["arkit_52"@];
    assert(narrows(list[i]->Some_0, frame.arkit_52@[i]));
    let w = list[i]->Some_0;
    if is_finite32(frame.arkit_52@[i]) {
        law_narrowing_is_nearest(w, frame.arkit_52@[i]);
    }
    if 0 as real <= number64(w) && number64(w) <= 1 as real {
        law_narrowing_is_close(w, frame.arkit_52@[i]);
    }
}

/// The object that a keyframe is written as has a kind, a list and a
/// presentation time, a turn where the keyframe has one, and nothing else.
pub proof fn law_written_frames_have_these_members(frame: BlendshapeFrame, name: Seq<char>)
    ensures
        names_in(frame).contains(name) <==> name == "kind"@ || name == "arkit_52"@ || name
            == "pts_ms"@ || (name == "turn_id"@ && frame.turn_id is Some),
{
}

/// A smoother that starts anew has the share it was given, and no values before.
pub proof fn law_smoothing_starts_anew(s: Smoothing, alpha: u32, i: int)
    requires
        0 <= i < 52,
    ensures
        Smoothing::fresh(alpha).alpha == alpha,
        !Smoothing::fresh(alpha).has_prev,
        Smoothing::fresh(alpha).prev.len() == 52,
        Smoothing::fresh(alpha).prev[i] == 0,
        s.reset() == Smoothing::fresh(s.alpha),
{
}

} // verus!
