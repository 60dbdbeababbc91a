//! Cutting the audio stream into inference windows.

use vstd::prelude::*;
use vstd::slice::{slice_subrange, slice_to_vec};

use crate::lip_sync::window::AUDIO_BUFFER_LEN;

verus! {

/// The sample rate that the network is made for.
pub const SAMPLE_RATE: u32 = 16_000;

/// Milliseconds of audio in one window.
pub const STRIDE_MS: u64 = 1000;

/// How many whole windows `samples` hold.
pub open spec fn window_count(samples: Seq<u32>) -> nat {
    samples.len() / (AUDIO_BUFFER_LEN as nat)
}

/// Window `i` of `samples`.
pub open spec fn window_of(samples: Seq<u32>, i: int) -> Seq<u32> {
    samples.subrange(i * AUDIO_BUFFER_LEN, (i + 1) * AUDIO_BUFFER_LEN)
}

/// The whole windows that `samples` hold, one after the other.
pub open spec fn windows_of(samples: Seq<u32>) -> Seq<Seq<u32>> {
    Seq::new(window_count(samples), |i: int| window_of(samples, i))
}

/// What is left of `samples` after the whole windows.
pub open spec fn remainder_of(samples: Seq<u32>) -> Seq<u32> {
    samples.skip(window_count(samples) * AUDIO_BUFFER_LEN)
}

/// The model of a list of windows.
pub open spec fn windows_view(windows: Seq<Vec<u32>>) -> Seq<Seq<u32>> {
    windows.map_values(|w: Vec<u32>| w@)
}

/// Presentation time at which the buffered audio begins, `buffered` samples
/// before a chunk at `pts_us`; never before zero.
pub open spec fn buffer_start_ms(pts_us: u64, buffered: nat) -> int {
    let chunk_ms = pts_us / 1000;
    let buffered_ms = buffered * 1000 / (SAMPLE_RATE as nat);
    if chunk_ms > buffered_ms {
        chunk_ms - buffered_ms
    } else {
        0
    }
}

/// Presentation time at which the buffered audio begins.
pub fn buffer_start(pts_us: u64, buffered: usize) -> (r: u64)
    requires
        buffered < AUDIO_BUFFER_LEN,
    ensures
        r == buffer_start_ms(pts_us, buffered as nat),
{
    (pts_us / 1000).saturating_sub(buffered as u64 * 1000 / SAMPLE_RATE as u64)
}

/// Takes the whole windows out of `buffer`, which keeps the rest.
pub fn take_windows(buffer: &mut Vec<u32>) -> (windows: Vec<Vec<u32>>)
    ensures
        windows_view(windows@) == windows_of(old(buffer)@),
        windows@.len() == window_count(old(buffer)@),
        windows@.len() * AUDIO_BUFFER_LEN <= usize::MAX,
        final(buffer)@ == remainder_of(old(buffer)@),
{
    let ghost all = buffer@;
    let len: usize = buffer.len();
    let count: usize = len / AUDIO_BUFFER_LEN;
    let mut windows: Vec<Vec<u32>> = Vec::new();
    let mut i: usize = 0;
    while i < count
        invariant
            i <= count,
            count == len / AUDIO_BUFFER_LEN,
            buffer@ == all,
            all.len() == len,
            windows@.len() == i,
            forall|k: int| 0 <= k < i ==> (#[trigger] windows@[k])@ == window_of(all, k),
        decreases count - i,
    {
        assert((i + 1) * AUDIO_BUFFER_LEN <= len);
        let w: Vec<u32> = slice_to_vec(
            slice_subrange(
                buffer.as_slice(),
                i * AUDIO_BUFFER_LEN,
                (i + 1) * AUDIO_BUFFER_LEN,
            ),
        );
        windows.push(w);
        i = i + 1;
    }
    let rest: Vec<u32> = slice_to_vec(
        slice_subrange(buffer.as_slice(), count * AUDIO_BUFFER_LEN, len),
    );
    assert(rest@ =~= remainder_of(all));
    *buffer = rest;
    assert(windows_view(windows@) =~= windows_of(all));
    windows
}

/// The samples of `windows`, one window after the other.
pub open spec fn played(windows: Seq<Seq<u32>>) -> Seq<u32>
    decreases windows.len(),
{
    if windows.len() == 0 {
        Seq::empty()
    } else {
        played(windows.drop_last()) + windows.last()
    }
}

proof fn lemma_played_prefix(samples: Seq<u32>, n: nat)
    requires
        n <= window_count(samples),
    ensures
        played(windows_of(samples).take(n as int)) == samples.take(n * AUDIO_BUFFER_LEN),
    decreases n,
{
    let taken = windows_of(samples).take(n as int);
    if n > 0 {
        lemma_played_prefix(samples, (n - 1) as nat);
        assert(taken.drop_last() =~= windows_of(samples).take(n - 1));
        assert(taken.last() == window_of(samples, n - 1));
        assert(samples.take((n - 1) * AUDIO_BUFFER_LEN) + window_of(samples, n - 1)
            =~= samples.take(n * AUDIO_BUFFER_LEN));
    } else {
        assert(taken =~= Seq::empty());
        assert(samples.take(0) =~= Seq::empty());
    }
}

/// No sample is lost, repeated or moved: the windows and then the remainder
/// are the samples. The remainder is shorter than a window.
pub proof fn law_windows_keep_every_sample(samples: Seq<u32>)
    ensures
        played(windows_of(samples)) + remainder_of(samples) == samples,
        remainder_of(samples).len() < AUDIO_BUFFER_LEN,
        forall|i: int|
            0 <= i < windows_of(samples).len() ==> (#[trigger] windows_of(samples)[i]).len()
                == AUDIO_BUFFER_LEN,
{
    let n = window_count(samples);
    lemma_played_prefix(samples, n);
    assert(windows_of(samples).take(n as int) =~= windows_of(samples));
    assert(samples.take(n * AUDIO_BUFFER_LEN) + remainder_of(samples) =~= samples);
    assert forall|i: int| 0 <= i < windows_of(samples).len() implies (#[trigger] windows_of(
        samples,
    )[i]).len() == AUDIO_BUFFER_LEN by {
        assert((i + 1) * AUDIO_BUFFER_LEN <= samples.len());
    }
}

/// How the audio is divided into chunks does not matter: buffering `first` and
/// then `second` gives the windows, and leaves the remainder, of both at once.
pub proof fn law_chunking_does_not_matter(first: Seq<u32>, second: Seq<u32>)
    ensures
        windows_of(first) + windows_of(remainder_of(first) + second) == windows_of(first + second),
        remainder_of(remainder_of(first) + second) == remainder_of(first + second),
{
    let all = first + second;
    let rest = remainder_of(first) + second;
    let n = window_count(first);
    let m = window_count(rest);
    assert(rest.len() == all.len() - n * AUDIO_BUFFER_LEN);
    assert(window_count(all) == n + m);
    assert forall|i: int| 0 <= i < n + m implies #[trigger] windows_of(all)[i] == (windows_of(first)
        + windows_of(rest))[i] by {
        if i < n {
            assert((i + 1) * AUDIO_BUFFER_LEN <= first.len());
            assert(window_of(all, i) =~= window_of(first, i));
        } else {
            assert((i - n + 1) * AUDIO_BUFFER_LEN <= rest.len());
            assert(window_of(all, i) =~= window_of(rest, i - n));
        }
    }
    assert(windows_of(first) + windows_of(rest) =~= windows_of(all));
    assert(remainder_of(rest) =~= remainder_of(all));
}

} // verus!
