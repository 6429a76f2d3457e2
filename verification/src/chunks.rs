//! Cutting a recording into chunks for transcription, each at the silence
//! nearest to its target length, where there is any.

use crate::measure::Measure;
use vstd::prelude::*;

verus! {

/// Samples in a level frame: 20 ms.
pub const FRAME_SAMPLES: usize = 320;

/// Frames in a row that make a silence: 0.6 s.
pub const SILENCE_MIN_FRAMES: usize = 30;

/// A frame is silent where its root mean square level is below 0.005.
pub const SILENCE_RMS_BITS: u32 = 0x3BA3_D70A;

/// The length that a chunk should have: 28 s, in samples.
pub const CHUNK_TARGET_SAMPLES: usize = 448_000;

/// The length that no chunk exceeds: 35 s, in samples.
pub const CHUNK_MAX_SAMPLES: usize = 560_000;

/// Frame `i` is known and silent.
pub open spec fn silent(rms: Seq<Measure>, i: int) -> bool {
    0 <= i < rms.len() && rms[i].less(Measure { bits: SILENCE_RMS_BITS })
}

/// The frames from `a` up to `b` are silent.
pub open spec fn quiet(rms: Seq<Measure>, a: int, b: int) -> bool {
    forall|i: int| a <= i < b ==> #[trigger] silent(rms, i)
}

/// The frames from `a` up to `b` are a silence: silent for long enough, and as
/// far as the frames from `from` up to `to` let it reach.
pub open spec fn silence(rms: Seq<Measure>, from: int, to: int, a: int, b: int) -> bool {
    &&& from <= a
    &&& a + SILENCE_MIN_FRAMES <= b <= to
    &&& quiet(rms, a, b)
    &&& a == from || !silent(rms, a - 1)
    &&& b == to || !silent(rms, b)
}

/// Twice the samples between the center of the frames from `a` up to `b` and
/// the end of a chunk of target length that begins at `start`.
pub open spec fn off_target(start: int, a: int, b: int) -> int {
    let twice = (a + b) * FRAME_SAMPLES - 2 * (start + CHUNK_TARGET_SAMPLES);
    if twice >= 0 {
        twice
    } else {
        -twice
    }
}

/// The frames from `a` up to `b` are centered nearer to the target than those
/// from `x` up to `y`, or as near and no later.
pub open spec fn nearer(start: int, a: int, b: int, x: int, y: int) -> bool {
    off_target(start, a, b) < off_target(start, x, y) || (off_target(start, a, b) == off_target(
        start,
        x,
        y,
    ) && a <= x)
}

/// The frame from which a silence is looked for in a chunk that begins at `start`.
pub open spec fn search_from(start: int) -> int {
    (start + CHUNK_TARGET_SAMPLES / 2) / (FRAME_SAMPLES as int)
}

/// The frame up to which a silence is looked for in a chunk that begins at `start`.
pub open spec fn search_to(start: int) -> int {
    (start + CHUNK_MAX_SAMPLES) / (FRAME_SAMPLES as int)
}

/// The silence from frame `a` up to frame `b` is the one, of those that are
/// looked for in a chunk that begins at `start`, whose center is nearest to the
/// target; of two that are as near it is the earlier.
pub open spec fn nearest_silence(rms: Seq<Measure>, start: int, a: int, b: int) -> bool {
    &&& silence(rms, search_from(start), search_to(start), a, b)
    &&& forall|x: int, y: int| #[trigger]
        silence(rms, search_from(start), search_to(start), x, y) ==> nearer(start, a, b, x, y)
}

/// The chunk that begins at `start` ends at `end`: with the recording, where
/// that fits in one chunk; otherwise at the last frame of the silence nearest
/// to the target; at the greatest length, where there is no silence.
pub open spec fn is_chunk(n: int, rms: Seq<Measure>, start: int, end: int) -> bool {
    if start + CHUNK_MAX_SAMPLES >= n {
        end == n
    } else {
        ||| exists|a: int, b: int| #[trigger]
            nearest_silence(rms, start, a, b) && end == (b - 1) * FRAME_SAMPLES
        ||| {
            &&& forall|a: int, b: int|
                !#[trigger] silence(rms, search_from(start), search_to(start), a, b)
            &&& end == start + CHUNK_MAX_SAMPLES
        }
    }
}

/// `bounds` are the chunks of a recording of `n` samples: one after the
/// other, from its first sample to its end.
pub open spec fn chunks(n: int, rms: Seq<Measure>, bounds: Seq<(usize, usize)>) -> bool {
    &&& n == 0 ==> bounds.len() == 0
    &&& n > 0 ==> bounds.len() > 0 && bounds[0].0 == 0 && bounds.last().1 == n
    &&& forall|i: int|
        0 <= i < bounds.len() ==> (#[trigger] bounds[i]).0 < n && is_chunk(
            n,
            rms,
            bounds[i].0 as int,
            bounds[i].1 as int,
        )
    &&& forall|i: int, j: int|
        0 <= i < bounds.len() && 0 <= j < bounds.len() && j == i + 1 ==> (#[trigger] bounds[j]).0 == (
        #[trigger] bounds[i]).1
}

/// Whether frame `i` is silent. A frame that is not known is not.
fn is_silent(rms: &Vec<Measure>, i: usize) -> (r: bool)
    ensures
        r == silent(rms@, i as int),
{
    i < rms.len() && rms[i].lt(&Measure { bits: SILENCE_RMS_BITS })
}

/// Of the silences that end before frame `limit`, `best` is the one nearest to
/// the target, if there is any.
spec fn best_before(
    rms: Seq<Measure>,
    start: int,
    from: int,
    to: int,
    limit: int,
    best: Option<(usize, usize)>,
) -> bool {
    match best {
        Some((a, b)) => {
            &&& silence(rms, from, to, a as int, b as int)
            &&& b < limit
            &&& forall|x: int, y: int| #[trigger]
                silence(rms, from, to, x, y) && y < limit ==> nearer(
                    start,
                    a as int,
                    b as int,
                    x,
                    y,
                )
        },
        None => forall|x: int, y: int| #[trigger] silence(rms, from, to, x, y) ==> y >= limit,
    }
}

/// Silent frames from `a` up to `b`, with nothing silent on either side, are
/// the only ones that can be a silence with an end from `a` to `b`.
proof fn lemma_only_silence(
    rms: Seq<Measure>,
    from: int,
    to: int,
    a: int,
    b: int,
    x: int,
    y: int,
)
    requires
        from <= a <= b <= to,
        quiet(rms, a, b),
        a == from || !silent(rms, a - 1),
        b == to || !silent(rms, b),
        silence(rms, from, to, x, y),
        a <= y <= b,
    ensures
        x == a,
        y == b,
{
    if y < b {
        assert(silent(rms, y));
    }
    if x < a {
        assert(silent(rms, a - 1));
    }
    if a < x {
        assert(silent(rms, x - 1));
    }
}

/// Twice the samples between the center of some frames and the target.
fn off_target_samples(start: usize, a: usize, b: usize) -> (r: i128)
    ensures
        r == off_target(start as int, a as int, b as int),
{
    let twice: i128 = (a as i128 + b as i128) * FRAME_SAMPLES as i128 - 2 * (start as i128
        + CHUNK_TARGET_SAMPLES as i128);
    if twice >= 0 {
        twice
    } else {
        -twice
    }
}

/// The better of the best silence so far and the silent frames from `a` up to
/// `b`, if these are a silence.
fn better_silence(
    rms: &Vec<Measure>,
    start: usize,
    from: usize,
    to: usize,
    a: usize,
    b: usize,
    best: Option<(usize, usize)>,
) -> (r: Option<(usize, usize)>)
    requires
        from <= a <= b <= to,
        quiet(rms@, a as int, b as int),
        a == from || !silent(rms@, a - 1),
        b == to || !silent(rms@, b as int),
        best_before(rms@, start as int, from as int, to as int, a as int, best),
    ensures
        best_before(rms@, start as int, from as int, to as int, b + 1, r),
{
    proof {
        assert forall|x: int, y: int|
            #[trigger] silence(rms@, from as int, to as int, x, y) && a <= y < b + 1 implies x == a
            && y == b && b - a >= SILENCE_MIN_FRAMES by {
            lemma_only_silence(
                rms@,
                from as int,
                to as int,
                a as int,
                b as int,
                x,
                y,
            );
        }
    }
    if b - a < SILENCE_MIN_FRAMES {
        return best;
    }
    assert(silence(rms@, from as int, to as int, a as int, b as int));
    match best {
        Some((x, y)) => {
            if off_target_samples(start, a, b) < off_target_samples(start, x, y) {
                Some((a, b))
            } else {
                best
            }
        },
        None => Some((a, b)),
    }
}

/// The silence within the frames from `from` up to `to` that is nearest to the
/// target of a chunk that begins at `start`.
fn find_silence(rms: &Vec<Measure>, start: usize, from: usize, to: usize) -> (r: Option<
    (usize, usize),
>)
    requires
        from <= to < usize::MAX,
    ensures
        best_before(rms@, start as int, from as int, to as int, to + 1, r),
{
    let mut best: Option<(usize, usize)> = None;
    let mut a: usize = from;
    let mut i: usize = from;
    while i < to
        invariant
            from <= a <= i <= to < usize::MAX,
            quiet(rms@, a as int, i as int),
            a == from || !silent(rms@, a - 1),
            best_before(rms@, start as int, from as int, to as int, a as int, best),
        decreases to - i,
    {
        if !is_silent(rms, i) {
            best = better_silence(rms, start, from, to, a, i, best);
            a = i + 1;
        }
        i = i + 1;
    }
    better_silence(rms, start, from, to, a, to, best)
}

/// The chunks of a recording of `n_samples` samples, by their first sample
/// and the sample after their last. `rms[i]` is the level of frame `i`.
pub fn find_chunk_bounds(n_samples: usize, rms: &Vec<Measure>) -> (bounds: Vec<(usize, usize)>)
    ensures
        chunks(n_samples as int, rms@, bounds@),
{
    let mut bounds: Vec<(usize, usize)> = Vec::new();
    let mut start: usize = 0;
    while start < n_samples
        invariant
            start <= n_samples,
            bounds@.len() == 0 ==> start == 0,
            bounds@.len() > 0 ==> bounds@[0].0 == 0 && bounds@.last().1 == start,
            forall|i: int|
                0 <= i < bounds@.len() ==> (#[trigger] bounds@[i]).0 < n_samples && is_chunk(
                    n_samples as int,
                    rms@,
                    bounds@[i].0 as int,
                    bounds@[i].1 as int,
                ),
            forall|i: int, j: int|
                0 <= i < bounds@.len() && 0 <= j < bounds@.len() && j == i + 1 ==> (
                #[trigger] bounds@[j]).0 == (#[trigger] bounds@[i]).1,
        decreases n_samples - start,
    {
        let cut: usize = if n_samples - start <= CHUNK_MAX_SAMPLES {
            n_samples
        } else {
            let from: usize = (start + CHUNK_TARGET_SAMPLES / 2) / FRAME_SAMPLES;
            let to: usize = (start + CHUNK_MAX_SAMPLES) / FRAME_SAMPLES;
            match find_silence(rms, start, from, to) {
                Some((a, b)) => {
                    assert(nearest_silence(rms@, start as int, a as int, b as int));
                    (b - 1) * FRAME_SAMPLES
                },
                None => start + CHUNK_MAX_SAMPLES,
            }
        };
        assert(is_chunk(n_samples as int, rms@, start as int, cut as int));
        proof {
            law_chunk_length(n_samples as int, rms@, start as int, cut as int);
        }
        bounds.push((start, cut));
        start = cut;
    }
    bounds
}

/// No chunk is empty or longer than the greatest length; a chunk that does not
/// end the recording is longer than half of the target length.
pub proof fn law_chunk_length(n: int, rms: Seq<Measure>, start: int, end: int)
    requires
        0 <= start < n,
        is_chunk(n, rms, start, end),
    ensures
        start < end <= n,
        end - start <= CHUNK_MAX_SAMPLES,
        start + CHUNK_MAX_SAMPLES < n ==> end < n && end - start > CHUNK_TARGET_SAMPLES / 2,
{
}

/// A chunk that is shorter than the greatest length, and does not end the
/// recording, ends with a silence: the frames up to the one at which it is
/// cut are silent for 0.6 s.
pub proof fn law_cuts_lie_in_silence(n: int, rms: Seq<Measure>, start: int, end: int)
    requires
        0 <= start,
        start + CHUNK_MAX_SAMPLES < n,
        is_chunk(n, rms, start, end),
        end < start + CHUNK_MAX_SAMPLES,
    ensures
        end % (FRAME_SAMPLES as int) == 0,
        quiet(
            rms,
            end / (FRAME_SAMPLES as int) + 1 - SILENCE_MIN_FRAMES,
            end / (FRAME_SAMPLES as int) + 1,
        ),
{
    let (a, b) = choose|a: int, b: int| #[trigger]
        nearest_silence(rms, start, a, b) && end == (b - 1) * FRAME_SAMPLES;
    assert forall|i: int| b - SILENCE_MIN_FRAMES <= i < b implies #[trigger] silent(rms, i) by {}
    assert(end / (FRAME_SAMPLES as int) == b - 1);
}

/// Where there is a silence to cut at, a chunk that does not end the recording
/// is cut at the last frame of one, and no other has its center nearer to the
/// target length.
pub proof fn law_cuts_lie_near_the_target(
    n: int,
    rms: Seq<Measure>,
    start: int,
    end: int,
    x: int,
    y: int,
) -> (cut: (int, int))
    requires
        0 <= start,
        start + CHUNK_MAX_SAMPLES < n,
        is_chunk(n, rms, start, end),
        silence(rms, search_from(start), search_to(start), x, y),
    ensures
        silence(rms, search_from(start), search_to(start), cut.0, cut.1),
        cut.0 * FRAME_SAMPLES <= end < cut.1 * FRAME_SAMPLES,
        end == (cut.1 - 1) * FRAME_SAMPLES,
        off_target(start, cut.0, cut.1) <= off_target(start, x, y),
{
    let (a, b) = choose|a: int, b: int| #[trigger]
        nearest_silence(rms, start, a, b) && end == (b - 1) * FRAME_SAMPLES;
    (a, b)
}

/// A chunk is shorter than the greatest length wherever the frames that are
/// searched hold a silence.
pub proof fn law_silences_are_found(n: int, rms: Seq<Measure>, start: int, end: int, x: int)
    requires
        0 <= start,
        start + CHUNK_MAX_SAMPLES < n,
        is_chunk(n, rms, start, end),
        search_from(start) <= x,
        x + SILENCE_MIN_FRAMES <= search_to(start),
        quiet(rms, x, x + SILENCE_MIN_FRAMES),
    ensures
        end < start + CHUNK_MAX_SAMPLES,
{
    lemma_some_silence(
        rms,
        search_from(start),
        search_to(start),
        x,
        x + SILENCE_MIN_FRAMES,
    );
}

/// Silent frames that are long enough are part of a silence.
proof fn lemma_some_silence(rms: Seq<Measure>, from: int, to: int, a: int, b: int)
    requires
        from <= a,
        a + SILENCE_MIN_FRAMES <= b <= to,
        quiet(rms, a, b),
    ensures
        exists|x: int, y: int| silence(rms, from, to, x, y),
    decreases (a - from) + (to - b),
{
    if a > from && silent(rms, a - 1) {
        assert(quiet(rms, a - 1, b));
        lemma_some_silence(rms, from, to, a - 1, b);
    } else if b < to && silent(rms, b) {
        assert(quiet(rms, a, b + 1));
        lemma_some_silence(rms, from, to, a, b + 1);
    } else {
        assert(silence(rms, from, to, a, b));
    }
}

/// Each chunk begins where the one before it ends, and each sample is in
/// exactly one chunk.
pub proof fn law_chunks_partition_the_recording(
    n: int,
    rms: Seq<Measure>,
    bounds: Seq<(usize, usize)>,
    sample: int,
)
    requires
        chunks(n, rms, bounds),
        0 <= sample < n,
    ensures
        exists|i: int|
            0 <= i < bounds.len() && (#[trigger] bounds[i]).0 <= sample < bounds[i].1,
        forall|i: int, j: int|
            0 <= i < bounds.len() && 0 <= j < bounds.len() && (#[trigger] bounds[i]).0 <= sample
                < bounds[i].1 && (#[trigger] bounds[j]).0 <= sample < bounds[j].1 ==> i == j,
{
    lemma_some_chunk(n, rms, bounds, sample, bounds.len() - 1);
    assert forall|i: int, j: int|
        0 <= i < bounds.len() && 0 <= j < bounds.len() && (#[trigger] bounds[i]).0 <= sample
            < bounds[i].1 && (#[trigger] bounds[j]).0 <= sample < bounds[j].1 implies i == j by {
        if i < j {
            lemma_chunks_ascend(n, rms, bounds, i, j);
        } else if j < i {
            lemma_chunks_ascend(n, rms, bounds, j, i);
        }
    }
}

proof fn lemma_some_chunk(
    n: int,
    rms: Seq<Measure>,
    bounds: Seq<(usize, usize)>,
    sample: int,
    j: int,
)
    requires
        chunks(n, rms, bounds),
        0 <= j < bounds.len(),
        0 <= sample < bounds[j].1,
    ensures
        exists|i: int|
            0 <= i < bounds.len() && (#[trigger] bounds[i]).0 <= sample < bounds[i].1,
    decreases j,
{
    if bounds[j].0 > sample {
        assert(bounds[j].0 == bounds[j - 1].1);
        lemma_some_chunk(n, rms, bounds, sample, j - 1);
    }
}

/// Later chunks begin no earlier than earlier ones end.
pub proof fn lemma_chunks_ascend(
    n: int,
    rms: Seq<Measure>,
    bounds: Seq<(usize, usize)>,
    i: int,
    j: int,
)
    requires
        chunks(n, rms, bounds),
        0 <= i < j < bounds.len(),
    ensures
        bounds[i].1 <= bounds[j].0,
    decreases j - i,
{
    assert(bounds[j].0 == bounds[j - 1].1);
    law_chunk_length(n, rms, bounds[j - 1].0 as int, bounds[j - 1].1 as int);
    if i < j - 1 {
        lemma_chunks_ascend(n, rms, bounds, i, j - 1);
    }
}

/// The end of a chunk follows from its start.
proof fn lemma_chunk_end_is_determined(
    n: int,
    rms: Seq<Measure>,
    start: int,
    end: int,
    other: int,
)
    requires
        is_chunk(n, rms, start, end),
        is_chunk(n, rms, start, other),
    ensures
        end == other,
{
    if start + CHUNK_MAX_SAMPLES < n {
        let from = search_from(start);
        let to = search_to(start);
        if exists|a: int, b: int| silence(rms, from, to, a, b) {
            let (a, b) = choose|a: int, b: int| #[trigger]
                nearest_silence(rms, start, a, b) && end == (b - 1) * FRAME_SAMPLES;
            let (x, y) = choose|x: int, y: int| #[trigger]
                nearest_silence(rms, start, x, y) && other == (y - 1) * FRAME_SAMPLES;
            assert(nearer(start, a, b, x, y) && nearer(start, x, y, a, b));
            if b < y {
                assert(silent(rms, b));
            }
            if y < b {
                assert(silent(rms, y));
            }
        } else {
            assert forall|a: int, b: int| !#[trigger] nearest_silence(rms, start, a, b) by {}
        }
    }
}

/// The length of the recording and its levels determine the chunks.
pub proof fn law_chunks_are_determined(
    n: int,
    rms: Seq<Measure>,
    bounds: Seq<(usize, usize)>,
    other: Seq<(usize, usize)>,
)
    requires
        n >= 0,
        chunks(n, rms, bounds),
        chunks(n, rms, other),
    ensures
        bounds == other,
{
    if n > 0 {
        lemma_same_chunk(n, rms, bounds, other, bounds.len() - 1);
        lemma_same_chunk(n, rms, other, bounds, other.len() - 1);
        assert forall|i: int| 0 <= i < bounds.len() implies bounds[i] == other[i] by {
            lemma_same_chunk(n, rms, bounds, other, i);
        }
    }
    assert(bounds =~= other);
}

proof fn lemma_same_chunk(
    n: int,
    rms: Seq<Measure>,
    bounds: Seq<(usize, usize)>,
    other: Seq<(usize, usize)>,
    i: int,
)
    requires
        n > 0,
        chunks(n, rms, bounds),
        chunks(n, rms, other),
        0 <= i < bounds.len(),
    ensures
        i < other.len(),
        bounds[i] == other[i],
    decreases i,
{
    if i == 0 {
        assert(bounds[0].0 < n && other[0].0 < n);
    } else {
        lemma_same_chunk(n, rms, bounds, other, i - 1);
        assert(bounds[i].0 == bounds[i - 1].1);
        assert(bounds[i].0 < n);
        if i < other.len() {
            assert(other[i].0 == other[i - 1].1);
        }
    }
    lemma_chunk_end_is_determined(
        n,
        rms,
        bounds[i].0 as int,
        bounds[i].1 as int,
        other[i].1 as int,
    );
}

/// Every chunk begins on a level frame.
pub proof fn law_chunks_begin_on_frames(
    n: int,
    rms: Seq<Measure>,
    bounds: Seq<(usize, usize)>,
    i: int,
)
    requires
        chunks(n, rms, bounds),
        0 <= i < bounds.len(),
    ensures
        bounds[i].0 % 320 == 0,
    decreases i,
{
    if i > 0 {
        law_chunks_begin_on_frames(n, rms, bounds, i - 1);
        assert(bounds[i].0 == bounds[i - 1].1);
        assert(bounds[i].0 < n);
        assert(is_chunk(n, rms, bounds[i - 1].0 as int, bounds[i - 1].1 as int));
    }
}

/// A chunk is the last exactly where at most 35 s of the recording remain from
/// its start, and ends with the recording; every other is followed by one that
/// begins where it ends, after more than 14 s and at most 35 s.
pub proof fn law_chunks_go_on_to_the_end(
    n: int,
    rms: Seq<Measure>,
    bounds: Seq<(usize, usize)>,
    i: int,
)
    requires
        chunks(n, rms, bounds),
        0 <= i < bounds.len(),
    ensures
        n > 0 && bounds[0].0 == 0,
        i == bounds.len() - 1 <==> n - bounds[i].0 <= 560_000,
        i == bounds.len() - 1 ==> bounds[i].1 == n,
        i < bounds.len() - 1 ==> bounds[i + 1].0 == bounds[i].1 && 224_000 < bounds[i].1 - bounds[i].0
            <= 560_000,
{
    assert(bounds[i].0 < n);
    law_chunk_length(n, rms, bounds[i].0 as int, bounds[i].1 as int);
    if i < bounds.len() - 1 {
        assert(bounds[i + 1].0 == bounds[i].1);
        assert(bounds[i + 1].0 < n);
    }
}

/// A chunk that does not end the recording is cut in a silence, if there is one
/// to cut at: if 30 frames in a row are below 0.005, no earlier than 14 s and no
/// later than 35 s after its start, it ends earlier than at 35 s, and the frame
/// at which it ends is below that level, as are the 29 before it.
pub proof fn law_chunks_are_cut_in_silence(
    n: int,
    rms: Seq<Measure>,
    bounds: Seq<(usize, usize)>,
    i: int,
    x: int,
)
    requires
        chunks(n, rms, bounds),
        0 <= i < bounds.len(),
        bounds[i].0 + 560_000 < n,
        bounds[i].0 + 224_000 <= x * 320,
        (x + 30) * 320 <= bounds[i].0 + 560_000,
        x + 30 <= rms.len(),
        forall|f: int|
            x <= f < x + 30 ==> (#[trigger] rms[f]).less(Measure { bits: 0x3BA3_D70A }),
    ensures
        bounds[i].1 < bounds[i].0 + 560_000,
        bounds[i].1 % 320 == 0,
        bounds[i].1 / 320 < rms.len(),
        bounds[i].1 / 320 >= 29,
        forall|f: int|
            bounds[i].1 / 320 - 29 <= f <= bounds[i].1 / 320 ==> (#[trigger] rms[f]).less(
                Measure { bits: 0x3BA3_D70A },
            ),
{
    let start = bounds[i].0 as int;
    let end = bounds[i].1 as int;
    assert(is_chunk(n, rms, start, end));
    assert(quiet(rms, x, x + SILENCE_MIN_FRAMES));
    law_silences_are_found(n, rms, start, end, x);
    law_cuts_lie_in_silence(n, rms, start, end);
    law_chunk_length(n, rms, start, end);
    assert(silent(rms, end / 320));
    assert forall|f: int| end / 320 - 29 <= f <= end / 320 implies (#[trigger] rms[f]).less(
        Measure { bits: 0x3BA3_D70A },
    ) by {
        assert(silent(rms, f));
    }
}

/// A chunk that does not end the recording lasts 35 s, unless some 30 frames in
/// a row are below 0.005, no earlier than 14 s and no later than 35 s after its
/// start.
pub proof fn law_chunks_without_silence_are_full(
    n: int,
    rms: Seq<Measure>,
    bounds: Seq<(usize, usize)>,
    i: int,
) -> (x: int)
    requires
        chunks(n, rms, bounds),
        0 <= i < bounds.len(),
        bounds[i].0 + 560_000 < n,
        bounds[i].1 != bounds[i].0 + 560_000,
    ensures
        bounds[i].0 + 224_000 <= x * 320,
        (x + 30) * 320 <= bounds[i].0 + 560_000,
        x + 30 <= rms.len(),
        forall|f: int|
            x <= f < x + 30 ==> (#[trigger] rms[f]).less(Measure { bits: 0x3BA3_D70A }),
{
    let start = bounds[i].0 as int;
    let end = bounds[i].1 as int;
    assert(is_chunk(n, rms, start, end));
    law_chunks_begin_on_frames(n, rms, bounds, i);
    let (a, b) = choose|a: int, b: int| #[trigger]
        nearest_silence(rms, start, a, b) && end == (b - 1) * FRAME_SAMPLES;
    assert(silent(rms, b - 1));
    assert forall|f: int| a <= f < a + 30 implies (#[trigger] rms[f]).less(
        Measure { bits: 0x3BA3_D70A },
    ) by {
        assert(silent(rms, f));
    }
    a
}

/// Where a chunk is cut before its 35 s, and does not end the recording, it is
/// cut at the last of the silent frames from `cut.0` up to `cut.1`, which are
/// no fewer than 30, lie from 14 s to 35 s after its start and go on as far as
/// they are silent and lie there. The center of any other such frames, from `x`
/// up to `y`, is no nearer to 28 s, and is later if it is as near.
pub proof fn law_chunks_end_near_the_target(
    n: int,
    rms: Seq<Measure>,
    bounds: Seq<(usize, usize)>,
    i: int,
    x: int,
    y: int,
) -> (cut: (int, int))
    requires
        chunks(n, rms, bounds),
        0 <= i < bounds.len(),
        bounds[i].0 + 560_000 < n,
        bounds[i].1 < bounds[i].0 + 560_000,
        bounds[i].0 + 224_000 <= x * 320,
        y * 320 <= bounds[i].0 + 560_000,
        x + 30 <= y <= rms.len(),
        forall|f: int| x <= f < y ==> (#[trigger] rms[f]).less(Measure { bits: 0x3BA3_D70A }),
        bounds[i].0 + 224_000 == x * 320 || !rms[x - 1].less(Measure { bits: 0x3BA3_D70A }),
        bounds[i].0 + 560_000 == y * 320 || y == rms.len() || !rms[y].less(
            Measure { bits: 0x3BA3_D70A },
        ),
    ensures
        bounds[i].1 == (cut.1 - 1) * 320,
        bounds[i].0 + 224_000 <= cut.0 * 320,
        cut.1 * 320 <= bounds[i].0 + 560_000,
        cut.0 + 30 <= cut.1 <= rms.len(),
        forall|f: int|
            cut.0 <= f < cut.1 ==> (#[trigger] rms[f]).less(Measure { bits: 0x3BA3_D70A }),
        bounds[i].0 + 224_000 == cut.0 * 320 || !rms[cut.0 - 1].less(
            Measure { bits: 0x3BA3_D70A },
        ),
        bounds[i].0 + 560_000 == cut.1 * 320 || cut.1 == rms.len() || !rms[cut.1].less(
            Measure { bits: 0x3BA3_D70A },
        ),
        ({
            let target = bounds[i].0 + 448_000;
            let mine = (cut.0 + cut.1) * 160 - target;
            let other = (x + y) * 160 - target;
            let off = |d: int|
                if d < 0 {
                    -d
                } else {
                    d
                };
            &&& off(mine) <= off(other)
            &&& off(mine) == off(other) ==> cut.0 <= x
        }),
{
    let start = bounds[i].0 as int;
    let end = bounds[i].1 as int;
    assert(is_chunk(n, rms, start, end));
    law_chunks_begin_on_frames(n, rms, bounds, i);
    assert(search_from(start) * 320 == start + 224_000);
    assert(search_to(start) * 320 == start + 560_000);
    let (a, b) = choose|a: int, b: int| #[trigger]
        nearest_silence(rms, start, a, b) && end == (b - 1) * FRAME_SAMPLES;
    assert(silent(rms, a) && silent(rms, b - 1));
    assert forall|f: int| a <= f < b implies (#[trigger] rms[f]).less(
        Measure { bits: 0x3BA3_D70A },
    ) by {
        assert(silent(rms, f));
    }
    assert(quiet(rms, x, y));
    assert(silence(rms, search_from(start), search_to(start), x, y));
    assert(nearer(start, a, b, x, y));
    (a, b)
}

} // verus!
