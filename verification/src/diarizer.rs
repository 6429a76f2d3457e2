//! One run of speaker diarization over a recording.
//!
//! The segmentation model sees the recording through overlapping windows. Its
//! answers are laid over one another on the frames of the recording, turns of
//! speech are read off the averaged activity, each turn is embedded, and the
//! embeddings are clustered into speakers. [`Diarizer`] says what to feed the
//! models, where their answers go, and what follows from them.

use crate::arrays::{Activity, Tally};
use crate::cluster::{agglomerative, clustering, clusters, wanted, DistanceMatrix};
use crate::measure::Measure;
use crate::powerset::POWERSET_CLASSES;
use crate::segments::{
    law_merging_adds_no_bounds, law_merging_keeps_speech, lies_within, merge_adjacent, merge_of,
    DiarSegment, MERGE_GAP_TICKS,
};
use crate::time::{frame_ticks, TICKS_PER_FRAME, TICKS_PER_SAMPLE};
use crate::turns::{extract_turns, turns_of, Turn, OFFSET_BITS, ONSET_BITS};
use vstd::prelude::*;

verus! {

/// Samples in a window: ten seconds.
pub const WINDOW_SAMPLES: usize = 160_000;

/// Samples from the start of a window to that of the next: one second.
pub const STEP_SAMPLES: usize = 16_000;

/// A turn must have more samples than this to be embedded: a quarter of a second.
pub const MIN_EMBED_SAMPLES: usize = 4_000;

/// Clusters further apart than 0.7155 are different speakers.
pub const CLUSTER_THRESHOLD_BITS: u32 = 0x3F37_2B02;

/// Why a run stopped.
#[derive(Clone, Copy, Debug, PartialEq, Eq, Structural)]
pub enum DiarizeError {
    /// The job was cancelled.
    Cancelled,
    /// The segmentation model tells apart some other number of classes.
    UnexpectedClasses(usize),
}

/// A window over the recording.
#[derive(Clone, Copy, Debug, PartialEq, Eq, Structural)]
pub struct Window {
    /// Its first sample.
    pub start: usize,
    /// The sample after its last one in the recording. What is missing to a
    /// full window is silence.
    pub end: usize,
    /// The frame of the recording on which its first frame falls.
    pub frame_offset: usize,
}

/// Where the frames of a window go.
#[derive(Debug)]
pub struct Placement {
    /// The frames of the window, from the first, that fall on the recording.
    pub placed: usize,
    /// Those of them that fall where an earlier window had frames.
    pub shared: Vec<usize>,
}

/// What to do about the embedding of a turn.
#[derive(Clone, Copy, Debug, PartialEq, Eq, Structural)]
pub enum EmbedStep {
    /// The turn is too short: its embedding is zero.
    Zero,
    /// Embed these samples, from the first up to the second.
    Samples(usize, usize),
}

/// Whether a recording of `n` samples has a window `k`: it does unless it is
/// empty or an earlier window reaches its end.
pub open spec fn has_window(n: int, k: int) -> bool {
    n > 0 && (k == 0 || (k > 0 && (k - 1) * STEP_SAMPLES + WINDOW_SAMPLES < n))
}

/// The frame on which a sample falls, to the nearest, up at the middle.
pub open spec fn nearest_frame(sample: int) -> int {
    (sample * TICKS_PER_SAMPLE + TICKS_PER_FRAME / 2) / (TICKS_PER_FRAME as int)
}

/// `w` is window `k` of a recording of `n` samples.
pub open spec fn is_window(n: int, k: int, w: Window) -> bool {
    &&& w.start == k * STEP_SAMPLES
    &&& w.end == (if w.start + WINDOW_SAMPLES < n {
        w.start + WINDOW_SAMPLES
    } else {
        n
    })
    &&& w.frame_offset == nearest_frame(w.start as int)
}

/// How many of `frames` frames fall on the recording.
pub open spec fn placed_frames(total_frames: int, frame_offset: int, frames: int) -> int {
    if frame_offset >= total_frames {
        0
    } else if frame_offset + frames <= total_frames {
        frames
    } else {
        total_frames - frame_offset
    }
}

/// How many of the windows laid so far have a frame on frame `g`, where window
/// `k` has the frames from `spans[k].0` up to `spans[k].1`.
pub open spec fn covering(spans: Seq<(int, int)>, g: int) -> nat
    decreases spans.len(),
{
    if spans.len() == 0 {
        0
    } else {
        covering(spans.drop_last(), g) + (if spans.last().0 <= g < spans.last().1 {
            1nat
        } else {
            0nat
        })
    }
}

/// `shared` lists, in order, the placed frames that fall where an earlier
/// window has frames.
pub open spec fn shares(
    spans: Seq<(int, int)>,
    frame_offset: int,
    placed: int,
    shared: Seq<usize>,
) -> bool {
    &&& forall|i: int|
        0 <= i < shared.len() ==> (#[trigger] shared[i]) < placed && covering(
            spans,
            frame_offset + shared[i],
        ) > 0
    &&& forall|f: usize|
        f < placed && covering(spans, frame_offset + f) > 0 ==> #[trigger] shared.contains(f)
    &&& forall|i: int, j: int|
        0 <= i < j < shared.len() ==> #[trigger] shared[i] < #[trigger] shared[j]
}

/// The turns, with the labels of their speakers.
pub open spec fn labelled(turns: Seq<Turn>, labels: Seq<usize>) -> Seq<DiarSegment> {
    Seq::new(
        turns.len(),
        |i: int|
            DiarSegment {
                start: (turns[i].start * TICKS_PER_FRAME) as i128,
                end: (turns[i].end * TICKS_PER_FRAME) as i128,
                speaker: labels[i],
            },
    )
}

/// `out` is the diarization of a recording with these turns, whose embeddings
/// have these distances.
pub open spec fn diarization(
    turns: Seq<Turn>,
    distances: DistanceMatrix,
    num_speakers: Option<usize>,
    out: Seq<DiarSegment>,
) -> bool {
    exists|labels: Seq<usize>| #[trigger]
        clustering(distances, num_speakers, Measure { bits: CLUSTER_THRESHOLD_BITS }, labels)
            && merge_of(labelled(turns, labels), MERGE_GAP_TICKS as int, out)
}

/// The number of speakers that is asked for, where 0 leaves it open.
pub fn requested_speakers(speakers: usize) -> (r: Option<usize>)
    ensures
        r == (if speakers == 0 {
            None
        } else {
            Some(speakers)
        }),
{
    if speakers == 0 {
        None
    } else {
        Some(speakers)
    }
}

/// The frame on which a sample falls.
fn frame_at(sample: usize) -> (r: usize)
    ensures
        r == nearest_frame(sample as int),
{
    let nearest: i128 = (sample as i128 * TICKS_PER_SAMPLE + TICKS_PER_FRAME / 2) / TICKS_PER_FRAME;
    nearest as usize
}

/// What comes of a diarization, given whether the models are there, what came
/// of running them, and whether the job is cancelled: none without the models,
/// nor where running them fails; a cancelled run fails.
pub fn diarization_outcome(
    present: bool,
    result: Result<Vec<DiarSegment>, ()>,
    cancelled: bool,
) -> (r: Result<Option<Vec<DiarSegment>>, DiarizeError>)
    ensures
        r == (if !present {
            Ok::<Option<Vec<DiarSegment>>, DiarizeError>(None)
        } else {
            match result {
                Ok(segments) => Ok(Some(segments)),
                Err(_) => if cancelled {
                    Err(DiarizeError::Cancelled)
                } else {
                    Ok(None)
                },
            }
        }),
{
    if !present {
        return Ok(None);
    }
    match result {
        Ok(segments) => Ok(Some(segments)),
        Err(_) => if cancelled {
            Err(DiarizeError::Cancelled)
        } else {
            Ok(None)
        },
    }
}

/// One run of speaker diarization.
pub struct Diarizer {
    n_samples: usize,
    num_speakers: Option<usize>,
    /// Of each frame of the recording, the number of windows laid over it.
    counts: Tally,
    /// The number of windows laid so far.
    done: usize,
    /// The frames of each window laid so far.
    laid: Ghost<Seq<(int, int)>>,
}

impl Diarizer {
    #[verifier::type_invariant]
    spec fn consistent(self) -> bool {
        &&& self.done == 0 || has_window(self.n_samples as int, self.done - 1)
        &&& self.done == self.laid@.len()
        &&& forall|g: int|
            0 <= g < self.counts@.len() ==> #[trigger] self.counts@[g] == covering(self.laid@, g)
    }

    /// The samples of the recording.
    pub closed spec fn samples(self) -> nat {
        self.n_samples as nat
    }

    /// The number of speakers asked for.
    pub closed spec fn speakers(self) -> Option<usize> {
        self.num_speakers
    }

    /// The frames of the recording.
    pub closed spec fn frames(self) -> nat {
        self.counts@.len()
    }

    /// Of each window laid so far, the frames on which it lies.
    pub closed spec fn spans(self) -> Seq<(int, int)> {
        self.laid@
    }

    /// A run over `n_samples` samples, which span `total_frames` frames.
    pub fn new(n_samples: usize, total_frames: usize, num_speakers: Option<usize>) -> (r: Diarizer)
        requires
            total_frames * 8 <= isize::MAX,
        ensures
            r.samples() == n_samples,
            r.speakers() == num_speakers,
            r.frames() == total_frames,
            r.spans() == Seq::<(int, int)>::empty(),
    {
        Diarizer {
            n_samples,
            num_speakers,
            counts: Tally::zeros(total_frames),
            done: 0,
            laid: Ghost(Seq::empty()),
        }
    }

    /// The window to run the segmentation model on next; none where all have
    /// been laid. A cancelled job gets no further window.
    pub fn next_window(&self, cancelled: bool) -> (r: Result<Option<Window>, DiarizeError>)
        ensures
            match r {
                Ok(None) => !has_window(self.samples() as int, self.spans().len() as int),
                Ok(Some(w)) => {
                    &&& has_window(self.samples() as int, self.spans().len() as int)
                    &&& !cancelled
                    &&& is_window(self.samples() as int, self.spans().len() as int, w)
                },
                Err(e) => {
                    &&& has_window(self.samples() as int, self.spans().len() as int)
                    &&& cancelled
                    &&& e == DiarizeError::Cancelled
                },
            },
    {
        proof {
            use_type_invariant(self);
        }
        let n: usize = self.n_samples;
        if n == 0 {
            return Ok(None);
        }
        if self.done > 0 {
            assert(self.done >= 2 ==> self.done * STEP_SAMPLES < n);
            let last: usize = (self.done - 1) * STEP_SAMPLES;
            if n <= WINDOW_SAMPLES || last >= n - WINDOW_SAMPLES {
                return Ok(None);
            }
        }
        if cancelled {
            return Err(DiarizeError::Cancelled);
        }
        let start: usize = self.done * STEP_SAMPLES;
        let end: usize = if n - start > WINDOW_SAMPLES {
            start + WINDOW_SAMPLES
        } else {
            n
        };
        Ok(Some(Window { start, end, frame_offset: frame_at(start) }))
    }

    /// Lays the answer for the next window, of `frames` frames and `classes`
    /// classes, over the recording.
    pub fn place(&mut self, frames: usize, classes: usize) -> (r: Result<Placement, DiarizeError>)
        requires
            has_window(old(self).samples() as int, old(self).spans().len() as int),
        ensures
            final(self).samples() == old(self).samples(),
            final(self).speakers() == old(self).speakers(),
            final(self).frames() == old(self).frames(),
            match r {
                Ok(p) => {
                    let offset = nearest_frame(old(self).spans().len() * STEP_SAMPLES);
                    &&& classes == POWERSET_CLASSES
                    &&& p.placed == placed_frames(
                        old(self).frames() as int,
                        offset,
                        frames as int,
                    )
                    &&& shares(old(self).spans(), offset, p.placed as int, p.shared@)
                    &&& final(self).spans() == old(self).spans().push((offset, offset + p.placed))
                },
                Err(e) => {
                    &&& classes != POWERSET_CLASSES
                    &&& e == DiarizeError::UnexpectedClasses(classes)
                    &&& final(self).spans() == old(self).spans()
                },
            },
    {
        proof {
            use_type_invariant(&*self);
        }
        if classes != POWERSET_CLASSES {
            return Err(DiarizeError::UnexpectedClasses(classes));
        }
        assert(self.done >= 1 ==> self.done * STEP_SAMPLES < self.n_samples);
        let start: usize = self.done * STEP_SAMPLES;
        let offset: usize = frame_at(start);
        let total: usize = self.counts.len();
        let placed: usize = if offset >= total {
            0
        } else if frames <= total - offset {
            frames
        } else {
            total - offset
        };
        let done: usize = self.done;
        let ghost spans = self.laid@;
        let ghost before = self.counts@;
        proof {
            assert forall|g: int| 0 <= g < before.len() implies #[trigger] before[g] <= done by {
                lemma_covering_bound(spans, g);
            }
        }
        let mut counts: Tally = Tally::zeros(0);
        std::mem::swap(&mut counts, &mut self.counts);
        let mut shared: Vec<usize> = Vec::new();
        for f in 0..placed
            invariant
                counts@.len() == before.len() == total,
                placed > 0 ==> offset + placed <= total,
                done < usize::MAX,
                forall|g: int| 0 <= g < before.len() ==> #[trigger] before[g] <= done,
                forall|g: int| 0 <= g < before.len() ==> #[trigger] before[g] == covering(spans, g),
                forall|g: int|
                    0 <= g < total ==> #[trigger] counts@[g] == (if offset <= g < offset + f {
                        before[g] + 1
                    } else {
                        before[g] as int
                    }),
                shares(spans, offset as int, f as int, shared@),
        {
            let g: usize = offset + f;
            let had: usize = counts.get(g);
            let ghost earlier = shared@;
            assert(had == covering(spans, offset + f)) by {
                assert(before[g as int] == had);
            }
            if had > 0 {
                shared.push(f);
            }
            counts.set(g, had + 1);
            proof {
                assert forall|x: usize|
                    x < f + 1 && covering(
                        spans,
                        offset + x,
                    ) > 0 implies #[trigger] shared@.contains(x) by {
                    if x == f {
                        assert(shared@[earlier.len() as int] == f);
                    } else {
                        assert(earlier.contains(x));
                        let k = choose|k: int| 0 <= k < earlier.len() && earlier[k] == x;
                        assert(shared@[k] == x);
                    }
                }
            }
        }
        let ghost after = spans.push((offset as int, offset + placed));
        proof {
            assert(after.drop_last() =~= spans);
            assert forall|g: int| 0 <= g < total implies #[trigger] counts@[g] == covering(
                after,
                g,
            ) by {
                assert(before[g] == covering(spans, g));
            }
        }
        *self = Diarizer {
            n_samples: self.n_samples,
            num_speakers: self.num_speakers,
            counts,
            done: done + 1,
            laid: Ghost(after),
        };
        Ok(Placement { placed, shared })
    }

    /// What the summed activity of frame `g` is divided by: the number of
    /// windows laid over it, and 1 where there is none.
    pub fn divisor(&self, g: usize) -> (r: usize)
        requires
            g < self.frames(),
        ensures
            r == (if covering(self.spans(), g as int) == 0 {
                1
            } else {
                covering(self.spans(), g as int)
            }),
    {
        proof {
            use_type_invariant(self);
        }
        let c: usize = self.counts.get(g);
        if c == 0 {
            1
        } else {
            c
        }
    }

    /// The turns of speech in the averaged activity of the channels.
    pub fn turns(&self, activity: &Activity) -> (r: Vec<Turn>)
        ensures
            turns_of(
                activity@,
                TICKS_PER_FRAME as u64,
                Measure { bits: ONSET_BITS },
                Measure { bits: OFFSET_BITS },
                r@,
            ),
    {
        extract_turns(
            activity,
            TICKS_PER_FRAME as u64,
            Measure { bits: ONSET_BITS },
            Measure { bits: OFFSET_BITS },
        )
    }

    /// What to embed for a turn from sample `start` to sample `end`: its
    /// samples as far as the recording goes, if there are enough of them. A
    /// cancelled job embeds nothing more.
    pub fn embed_step(&self, start: usize, end: usize, cancelled: bool) -> (r: Result<
        EmbedStep,
        DiarizeError,
    >)
        ensures
            match r {
                Err(e) => cancelled && e == DiarizeError::Cancelled,
                Ok(step) => {
                    let to = if end < self.samples() {
                        end as int
                    } else {
                        self.samples() as int
                    };
                    &&& !cancelled
                    &&& to <= start + MIN_EMBED_SAMPLES ==> step == EmbedStep::Zero
                    &&& to > start + MIN_EMBED_SAMPLES ==> step == EmbedStep::Samples(
                        start,
                        to as usize,
                    )
                },
            },
    {
        if cancelled {
            return Err(DiarizeError::Cancelled);
        }
        let to: usize = if end < self.n_samples {
            end
        } else {
            self.n_samples
        };
        if to <= start || to - start <= MIN_EMBED_SAMPLES {
            Ok(EmbedStep::Zero)
        } else {
            Ok(EmbedStep::Samples(start, to))
        }
    }

    /// Clusters the turns into speakers by the distances of their embeddings,
    /// and joins neighbouring segments of one speaker.
    pub fn diarize(&self, turns: &Vec<Turn>, distances: &DistanceMatrix) -> (out: Vec<DiarSegment>)
        requires
            distances.len() == turns@.len(),
        ensures
            diarization(turns@, *distances, self.speakers(), out@),
    {
        let threshold: Measure = Measure { bits: CLUSTER_THRESHOLD_BITS };
        let labels: Vec<usize> = agglomerative(distances, self.num_speakers, threshold);
        proof {
            crate::cluster_laws::law_labels_are_dense(
                *distances,
                self.num_speakers,
                threshold,
                labels@,
            );
        }
        let mut segs: Vec<DiarSegment> = Vec::new();
        for i in 0..turns.len()
            invariant
                labels@.len() == turns@.len(),
                segs@.len() == i,
                forall|k: int|
                    0 <= k < i ==> #[trigger] segs@[k] == labelled(turns@, labels@)[k],
        {
            segs.push(
                DiarSegment {
                    start: frame_ticks(turns[i].start),
                    end: frame_ticks(turns[i].end),
                    speaker: labels[i],
                },
            );
        }
        assert(segs@ =~= labelled(turns@, labels@));
        merge_adjacent(&mut segs, MERGE_GAP_TICKS);
        segs
    }
}

/// Every sample of a recording is in one of its windows.
pub proof fn law_windows_cover_the_recording(n: int, sample: int) -> (k: int)
    requires
        0 <= sample < n,
    ensures
        has_window(n, k),
        k * STEP_SAMPLES <= sample,
        sample < k * STEP_SAMPLES + WINDOW_SAMPLES,
{
    let k = if sample < WINDOW_SAMPLES {
        0
    } else {
        (sample - WINDOW_SAMPLES) / (STEP_SAMPLES as int) + 1
    };
    k
}

/// A window that is not the last is full, and the next shares all but one
/// second of it; the last one ends where the recording ends.
pub proof fn law_windows_overlap(n: int, k: int, w: Window, next: Window)
    requires
        has_window(n, k),
        is_window(n, k, w),
        is_window(n, k + 1, next),
    ensures
        has_window(n, k + 1) <==> w.end < n,
        w.end < n ==> w.end == w.start + WINDOW_SAMPLES && w.end - next.start == WINDOW_SAMPLES
            - STEP_SAMPLES,
{
}

/// The windows come one after the other, and end: a recording has no window
/// after one that it has not.
pub proof fn law_windows_are_consecutive(n: int, k: int, m: int)
    requires
        0 <= k <= m,
        has_window(n, m),
    ensures
        has_window(n, k),
        m <= n / (STEP_SAMPLES as int),
{
}

/// No frame has more windows over it than have been laid.
proof fn lemma_covering_bound(spans: Seq<(int, int)>, g: int)
    ensures
        covering(spans, g) <= spans.len(),
    decreases spans.len(),
{
    if spans.len() > 0 {
        lemma_covering_bound(spans.drop_last(), g);
    }
}

/// Asked for `k` speakers, a diarization has exactly the speakers from 0 up to
/// `k`, except that it has at least one and no more than there are turns.
pub proof fn law_diarization_has_the_speakers_asked_for(
    turns: Seq<Turn>,
    distances: DistanceMatrix,
    k: usize,
    out: Seq<DiarSegment>,
    speaker: usize,
)
    requires
        distances.len() == turns.len(),
        diarization(turns, distances, Some(k), out),
    ensures
        (exists|i: int| 0 <= i < out.len() && (#[trigger] out[i]).speaker == speaker) <==> speaker
            < wanted(k) && speaker < turns.len(),
{
    let threshold = Measure { bits: CLUSTER_THRESHOLD_BITS };
    let labels = choose|labels: Seq<usize>| #[trigger]
        clustering(distances, Some(k), threshold, labels) && merge_of(
            labelled(turns, labels),
            MERGE_GAP_TICKS as int,
            out,
        );
    crate::cluster_laws::law_labels_are_dense(distances, Some(k), threshold, labels);
    crate::cluster_laws::law_number_of_clusters(distances, k, threshold, labels);
    lemma_speakers_of_a_diarization(turns, labels, out, speaker);
    if labels.contains(speaker) {
        let t = choose|t: int| 0 <= t < labels.len() && labels[t] == speaker;
        assert(labels[t] < clusters(labels));
    }
}

/// The speakers of merged turns are those that the turns have.
proof fn lemma_speakers_of_a_diarization(
    turns: Seq<Turn>,
    labels: Seq<usize>,
    out: Seq<DiarSegment>,
    speaker: usize,
)
    requires
        labels.len() == turns.len(),
        merge_of(labelled(turns, labels), MERGE_GAP_TICKS as int, out),
    ensures
        (exists|i: int| 0 <= i < out.len() && (#[trigger] out[i]).speaker == speaker)
            <==> labels.contains(speaker),
{
    let segs = labelled(turns, labels);
    if exists|i: int| 0 <= i < out.len() && (#[trigger] out[i]).speaker == speaker {
        let i = choose|i: int| 0 <= i < out.len() && (#[trigger] out[i]).speaker == speaker;
        law_merging_adds_no_bounds(segs, MERGE_GAP_TICKS as int, out, i);
        let t = choose|t: int|
            0 <= t < segs.len() && (#[trigger] segs[t]).speaker == out[i].speaker && segs[t].start
                == out[i].start;
        assert(labels[t] == speaker);
    }
    if labels.contains(speaker) {
        let t = choose|t: int| 0 <= t < labels.len() && labels[t] == speaker;
        law_merging_keeps_speech(segs, MERGE_GAP_TICKS as int, out, t);
        let i = choose|i: int| 0 <= i < out.len() && lies_within(segs[t], #[trigger] out[i]);
        assert(out[i].speaker == speaker);
    }
}

/// Whatever the number of speakers, they are numbered from 0 without a gap.
pub proof fn law_diarized_speakers_are_dense(
    turns: Seq<Turn>,
    distances: DistanceMatrix,
    num_speakers: Option<usize>,
    out: Seq<DiarSegment>,
    i: int,
    speaker: usize,
)
    requires
        distances.len() == turns.len(),
        diarization(turns, distances, num_speakers, out),
        0 <= i < out.len(),
        speaker <= out[i].speaker,
    ensures
        exists|j: int| 0 <= j < out.len() && (#[trigger] out[j]).speaker == speaker,
{
    let threshold = Measure { bits: CLUSTER_THRESHOLD_BITS };
    let labels = choose|labels: Seq<usize>| #[trigger]
        clustering(distances, num_speakers, threshold, labels) && merge_of(
            labelled(turns, labels),
            MERGE_GAP_TICKS as int,
            out,
        );
    crate::cluster_laws::law_labels_are_dense(distances, num_speakers, threshold, labels);
    lemma_speakers_of_a_diarization(turns, labels, out, out[i].speaker);
    lemma_speakers_of_a_diarization(turns, labels, out, speaker);
    let t = choose|t: int| 0 <= t < labels.len() && labels[t] == out[i].speaker;
    assert(labels[t] < clusters(labels));
}

/// No turn is lost: each lies within a segment of the diarization.
pub proof fn law_diarization_keeps_every_turn(
    turns: Seq<Turn>,
    distances: DistanceMatrix,
    num_speakers: Option<usize>,
    out: Seq<DiarSegment>,
    t: int,
)
    requires
        distances.len() == turns.len(),
        diarization(turns, distances, num_speakers, out),
        0 <= t < turns.len(),
    ensures
        exists|i: int|
            0 <= i < out.len() && (#[trigger] out[i]).start <= turns[t].start * TICKS_PER_FRAME
                && turns[t].end * TICKS_PER_FRAME <= out[i].end,
{
    let threshold = Measure { bits: CLUSTER_THRESHOLD_BITS };
    let labels = choose|labels: Seq<usize>| #[trigger]
        clustering(distances, num_speakers, threshold, labels) && merge_of(
            labelled(turns, labels),
            MERGE_GAP_TICKS as int,
            out,
        );
    let segs = labelled(turns, labels);
    law_merging_keeps_speech(segs, MERGE_GAP_TICKS as int, out, t);
    let i = choose|i: int| 0 <= i < out.len() && lies_within(segs[t], #[trigger] out[i]);
    assert(segs[t].start == turns[t].start * TICKS_PER_FRAME);
    assert(out[i].start <= segs[t].start);
}

/// The turns, the distances and the number of speakers determine the
/// diarization.
pub proof fn law_diarization_is_determined(
    turns: Seq<Turn>,
    distances: DistanceMatrix,
    num_speakers: Option<usize>,
    out: Seq<DiarSegment>,
    other: Seq<DiarSegment>,
)
    requires
        diarization(turns, distances, num_speakers, out),
        diarization(turns, distances, num_speakers, other),
    ensures
        out == other,
{
    let threshold = Measure { bits: CLUSTER_THRESHOLD_BITS };
    let a = choose|labels: Seq<usize>| #[trigger]
        clustering(distances, num_speakers, threshold, labels) && merge_of(
            labelled(turns, labels),
            MERGE_GAP_TICKS as int,
            out,
        );
    let b = choose|labels: Seq<usize>| #[trigger]
        clustering(distances, num_speakers, threshold, labels) && merge_of(
            labelled(turns, labels),
            MERGE_GAP_TICKS as int,
            other,
        );
    crate::cluster_laws::law_clustering_is_determined(distances, num_speakers, threshold, a, b);
    crate::segments::law_merging_is_determined(
        labelled(turns, a),
        MERGE_GAP_TICKS as int,
        out,
        other,
    );
}

/// A recording that is not empty has a first window, and a window is followed
/// by another exactly where it ends before the recording does.
pub proof fn law_windows_go_on_to_the_end(n: int, k: int)
    requires
        k >= 0,
    ensures
        has_window(n, 0) <==> n > 0,
        has_window(n, k + 1) <==> has_window(n, k) && k * 16_000 + 160_000 < n,
{
}

/// A window begins a second after the one before it and lasts ten seconds, or
/// to the end of the recording. Its first frame, of which ten seconds have 589,
/// begins at most half a frame before it, and less than half a frame after it.
pub proof fn law_window_bounds(n: int, k: int, w: Window)
    requires
        has_window(n, k),
        is_window(n, k, w),
    ensures
        w.start == 16_000 * k,
        w.start < w.end <= n,
        w.end <= w.start + 160_000,
        w.end == n || w.end == w.start + 160_000,
        2 * (w.frame_offset * 160_000 - w.start * 589) <= 160_000,
        2 * (w.start * 589 - w.frame_offset * 160_000) < 160_000,
{
}

/// The frame on which a sample falls is the nearest one, the later of two that
/// are as near.
pub proof fn law_nearest_frame(sample: int, frame: int)
    ensures
        ({
            let off = nearest_frame(sample) * 160_000 - sample * 589;
            let other = frame * 160_000 - sample * 589;
            &&& -80_000 < off <= 80_000
            &&& (if off < 0 {
                -off
            } else {
                off
            }) <= (if other < 0 {
                -other
            } else {
                other
            })
        }),
{
    if frame < nearest_frame(sample) {
        assert(frame * 160_000 <= nearest_frame(sample) * 160_000 - 160_000);
    }
    if frame > nearest_frame(sample) {
        assert(frame * 160_000 >= nearest_frame(sample) * 160_000 + 160_000);
    }
}

/// Of the frames of a window exactly those are placed that fall on the
/// recording.
pub proof fn law_frames_on_the_recording_are_placed(
    total_frames: int,
    frame_offset: int,
    frames: int,
    f: int,
)
    requires
        total_frames >= 0,
        frame_offset >= 0,
        0 <= f < frames,
    ensures
        0 <= placed_frames(total_frames, frame_offset, frames) <= frames,
        f < placed_frames(total_frames, frame_offset, frames) <==> frame_offset + f < total_frames,
{
}

/// The windows that include frame `g`.
spec fn windows_over(spans: Seq<(int, int)>, g: int) -> Set<int> {
    Set::new(|k: int| 0 <= k < spans.len() && spans[k].0 <= g < spans[k].1)
}

/// Each window that includes a frame counts for it once: the count is the size
/// of the set of those windows.
pub proof fn law_every_window_counts(spans: Seq<(int, int)>, g: int)
    ensures
        Set::new(|k: int| 0 <= k < spans.len() && spans[k].0 <= g < spans[k].1).finite(),
        covering(spans, g) == Set::new(
            |k: int| 0 <= k < spans.len() && spans[k].0 <= g < spans[k].1,
        ).len(),
    decreases spans.len(),
{
    let all = windows_over(spans, g);
    if spans.len() == 0 {
        assert(all =~= Set::<int>::empty());
    } else {
        let front = spans.drop_last();
        law_every_window_counts(front, g);
        let before = windows_over(front, g);
        let last = spans.len() - 1;
        assert(!before.contains(last));
        if spans[last].0 <= g < spans[last].1 {
            assert(all =~= before.insert(last));
        } else {
            assert(all =~= before);
        }
    }
}

/// A frame that all windows include has as many windows over it as were laid,
/// and one that none includes has none.
pub proof fn law_windows_add_up(spans: Seq<(int, int)>, g: int)
    ensures
        (forall|k: int| 0 <= k < spans.len() ==> (#[trigger] spans[k]).0 <= g < spans[k].1)
            ==> covering(spans, g) == spans.len(),
        (forall|k: int| 0 <= k < spans.len() ==> !((#[trigger] spans[k]).0 <= g < spans[k].1))
            ==> covering(spans, g) == 0,
    decreases spans.len(),
{
    if spans.len() > 0 {
        let front = spans.drop_last();
        law_windows_add_up(front, g);
        assert(spans[spans.len() - 1] == spans.last());
        assert forall|k: int| 0 <= k < front.len() implies front[k] == spans[k] by {}
    }
}

/// Laying one more window adds one to the count of each frame that it includes,
/// and nothing to that of any other.
pub proof fn law_one_more_window(spans: Seq<(int, int)>, from: int, to: int, g: int)
    ensures
        covering(spans.push((from, to)), g) == covering(spans, g) + (if from <= g < to {
            1int
        } else {
            0int
        }),
{
    assert(spans.push((from, to)).drop_last() =~= spans);
}

/// The shared frames are exactly the placed frames that some earlier window
/// includes, each once and in order.
pub proof fn law_shared_frames(
    spans: Seq<(int, int)>,
    frame_offset: int,
    placed: int,
    shared: Seq<usize>,
    f: usize,
)
    requires
        shares(spans, frame_offset, placed, shared),
    ensures
        shared.contains(f) <==> f < placed && exists|k: int|
            0 <= k < spans.len() && (#[trigger] spans[k]).0 <= frame_offset + f < spans[k].1,
        forall|i: int, j: int|
            0 <= i < j < shared.len() ==> #[trigger] shared[i] < #[trigger] shared[j],
{
    let g = frame_offset + f;
    law_windows_add_up(spans, g);
    law_every_window_counts(spans, g);
    let all = windows_over(spans, g);
    assert(covering(spans, g) == all.len());
    if exists|k: int| 0 <= k < spans.len() && (#[trigger] spans[k]).0 <= g < spans[k].1 {
        let k = choose|k: int| 0 <= k < spans.len() && (#[trigger] spans[k]).0 <= g < spans[k].1;
        assert(all.contains(k));
        if all.len() == 0 {
            assert(all =~= Set::<int>::empty());
        }
    }
    if shared.contains(f) {
        let i = choose|i: int| 0 <= i < shared.len() && shared[i] == f;
        assert(covering(spans, frame_offset + shared[i]) > 0);
    }
}

/// A diarization labels each turn by a clustering of the embeddings at the
/// threshold 0.7155, and joins the segments of one speaker that lie at most
/// half a second apart. Times are frames of 160 000 ticks.
pub proof fn law_diarization_follows_the_clustering(
    turns: Seq<Turn>,
    distances: DistanceMatrix,
    num_speakers: Option<usize>,
    out: Seq<DiarSegment>,
) -> (r: (Seq<usize>, Seq<DiarSegment>))
    requires
        distances.len() == turns.len(),
        diarization(turns, distances, num_speakers, out),
    ensures
        clustering(distances, num_speakers, Measure { bits: 0x3F37_2B02 }, r.0),
        r.0.len() == turns.len(),
        r.1.len() == turns.len(),
        forall|t: int|
            0 <= t < turns.len() ==> (#[trigger] r.1[t]).start == turns[t].start * 160_000
                && r.1[t].end == turns[t].end * 160_000 && r.1[t].speaker == r.0[t],
        merge_of(r.1, 4_712_000, out),
{
    let threshold = Measure { bits: CLUSTER_THRESHOLD_BITS };
    let labels = choose|labels: Seq<usize>| #[trigger]
        clustering(distances, num_speakers, threshold, labels) && merge_of(
            labelled(turns, labels),
            MERGE_GAP_TICKS as int,
            out,
        );
    crate::cluster_laws::law_labels_are_dense(distances, num_speakers, threshold, labels);
    (labels, labelled(turns, labels))
}

/// Without a number of speakers, two turns whose voices are at most 0.7155
/// apart lie in segments of one speaker.
pub proof fn law_one_voice_is_one_speaker(
    turns: Seq<Turn>,
    distances: DistanceMatrix,
    out: Seq<DiarSegment>,
    t: int,
    u: int,
) -> (r: (int, int))
    requires
        distances.len() == turns.len(),
        diarization(turns, distances, None, out),
        0 <= t < turns.len(),
        0 <= u < turns.len(),
        !distances.at(t, u).nan(),
        !(Measure { bits: 0x3F37_2B02 }).less(distances.at(t, u)),
    ensures
        0 <= r.0 < out.len() && 0 <= r.1 < out.len(),
        out[r.0].speaker == out[r.1].speaker,
        out[r.0].start <= turns[t].start * 160_000 && turns[t].end * 160_000 <= out[r.0].end,
        out[r.1].start <= turns[u].start * 160_000 && turns[u].end * 160_000 <= out[r.1].end,
{
    let (labels, segs) = law_diarization_follows_the_clustering(turns, distances, None, out);
    crate::cluster_laws::law_close_pairs_share_a_label(
        distances,
        Measure { bits: 0x3F37_2B02 },
        labels,
        t,
        u,
    );
    law_merging_keeps_speech(segs, 4_712_000, out, t);
    law_merging_keeps_speech(segs, 4_712_000, out, u);
    let i = choose|i: int| 0 <= i < out.len() && lies_within(segs[t], #[trigger] out[i]);
    let j = choose|j: int| 0 <= j < out.len() && lies_within(segs[u], #[trigger] out[j]);
    (i, j)
}

} // verus!
