//! Transcription of a meeting: the recording is cut into chunks, each chunk is
//! transcribed, and each piece of text gets the label of its speaker.

use crate::chunks::{chunks, find_chunk_bounds, law_chunk_length, lemma_chunks_ascend};
use crate::errors::MeetingError;
use crate::measure::Measure;
use crate::segments::{assign_speaker_to_asr, longest_overlap, overlap, DiarSegment};
use crate::text::{label, speaker_label, trim, trimmed, white};
use crate::time::{sample_ticks, TICKS_PER_SAMPLE};
use vstd::prelude::*;

verus! {

/// A pause of 1.5 s, in ticks, tells that another speaker talks.
pub const NEW_SPEAKER_GAP_TICKS: i128 = 14_136_000;

/// The speakers that pauses are taken to tell apart.
pub const PAUSE_SPEAKERS: usize = 4;

/// A piece of the transcript.
#[derive(Debug)]
pub struct MeetingSegment {
    /// When it begins, in ticks.
    pub start: i128,
    /// When it ends, in ticks.
    pub end: i128,
    /// Who speaks.
    pub speaker: String,
    /// What is said.
    pub text: String,
}

/// What a piece of the transcript says.
pub struct SegmentView {
    /// When it begins, in ticks.
    pub start: int,
    /// When it ends, in ticks.
    pub end: int,
    /// Who speaks.
    pub speaker: Seq<char>,
    /// What is said.
    pub text: Seq<char>,
}

impl View for MeetingSegment {
    type V = SegmentView;

    open spec fn view(&self) -> SegmentView {
        SegmentView {
            start: self.start as int,
            end: self.end as int,
            speaker: self.speaker@,
            text: self.text@,
        }
    }
}

/// What the pieces of a transcript say.
pub open spec fn views(segments: Seq<MeetingSegment>) -> Seq<SegmentView> {
    Seq::new(segments.len(), |i: int| segments[i]@)
}

/// A stage of the work.
#[derive(Clone, Copy, Debug, PartialEq, Eq, Structural)]
pub enum Stage {
    /// The audio is decoded.
    Extract,
    /// The chunks are transcribed.
    Transcribe,
    /// The speakers are told apart.
    Diarize,
    /// All is done.
    Done,
}

impl Stage {
    /// The name of the stage.
    pub open spec fn text(self) -> Seq<char> {
        match self {
            Stage::Extract => "extract"@,
            Stage::Transcribe => "transcribe"@,
            Stage::Diarize => "diarize"@,
            Stage::Done => "done"@,
        }
    }

    /// The name of the stage.
    pub fn name(&self) -> (r: &'static str)
        ensures
            r@ == self.text(),
    {
        match self {
            Stage::Extract => "extract",
            Stage::Transcribe => "transcribe",
            Stage::Diarize => "diarize",
            Stage::Done => "done",
        }
    }
}

/// How far a job has come.
#[derive(Debug)]
pub struct MeetingProgress {
    /// The job.
    pub job_id: String,
    /// The stage that it is in.
    pub stage: Stage,
    /// How much of the recording is done, in ticks.
    pub processed: i128,
    /// The length of the recording, in ticks.
    pub total: i128,
}

/// A transcribed meeting.
#[derive(Debug)]
pub struct MeetingResult {
    /// The job that transcribed it.
    pub job_id: String,
    /// The length of the recording, in ticks.
    pub duration: i128,
    /// The transcript.
    pub segments: Vec<MeetingSegment>,
}

/// `p` tells of job `job_id`, in `stage`, at `processed` of `total` ticks.
pub open spec fn tells(
    p: MeetingProgress,
    job_id: Seq<char>,
    stage: Stage,
    processed: int,
    total: int,
) -> bool {
    &&& p.job_id@ == job_id
    &&& p.stage == stage
    &&& p.processed == processed
    &&& p.total == total
}

/// The speaker, counted from 0, that piece `i` is given by the pauses alone:
/// the next of four, round and round, after each long pause.
pub open spec fn speaker_by_pauses(segments: Seq<SegmentView>, i: int) -> nat
    decreases i,
{
    if i <= 0 {
        0
    } else if segments[i].start - segments[i - 1].end >= NEW_SPEAKER_GAP_TICKS {
        (speaker_by_pauses(segments, i - 1) + 1) % (PAUSE_SPEAKERS as nat)
    } else {
        speaker_by_pauses(segments, i - 1)
    }
}

/// `after` is `before` with other speakers.
pub open spec fn relabelled(before: Seq<SegmentView>, after: Seq<SegmentView>) -> bool {
    &&& after.len() == before.len()
    &&& forall|i: int|
        0 <= i < after.len() ==> (#[trigger] after[i]).start == before[i].start && after[i].end
            == before[i].end && after[i].text == before[i].text
}

/// The pieces, with speakers by the pauses.
pub open spec fn by_pauses(segments: Seq<SegmentView>) -> Seq<SegmentView> {
    Seq::new(
        segments.len(),
        |i: int| SegmentView { speaker: label(speaker_by_pauses(segments, i)), ..segments[i] },
    )
}

/// `after` is `before`, where each piece has the speaker of the segment that
/// overlaps longest with it, and keeps its speaker where none does.
pub open spec fn labelled_by_overlap(
    before: Seq<SegmentView>,
    diar: Seq<DiarSegment>,
    after: Seq<SegmentView>,
) -> bool {
    &&& relabelled(before, after)
    &&& forall|i: int, k: int|
        0 <= i < after.len() && #[trigger] longest_overlap(diar, before[i].start, before[i].end, k)
            ==> (#[trigger] after[i]).speaker == label(diar[k].speaker as nat)
    &&& forall|i: int|
        0 <= i < after.len() && (forall|k: int|
            0 <= k < diar.len() ==> overlap(#[trigger] diar[k], before[i].start, before[i].end) == 0)
            ==> (#[trigger] after[i]).speaker == before[i].speaker
}

/// Whether `start - end` is a pause after which another speaker talks.
fn is_long_pause(end: i128, start: i128) -> (r: bool)
    ensures
        r == (start - end >= NEW_SPEAKER_GAP_TICKS),
{
    match start.checked_sub(end) {
        Some(pause) => pause >= NEW_SPEAKER_GAP_TICKS,
        None => start > end,
    }
}

/// Gives each piece a speaker by the pauses between them: a new one whenever
/// there is a long pause.
pub fn assign_speakers(segments: &mut Vec<MeetingSegment>)
    ensures
        views(final(segments)@) == by_pauses(views(old(segments)@)),
{
    let n: usize = segments.len();
    let ghost before = views(segments@);
    let mut speaker: usize = 0;
    let mut prev_end: i128 = 0;
    let mut i: usize = 0;
    while i < n
        invariant
            n == segments@.len() == before.len(),
            i <= n,
            speaker < PAUSE_SPEAKERS,
            i > 0 ==> speaker == speaker_by_pauses(before, i - 1) && prev_end == before[i - 1].end,
            i == 0 ==> speaker == 0,
            forall|k: int|
                0 <= k < n ==> (#[trigger] segments@[k]).start == before[k].start && segments@[k].end
                    == before[k].end && segments@[k].text@ == before[k].text,
            forall|k: int|
                0 <= k < i ==> (#[trigger] segments@[k]).speaker@ == label(
                    speaker_by_pauses(before, k),
                ),
        decreases n - i,
    {
        if i > 0 && is_long_pause(prev_end, segments[i].start) {
            speaker = (speaker + 1) % PAUSE_SPEAKERS;
        }
        prev_end = segments[i].end;
        segments[i].speaker = speaker_label(speaker);
        i = i + 1;
    }
    assert(views(segments@) =~= by_pauses(before));
}

/// Gives each piece the speaker who talks longest during it.
pub fn assign_diarized_speakers(segments: &mut Vec<MeetingSegment>, diar: &Vec<DiarSegment>)
    ensures
        labelled_by_overlap(views(old(segments)@), diar@, views(final(segments)@)),
{
    let n: usize = segments.len();
    let ghost before = views(segments@);
    let mut i: usize = 0;
    while i < n
        invariant
            n == segments@.len() == before.len(),
            i <= n,
            forall|k: int|
                0 <= k < n ==> (#[trigger] segments@[k]).start == before[k].start && segments@[k].end
                    == before[k].end && segments@[k].text@ == before[k].text,
            forall|k: int|
                i <= k < n ==> (#[trigger] segments@[k]).speaker@ == before[k].speaker,
            labelled_by_overlap(
                before.take(i as int),
                diar@,
                views(segments@).take(i as int),
            ),
        decreases n - i,
    {
        let ghost earlier = views(segments@);
        let (start, end): (i128, i128) = (segments[i].start, segments[i].end);
        match assign_speaker_to_asr(diar.as_slice(), start, end) {
            Some(speaker) => {
                segments[i].speaker = speaker_label(speaker);
            },
            None => {},
        }
        proof {
            let now = views(segments@);
            let b = before.take(i + 1);
            let a = now.take(i + 1);
            assert forall|j: int| 0 <= j < i implies #[trigger] a[j] == earlier.take(i as int)[j]
                && b[j] == before.take(i as int)[j] by {
                assert(a[j] == now[j] && now[j] == earlier[j]);
            }
            assert(b[i as int] == before[i as int] && a[i as int] == now[i as int]);
            assert forall|j: int, k: int|
                0 <= j < a.len() && #[trigger] longest_overlap(diar@, b[j].start, b[j].end, k) implies (
            #[trigger] a[j]).speaker == label(diar@[k].speaker as nat) by {
                if j < i {
                    assert(longest_overlap(
                        diar@,
                        before.take(i as int)[j].start,
                        before.take(i as int)[j].end,
                        k,
                    ));
                    assert(earlier.take(i as int)[j].speaker == label(diar@[k].speaker as nat));
                } else {
                    assert(overlap(diar@[k], b[j].start, b[j].end) > 0);
                    assert forall|m: int|
                        longest_overlap(diar@, start as int, end as int, m) implies m == k by {
                        crate::segments::law_longest_overlap_is_unique(
                            diar@,
                            start as int,
                            end as int,
                            m,
                            k,
                        );
                    }
                }
            }
            assert forall|j: int|
                0 <= j < a.len() && (forall|k: int|
                    0 <= k < diar@.len() ==> overlap(#[trigger] diar@[k], b[j].start, b[j].end)
                        == 0) implies (#[trigger] a[j]).speaker == b[j].speaker by {
                if j < i {
                    assert(earlier.take(i as int)[j].speaker == before.take(i as int)[j].speaker);
                }
            }
            assert(labelled_by_overlap(b, diar@, a));
        }
        i = i + 1;
    }
    assert(before.take(n as int) =~= before);
    assert(views(segments@).take(n as int) =~= views(segments@));
}

/// What a chunk was transcribed to.
pub open spec fn spoken(reply: Option<String>) -> Option<Seq<char>> {
    match reply {
        Some(text) => Some(text@),
        None => None,
    }
}

/// What remains of the transcription of a chunk when it is trimmed. A failed
/// one leaves nothing.
pub open spec fn words(reply: Option<Seq<char>>) -> Seq<char> {
    match reply {
        Some(text) => trimmed(text),
        None => Seq::empty(),
    }
}

/// The piece of the transcript for a chunk, without a speaker.
pub open spec fn piece(bound: (usize, usize), text: Seq<char>) -> SegmentView {
    SegmentView {
        start: bound.0 * TICKS_PER_SAMPLE,
        end: bound.1 * TICKS_PER_SAMPLE,
        speaker: Seq::empty(),
        text,
    }
}

/// The transcript of chunks, without speakers: a piece for each chunk that
/// was transcribed to something.
pub open spec fn transcript(
    bounds: Seq<(usize, usize)>,
    replies: Seq<Option<Seq<char>>>,
) -> Seq<SegmentView>
    decreases replies.len(),
{
    if replies.len() == 0 {
        Seq::empty()
    } else {
        let before = transcript(bounds, replies.drop_last());
        let text = words(replies.last());
        if text.len() == 0 {
            before
        } else {
            before.push(piece(bounds[replies.len() - 1], text))
        }
    }
}

/// A chunk to transcribe.
#[derive(Debug)]
pub struct Chunk {
    /// Its first sample.
    pub start: usize,
    /// The sample after its last.
    pub end: usize,
    /// How far the job has come.
    pub progress: MeetingProgress,
}

/// Begins a job, if `ffmpeg` is there.
pub fn begin(job_id: &str, ffmpeg_available: bool) -> (r: Result<MeetingProgress, MeetingError>)
    ensures
        match r {
            Ok(p) => ffmpeg_available && tells(p, job_id@, Stage::Extract, 0, 0),
            Err(e) => !ffmpeg_available && e == MeetingError::FfmpegMissing,
        },
{
    if !ffmpeg_available {
        return Err(MeetingError::FfmpegMissing);
    }
    Ok(MeetingProgress { job_id: job_id.to_owned(), stage: Stage::Extract, processed: 0, total: 0 })
}

/// A job whose audio is decoded.
pub struct MeetingRun {
    job_id: String,
    n_samples: usize,
    bounds: Vec<(usize, usize)>,
    at: usize,
    segments: Vec<MeetingSegment>,
    /// What each chunk so far was transcribed to.
    heard: Ghost<Seq<Option<Seq<char>>>>,
}

impl MeetingRun {
    #[verifier::type_invariant]
    spec fn consistent(self) -> bool {
        &&& self.at == self.heard@.len()
        &&& self.at <= self.bounds@.len()
        &&& views(self.segments@) == transcript(self.bounds@, self.heard@)
    }

    /// The id of the job.
    pub closed spec fn id(self) -> Seq<char> {
        self.job_id@
    }

    /// The samples of the recording.
    pub closed spec fn samples(self) -> nat {
        self.n_samples as nat
    }

    /// The chunks of the recording.
    pub closed spec fn plan(self) -> Seq<(usize, usize)> {
        self.bounds@
    }

    /// What each chunk so far was transcribed to, where that succeeded.
    pub closed spec fn replies(self) -> Seq<Option<Seq<char>>> {
        self.heard@
    }

    /// Whether all chunks have been transcribed.
    pub open spec fn complete(self) -> bool {
        self.replies().len() == self.plan().len()
    }

    /// A job on a recording of `n_samples` samples, whose level frames have
    /// the levels `rms`.
    pub fn new(job_id: String, n_samples: usize, rms: &Vec<Measure>) -> (r: MeetingRun)
        ensures
            r.id() == job_id@,
            r.samples() == n_samples,
            chunks(n_samples as int, rms@, r.plan()),
            r.replies() == Seq::<Option<Seq<char>>>::empty(),
    {
        let bounds: Vec<(usize, usize)> = find_chunk_bounds(n_samples, rms);
        let segments: Vec<MeetingSegment> = Vec::new();
        assert(views(segments@) =~= Seq::<SegmentView>::empty());
        MeetingRun { job_id, n_samples, bounds, at: 0, segments, heard: Ghost(Seq::empty()) }
    }

    /// How far the job has come.
    fn progress(&self, stage: Stage, processed: usize) -> (r: MeetingProgress)
        ensures
            tells(
                r,
                self.id(),
                stage,
                processed * TICKS_PER_SAMPLE,
                self.samples() * TICKS_PER_SAMPLE,
            ),
    {
        MeetingProgress {
            job_id: self.job_id.clone(),
            stage,
            processed: sample_ticks(processed),
            total: sample_ticks(self.n_samples),
        }
    }

    /// The chunk to transcribe next; none where all have been. A cancelled job
    /// gets no further chunk.
    pub fn next_chunk(&self, cancelled: bool) -> (r: Result<Option<Chunk>, MeetingError>)
        ensures
            match r {
                Ok(None) => self.complete(),
                Ok(Some(c)) => {
                    let k = self.replies().len() as int;
                    &&& !self.complete()
                    &&& !cancelled
                    &&& k < self.plan().len()
                    &&& (c.start, c.end) == self.plan()[k]
                    &&& tells(
                        c.progress,
                        self.id(),
                        Stage::Transcribe,
                        c.start * TICKS_PER_SAMPLE,
                        self.samples() * TICKS_PER_SAMPLE,
                    )
                },
                Err(e) => !self.complete() && cancelled && e == MeetingError::Cancelled,
            },
    {
        proof {
            use_type_invariant(self);
        }
        if self.at == self.bounds.len() {
            return Ok(None);
        }
        if cancelled {
            return Err(MeetingError::Cancelled);
        }
        let (start, end): (usize, usize) = self.bounds[self.at];
        Ok(Some(Chunk { start, end, progress: self.progress(Stage::Transcribe, start) }))
    }

    /// Takes what the next chunk was transcribed to, or nothing where that
    /// failed.
    pub fn hear(&mut self, reply: Option<String>)
        requires
            !old(self).complete(),
        ensures
            final(self).id() == old(self).id(),
            final(self).samples() == old(self).samples(),
            final(self).plan() == old(self).plan(),
            final(self).replies() == old(self).replies().push(spoken(reply)),
    {
        proof {
            use_type_invariant(&*self);
        }
        let ghost after = self.heard@.push(spoken(reply));
        let mut taken: MeetingRun = MeetingRun {
            job_id: String::new(),
            n_samples: 0,
            bounds: Vec::new(),
            at: 0,
            segments: empty_transcript(),
            heard: Ghost(Seq::empty()),
        };
        std::mem::swap(self, &mut taken);
        let MeetingRun { job_id, n_samples, bounds, at, mut segments, heard } = taken;
        let (start, end): (usize, usize) = bounds[at];
        let ghost before = views(segments@);
        proof {
            assert(at < bounds.len());
            assert(after.drop_last() =~= heard@);
        }
        match reply {
            Some(text) => {
                let words: &str = trim(text.as_str());
                if words.unicode_len() > 0 {
                    segments.push(
                        MeetingSegment {
                            start: sample_ticks(start),
                            end: sample_ticks(end),
                            speaker: String::new(),
                            text: words.to_owned(),
                        },
                    );
                    assert(views(segments@) =~= before.push(segments@.last()@));
                }
            },
            None => {},
        }
        assert(views(segments@) == transcript(bounds@, after));
        *self = MeetingRun { job_id, n_samples, bounds, at: at + 1, segments, heard: Ghost(after) };
    }

    /// Tells that the speakers are being told apart, once all chunks have been
    /// transcribed.
    pub fn diarizing(&self) -> (r: MeetingProgress)
        requires
            self.complete(),
        ensures
            tells(r, self.id(), Stage::Diarize, 0, self.samples() * TICKS_PER_SAMPLE),
    {
        self.progress(Stage::Diarize, 0)
    }

    /// The transcribed meeting. Its pieces have their speakers by the
    /// diarization, if there is one, and by the pauses where there is none or
    /// it has nobody speak.
    pub fn finish(self, diar: Option<Vec<DiarSegment>>) -> (r: (MeetingResult, MeetingProgress))
        requires
            self.complete(),
        ensures
            r.0.job_id@ == self.id(),
            r.0.duration == self.samples() * TICKS_PER_SAMPLE,
            match diar {
                Some(d) => labelled_by_overlap(
                    by_pauses(transcript(self.plan(), self.replies())),
                    d@,
                    views(r.0.segments@),
                ),
                None => views(r.0.segments@) == by_pauses(
                    transcript(self.plan(), self.replies()),
                ),
            },
            tells(
                r.1,
                self.id(),
                Stage::Done,
                self.samples() * TICKS_PER_SAMPLE,
                self.samples() * TICKS_PER_SAMPLE,
            ),
    {
        proof {
            use_type_invariant(&self);
        }
        let progress: MeetingProgress = self.progress(Stage::Done, self.n_samples);
        let duration: i128 = sample_ticks(self.n_samples);
        let MeetingRun { job_id, n_samples: _, bounds: _, at: _, mut segments, heard: _ } = self;
        assign_speakers(&mut segments);
        match diar {
            Some(d) => assign_diarized_speakers(&mut segments, &d),
            None => {},
        }
        (MeetingResult { job_id, duration, segments }, progress)
    }
}

/// The chunks that were transcribed to something, in order.
pub open spec fn kept(replies: Seq<Option<Seq<char>>>) -> Seq<int>
    decreases replies.len(),
{
    if replies.len() == 0 {
        Seq::empty()
    } else if words(replies.last()).len() == 0 {
        kept(replies.drop_last())
    } else {
        kept(replies.drop_last()).push(replies.len() - 1)
    }
}

/// A transcript has exactly one piece for each chunk that was transcribed to
/// more than white space, in the order of the chunks.
pub proof fn law_transcript_has_every_chunk_with_words(
    bounds: Seq<(usize, usize)>,
    replies: Seq<Option<Seq<char>>>,
)
    ensures
        transcript(bounds, replies).len() == kept(replies).len(),
        forall|i: int|
            0 <= i < kept(replies).len() ==> 0 <= #[trigger] kept(replies)[i] < replies.len()
                && words(replies[kept(replies)[i]]).len() > 0,
        forall|i: int|
            0 <= i < kept(replies).len() ==> #[trigger] transcript(bounds, replies)[i] == piece(
                bounds[kept(replies)[i]],
                words(replies[kept(replies)[i]]),
            ),
        forall|i: int, j: int|
            0 <= i < j < kept(replies).len() ==> #[trigger] kept(replies)[i] < #[trigger] kept(
                replies,
            )[j],
        forall|k: int|
            0 <= k < replies.len() && words(#[trigger] replies[k]).len() > 0 ==> kept(
                replies,
            ).contains(k),
    decreases replies.len(),
{
    if replies.len() > 0 {
        let front = replies.drop_last();
        law_transcript_has_every_chunk_with_words(bounds, front);
        assert forall|k: int| 0 <= k < front.len() implies front[k] == replies[k] by {}
        let before = kept(front);
        let after = kept(replies);
        assert forall|i: int| 0 <= i < before.len() implies #[trigger] after[i] == before[i] by {}
        assert forall|i: int| 0 <= i < after.len() implies #[trigger] transcript(bounds, replies)[i]
            == piece(bounds[after[i]], words(replies[after[i]])) by {
            if i < before.len() {
                assert(transcript(bounds, front)[i] == piece(
                    bounds[before[i]],
                    words(front[before[i]]),
                ));
            }
        }
        assert forall|k: int|
            0 <= k < replies.len() && words(#[trigger] replies[k]).len() > 0 implies after.contains(
            k,
        ) by {
            if k < front.len() {
                assert(words(front[k]).len() > 0);
                let i = choose|i: int| 0 <= i < before.len() && before[i] == k;
                assert(after[i] == k);
            } else {
                assert(after[after.len() - 1] == k);
            }
        }
    }
}

/// Later pieces of a transcript begin no earlier than earlier ones end.
pub proof fn law_transcript_is_in_order(
    n: int,
    rms: Seq<Measure>,
    bounds: Seq<(usize, usize)>,
    replies: Seq<Option<Seq<char>>>,
    i: int,
    j: int,
)
    requires
        chunks(n, rms, bounds),
        replies.len() <= bounds.len(),
        0 <= i < j < transcript(bounds, replies).len(),
    ensures
        transcript(bounds, replies)[i].start < transcript(bounds, replies)[i].end,
        transcript(bounds, replies)[i].end <= transcript(bounds, replies)[j].start,
{
    law_transcript_has_every_chunk_with_words(bounds, replies);
    let a = kept(replies)[i];
    let b = kept(replies)[j];
    assert(transcript(bounds, replies)[i] == piece(bounds[a], words(replies[a])));
    assert(transcript(bounds, replies)[j] == piece(bounds[b], words(replies[b])));
    lemma_chunks_ascend(n, rms, bounds, a, b);
    law_chunk_length(n, rms, bounds[a].0 as int, bounds[a].1 as int);
}

/// By the pauses there are four speakers at most, and a piece has the speaker
/// of the one before it exactly where no long pause lies between them.
pub proof fn law_pauses_change_the_speaker(segments: Seq<SegmentView>, i: int)
    requires
        0 <= i < segments.len(),
    ensures
        speaker_by_pauses(segments, i) < PAUSE_SPEAKERS,
        i > 0 ==> (speaker_by_pauses(segments, i) == speaker_by_pauses(segments, i - 1)
            <==> segments[i].start - segments[i - 1].end < NEW_SPEAKER_GAP_TICKS),
    decreases i,
{
    if i > 0 {
        law_pauses_change_the_speaker(segments, i - 1);
    }
}

/// Whatever a diarization says, each piece of a finished transcript is a piece
/// of the transcript before, with the label of some speaker.
pub proof fn law_every_piece_has_a_speaker(
    before: Seq<SegmentView>,
    diar: Seq<DiarSegment>,
    after: Seq<SegmentView>,
    i: int,
) -> (speaker: nat)
    requires
        labelled_by_overlap(by_pauses(before), diar, after),
        0 <= i < before.len(),
    ensures
        after.len() == before.len(),
        after[i] == (SegmentView { speaker: label(speaker), ..before[i] }),
{
    let piece = by_pauses(before)[i];
    if exists|k: int|
        0 <= k < diar.len() && overlap(#[trigger] diar[k], piece.start, piece.end) > 0 {
        let k = choose|k: int|
            0 <= k < diar.len() && overlap(#[trigger] diar[k], piece.start, piece.end) > 0;
        crate::segments::law_some_overlap_is_longest(diar, piece.start, piece.end, k);
        let m = choose|m: int| longest_overlap(diar, piece.start, piece.end, m);
        assert(after[i].speaker == label(diar[m].speaker as nat));
        diar[m].speaker as nat
    } else {
        assert(after[i].speaker == piece.speaker);
        speaker_by_pauses(before, i)
    }
}

/// A transcript of nothing.
fn empty_transcript() -> (r: Vec<MeetingSegment>)
    ensures
        views(r@) == Seq::<SegmentView>::empty(),
{
    let r: Vec<MeetingSegment> = Vec::new();
    assert(views(r@) =~= Seq::<SegmentView>::empty());
    r
}

/// A report of progress has the job, the stage and the times that it tells of.
pub proof fn law_progress_tells(
    p: MeetingProgress,
    job_id: Seq<char>,
    stage: Stage,
    processed: int,
    total: int,
)
    ensures
        tells(p, job_id, stage, processed, total) <==> p.job_id@ == job_id && p.stage == stage
            && p.processed == processed && p.total == total,
{
}

/// What a piece of the transcript says is what its fields hold, and nothing is
/// added or left out.
pub proof fn law_views_have_every_field(segments: Seq<MeetingSegment>, i: int)
    requires
        0 <= i < segments.len(),
    ensures
        views(segments).len() == segments.len(),
        views(segments)[i].start == segments[i].start,
        views(segments)[i].end == segments[i].end,
        views(segments)[i].speaker == segments[i].speaker@,
        views(segments)[i].text == segments[i].text@,
{
}

/// By the pauses the first piece has speaker 0. Each further piece has the
/// speaker of the one before it, or the next of four, round and round, where it
/// begins at least one and a half seconds after the end of that. Nothing else is
/// changed.
pub proof fn law_pauses_number_the_speakers(segments: Seq<SegmentView>) -> (numbers: Seq<nat>)
    ensures
        by_pauses(segments).len() == segments.len(),
        numbers.len() == segments.len(),
        segments.len() > 0 ==> numbers[0] == 0,
        forall|i: int, j: int|
            0 <= i < segments.len() && 0 <= j < segments.len() && j == i + 1 ==> #[trigger] numbers[j]
                == (if 2 * (segments[j].start - segments[i].end) >= 28_272_000 {
                (#[trigger] numbers[i] + 1) % 4
            } else {
                numbers[i]
            }),
        forall|i: int|
            0 <= i < segments.len() ==> (#[trigger] by_pauses(segments)[i]).speaker == label(
                numbers[i],
            ) && by_pauses(segments)[i].start == segments[i].start && by_pauses(segments)[i].end
                == segments[i].end && by_pauses(segments)[i].text == segments[i].text,
{
    Seq::new(segments.len(), |i: int| speaker_by_pauses(segments, i))
}

/// A piece is given the speaker of the first of the segments that share the most
/// time with it, if any shares some, and keeps its speaker otherwise. Nothing
/// else is changed.
pub proof fn law_pieces_get_the_longest_speaker(
    before: Seq<SegmentView>,
    diar: Seq<DiarSegment>,
    after: Seq<SegmentView>,
    i: int,
) -> (longest: Option<int>)
    requires
        labelled_by_overlap(before, diar, after),
        0 <= i < before.len(),
    ensures
        after.len() == before.len(),
        after[i].start == before[i].start,
        after[i].end == before[i].end,
        after[i].text == before[i].text,
        ({
            let shared = |s: DiarSegment|
                (if s.end < before[i].end {
                    s.end as int
                } else {
                    before[i].end
                }) - (if s.start < before[i].start {
                    before[i].start
                } else {
                    s.start as int
                });
            match longest {
                Some(k) => {
                    &&& 0 <= k < diar.len()
                    &&& after[i].speaker == label(diar[k].speaker as nat)
                    &&& shared(diar[k]) > 0
                    &&& forall|j: int|
                        0 <= j < diar.len() ==> shared(#[trigger] diar[j]) <= shared(diar[k])
                    &&& forall|j: int| 0 <= j < k ==> shared(#[trigger] diar[j]) < shared(diar[k])
                },
                None => {
                    &&& after[i].speaker == before[i].speaker
                    &&& forall|j: int| 0 <= j < diar.len() ==> shared(#[trigger] diar[j]) <= 0
                },
            }
        }),
{
    let (start, end) = (before[i].start, before[i].end);
    assert forall|j: int| 0 <= j < diar.len() implies {
        let shared = (if diar[j].end < end {
            diar[j].end as int
        } else {
            end
        }) - (if diar[j].start < start {
            start
        } else {
            diar[j].start as int
        });
        overlap(#[trigger] diar[j], start, end) == (if shared < 0 {
            0
        } else {
            shared
        })
    } by {
        crate::segments::law_overlap_is_shared_time(diar[j], start, end);
    }
    assert(after[i].start == start);
    if exists|k: int| 0 <= k < diar.len() && overlap(#[trigger] diar[k], start, end) > 0 {
        let k = choose|k: int| 0 <= k < diar.len() && overlap(#[trigger] diar[k], start, end) > 0;
        crate::segments::law_some_overlap_is_longest(diar, start, end, k);
        let m = choose|m: int| longest_overlap(diar, start, end, m);
        assert(longest_overlap(diar, before[i].start, before[i].end, m));
        assert(after[i].speaker == label(diar[m].speaker as nat));
        Some(m)
    } else {
        assert(after[i].speaker == before[i].speaker);
        None
    }
}

/// The transcript has a piece for each chunk whose reply has a character that is
/// not white space, and for no other, in order; the piece has the times of the
/// chunk, at 589 ticks to the sample, and the reply without the white space
/// around it.
pub proof fn law_pieces_are_the_chunks_with_words(
    bounds: Seq<(usize, usize)>,
    replies: Seq<Option<Seq<char>>>,
) -> (chunks: Seq<int>)
    ensures
        transcript(bounds, replies).len() == chunks.len(),
        forall|i: int, j: int|
            0 <= i < j < chunks.len() ==> #[trigger] chunks[i] < #[trigger] chunks[j],
        forall|k: int|
            0 <= k < replies.len() ==> (#[trigger] chunks.contains(k) <==> (replies[k] is Some
                && exists|c: int| 0 <= c < replies[k]->0.len() && !white(#[trigger] replies[k]->0[c]))),
        forall|i: int|
            0 <= i < chunks.len() ==> 0 <= #[trigger] chunks[i] < replies.len() && {
                let piece = transcript(bounds, replies)[i];
                &&& piece.start == bounds[chunks[i]].0 * 589
                &&& piece.end == bounds[chunks[i]].1 * 589
                &&& piece.speaker.len() == 0
                &&& piece.text == trimmed(replies[chunks[i]]->0)
            },
{
    law_transcript_has_every_chunk_with_words(bounds, replies);
    let all = kept(replies);
    assert forall|k: int| 0 <= k < replies.len() implies (#[trigger] all.contains(k) <==> (
    replies[k] is Some && exists|c: int|
        0 <= c < replies[k]->0.len() && !white(#[trigger] replies[k]->0[c]))) by {
        if replies[k] is Some {
            lemma_words_are_not_white(replies[k]->0);
        }
        if all.contains(k) {
            let i = choose|i: int| 0 <= i < all.len() && all[i] == k;
            assert(words(replies[all[i]]).len() > 0);
        }
    }
    assert forall|i: int| 0 <= i < all.len() implies 0 <= #[trigger] all[i] < replies.len() && {
        let piece = transcript(bounds, replies)[i];
        &&& piece.start == bounds[all[i]].0 * 589
        &&& piece.end == bounds[all[i]].1 * 589
        &&& piece.speaker.len() == 0
        &&& piece.text == trimmed(replies[all[i]]->0)
    } by {
        assert(words(replies[all[i]]).len() > 0);
        assert(transcript(bounds, replies)[i] == piece(bounds[all[i]], words(replies[all[i]])));
    }
    all
}

/// Something remains of trimmed text where it has more than white space.
proof fn lemma_words_are_not_white(text: Seq<char>)
    ensures
        trimmed(text).len() > 0 <==> exists|c: int| 0 <= c < text.len() && !white(#[trigger] text[c]),
{
    let range = crate::text::law_trimmed(text);
    if trimmed(text).len() > 0 {
        assert(!white(text[range.0]));
    }
}

/// What a chunk was transcribed to is the text of the reply, where there is one.
pub proof fn law_replies_are_taken_as_they_are(text: String)
    ensures
        spoken(Some(text)) == Some(text@),
        spoken(None) is None,
{
}

} // verus!
