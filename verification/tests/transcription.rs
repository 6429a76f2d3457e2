use meetings::chunks::CHUNK_MAX_SAMPLES;
use meetings::errors::MeetingError;
use meetings::measure::Measure;
use meetings::segments::DiarSegment;
use meetings::time::{sample_ticks, TICKS_PER_SECOND};
use meetings::transcription::{
    assign_diarized_speakers, assign_speakers, begin, MeetingRun, MeetingSegment, Stage,
    NEW_SPEAKER_GAP_TICKS,
};

fn segment(start: i128, end: i128) -> MeetingSegment {
    MeetingSegment { start, end, speaker: String::new(), text: "x".to_string() }
}

fn labels(segments: &[MeetingSegment]) -> Vec<String> {
    segments.iter().map(|s| s.speaker.clone()).collect()
}

/// Transcribes a recording of `n` samples without silences.
fn transcribe(n: usize, replies: &[Option<&str>]) -> MeetingRun {
    let mut run = MeetingRun::new("job".to_string(), n, &Vec::<Measure>::new());
    let mut at = 0;
    while let Some(_chunk) = run.next_chunk(false).unwrap() {
        run.hear(replies[at].map(|s| s.to_string()));
        at += 1;
    }
    assert_eq!(at, replies.len());
    run
}

#[test]
fn a_job_needs_ffmpeg() {
    let error = begin("job", false).unwrap_err();
    assert_eq!(error, MeetingError::FfmpegMissing);
    assert_eq!(
        error.message(),
        "ffmpeg not found on PATH. Install ffmpeg to transcribe video files."
    );
    let progress = begin("job", true).unwrap();
    assert_eq!(progress.job_id, "job");
    assert_eq!(progress.stage, Stage::Extract);
    assert_eq!((progress.processed, progress.total), (0, 0));
}

#[test]
fn stages_have_names() {
    let names: Vec<&str> = [Stage::Extract, Stage::Transcribe, Stage::Diarize, Stage::Done]
        .iter()
        .map(|s| s.name())
        .collect();
    assert_eq!(names, vec!["extract", "transcribe", "diarize", "done"]);
}

#[test]
fn chunks_are_transcribed_in_turn() {
    let n = CHUNK_MAX_SAMPLES + 100;
    let mut run = MeetingRun::new("job".to_string(), n, &Vec::<Measure>::new());
    let first = run.next_chunk(false).unwrap().unwrap();
    assert_eq!((first.start, first.end), (0, CHUNK_MAX_SAMPLES));
    assert_eq!(first.progress.stage, Stage::Transcribe);
    assert_eq!(first.progress.job_id, "job");
    assert_eq!(first.progress.processed, 0);
    assert_eq!(first.progress.total, sample_ticks(n));
    run.hear(Some("one".to_string()));
    let second = run.next_chunk(false).unwrap().unwrap();
    assert_eq!((second.start, second.end), (CHUNK_MAX_SAMPLES, n));
    assert_eq!(second.progress.processed, sample_ticks(CHUNK_MAX_SAMPLES));
    run.hear(Some("two".to_string()));
    assert!(run.next_chunk(false).unwrap().is_none());
    assert!(run.next_chunk(true).unwrap().is_none());
    let diarizing = run.diarizing();
    assert_eq!((diarizing.stage, diarizing.total), (Stage::Diarize, sample_ticks(n)));
}

#[test]
fn a_cancelled_job_gets_no_chunk() {
    let run = MeetingRun::new("job".to_string(), 100, &Vec::<Measure>::new());
    let error = run.next_chunk(true).unwrap_err();
    assert_eq!(error, MeetingError::Cancelled);
    assert_eq!(error.message(), "Cancelled");
}

#[test]
fn a_result_has_the_words() {
    let n = CHUNK_MAX_SAMPLES + 100;
    let (result, progress) = transcribe(n, &[Some("  hello \n"), Some("you")]).finish(None);
    assert_eq!(result.job_id, "job");
    assert_eq!(result.duration, sample_ticks(n));
    assert_eq!(result.segments.len(), 2);
    assert_eq!(result.segments[0].text, "hello");
    assert_eq!(result.segments[0].start, 0);
    assert_eq!(result.segments[0].end, sample_ticks(CHUNK_MAX_SAMPLES));
    assert_eq!(result.segments[1].text, "you");
    assert_eq!(result.segments[1].start, sample_ticks(CHUNK_MAX_SAMPLES));
    assert_eq!(labels(&result.segments), vec!["Speaker 1", "Speaker 1"]);
    assert_eq!(progress.stage, Stage::Done);
    assert_eq!(progress.job_id, "job");
    assert_eq!((progress.processed, progress.total), (sample_ticks(n), sample_ticks(n)));
}

#[test]
fn blank_and_failed_chunks_are_dropped() {
    let n = 3 * CHUNK_MAX_SAMPLES + 100;
    let replies = [Some("a"), None, Some(" \t\u{3000}"), Some("b")];
    let (result, _) = transcribe(n, &replies).finish(None);
    let texts: Vec<&str> = result.segments.iter().map(|s| s.text.as_str()).collect();
    assert_eq!(texts, vec!["a", "b"]);
    // The gap that they leave is a long pause.
    assert_eq!(labels(&result.segments), vec!["Speaker 1", "Speaker 2"]);
}

#[test]
fn an_empty_recording_has_an_empty_transcript() {
    let (result, _) = transcribe(0, &[]).finish(None);
    assert_eq!(result.duration, 0);
    assert!(result.segments.is_empty());
}

#[test]
fn pauses_change_the_speaker() {
    assert_eq!(2 * NEW_SPEAKER_GAP_TICKS, 3 * TICKS_PER_SECOND);
    let gap = NEW_SPEAKER_GAP_TICKS;
    let mut segments = vec![
        segment(gap, gap + 10),
        segment(gap + 10, gap + 20),
        segment(2 * gap + 19, 2 * gap + 30),
        segment(3 * gap + 30, 3 * gap + 40),
        segment(0, 5),
        segment(5 + gap, 6 + gap),
        segment(6 + 2 * gap, 7 + 2 * gap),
        segment(7 + 3 * gap, 8 + 3 * gap),
    ];
    assign_speakers(&mut segments);
    assert_eq!(
        labels(&segments),
        vec![
            "Speaker 1",
            "Speaker 1",
            "Speaker 1",
            "Speaker 2",
            "Speaker 2",
            "Speaker 3",
            "Speaker 4",
            "Speaker 1"
        ]
    );
    assert!(segments.iter().all(|s| s.text == "x"));
    let mut none: Vec<MeetingSegment> = vec![];
    assign_speakers(&mut none);
    assert!(none.is_empty());
}

#[test]
fn extreme_pauses_do_not_overflow() {
    let mut segments =
        vec![segment(0, i128::MIN), segment(i128::MAX, i128::MAX), segment(i128::MIN, 0)];
    assign_speakers(&mut segments);
    assert_eq!(labels(&segments), vec!["Speaker 1", "Speaker 2", "Speaker 2"]);
}

#[test]
fn diarization_names_the_speakers() {
    let diar = vec![
        DiarSegment { start: 0, end: 10, speaker: 2 },
        DiarSegment { start: 10, end: 100, speaker: 11 },
    ];
    let mut segments = vec![segment(0, 12), segment(12, 50), segment(200, 300)];
    segments[2].speaker = "as before".to_string();
    assign_diarized_speakers(&mut segments, &diar);
    assert_eq!(labels(&segments), vec!["Speaker 3", "Speaker 12", "as before"]);
    let n = 1_000;
    let whole = vec![DiarSegment { start: 0, end: sample_ticks(n), speaker: 1 }];
    let (result, _) = transcribe(n, &[Some("hi")]).finish(Some(whole));
    assert_eq!(labels(&result.segments), vec!["Speaker 2"]);
    let (result, _) = transcribe(n, &[Some("hi")]).finish(Some(vec![]));
    assert_eq!(labels(&result.segments), vec!["Speaker 1"]);
}

#[test]
fn pauses_name_the_speakers_where_diarization_has_none() {
    let n = 4 * CHUNK_MAX_SAMPLES;
    let replies = [Some("a"), None, Some("b"), Some("c")];
    let third = vec![DiarSegment {
        start: sample_ticks(3 * CHUNK_MAX_SAMPLES),
        end: sample_ticks(n),
        speaker: 6,
    }];
    let (result, _) = transcribe(n, &replies).finish(Some(third));
    assert_eq!(labels(&result.segments), vec!["Speaker 1", "Speaker 2", "Speaker 7"]);
}
