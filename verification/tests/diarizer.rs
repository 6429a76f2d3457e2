use meetings::arrays::Activity;
use meetings::cluster::DistanceMatrix;
use meetings::diarizer::{
    diarization_outcome, requested_speakers, DiarizeError, Diarizer, EmbedStep, Window, STEP_SAMPLES, WINDOW_SAMPLES,
};
use meetings::measure::Measure;
use meetings::segments::DiarSegment;
use meetings::time::frame_ticks;
use meetings::turns::Turn;

fn windows(n: usize) -> Vec<Window> {
    let mut run = Diarizer::new(n, 10, None);
    let mut all = Vec::new();
    while let Some(w) = run.next_window(false).unwrap() {
        all.push(w);
        run.place(589, 7).unwrap();
    }
    all
}

#[test]
fn an_empty_recording_has_no_window() {
    assert_eq!(windows(0), vec![]);
    assert_eq!(Diarizer::new(0, 1, None).next_window(true), Ok(None));
}

#[test]
fn a_short_recording_has_one_window() {
    for n in [1, 16_000, WINDOW_SAMPLES] {
        assert_eq!(windows(n), vec![Window { start: 0, end: n, frame_offset: 0 }]);
    }
}

#[test]
fn windows_advance_by_a_second() {
    assert_eq!(
        windows(WINDOW_SAMPLES + 1),
        vec![
            Window { start: 0, end: 160_000, frame_offset: 0 },
            Window { start: 16_000, end: 160_001, frame_offset: 59 },
        ]
    );
    let all = windows(12 * 16_000);
    assert_eq!(all.len(), 3);
    assert_eq!(all[2], Window { start: 32_000, end: 192_000, frame_offset: 118 });
}

#[test]
fn windows_cover_every_sample() {
    for n in [5, 159_999, 160_000, 160_001, 400_000, 1_234_567] {
        let all = windows(n);
        assert_eq!(all[0].start, 0);
        assert_eq!(all[all.len() - 1].end, n);
        for w in all.windows(2) {
            assert_eq!(w[1].start - w[0].start, STEP_SAMPLES);
            assert_eq!(w[0].end - w[0].start, WINDOW_SAMPLES);
            assert!(w[1].start < w[0].end);
        }
    }
}

#[test]
fn frame_offsets_are_rounded_to_the_nearest_frame() {
    // In single precision, as a time divided by the length of a frame.
    let frame = 10.0f32 / 589.0;
    let all = windows(16_000 * 3600);
    assert_eq!(all.len(), 3591);
    for w in all {
        let expected = (w.start as f32 / 16_000.0 / frame).round() as usize;
        assert_eq!(w.frame_offset, expected);
    }
}

#[test]
fn a_cancelled_job_gets_no_window() {
    let run = Diarizer::new(100, 10, None);
    assert_eq!(run.next_window(true), Err(DiarizeError::Cancelled));
    assert_eq!(DiarizeError::Cancelled.message(), "Cancelled");
}

#[test]
fn another_number_of_classes_is_refused() {
    let mut run = Diarizer::new(100, 10, None);
    let error = run.place(589, 5).unwrap_err();
    assert_eq!(error, DiarizeError::UnexpectedClasses(5));
    assert_eq!(error.message(), "unexpected segmentation output classes: 5 (expected 7)");
    // Nothing was laid.
    assert!(run.next_window(false).unwrap().is_some());
    for g in 0..10 {
        assert_eq!(run.divisor(g), 1);
    }
}

#[test]
fn frames_are_counted_where_windows_overlap() {
    // Eleven seconds: two windows, the second 59 frames after the first.
    let total = 648;
    let mut run = Diarizer::new(11 * 16_000, total, None);
    let first = run.place(589, 7).unwrap();
    assert_eq!(first.placed, 589);
    assert_eq!(first.shared, Vec::<usize>::new());
    let second = run.place(589, 7).unwrap();
    assert_eq!(second.placed, 589);
    assert_eq!(second.shared, (0..530).collect::<Vec<usize>>());
    assert_eq!(run.next_window(false), Ok(None));
    for g in 0..total {
        assert_eq!(run.divisor(g), if g < 59 || g >= 589 { 1 } else { 2 });
    }
}

#[test]
fn frames_beyond_the_recording_are_dropped() {
    let mut run = Diarizer::new(100, 4, None);
    let p = run.place(589, 7).unwrap();
    assert_eq!(p.placed, 4);
    let mut empty = Diarizer::new(100, 0, None);
    assert_eq!(empty.place(589, 7).unwrap().placed, 0);
}

#[test]
fn long_turns_are_embedded() {
    let run = Diarizer::new(50_000, 10, None);
    assert_eq!(run.embed_step(1_000, 20_000, false), Ok(EmbedStep::Samples(1_000, 20_000)));
    assert_eq!(run.embed_step(1_000, 80_000, false), Ok(EmbedStep::Samples(1_000, 50_000)));
    assert_eq!(run.embed_step(1_000, 5_000, false), Ok(EmbedStep::Zero));
    assert_eq!(run.embed_step(1_000, 5_001, false), Ok(EmbedStep::Samples(1_000, 5_001)));
    assert_eq!(run.embed_step(49_000, 60_000, false), Ok(EmbedStep::Zero));
    assert_eq!(run.embed_step(usize::MAX, usize::MAX, false), Ok(EmbedStep::Zero));
    assert_eq!(run.embed_step(1_000, 20_000, true), Err(DiarizeError::Cancelled));
}

#[test]
fn turns_use_the_levels_of_the_model() {
    let run = Diarizer::new(50_000, 10, None);
    let level = |x: f32| Measure { bits: x.to_bits() };
    let mut levels = Vec::new();
    for f in 0..40 {
        levels.push(level(0.4));
        levels.push(level(if f >= 10 && f < 30 { 0.51 } else { 0.19 }));
    }
    let turns = run.turns(&Activity::new(40, 2, &levels).unwrap());
    assert_eq!(turns, vec![Turn { start: 10, end: 30, local_speaker: 1 }]);
}

#[test]
fn turns_become_segments_of_speakers() {
    let turn = |start, end, local_speaker| Turn { start, end, local_speaker };
    // The first and the last turn are close in voice; so are the other two,
    // which are also close in time.
    let turns = vec![turn(0, 100, 0), turn(120, 150, 1), turn(170, 200, 2), turn(300, 400, 1)];
    let level = |x: f32| Measure { bits: x.to_bits() };
    let mut d = DistanceMatrix::new();
    d.push(vec![]);
    d.push(vec![level(1.2)]);
    d.push(vec![level(1.1), level(0.3)]);
    d.push(vec![level(0.2), level(1.0), level(0.9)]);
    let seg = |a, b, speaker| DiarSegment { start: frame_ticks(a), end: frame_ticks(b), speaker };
    assert_eq!(
        Diarizer::new(1_000_000, 500, None).diarize(&turns, &d),
        vec![seg(0, 100, 0), seg(120, 200, 1), seg(300, 400, 0)]
    );
    assert_eq!(
        Diarizer::new(1_000_000, 500, Some(4)).diarize(&turns, &d),
        vec![seg(0, 100, 0), seg(120, 150, 1), seg(170, 200, 2), seg(300, 400, 3)]
    );
    assert_eq!(
        Diarizer::new(1_000_000, 500, Some(1)).diarize(&turns, &d),
        vec![seg(0, 200, 0), seg(300, 400, 0)]
    );
    assert_eq!(Diarizer::new(1, 1, None).diarize(&vec![], &DistanceMatrix::new()), vec![]);
}

#[test]
fn zero_speakers_leave_the_number_open() {
    assert_eq!(requested_speakers(0), None);
    assert_eq!(requested_speakers(3), Some(3));
}

#[test]
fn a_diarization_has_the_speakers_asked_for() {
    let turns: Vec<Turn> =
        (0..5).map(|i| Turn { start: 100 * i, end: 100 * i + 90, local_speaker: 0 }).collect();
    let mut d = DistanceMatrix::new();
    for j in 0..5 {
        let row = (0..j).map(|i| Measure { bits: (0.1 * (i + 2 * j) as f32).to_bits() }).collect();
        d.push(row);
    }
    for k in 0..8 {
        let out = Diarizer::new(1_000_000, 500, Some(k)).diarize(&turns, &d);
        let speakers = k.max(1).min(5);
        for s in 0..8 {
            assert_eq!(out.iter().any(|seg| seg.speaker == s), s < speakers);
        }
        for t in &turns {
            let (start, end) = (frame_ticks(t.start), frame_ticks(t.end));
            assert!(out.iter().any(|seg| seg.start <= start && end <= seg.end));
        }
    }
}

#[test]
fn a_diarization_needs_the_models_and_a_run_that_succeeds() {
    let found = || vec![DiarSegment { start: 1, end: 2, speaker: 3 }];
    for cancelled in [false, true] {
        assert_eq!(diarization_outcome(false, Ok(found()), cancelled), Ok(None));
        assert_eq!(diarization_outcome(false, Err(()), cancelled), Ok(None));
        assert_eq!(diarization_outcome(true, Ok(found()), cancelled), Ok(Some(found())));
    }
    assert_eq!(diarization_outcome(true, Err(()), false), Ok(None));
    assert_eq!(diarization_outcome(true, Err(()), true), Err(DiarizeError::Cancelled));
}
