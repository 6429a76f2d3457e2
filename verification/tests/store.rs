use meetings::measure::Measure;
use meetings::store::{read_back, row_at, row_now, summarize, MeetingRow, NewMeeting, StoredMeeting};

fn seconds(x: f32) -> Measure {
    Measure { bits: x.to_bits() }
}

fn stored(id: i64, new: NewMeeting) -> MeetingRow {
    MeetingRow {
        id,
        created_at: new.created_at,
        file_name: new.file_name,
        source_path: new.source_path,
        language: new.language,
        duration_secs: new.duration_secs,
        segments_json: new.segments_json,
    }
}

fn speakers(names: &[&str]) -> Vec<String> {
    names.iter().map(|s| s.to_string()).collect()
}

#[test]
fn a_row_has_what_is_stored() {
    let row = row_at(1_700_000_000, "/a/b.mp4", "b.mp4", "ru", seconds(12.5), "[]".to_string());
    assert_eq!(row.created_at, 1_700_000_000);
    assert_eq!(row.source_path, "/a/b.mp4");
    assert_eq!(row.file_name, "b.mp4");
    assert_eq!(row.language, "ru");
    assert_eq!(row.duration_secs, seconds(12.5));
    assert_eq!(row.segments_json, "[]");
}

#[test]
fn a_row_now_has_the_time() {
    let before = chrono::Utc::now().timestamp();
    let row = row_now("/a/b.mp4", "b.mp4", "en", seconds(1.0), "[]".to_string());
    let after = chrono::Utc::now().timestamp();
    assert!(before <= row.created_at && row.created_at <= after);
    assert!(row.created_at > 1_500_000_000);
    assert_eq!(row.language, "en");
}

#[test]
fn a_meeting_reads_back_as_stored() {
    let new = row_at(5, "/a/b.mp4", "b.mp4", "auto", seconds(0.1), "[]".to_string());
    let meeting: StoredMeeting<u8> = read_back(Some(stored(42, new)), Some(vec![1, 2])).unwrap();
    assert_eq!(meeting.id, 42);
    assert_eq!(meeting.created_at, 5);
    assert_eq!(meeting.source_path, "/a/b.mp4");
    assert_eq!(meeting.file_name, "b.mp4");
    assert_eq!(meeting.language, "auto");
    assert_eq!(meeting.duration_secs, seconds(0.1));
    assert_eq!(meeting.segments, vec![1, 2]);
}

#[test]
fn no_row_is_no_meeting() {
    assert!(read_back::<u8>(None, Some(vec![1])).is_none());
    assert!(read_back::<u8>(None, None).is_none());
}

#[test]
fn segments_that_cannot_be_decoded_are_none() {
    let new = row_at(5, "p", "f", "en", seconds(0.1), "not json".to_string());
    assert_eq!(read_back::<u8>(Some(stored(1, new)), None).unwrap().segments, Vec::<u8>::new());
    let again = row_at(5, "p", "f", "en", seconds(0.1), "not json".to_string());
    let summary = summarize(stored(1, again), None);
    assert_eq!((summary.segment_count, summary.speaker_count), (0, 0));
}

#[test]
fn a_summary_counts_segments_and_speakers() {
    let new = row_at(7, "/x.wav", "x.wav", "en", seconds(3.0), "[..]".to_string());
    let names = speakers(&["Speaker 1", "Speaker 2", "Speaker 1", "", "Speaker 2"]);
    let summary = summarize(stored(9, new), Some(names));
    assert_eq!(summary.id, 9);
    assert_eq!(summary.created_at, 7);
    assert_eq!(summary.file_name, "x.wav");
    assert_eq!(summary.source_path, "/x.wav");
    assert_eq!(summary.language, "en");
    assert_eq!(summary.duration_secs, seconds(3.0));
    assert_eq!(summary.segment_count, 5);
    assert_eq!(summary.speaker_count, 3);
    let empty = row_at(7, "/x.wav", "x.wav", "en", seconds(3.0), "[]".to_string());
    let summary = summarize(stored(9, empty), Some(vec![]));
    assert_eq!((summary.segment_count, summary.speaker_count), (0, 0));
}
