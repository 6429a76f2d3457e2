//! Completed meetings, as they are stored and read back.
//!
//! A meeting is one row of a table. What its segments hold is text to this
//! module; the rows themselves are written and read elsewhere.

use crate::measure::Measure;
use vstd::hash_set::StringHashSet;
use vstd::prelude::*;

verus! {

/// A meeting to be stored: its row, but for the id that it will get.
#[derive(Debug)]
pub struct NewMeeting {
    /// When it was stored, in seconds since 1970.
    pub created_at: i64,
    /// The file that was transcribed.
    pub source_path: String,
    /// The name to show for it.
    pub file_name: String,
    /// Its language.
    pub language: String,
    /// Its length in seconds.
    pub duration_secs: Measure,
    /// Its segments, encoded.
    pub segments_json: String,
}

/// A stored meeting, as its row has it.
#[derive(Debug)]
pub struct MeetingRow {
    /// The id of the row.
    pub id: i64,
    /// When it was stored, in seconds since 1970.
    pub created_at: i64,
    /// The name to show for it.
    pub file_name: String,
    /// The file that was transcribed.
    pub source_path: String,
    /// Its language.
    pub language: String,
    /// Its length in seconds.
    pub duration_secs: Measure,
    /// Its segments, encoded.
    pub segments_json: String,
}

/// What a list of meetings shows of one.
#[derive(Debug)]
pub struct MeetingSummary {
    /// The id of its row.
    pub id: i64,
    /// When it was stored, in seconds since 1970.
    pub created_at: i64,
    /// The name to show for it.
    pub file_name: String,
    /// The file that was transcribed.
    pub source_path: String,
    /// Its language.
    pub language: String,
    /// Its length in seconds.
    pub duration_secs: Measure,
    /// How many segments it has.
    pub segment_count: usize,
    /// How many speakers its segments name.
    pub speaker_count: usize,
}

/// A meeting that was read back, with segments of type `S`.
#[derive(Debug)]
pub struct StoredMeeting<S> {
    /// The id of its row.
    pub id: i64,
    /// When it was stored, in seconds since 1970.
    pub created_at: i64,
    /// The name to show for it.
    pub file_name: String,
    /// The file that was transcribed.
    pub source_path: String,
    /// Its language.
    pub language: String,
    /// Its length in seconds.
    pub duration_secs: Measure,
    /// Its segments.
    pub segments: Vec<S>,
}

/// The time now, in whole seconds since 1970, from `chrono::Utc::now` and
/// `DateTime::timestamp`. The clock decides which time it is; that it is not
/// before 1970 is all that is claimed.
#[verifier::external_body]
fn now_seconds() -> (r: i64)
    ensures
        r >= 0,
{
    chrono::Utc::now().timestamp()
}

/// `row` is the row of a meeting stored at `now`.
pub open spec fn is_row_at(
    row: NewMeeting,
    now: i64,
    source_path: Seq<char>,
    file_name: Seq<char>,
    language: Seq<char>,
    duration_secs: Measure,
    segments_json: Seq<char>,
) -> bool {
    &&& row.created_at == now
    &&& row.source_path@ == source_path
    &&& row.file_name@ == file_name
    &&& row.language@ == language
    &&& row.duration_secs == duration_secs
    &&& row.segments_json@ == segments_json
}

/// The row of a meeting that is stored at the time `now`.
pub fn row_at(
    now: i64,
    source_path: &str,
    file_name: &str,
    language: &str,
    duration_secs: Measure,
    segments_json: String,
) -> (row: NewMeeting)
    ensures
        is_row_at(
            row,
            now,
            source_path@,
            file_name@,
            language@,
            duration_secs,
            segments_json@,
        ),
{
    NewMeeting {
        created_at: now,
        source_path: source_path.to_owned(),
        file_name: file_name.to_owned(),
        language: language.to_owned(),
        duration_secs,
        segments_json,
    }
}

/// The row of a meeting that is stored now.
pub fn row_now(
    source_path: &str,
    file_name: &str,
    language: &str,
    duration_secs: Measure,
    segments_json: String,
) -> (row: NewMeeting)
    ensures
        row.created_at >= 0,
        is_row_at(
            row,
            row.created_at,
            source_path@,
            file_name@,
            language@,
            duration_secs,
            segments_json@,
        ),
{
    row_at(now_seconds(), source_path, file_name, language, duration_secs, segments_json)
}

/// The different speakers that are named.
pub open spec fn named(speakers: Seq<String>) -> Set<Seq<char>> {
    Seq::new(speakers.len(), |i: int| speakers[i]@).to_set()
}

/// How many different speakers are named.
fn count_speakers(speakers: &Vec<String>) -> (r: usize)
    ensures
        r == named(speakers@).len(),
{
    let ghost views = Seq::new(speakers@.len(), |i: int| speakers@[i]@);
    let mut set: StringHashSet = StringHashSet::new();
    assert(views.take(0).to_set() =~= Set::<Seq<char>>::empty());
    for i in 0..speakers.len()
        invariant
            views == Seq::new(speakers@.len(), |i: int| speakers@[i]@),
            set@ == views.take(i as int).to_set(),
    {
        set.insert(speakers[i].clone());
        proof {
            let before = views.take(i as int);
            let after = views.take(i + 1);
            assert(after =~= before.push(views[i as int]));
            assert forall|x: Seq<char>|
                after.to_set().contains(x) <==> before.to_set().insert(views[i as int]).contains(
                    x,
                ) by {
                if before.contains(x) {
                    let k = choose|k: int| 0 <= k < before.len() && before[k] == x;
                    assert(after[k] == x);
                }
                if x == views[i as int] {
                    assert(after[i as int] == x);
                }
                if after.contains(x) {
                    let k = choose|k: int| 0 <= k < after.len() && after[k] == x;
                    if k < i {
                        assert(before[k] == x);
                    }
                }
            }
            assert(after.to_set() =~= before.to_set().insert(views[i as int]));
        }
    }
    assert(views.take(speakers@.len() as int) =~= views);
    set.len()
}

/// What a list of meetings shows of the meeting in `row`. `speakers` has the
/// speaker of each of its segments, or nothing where these cannot be decoded;
/// the meeting is then shown as one without segments.
pub fn summarize(row: MeetingRow, speakers: Option<Vec<String>>) -> (r: MeetingSummary)
    ensures
        r.id == row.id,
        r.created_at == row.created_at,
        r.file_name == row.file_name,
        r.source_path == row.source_path,
        r.language == row.language,
        r.duration_secs == row.duration_secs,
        match speakers {
            Some(s) => r.segment_count == s@.len() && r.speaker_count == named(s@).len(),
            None => r.segment_count == 0 && r.speaker_count == 0,
        },
{
    let (segment_count, speaker_count): (usize, usize) = match &speakers {
        Some(s) => (s.len(), count_speakers(s)),
        None => (0, 0),
    };
    MeetingSummary {
        id: row.id,
        created_at: row.created_at,
        file_name: row.file_name,
        source_path: row.source_path,
        language: row.language,
        duration_secs: row.duration_secs,
        segment_count,
        speaker_count,
    }
}

/// `meeting` is the meeting in `row`, with the segments that were decoded from
/// it, and none where they cannot be decoded.
pub open spec fn is_meeting<S>(
    meeting: StoredMeeting<S>,
    row: MeetingRow,
    decoded: Option<Vec<S>>,
) -> bool {
    &&& meeting.id == row.id
    &&& meeting.created_at == row.created_at
    &&& meeting.file_name == row.file_name
    &&& meeting.source_path == row.source_path
    &&& meeting.language == row.language
    &&& meeting.duration_secs == row.duration_secs
    &&& match decoded {
        Some(segments) => meeting.segments == segments,
        None => meeting.segments@ == Seq::<S>::empty(),
    }
}

/// The meeting in the row that was found, if one was, with the segments that
/// were decoded from it, and none where they cannot be decoded.
pub fn read_back<S>(row: Option<MeetingRow>, segments: Option<Vec<S>>) -> (r: Option<
    StoredMeeting<S>,
>)
    ensures
        match row {
            None => r is None,
            Some(row) => r matches Some(meeting) && is_meeting(meeting, row, segments),
        },
{
    match row {
        None => None,
        Some(row) => {
            let segments: Vec<S> = match segments {
                Some(s) => s,
                None => Vec::new(),
            };
            Some(
                StoredMeeting {
                    id: row.id,
                    created_at: row.created_at,
                    file_name: row.file_name,
                    source_path: row.source_path,
                    language: row.language,
                    duration_secs: row.duration_secs,
                    segments,
                },
            )
        },
    }
}

/// A row as the table gives it back: what was put in, and the id it got.
pub open spec fn stored_as(new: NewMeeting, id: i64, row: MeetingRow) -> bool {
    &&& row.id == id
    &&& row.created_at == new.created_at
    &&& row.file_name == new.file_name
    &&& row.source_path == new.source_path
    &&& row.language == new.language
    &&& row.duration_secs == new.duration_secs
    &&& row.segments_json == new.segments_json
}

/// A meeting read back from the row that it was stored in has what it was
/// stored with. What the table gives back is what was put in, and `decode`
/// decodes the encoded segments to what they were: so much is up to the
/// database and the encoding.
pub proof fn law_meetings_read_back<S>(
    new: NewMeeting,
    now: i64,
    source_path: Seq<char>,
    file_name: Seq<char>,
    language: Seq<char>,
    duration_secs: Measure,
    segments_json: Seq<char>,
    id: i64,
    row: MeetingRow,
    decode: spec_fn(Seq<char>) -> Option<Vec<S>>,
    segments: Vec<S>,
    meeting: StoredMeeting<S>,
)
    requires
        is_row_at(new, now, source_path, file_name, language, duration_secs, segments_json),
        stored_as(new, id, row),
        decode(segments_json) == Some(segments),
        is_meeting(meeting, row, decode(row.segments_json@)),
    ensures
        meeting.id == id,
        meeting.created_at == now,
        meeting.source_path@ == source_path,
        meeting.file_name@ == file_name,
        meeting.language@ == language,
        meeting.duration_secs == duration_secs,
        meeting.segments == segments,
{
}

/// A meeting has no more speakers than segments, and has one as soon as it
/// has a segment.
pub proof fn law_speakers_and_segments(speakers: Seq<String>)
    ensures
        named(speakers).len() <= speakers.len(),
        speakers.len() > 0 ==> named(speakers).len() > 0,
{
    let views = Seq::new(speakers.len(), |i: int| speakers[i]@);
    views.lemma_cardinality_of_set();
    if speakers.len() > 0 {
        vstd::seq_lib::seq_to_set_is_finite(views);
        assert(views.contains(views[0]));
        assert(named(speakers).contains(views[0]));
        if named(speakers).len() == 0 {
            assert(named(speakers) =~= Set::<Seq<char>>::empty());
        }
    }
}

/// A speaker is named exactly where some segment has it; segments with one
/// speaker name it once.
pub proof fn law_named_speakers(speakers: Seq<String>, name: Seq<char>)
    ensures
        named(speakers).finite(),
        named(speakers).contains(name) <==> exists|i: int|
            0 <= i < speakers.len() && (#[trigger] speakers[i])@ == name,
{
    let views = Seq::new(speakers.len(), |i: int| speakers[i]@);
    vstd::seq_lib::seq_to_set_is_finite(views);
    if exists|i: int| 0 <= i < speakers.len() && (#[trigger] speakers[i])@ == name {
        let i = choose|i: int| 0 <= i < speakers.len() && (#[trigger] speakers[i])@ == name;
        assert(views[i] == name);
    }
    if named(speakers).contains(name) {
        let i = choose|i: int| 0 <= i < views.len() && views[i] == name;
        assert(speakers[i]@ == name);
    }
}

/// A row has what was handed over to be stored.
pub proof fn law_rows_have_what_is_stored(
    row: NewMeeting,
    now: i64,
    source_path: Seq<char>,
    file_name: Seq<char>,
    language: Seq<char>,
    duration_secs: Measure,
    segments_json: Seq<char>,
)
    requires
        is_row_at(row, now, source_path, file_name, language, duration_secs, segments_json),
    ensures
        row.created_at == now,
        row.source_path@ == source_path,
        row.file_name@ == file_name,
        row.language@ == language,
        row.duration_secs == duration_secs,
        row.segments_json@ == segments_json,
{
}

/// A meeting has the segments that were decoded, all of them and in order, and
/// none where they cannot be decoded; the rest is as its row has it.
pub proof fn law_meetings_match_their_row<S>(
    meeting: StoredMeeting<S>,
    row: MeetingRow,
    decoded: Option<Vec<S>>,
)
    requires
        is_meeting(meeting, row, decoded),
    ensures
        decoded is Some ==> meeting.segments@ == decoded->0@,
        decoded is None ==> meeting.segments@.len() == 0,
        meeting.id == row.id,
        meeting.created_at == row.created_at,
        meeting.file_name@ == row.file_name@,
        meeting.source_path@ == row.source_path@,
        meeting.language@ == row.language@,
        meeting.duration_secs == row.duration_secs,
{
}

} // verus!
