//! Turns of speech, found in the activity of each speaker channel.

use crate::arrays::Activity;
use crate::measure::Measure;
use crate::order::{precedes, sorts, stable_order};
use crate::time::TICKS_PER_SECOND;
use vstd::prelude::*;

verus! {

/// A turn begins where the activity rises above one half.
pub const ONSET_BITS: u32 = 0x3F00_0000;

/// A turn ends where the activity falls below one fifth.
pub const OFFSET_BITS: u32 = 0x3E4C_CCCD;

/// The shortest turn: a quarter of a second, in ticks.
pub const MIN_TURN_TICKS: i128 = 2_356_000;

/// A turn on one speaker channel: the frames from `start` up to `end`.
#[derive(Clone, Copy, Debug, PartialEq, Eq, Structural)]
pub struct Turn {
    /// The first frame.
    pub start: usize,
    /// The frame after the last.
    pub end: usize,
    /// The speaker channel.
    pub local_speaker: usize,
}

/// Whether a turn is under way before frame `f`. One begins at a level above
/// `onset` and lasts until a level below `offset`.
pub open spec fn speaking(levels: Seq<Measure>, onset: Measure, offset: Measure, f: int) -> bool
    decreases f,
{
    if f <= 0 {
        false
    } else if speaking(levels, onset, offset, f - 1) {
        !levels[f - 1].less(offset)
    } else {
        onset.less(levels[f - 1])
    }
}

/// The frames from `a` up to `b` are one unbroken stretch of speech.
pub open spec fn stretch(
    levels: Seq<Measure>,
    onset: Measure,
    offset: Measure,
    a: int,
    b: int,
) -> bool {
    &&& 0 <= a < b <= levels.len()
    &&& !speaking(levels, onset, offset, a)
    &&& forall|f: int| a < f <= b ==> #[trigger] speaking(levels, onset, offset, f)
    &&& b == levels.len() || !speaking(levels, onset, offset, b + 1)
}

/// The frames from `a` up to `b`, each of `ticks` ticks, last at least as long
/// as the shortest turn.
pub open spec fn long_enough(ticks: u64, a: int, b: int) -> bool {
    (b - a) * ticks >= MIN_TURN_TICKS
}

/// `t` is a turn: a stretch of speech on its channel that is long enough.
pub open spec fn is_turn(
    activity: Seq<Seq<Measure>>,
    ticks: u64,
    onset: Measure,
    offset: Measure,
    t: Turn,
) -> bool {
    &&& t.local_speaker < activity.len()
    &&& stretch(
        activity[t.local_speaker as int],
        onset,
        offset,
        t.start as int,
        t.end as int,
    )
    &&& long_enough(ticks, t.start as int, t.end as int)
}

/// Turn `t` is listed before turn `u`: it starts earlier, or at the same frame
/// on an earlier channel.
pub open spec fn listed_before(t: Turn, u: Turn) -> bool {
    t.start < u.start || (t.start == u.start && t.local_speaker < u.local_speaker)
}

/// `out` lists exactly the turns, by their start.
pub open spec fn turns_of(
    activity: Seq<Seq<Measure>>,
    ticks: u64,
    onset: Measure,
    offset: Measure,
    out: Seq<Turn>,
) -> bool {
    &&& forall|i: int|
        0 <= i < out.len() ==> is_turn(activity, ticks, onset, offset, #[trigger] out[i])
    &&& forall|t: Turn| #[trigger] is_turn(activity, ticks, onset, offset, t) ==> out.contains(t)
    &&& forall|i: int, j: int|
        0 <= i < j < out.len() ==> listed_before(#[trigger] out[i], #[trigger] out[j])
}

/// Turns listed channel by channel, and by their start on each channel.
spec fn by_channel(raw: Seq<Turn>) -> bool {
    forall|i: int, j: int|
        0 <= i < j < raw.len() ==> (#[trigger] raw[i]).local_speaker < (#[trigger] raw[j]).local_speaker
            || (raw[i].local_speaker == raw[j].local_speaker && raw[i].start < raw[j].start)
}

/// Whether the frames from `a` up to `b` last as long as the shortest turn.
fn lasts(ticks: u64, a: usize, b: usize) -> (r: bool)
    requires
        a <= b,
    ensures
        r == long_enough(ticks, a as int, b as int),
{
    let frames: u128 = (b - a) as u128;
    let each: u128 = ticks as u128;
    assert(0 <= frames * each <= u128::MAX) by (nonlinear_arith)
        requires
            0 <= frames <= u64::MAX,
            0 <= each <= u64::MAX,
    ;
    frames * each >= MIN_TURN_TICKS as u128
}

/// Adds the turns of channel `s`, the channels before it being done.
fn channel_turns(
    activity: &Activity,
    ticks: u64,
    onset: Measure,
    offset: Measure,
    s: usize,
    turns: &mut Vec<Turn>,
)
    requires
        s < activity@.len(),
        by_channel(old(turns)@),
        forall|i: int|
            0 <= i < old(turns)@.len() ==> is_turn(
                activity@,
                ticks,
                onset,
                offset,
                #[trigger] old(turns)@[i],
            )
                && old(turns)@[i].local_speaker < s,
        forall|t: Turn| #[trigger]
            is_turn(activity@, ticks, onset, offset, t) && t.local_speaker < s ==> old(turns)@.contains(t),
    ensures
        by_channel(final(turns)@),
        forall|i: int|
            0 <= i < final(turns)@.len() ==> is_turn(
                activity@,
                ticks,
                onset,
                offset,
                #[trigger] final(turns)@[i],
            ) && final(turns)@[i].local_speaker <= s,
        forall|t: Turn| #[trigger]
            is_turn(activity@, ticks, onset, offset, t) && t.local_speaker <= s ==> final(turns)@.contains(t),
{
    let n: usize = activity.frames();
    let ghost levels = activity@[s as int];
    let mut active: bool = false;
    let mut t_start: usize = 0;
    for f in 0..n
        invariant
            s < activity@.len(),
            n == levels.len(),
            levels == activity@[s as int],
            active == speaking(levels, onset, offset, f as int),
            active ==> t_start < f && !speaking(levels, onset, offset, t_start as int) && forall|g: int|
                t_start < g <= f ==> #[trigger] speaking(levels, onset, offset, g),
            by_channel(turns@),
            forall|i: int|
                0 <= i < turns@.len() ==> is_turn(
                activity@,
                ticks,
                onset,
                offset,
                #[trigger] turns@[i],
            )
                    && turns@[i].local_speaker <= s && (turns@[i].local_speaker == s ==> turns@[i].end
                    < f && (active ==> turns@[i].end <= t_start)),
            forall|t: Turn| #[trigger]
                is_turn(activity@, ticks, onset, offset, t) && (t.local_speaker < s || (t.local_speaker == s
                    && t.end < f)) ==> turns@.contains(t),
    {
        let v: Measure = activity.level(f, s);
        let ghost before = turns@;
        let ghost was_active = active;
        let ghost was_start = t_start;
        assert(v == levels[f as int]);
        assert(speaking(levels, onset, offset, f + 1) == (if was_active {
            !v.less(offset)
        } else {
            onset.less(v)
        }));
        if !active && v.gt(&onset) {
            active = true;
            t_start = f;
        } else if active && v.lt(&offset) {
            active = false;
            if lasts(ticks, t_start, f) {
                let turn: Turn = Turn { start: t_start, end: f, local_speaker: s };
                assert(is_turn(activity@, ticks, onset, offset, turn));
                turns.push(turn);
                assert(turns@[before.len() as int] == turn);
            }
        }
        proof {
            assert forall|t: Turn| #[trigger]
                is_turn(activity@, ticks, onset, offset, t) && (t.local_speaker < s || (t.local_speaker == s
                    && t.end < f + 1)) implies turns@.contains(t) by {
                if t.local_speaker == s && t.end == f {
                    assert(speaking(levels, onset, offset, f as int));
                    assert(!speaking(levels, onset, offset, f + 1));
                    if t.start < was_start {
                        assert(speaking(levels, onset, offset, was_start as int));
                    }
                    if was_start < t.start {
                        assert(speaking(levels, onset, offset, t.start as int));
                    }
                    assert(turns@[before.len() as int] == t);
                } else {
                    assert(before.contains(t));
                    let k = choose|k: int| 0 <= k < before.len() && before[k] == t;
                    assert(turns@[k] == t);
                }
            }
            assert forall|i: int| 0 <= i < turns@.len() implies is_turn(
                activity@,
                ticks,
                onset,
                offset,
                #[trigger] turns@[i],
            ) && turns@[i].local_speaker <= s && (turns@[i].local_speaker == s ==> turns@[i].end < f + 1
                && (active ==> turns@[i].end <= t_start)) by {
                if i < before.len() {
                    assert(turns@[i] == before[i]);
                }
            }
        }
    }
    if active {
        let ghost before = turns@;
        if lasts(ticks, t_start, n) {
            let turn: Turn = Turn { start: t_start, end: n, local_speaker: s };
            assert(is_turn(activity@, ticks, onset, offset, turn));
            turns.push(turn);
            assert(turns@[before.len() as int] == turn);
        }
        proof {
            assert forall|t: Turn| #[trigger]
                is_turn(activity@, ticks, onset, offset, t) && t.local_speaker <= s implies turns@.contains(
                t,
            ) by {
                if t.local_speaker == s && t.end == n {
                    if t.start < t_start {
                        assert(speaking(levels, onset, offset, t_start as int));
                    }
                    if t_start < t.start {
                        assert(speaking(levels, onset, offset, t.start as int));
                    }
                    assert(turns@[before.len() as int] == t);
                } else {
                    assert(before.contains(t));
                    let k = choose|k: int| 0 <= k < before.len() && before[k] == t;
                    assert(turns@[k] == t);
                }
            }
        }
    } else {
        assert forall|t: Turn| #[trigger]
            is_turn(activity@, ticks, onset, offset, t) && t.local_speaker <= s implies turns@.contains(t) by {
            if t.local_speaker == s && t.end == n {
                assert(speaking(levels, onset, offset, n as int));
            }
        }
    }
}

/// The turns of all channels, by their start. A frame lasts `ticks` ticks.
pub fn extract_turns(
    activity: &Activity,
    ticks: u64,
    onset: Measure,
    offset: Measure,
) -> (out: Vec<Turn>)
    ensures
        turns_of(activity@, ticks, onset, offset, out@),
{
    let mut raw: Vec<Turn> = Vec::new();
    let channels: usize = activity.channels();
    for s in 0..channels
        invariant
            channels == activity@.len(),
            by_channel(raw@),
            forall|i: int|
                0 <= i < raw@.len() ==> is_turn(
                activity@,
                ticks,
                onset,
                offset,
                #[trigger] raw@[i],
            )
                    && raw@[i].local_speaker < s,
            forall|t: Turn| #[trigger]
                is_turn(activity@, ticks, onset, offset, t) && t.local_speaker < s ==> raw@.contains(t),
    {
        channel_turns(activity, ticks, onset, offset, s, &mut raw);
    }
    let mut keys: Vec<i128> = Vec::new();
    for i in 0..raw.len()
        invariant
            keys@.len() == i,
            forall|k: int| 0 <= k < i ==> #[trigger] keys@[k] == raw@[k].start,
    {
        keys.push(raw[i].start as i128);
    }
    let order: Vec<usize> = stable_order(&keys);
    let mut out: Vec<Turn> = Vec::new();
    for i in 0..order.len()
        invariant
            sorts(keys@, order@),
            keys@.len() == raw@.len(),
            out@.len() == i,
            forall|k: int| 0 <= k < i ==> #[trigger] out@[k] == raw@[order@[k] as int],
    {
        out.push(raw[order[i]]);
    }
    proof {
        assert forall|t: Turn| #[trigger] is_turn(activity@, ticks, onset, offset, t) implies out@.contains(
            t,
        ) by {
            let k = choose|k: int| 0 <= k < raw@.len() && raw@[k] == t;
            assert(order@.contains(k as usize));
            let p = choose|p: int| 0 <= p < order@.len() && order@[p] == k as usize;
            assert(out@[p] == t);
        }
        assert forall|i: int, j: int| 0 <= i < j < out@.len() implies listed_before(
            #[trigger] out@[i],
            #[trigger] out@[j],
        ) by {
            assert(precedes(keys@, order@[i] as int, order@[j] as int));
        }
    }
    out
}

/// A turn begins above the onset level, does not fall below the offset level,
/// and lasts at least a quarter of a second; it ends at a level below the
/// offset or with the activity.
pub proof fn law_turn_levels(
    activity: Seq<Seq<Measure>>,
    ticks: u64,
    onset: Measure,
    offset: Measure,
    out: Seq<Turn>,
    i: int,
)
    requires
        turns_of(activity, ticks, onset, offset, out),
        0 <= i < out.len(),
    ensures
        ({
            let t = out[i];
            let levels = activity[t.local_speaker as int];
            &&& t.start < t.end <= levels.len()
            &&& 4 * ((t.end - t.start) * ticks) >= TICKS_PER_SECOND
            &&& onset.less(levels[t.start as int])
            &&& forall|f: int| t.start < f < t.end ==> !(#[trigger] levels[f]).less(offset)
            &&& t.end == levels.len() || levels[t.end as int].less(offset)
        }),
{
    let t = out[i];
    let levels = activity[t.local_speaker as int];
    assert(is_turn(activity, ticks, onset, offset, t));
    assert(speaking(levels, onset, offset, t.start + 1));
    assert forall|f: int| t.start < f < t.end implies !(#[trigger] levels[f]).less(offset) by {
        assert(speaking(levels, onset, offset, f));
        assert(speaking(levels, onset, offset, f + 1));
    }
    assert(speaking(levels, onset, offset, t.end as int));
}

/// Two turns on one channel do not touch: there is a frame between them.
pub proof fn law_turns_are_disjoint(
    activity: Seq<Seq<Measure>>,
    ticks: u64,
    onset: Measure,
    offset: Measure,
    out: Seq<Turn>,
    i: int,
    j: int,
)
    requires
        turns_of(activity, ticks, onset, offset, out),
        0 <= i < j < out.len(),
        out[i].local_speaker == out[j].local_speaker,
    ensures
        out[i].end < out[j].start,
{
    let t = out[i];
    let u = out[j];
    let levels = activity[t.local_speaker as int];
    assert(is_turn(activity, ticks, onset, offset, t));
    assert(is_turn(activity, ticks, onset, offset, u));
    assert(listed_before(t, u));
    if u.start <= t.end {
        assert(speaking(levels, onset, offset, u.start as int));
    }
}

/// The activity determines the turns.
pub proof fn law_turns_are_determined(
    activity: Seq<Seq<Measure>>,
    ticks: u64,
    onset: Measure,
    offset: Measure,
    out: Seq<Turn>,
    other: Seq<Turn>,
)
    requires
        turns_of(activity, ticks, onset, offset, out),
        turns_of(activity, ticks, onset, offset, other),
    ensures
        out == other,
{
    if out.len() > 0 {
        lemma_same_turn(activity, ticks, onset, offset, out, other, out.len() - 1);
    }
    if other.len() > 0 {
        lemma_same_turn(activity, ticks, onset, offset, other, out, other.len() - 1);
    }
    assert forall|p: int| 0 <= p < out.len() implies out[p] == other[p] by {
        lemma_same_turn(activity, ticks, onset, offset, out, other, p);
    }
    assert(out =~= other);
}

proof fn lemma_same_turn(
    activity: Seq<Seq<Measure>>,
    ticks: u64,
    onset: Measure,
    offset: Measure,
    out: Seq<Turn>,
    other: Seq<Turn>,
    p: int,
)
    requires
        turns_of(activity, ticks, onset, offset, out),
        turns_of(activity, ticks, onset, offset, other),
        0 <= p < out.len(),
    ensures
        p < other.len(),
        out[p] == other[p],
    decreases p,
{
    assert forall|q: int| 0 <= q < p implies q < other.len() && out[q] == other[q] by {
        lemma_same_turn(activity, ticks, onset, offset, out, other, q);
    }
    assert(is_turn(activity, ticks, onset, offset, out[p]));
    let b = choose|b: int| 0 <= b < other.len() && other[b] == out[p];
    if b < p {
        assert(out[b] == other[b]);
        assert(listed_before(out[b], out[p]));
    }
    if b > p {
        assert(is_turn(activity, ticks, onset, offset, other[p]));
        let a = choose|a: int| 0 <= a < out.len() && out[a] == other[p];
        assert(listed_before(other[p], other[b]));
        if a < p {
            assert(out[a] == other[a]);
            assert(listed_before(other[a], other[p]));
        } else if a > p {
            assert(listed_before(out[p], out[a]));
        }
    }
}

/// Flags that are set by a level above the onset, cleared by one below the
/// offset and otherwise kept, tell where a turn is under way.
proof fn lemma_flags_are_speaking(
    levels: Seq<Measure>,
    onset: Measure,
    offset: Measure,
    on: Seq<bool>,
    f: int,
)
    requires
        on.len() == levels.len() + 1,
        !on[0],
        forall|g: int, h: int|
            0 <= g < levels.len() && h == g + 1 ==> #[trigger] on[h] == (if #[trigger] on[g] {
                !levels[g].less(offset)
            } else {
                onset.less(levels[g])
            }),
        0 <= f <= levels.len(),
    ensures
        on[f] == speaking(levels, onset, offset, f),
    decreases f,
{
    if f > 0 {
        lemma_flags_are_speaking(levels, onset, offset, on, f - 1);
        assert(on[f] == (if on[f - 1] {
            !levels[f - 1].less(offset)
        } else {
            onset.less(levels[f - 1])
        }));
    }
}

/// Let a flag be set by a level above the onset, cleared by one below the offset
/// and otherwise kept. Then the turns of a channel are exactly the stretches
/// over which it is set that last at least a quarter of a second, however long
/// they are: a turn begins at the level that sets the flag, and ends before the
/// one that clears it or with the channel.
pub proof fn law_turns_are_the_stretches_of_speech(
    activity: Seq<Seq<Measure>>,
    ticks: u64,
    onset: Measure,
    offset: Measure,
    out: Seq<Turn>,
    on: Seq<bool>,
    t: Turn,
)
    requires
        turns_of(activity, ticks, onset, offset, out),
        t.local_speaker < activity.len(),
        on.len() == activity[t.local_speaker as int].len() + 1,
        !on[0],
        forall|g: int, h: int|
            0 <= g < on.len() - 1 && h == g + 1 ==> #[trigger] on[h] == (if #[trigger] on[g] {
                !activity[t.local_speaker as int][g].less(offset)
            } else {
                onset.less(activity[t.local_speaker as int][g])
            }),
    ensures
        out.contains(t) <==> {
            &&& t.start < t.end < on.len()
            &&& !on[t.start as int]
            &&& forall|f: int| t.start < f <= t.end ==> #[trigger] on[f]
            &&& t.end + 1 == on.len() || !on[t.end + 1]
            &&& 4 * ((t.end - t.start) * ticks) >= 9_424_000
        },
{
    let levels = activity[t.local_speaker as int];
    assert forall|f: int| 0 <= f <= levels.len() implies #[trigger] on[f] == speaking(
        levels,
        onset,
        offset,
        f,
    ) by {
        lemma_flags_are_speaking(levels, onset, offset, on, f);
    }
    if out.contains(t) {
        let i = choose|i: int| 0 <= i < out.len() && out[i] == t;
        assert(is_turn(activity, ticks, onset, offset, out[i]));
        assert forall|f: int| t.start < f <= t.end implies #[trigger] on[f] by {
            assert(speaking(levels, onset, offset, f));
        }
        assert(t.end + 1 == on.len() || on[t.end + 1] == speaking(
            levels,
            onset,
            offset,
            t.end + 1,
        ));
    }
    if {
        &&& t.start < t.end < on.len()
        &&& !on[t.start as int]
        &&& forall|f: int| t.start < f <= t.end ==> #[trigger] on[f]
        &&& t.end + 1 == on.len() || !on[t.end + 1]
        &&& 4 * ((t.end - t.start) * ticks) >= 9_424_000
    } {
        assert forall|f: int| t.start < f <= t.end implies #[trigger] speaking(
            levels,
            onset,
            offset,
            f,
        ) by {
            assert(on[f]);
        }
        assert(on[t.start as int] == speaking(levels, onset, offset, t.start as int));
        assert(t.end + 1 == on.len() || on[t.end + 1] == speaking(
            levels,
            onset,
            offset,
            t.end + 1,
        ));
        assert(is_turn(activity, ticks, onset, offset, t));
    }
}

/// Speech that lasts is a turn, however long: where a channel is quiet from its
/// start or from a level below the offset, up to a level above the onset at
/// frame `t.start`, and no level falls below the offset before frame `t.end`,
/// where one does or the channel ends, `t` is a turn if it lasts a quarter of a
/// second.
pub proof fn law_lasting_speech_is_a_turn(
    activity: Seq<Seq<Measure>>,
    ticks: u64,
    onset: Measure,
    offset: Measure,
    out: Seq<Turn>,
    t: Turn,
    quiet_from: int,
)
    requires
        turns_of(activity, ticks, onset, offset, out),
        t.local_speaker < activity.len(),
        0 <= quiet_from <= t.start < t.end <= activity[t.local_speaker as int].len(),
        ({
            let levels = activity[t.local_speaker as int];
            &&& quiet_from == 0 || (levels[quiet_from - 1].less(offset) && !onset.less(
                levels[quiet_from - 1],
            ))
            &&& forall|f: int| quiet_from <= f < t.start ==> !onset.less(#[trigger] levels[f])
            &&& onset.less(levels[t.start as int])
            &&& forall|f: int| t.start < f < t.end ==> !(#[trigger] levels[f]).less(offset)
            &&& t.end == levels.len() || levels[t.end as int].less(offset)
        }),
        4 * ((t.end - t.start) * ticks) >= 9_424_000,
    ensures
        out.contains(t),
{
    let levels = activity[t.local_speaker as int];
    if quiet_from > 0 {
        assert(!speaking(levels, onset, offset, quiet_from));
    }
    lemma_stays_quiet(levels, onset, offset, quiet_from, t.start as int);
    assert(speaking(levels, onset, offset, t.start + 1));
    assert forall|f: int| t.start < f <= t.end implies #[trigger] speaking(
        levels,
        onset,
        offset,
        f,
    ) by {
        lemma_keeps_speaking(levels, onset, offset, t.start as int, t.end as int, f);
    }
    if t.end < levels.len() {
        assert(speaking(levels, onset, offset, t.end as int));
        assert(!speaking(levels, onset, offset, t.end + 1));
    }
    assert(is_turn(activity, ticks, onset, offset, t));
}

proof fn lemma_stays_quiet(
    levels: Seq<Measure>,
    onset: Measure,
    offset: Measure,
    from: int,
    to: int,
)
    requires
        0 <= from <= to <= levels.len(),
        !speaking(levels, onset, offset, from),
        forall|f: int| from <= f < to ==> !onset.less(#[trigger] levels[f]),
    ensures
        !speaking(levels, onset, offset, to),
    decreases to - from,
{
    if from < to {
        lemma_stays_quiet(levels, onset, offset, from, to - 1);
        assert(!onset.less(levels[to - 1]));
    }
}

proof fn lemma_keeps_speaking(
    levels: Seq<Measure>,
    onset: Measure,
    offset: Measure,
    a: int,
    b: int,
    f: int,
)
    requires
        0 <= a < f <= b <= levels.len(),
        speaking(levels, onset, offset, a + 1),
        forall|g: int| a < g < b ==> !(#[trigger] levels[g]).less(offset),
    ensures
        speaking(levels, onset, offset, f),
    decreases f,
{
    if f > a + 1 {
        lemma_keeps_speaking(levels, onset, offset, a, b, f - 1);
        assert(!levels[f - 1].less(offset));
    }
}

/// A turn begins with the first level above the onset since the start of its
/// channel, or since a level below the offset.
pub proof fn law_turns_begin_with_the_first_loud_level(
    activity: Seq<Seq<Measure>>,
    ticks: u64,
    onset: Measure,
    offset: Measure,
    out: Seq<Turn>,
    i: int,
) -> (quiet_from: int)
    requires
        turns_of(activity, ticks, onset, offset, out),
        0 <= i < out.len(),
    ensures
        out[i].local_speaker < activity.len(),
        ({
            let levels = activity[out[i].local_speaker as int];
            &&& 0 <= quiet_from <= out[i].start < levels.len()
            &&& quiet_from == 0 || levels[quiet_from - 1].less(offset)
            &&& forall|f: int| quiet_from <= f < out[i].start ==> !onset.less(#[trigger] levels[f])
            &&& onset.less(levels[out[i].start as int])
        }),
{
    let t = out[i];
    let levels = activity[t.local_speaker as int];
    assert(is_turn(activity, ticks, onset, offset, t));
    assert(speaking(levels, onset, offset, t.start + 1));
    lemma_quiet_since(levels, onset, offset, t.start as int)
}

proof fn lemma_quiet_since(levels: Seq<Measure>, onset: Measure, offset: Measure, f: int) -> (e: int)
    requires
        0 <= f <= levels.len(),
        !speaking(levels, onset, offset, f),
    ensures
        0 <= e <= f,
        e == 0 || levels[e - 1].less(offset),
        forall|g: int| e <= g < f ==> !onset.less(#[trigger] levels[g]),
    decreases f,
{
    if f == 0 {
        0
    } else if speaking(levels, onset, offset, f - 1) {
        f
    } else {
        lemma_quiet_since(levels, onset, offset, f - 1)
    }
}

/// Turns are listed by their start, those that start together by channel.
pub proof fn law_turns_are_listed_by_start(
    activity: Seq<Seq<Measure>>,
    ticks: u64,
    onset: Measure,
    offset: Measure,
    out: Seq<Turn>,
    i: int,
    j: int,
)
    requires
        turns_of(activity, ticks, onset, offset, out),
        0 <= i < j < out.len(),
    ensures
        out[i].start < out[j].start || (out[i].start == out[j].start && out[i].local_speaker
            < out[j].local_speaker),
{
    assert(listed_before(out[i], out[j]));
}

} // verus!
