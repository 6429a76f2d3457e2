//! Segments of speech with global speaker ids: joining neighbours, and
//! finding who speaks during an utterance.

use crate::order::{precedes, sorts, stable_order};
use vstd::prelude::*;

verus! {

/// Segments of one speaker at most this far apart are joined: half a second,
/// in ticks.
pub const MERGE_GAP_TICKS: i128 = 4_712_000;

/// A stretch of time in which one speaker talks.
#[derive(Clone, Copy, Debug, PartialEq, Eq, Structural)]
pub struct DiarSegment {
    /// When it begins, in ticks.
    pub start: i128,
    /// When it ends, in ticks.
    pub end: i128,
    /// The speaker, counted from 0.
    pub speaker: usize,
}

/// The starts of the segments.
pub open spec fn starts(segs: Seq<DiarSegment>) -> Seq<i128> {
    Seq::new(segs.len(), |i: int| segs[i].start)
}

/// `out` is `segs` sorted by start, segments that start together keeping
/// their order.
pub open spec fn sorted_by_start(segs: Seq<DiarSegment>, out: Seq<DiarSegment>) -> bool {
    exists|order: Seq<usize>| #[trigger]
        sorts(starts(segs), order) && out == Seq::new(
            order.len(),
            |p: int| segs[order[p] as int],
        )
}

/// Segment `s` continues segment `last`: the same speaker, and at most `gap`
/// after its end.
pub open spec fn continues(last: DiarSegment, s: DiarSegment, gap: int) -> bool {
    last.speaker == s.speaker && s.start - last.end <= gap
}

/// `last`, made to reach as far as `s`.
pub open spec fn extended(last: DiarSegment, s: DiarSegment) -> DiarSegment {
    DiarSegment {
        start: last.start,
        end: if s.end > last.end {
            s.end
        } else {
            last.end
        },
        speaker: last.speaker,
    }
}

/// The segments of `segs`, taken in turn, each joined to the one before it
/// where it continues that.
pub open spec fn joined(segs: Seq<DiarSegment>, gap: int) -> Seq<DiarSegment>
    decreases segs.len(),
{
    if segs.len() == 0 {
        Seq::empty()
    } else {
        let out = joined(segs.drop_last(), gap);
        let s = segs.last();
        if out.len() > 0 && continues(out.last(), s, gap) {
            out.drop_last().push(extended(out.last(), s))
        } else {
            out.push(s)
        }
    }
}

/// `out` is `segs` sorted by start, with neighbours of one speaker joined.
pub open spec fn merge_of(segs: Seq<DiarSegment>, gap: int, out: Seq<DiarSegment>) -> bool {
    exists|sorted: Seq<DiarSegment>| #[trigger]
        sorted_by_start(segs, sorted) && out == joined(sorted, gap)
}

/// Whether `start - end <= gap`.
fn within_gap(start: i128, end: i128, gap: i128) -> (r: bool)
    ensures
        r == (start - end <= gap),
{
    match start.checked_sub(end) {
        Some(difference) => difference <= gap,
        None => start < end,
    }
}

/// Sorts segments by start and joins adjacent segments of one speaker that
/// lie at most `max_gap` apart.
pub fn merge_adjacent(segs: &mut Vec<DiarSegment>, max_gap: i128)
    ensures
        merge_of(old(segs)@, max_gap as int, final(segs)@),
{
    let n: usize = segs.len();
    let mut keys: Vec<i128> = Vec::new();
    for i in 0..n
        invariant
            n == segs@.len(),
            keys@.len() == i,
            forall|k: int| 0 <= k < i ==> #[trigger] keys@[k] == segs@[k].start,
    {
        keys.push(segs[i].start);
    }
    assert(keys@ =~= starts(segs@));
    let order: Vec<usize> = stable_order(&keys);
    let ghost sorted = Seq::new(order@.len(), |p: int| segs@[order@[p] as int]);
    let mut out: Vec<DiarSegment> = Vec::new();
    assert(sorted.take(0) =~= Seq::empty());
    for i in 0..n
        invariant
            n == segs@.len() == order@.len() == sorted.len(),
            sorts(starts(segs@), order@),
            sorted == Seq::new(order@.len(), |p: int| segs@[order@[p] as int]),
            out@ == joined(sorted.take(i as int), max_gap as int),
    {
        let s: DiarSegment = segs[order[i]];
        let filled: usize = out.len();
        proof {
            assert(sorted.take(i + 1).drop_last() =~= sorted.take(i as int));
            assert(sorted.take(i + 1).last() == s);
        }
        if filled > 0 {
            let last: DiarSegment = out[filled - 1];
            if last.speaker == s.speaker && within_gap(s.start, last.end, max_gap) {
                let end: i128 = if s.end > last.end {
                    s.end
                } else {
                    last.end
                };
                let ghost before = out@;
                out.set(
                    filled - 1,
                    DiarSegment { start: last.start, end: end, speaker: last.speaker },
                );
                assert(out@ =~= before.drop_last().push(extended(last, s)));
            } else {
                out.push(s);
            }
        } else {
            out.push(s);
        }
    }
    assert(sorted.take(n as int) =~= sorted);
    assert(sorted_by_start(segs@, sorted));
    *segs = out;
}

/// The starts never decrease.
pub open spec fn ascending(segs: Seq<DiarSegment>) -> bool {
    forall|i: int, j: int|
        0 <= i <= j < segs.len() ==> (#[trigger] segs[i]).start <= (#[trigger] segs[j]).start
}

/// No segment continues the one before it.
pub open spec fn separated(segs: Seq<DiarSegment>, gap: int) -> bool {
    forall|i: int, j: int|
        0 <= i < segs.len() && 0 <= j < segs.len() && j == i + 1 ==> !continues(
            #[trigger] segs[i],
            #[trigger] segs[j],
            gap,
        )
}

/// Segment `s` lies within segment `t` of the same speaker.
pub open spec fn lies_within(s: DiarSegment, t: DiarSegment) -> bool {
    s.speaker == t.speaker && t.start <= s.start && s.end <= t.end
}

/// Segment `s` lies within one of the segments `out`.
pub open spec fn covered(out: Seq<DiarSegment>, s: DiarSegment) -> bool {
    exists|k: int| 0 <= k < out.len() && lies_within(s, #[trigger] out[k])
}

/// Some segment has the speaker and the start of `t`, and some the speaker
/// and the end of `t`.
pub open spec fn bounded_by(segs: Seq<DiarSegment>, t: DiarSegment) -> bool {
    &&& exists|i: int|
        0 <= i < segs.len() && (#[trigger] segs[i]).speaker == t.speaker && segs[i].start == t.start
    &&& exists|i: int|
        0 <= i < segs.len() && (#[trigger] segs[i]).speaker == t.speaker && segs[i].end == t.end
}

/// One more segment changes at most the last of the joined segments, or
/// follows it.
proof fn lemma_joined_step(segs: Seq<DiarSegment>, gap: int)
    requires
        segs.len() > 0,
    ensures
        ({
            let before = joined(segs.drop_last(), gap);
            let after = joined(segs, gap);
            let m = before.len() - 1;
            if before.len() > 0 && continues(before[m], segs.last(), gap) {
                &&& after.len() == before.len()
                &&& forall|k: int| 0 <= k < m ==> #[trigger] after[k] == before[k]
                &&& after[m] == extended(before[m], segs.last())
            } else {
                &&& after.len() == before.len() + 1
                &&& forall|k: int| 0 <= k <= m ==> #[trigger] after[k] == before[k]
                &&& after[m + 1] == segs.last()
            }
        }),
{
}

proof fn lemma_joined_order(segs: Seq<DiarSegment>, gap: int)
    requires
        ascending(segs),
    ensures
        ascending(joined(segs, gap)),
        separated(joined(segs, gap), gap),
        joined(segs, gap).len() <= segs.len(),
        segs.len() > 0 ==> joined(segs, gap).len() > 0 && joined(segs, gap).last().start
            <= segs.last().start,
    decreases segs.len(),
{
    if segs.len() > 0 {
        let front = segs.drop_last();
        let s = segs.last();
        let before = joined(front, gap);
        let after = joined(segs, gap);
        assert(ascending(front));
        lemma_joined_order(front, gap);
        lemma_joined_step(segs, gap);
        if front.len() > 0 {
            assert(front.last() == segs[segs.len() - 2]);
            assert(front.last().start <= s.start);
        }
        assert forall|i: int, j: int| 0 <= i <= j < after.len() implies (#[trigger] after[i]).start
            <= (#[trigger] after[j]).start by {
            if j < before.len() {
                assert(before[i].start <= before[j].start);
            } else if i < before.len() {
                assert(before[i].start <= before[before.len() - 1].start);
            }
        }
        assert forall|i: int, j: int|
            0 <= i < after.len() && 0 <= j < after.len() && j == i + 1 implies !continues(
            #[trigger] after[i],
            #[trigger] after[j],
            gap,
        ) by {
            if j < before.len() {
                assert(!continues(before[i], before[j], gap));
            }
        }
    }
}

proof fn lemma_joined_covers(segs: Seq<DiarSegment>, gap: int, i: int)
    requires
        ascending(segs),
        0 <= i < segs.len(),
    ensures
        covered(joined(segs, gap), segs[i]),
    decreases segs.len(),
{
    let front = segs.drop_last();
    let before = joined(front, gap);
    let after = joined(segs, gap);
    assert(ascending(front));
    lemma_joined_order(front, gap);
    lemma_joined_step(segs, gap);
    if i < front.len() {
        lemma_joined_covers(front, gap, i);
        let k = choose|k: int| 0 <= k < before.len() && lies_within(front[i], #[trigger] before[k]);
        assert(lies_within(segs[i], after[k]));
    } else {
        if front.len() > 0 {
            assert(front.last() == segs[segs.len() - 2]);
            assert(front.last().start <= segs.last().start);
        }
        assert(lies_within(segs[i], after[after.len() - 1]));
    }
}

proof fn lemma_joined_bounds(segs: Seq<DiarSegment>, gap: int, k: int)
    requires
        0 <= k < joined(segs, gap).len(),
    ensures
        bounded_by(segs, joined(segs, gap)[k]),
    decreases segs.len(),
{
    let front = segs.drop_last();
    let before = joined(front, gap);
    let t = joined(segs, gap)[k];
    lemma_joined_step(segs, gap);
    assert(segs[segs.len() - 1] == segs.last());
    if k < before.len() {
        lemma_joined_bounds(front, gap, k);
        let u = before[k];
        let a = choose|i: int|
            0 <= i < front.len() && (#[trigger] front[i]).speaker == u.speaker && front[i].start
                == u.start;
        let b = choose|i: int|
            0 <= i < front.len() && (#[trigger] front[i]).speaker == u.speaker && front[i].end
                == u.end;
        assert(segs[a] == front[a] && segs[b] == front[b]);
        assert(segs[a].speaker == t.speaker && segs[a].start == t.start);
        if t.end == u.end {
            assert(segs[b].speaker == t.speaker && segs[b].end == t.end);
        }
    }
}

proof fn lemma_sorted_is_ascending(segs: Seq<DiarSegment>, sorted: Seq<DiarSegment>)
    requires
        sorted_by_start(segs, sorted),
    ensures
        ascending(sorted),
        sorted.len() == segs.len(),
{
    let order = choose|order: Seq<usize>| #[trigger]
        sorts(starts(segs), order) && sorted == Seq::new(
            order.len(),
            |p: int| segs[order[p] as int],
        );
    assert forall|i: int, j: int| 0 <= i <= j < sorted.len() implies (#[trigger] sorted[i]).start <= (
    #[trigger] sorted[j]).start by {
        if i < j {
            assert(precedes(starts(segs), order[i] as int, order[j] as int));
        }
    }
}

/// The merged segments are in the order of their starts, and none of them
/// continues the one before it.
pub proof fn law_merged_segments_are_separated(
    segs: Seq<DiarSegment>,
    gap: int,
    out: Seq<DiarSegment>,
)
    requires
        merge_of(segs, gap, out),
    ensures
        out.len() <= segs.len(),
        ascending(out),
        separated(out, gap),
{
    let sorted = choose|sorted: Seq<DiarSegment>| #[trigger]
        sorted_by_start(segs, sorted) && out == joined(sorted, gap);
    lemma_sorted_is_ascending(segs, sorted);
    lemma_joined_order(sorted, gap);
}

/// No speech is lost: each segment lies within a merged segment of the same
/// speaker.
pub proof fn law_merging_keeps_speech(
    segs: Seq<DiarSegment>,
    gap: int,
    out: Seq<DiarSegment>,
    i: int,
)
    requires
        merge_of(segs, gap, out),
        0 <= i < segs.len(),
    ensures
        covered(out, segs[i]),
{
    let sorted = choose|sorted: Seq<DiarSegment>| #[trigger]
        sorted_by_start(segs, sorted) && out == joined(sorted, gap);
    lemma_sorted_is_ascending(segs, sorted);
    let order = choose|order: Seq<usize>| #[trigger]
        sorts(starts(segs), order) && sorted == Seq::new(
            order.len(),
            |p: int| segs[order[p] as int],
        );
    lemma_all_listed(starts(segs), order, i);
    let p = choose|p: int| 0 <= p < order.len() && order[p] == i;
    assert(sorted[p] == segs[i]);
    lemma_joined_covers(sorted, gap, p);
}

/// A sort lists each item, whatever its number.
proof fn lemma_all_listed(keys: Seq<i128>, order: Seq<usize>, i: int)
    requires
        sorts(keys, order),
        0 <= i < keys.len(),
    ensures
        exists|p: int| 0 <= p < order.len() && order[p] == i,
{
    assert(order.no_duplicates()) by {
        assert forall|p: int, q: int|
            0 <= p < order.len() && 0 <= q < order.len() && p != q implies order[p] != order[q] by {
            if p < q {
                assert(precedes(keys, order[p] as int, order[q] as int));
            } else {
                assert(precedes(keys, order[q] as int, order[p] as int));
            }
        }
    }
    let all = Seq::new(order.len(), |p: int| order[p] as int);
    assert(all.no_duplicates());
    all.unique_seq_to_set();
    let range = vstd::set_lib::set_int_range(0, keys.len() as int);
    vstd::set_lib::lemma_int_range(0, keys.len() as int);
    assert(all.to_set().subset_of(range)) by {
        assert forall|x: int| all.to_set().contains(x) implies range.contains(x) by {
            let p = choose|p: int| 0 <= p < all.len() && all[p] == x;
            assert(order[p] < keys.len());
        }
    }
    vstd::set_lib::lemma_subset_equality(all.to_set(), range);
    assert(all.to_set().contains(i));
    let p = choose|p: int| 0 <= p < all.len() && all[p] == i;
    assert(order[p] == i);
}

/// No speech is made up: each merged segment begins where some segment of its
/// speaker begins, and ends where some segment of its speaker ends.
pub proof fn law_merging_adds_no_bounds(
    segs: Seq<DiarSegment>,
    gap: int,
    out: Seq<DiarSegment>,
    k: int,
)
    requires
        merge_of(segs, gap, out),
        0 <= k < out.len(),
    ensures
        bounded_by(segs, out[k]),
{
    let sorted = choose|sorted: Seq<DiarSegment>| #[trigger]
        sorted_by_start(segs, sorted) && out == joined(sorted, gap);
    lemma_joined_bounds(sorted, gap, k);
    let order = choose|order: Seq<usize>| #[trigger]
        sorts(starts(segs), order) && sorted == Seq::new(
            order.len(),
            |p: int| segs[order[p] as int],
        );
    let t = out[k];
    assert(bounded_by(sorted, t));
    let a = choose|i: int|
        0 <= i < sorted.len() && (#[trigger] sorted[i]).speaker == t.speaker && sorted[i].start
            == t.start;
    let b = choose|i: int|
        0 <= i < sorted.len() && (#[trigger] sorted[i]).speaker == t.speaker && sorted[i].end
            == t.end;
    assert(order[a] < segs.len() && order[b] < segs.len());
    assert(segs[order[a] as int].start == t.start);
    assert(segs[order[b] as int].end == t.end);
}

/// Sorting what is in order changes nothing.
proof fn lemma_order_of_ascending(keys: Seq<i128>, order: Seq<usize>, p: int)
    requires
        sorts(keys, order),
        forall|i: int, j: int| 0 <= i <= j < keys.len() ==> #[trigger] keys[i] <= #[trigger] keys[j],
        0 <= p < order.len(),
    ensures
        order[p] == p,
    decreases p,
{
    assert forall|q: int| 0 <= q < p implies order[q] == q by {
        lemma_order_of_ascending(keys, order, q);
    }
    lemma_all_listed(keys, order, p);
    let b = choose|b: int| 0 <= b < order.len() && order[b] == p;
    if b < p {
        assert(order[b] == b);
    }
    if order[p] < p {
        let q = order[p] as int;
        assert(order[q] == q);
        assert(precedes(keys, order[q] as int, order[p] as int));
    }
    if b > p {
        assert(precedes(keys, order[p] as int, order[b] as int));
        assert(order[p] < keys.len());
        assert(keys[p] <= keys[order[p] as int]);
    }
}

/// Joining what is separated changes nothing.
proof fn lemma_joined_of_separated(segs: Seq<DiarSegment>, gap: int)
    requires
        separated(segs, gap),
    ensures
        joined(segs, gap) == segs,
    decreases segs.len(),
{
    if segs.len() > 0 {
        let front = segs.drop_last();
        assert forall|i: int, j: int|
            0 <= i < front.len() && 0 <= j < front.len() && j == i + 1 implies !continues(
            #[trigger] front[i],
            #[trigger] front[j],
            gap,
        ) by {
            assert(!continues(segs[i], segs[j], gap));
        }
        lemma_joined_of_separated(front, gap);
        if front.len() > 0 {
            assert(!continues(segs[segs.len() - 2], segs[segs.len() - 1], gap));
        }
        assert(front.push(segs.last()) =~= segs);
    }
}

/// Merging a second time with the same gap changes nothing.
pub proof fn law_merging_is_idempotent(
    segs: Seq<DiarSegment>,
    gap: int,
    once: Seq<DiarSegment>,
    twice: Seq<DiarSegment>,
)
    requires
        merge_of(segs, gap, once),
        merge_of(once, gap, twice),
    ensures
        twice == once,
{
    law_merged_segments_are_separated(segs, gap, once);
    let sorted = choose|sorted: Seq<DiarSegment>| #[trigger]
        sorted_by_start(once, sorted) && twice == joined(sorted, gap);
    let order = choose|order: Seq<usize>| #[trigger]
        sorts(starts(once), order) && sorted == Seq::new(
            order.len(),
            |p: int| once[order[p] as int],
        );
    assert forall|p: int| 0 <= p < order.len() implies order[p] == p by {
        lemma_order_of_ascending(starts(once), order, p);
    }
    assert(sorted =~= once);
    lemma_joined_of_separated(once, gap);
}

/// The segments and the gap determine the merged segments.
pub proof fn law_merging_is_determined(
    segs: Seq<DiarSegment>,
    gap: int,
    out: Seq<DiarSegment>,
    other: Seq<DiarSegment>,
)
    requires
        merge_of(segs, gap, out),
        merge_of(segs, gap, other),
    ensures
        out == other,
{
    let a = choose|sorted: Seq<DiarSegment>| #[trigger]
        sorted_by_start(segs, sorted) && out == joined(sorted, gap);
    let b = choose|sorted: Seq<DiarSegment>| #[trigger]
        sorted_by_start(segs, sorted) && other == joined(sorted, gap);
    let p = choose|order: Seq<usize>| #[trigger]
        sorts(starts(segs), order) && a == Seq::new(order.len(), |p: int| segs[order[p] as int]);
    let q = choose|order: Seq<usize>| #[trigger]
        sorts(starts(segs), order) && b == Seq::new(order.len(), |p: int| segs[order[p] as int]);
    crate::order::law_order_is_determined(starts(segs), p, q);
}

/// For how long segment `d` and the time from `start` to `end` overlap.
pub open spec fn overlap(d: DiarSegment, start: int, end: int) -> int {
    let from = if d.start > start {
        d.start as int
    } else {
        start
    };
    let to = if d.end < end {
        d.end as int
    } else {
        end
    };
    if to > from {
        to - from
    } else {
        0
    }
}

/// Segment `i` is the first of those that overlap longest, and does overlap.
pub open spec fn longest_overlap(diar: Seq<DiarSegment>, start: int, end: int, i: int) -> bool {
    &&& 0 <= i < diar.len()
    &&& overlap(diar[i], start, end) > 0
    &&& forall|j: int|
        0 <= j < diar.len() ==> overlap(#[trigger] diar[j], start, end) <= overlap(
            diar[i],
            start,
            end,
        )
    &&& forall|j: int|
        0 <= j < i ==> overlap(#[trigger] diar[j], start, end) < overlap(diar[i], start, end)
}

/// How far `to` lies after `from`.
fn span(from: i128, to: i128) -> (r: u128)
    requires
        from <= to,
    ensures
        r == to - from,
{
    if from >= 0 || to < 0 {
        (to - from) as u128
    } else {
        to as u128 + (-(from + 1)) as u128 + 1
    }
}

/// For how long segment `d` and the time from `start` to `end` overlap.
fn overlap_ticks(d: &DiarSegment, start: i128, end: i128) -> (r: u128)
    ensures
        r == overlap(*d, start as int, end as int),
{
    let from: i128 = if d.start > start {
        d.start
    } else {
        start
    };
    let to: i128 = if d.end < end {
        d.end
    } else {
        end
    };
    if to > from {
        span(from, to)
    } else {
        0
    }
}

/// The speaker of the segment that overlaps longest with the time from
/// `asr_start` to `asr_end`; of the first such segment, where several do; of
/// none, where no segment overlaps.
pub fn assign_speaker_to_asr(diar: &[DiarSegment], asr_start: i128, asr_end: i128) -> (r: Option<
    usize,
>)
    ensures
        match r {
            Some(speaker) => exists|i: int| #[trigger]
                longest_overlap(diar@, asr_start as int, asr_end as int, i) && diar@[i].speaker
                    == speaker,
            None => forall|i: int|
                0 <= i < diar@.len() ==> overlap(
                    #[trigger] diar@[i],
                    asr_start as int,
                    asr_end as int,
                ) == 0,
        },
{
    let n: usize = diar.len();
    let mut best: Option<(u128, usize)> = None;
    for i in 0..n
        invariant
            n == diar@.len(),
            match best {
                Some((longest, at)) => {
                    &&& at < i
                    &&& longest > 0
                    &&& longest == overlap(diar@[at as int], asr_start as int, asr_end as int)
                    &&& forall|j: int|
                        0 <= j < i ==> overlap(
                            #[trigger] diar@[j],
                            asr_start as int,
                            asr_end as int,
                        ) <= longest
                    &&& forall|j: int|
                        0 <= j < at ==> overlap(
                            #[trigger] diar@[j],
                            asr_start as int,
                            asr_end as int,
                        ) < longest
                },
                None => forall|j: int|
                    0 <= j < i ==> overlap(#[trigger] diar@[j], asr_start as int, asr_end as int)
                        == 0,
            },
    {
        let ov: u128 = overlap_ticks(&diar[i], asr_start, asr_end);
        let better: bool = match best {
            Some((longest, _)) => ov > longest,
            None => ov > 0,
        };
        if better {
            best = Some((ov, i));
        }
    }
    match best {
        Some((_, at)) => {
            assert(longest_overlap(diar@, asr_start as int, asr_end as int, at as int));
            Some(diar[at].speaker)
        },
        None => None,
    }
}

/// Where any segment overlaps, some segment is the first of those that
/// overlap longest.
pub proof fn law_some_overlap_is_longest(diar: Seq<DiarSegment>, start: int, end: int, k: int)
    requires
        0 <= k < diar.len(),
        overlap(diar[k], start, end) > 0,
    ensures
        exists|i: int| longest_overlap(diar, start, end, i),
{
    let i = lemma_longest_so_far(diar, start, end, diar.len() as int);
    assert(longest_overlap(diar, start, end, i));
}

proof fn lemma_longest_so_far(diar: Seq<DiarSegment>, start: int, end: int, m: int) -> (i: int)
    requires
        0 < m <= diar.len(),
    ensures
        0 <= i < m,
        forall|j: int|
            0 <= j < m ==> overlap(#[trigger] diar[j], start, end) <= overlap(diar[i], start, end),
        forall|j: int|
            0 <= j < i ==> overlap(#[trigger] diar[j], start, end) < overlap(diar[i], start, end),
    decreases m,
{
    if m == 1 {
        0
    } else {
        let i = lemma_longest_so_far(diar, start, end, m - 1);
        if overlap(diar[m - 1], start, end) > overlap(diar[i], start, end) {
            m - 1
        } else {
            i
        }
    }
}

/// At most one segment is the first of those that overlap longest.
pub proof fn law_longest_overlap_is_unique(
    diar: Seq<DiarSegment>,
    start: int,
    end: int,
    i: int,
    j: int,
)
    requires
        longest_overlap(diar, start, end, i),
        longest_overlap(diar, start, end, j),
    ensures
        i == j,
{
    if i < j {
        assert(overlap(diar[i], start, end) < overlap(diar[j], start, end));
    }
    if j < i {
        assert(overlap(diar[j], start, end) < overlap(diar[i], start, end));
    }
}

/// The overlap is the time that both share: from the later of the two starts to
/// the earlier of the two ends, if that is any time at all; in ticks, as many as
/// lie in both.
pub proof fn law_overlap_is_shared_time(d: DiarSegment, start: int, end: int)
    ensures
        ({
            let shared = (if d.end < end {
                d.end as int
            } else {
                end
            }) - (if d.start < start {
                start
            } else {
                d.start as int
            });
            overlap(d, start, end) == (if shared < 0 {
                0
            } else {
                shared
            })
        }),
        Set::new(|t: int| d.start <= t < d.end && start <= t < end).finite(),
        Set::new(|t: int| d.start <= t < d.end && start <= t < end).len() == overlap(d, start, end),
{
    let from = if d.start > start {
        d.start as int
    } else {
        start
    };
    let to = if d.end < end {
        d.end as int
    } else {
        end
    };
    let ticks = Set::new(|t: int| d.start <= t < d.end && start <= t < end);
    if from < to {
        vstd::set_lib::lemma_int_range(from, to);
        assert(ticks =~= vstd::set_lib::set_int_range(from, to));
    } else {
        assert(ticks =~= Set::<int>::empty());
    }
}

/// The segment that overlaps longest shares some time, no segment shares more,
/// and none before it shares as much.
pub proof fn law_longest_overlap_shares_most(
    diar: Seq<DiarSegment>,
    start: int,
    end: int,
    i: int,
    j: int,
)
    requires
        longest_overlap(diar, start, end, i),
        0 <= j < diar.len(),
    ensures
        ({
            let shared = |s: DiarSegment|
                (if s.end < end {
                    s.end as int
                } else {
                    end
                }) - (if s.start < start {
                    start
                } else {
                    s.start as int
                });
            &&& 0 <= i < diar.len()
            &&& shared(diar[i]) > 0
            &&& shared(diar[j]) <= shared(diar[i])
            &&& j < i ==> shared(diar[j]) < shared(diar[i])
        }),
{
    law_overlap_is_shared_time(diar[i], start, end);
    law_overlap_is_shared_time(diar[j], start, end);
}

/// Merging nothing gives nothing.
pub proof fn law_merging_nothing(gap: int, out: Seq<DiarSegment>)
    requires
        merge_of(Seq::<DiarSegment>::empty(), gap, out),
    ensures
        out.len() == 0,
{
    law_merged_segments_are_separated(Seq::<DiarSegment>::empty(), gap, out);
}

/// A further segment that starts no earlier than the others makes the last
/// merged segment reach as far as itself, if it has the same speaker and starts
/// at most `gap` after its end; otherwise it follows the merged segments.
pub proof fn law_merging_one_more(
    segs: Seq<DiarSegment>,
    s: DiarSegment,
    gap: int,
    out: Seq<DiarSegment>,
    more: Seq<DiarSegment>,
)
    requires
        segs.len() < usize::MAX,
        forall|i: int| 0 <= i < segs.len() ==> (#[trigger] segs[i]).start <= s.start,
        merge_of(segs, gap, out),
        merge_of(segs.push(s), gap, more),
    ensures
        ({
            let m = out.len() - 1;
            if out.len() > 0 && out[m].speaker == s.speaker && s.start - out[m].end <= gap {
                &&& more.len() == out.len()
                &&& forall|k: int| 0 <= k < m ==> #[trigger] more[k] == out[k]
                &&& more[m].speaker == out[m].speaker
                &&& more[m].start == out[m].start
                &&& more[m].end == (if out[m].end < s.end {
                    s.end
                } else {
                    out[m].end
                })
            } else {
                more == out.push(s)
            }
        }),
{
    let sorted = choose|sorted: Seq<DiarSegment>| #[trigger]
        sorted_by_start(segs, sorted) && out == joined(sorted, gap);
    let order = choose|order: Seq<usize>| #[trigger]
        sorts(starts(segs), order) && sorted == Seq::new(
            order.len(),
            |p: int| segs[order[p] as int],
        );
    let n = segs.len() as usize;
    let all = segs.push(s);
    let longer = order.push(n);
    let keys = starts(all);
    assert forall|i: usize| i < keys.len() implies #[trigger] longer.contains(i) by {
        if i == n {
            assert(longer[order.len() as int] == i);
        } else {
            assert(order.contains(i));
            let p = choose|p: int| 0 <= p < order.len() && order[p] == i;
            assert(longer[p] == i);
        }
    }
    assert forall|p: int, q: int| 0 <= p < q < longer.len() implies precedes(
        keys,
        #[trigger] longer[p] as int,
        #[trigger] longer[q] as int,
    ) by {
        assert(order[p] < starts(segs).len());
        if q < order.len() {
            assert(precedes(starts(segs), order[p] as int, order[q] as int));
        } else {
            assert(segs[order[p] as int].start <= s.start);
        }
    }
    assert(sorts(keys, longer));
    assert(sorted.push(s) =~= Seq::new(longer.len(), |p: int| all[longer[p] as int]));
    assert(sorted_by_start(all, sorted.push(s)));
    let expected = joined(sorted.push(s), gap);
    assert(merge_of(all, gap, expected));
    law_merging_is_determined(all, gap, more, expected);
    assert(sorted.push(s).drop_last() =~= sorted);
    lemma_joined_step(sorted.push(s), gap);
    let m = out.len() - 1;
    if !(out.len() > 0 && out[m].speaker == s.speaker && s.start - out[m].end <= gap) {
        assert(more =~= out.push(s));
    }
}

/// The order in which segments are listed counts only for those that start
/// together: exchanging two neighbours, the first of which starts later, changes
/// nothing.
pub proof fn law_merging_sorts(
    segs: Seq<DiarSegment>,
    i: int,
    gap: int,
    out: Seq<DiarSegment>,
    other: Seq<DiarSegment>,
)
    requires
        segs.len() <= usize::MAX,
        0 <= i < segs.len() - 1,
        segs[i].start > segs[i + 1].start,
        merge_of(segs, gap, out),
        merge_of(segs.update(i, segs[i + 1]).update(i + 1, segs[i]), gap, other),
    ensures
        out == other,
{
    let sorted = choose|sorted: Seq<DiarSegment>| #[trigger]
        sorted_by_start(segs, sorted) && out == joined(sorted, gap);
    let order = choose|order: Seq<usize>| #[trigger]
        sorts(starts(segs), order) && sorted == Seq::new(
            order.len(),
            |p: int| segs[order[p] as int],
        );
    let swapped = segs.update(i, segs[i + 1]).update(i + 1, segs[i]);
    let turned = |x: int|
        if x == i {
            i + 1
        } else if x == i + 1 {
            i
        } else {
            x
        };
    let places = Seq::new(order.len(), |p: int| turned(order[p] as int) as usize);
    let keys = starts(swapped);
    assert forall|p: int| 0 <= p < places.len() implies #[trigger] places[p] < keys.len()
        && places[p] == turned(order[p] as int) && swapped[places[p] as int] == segs[order[p] as int] by {
        assert(order[p] < starts(segs).len());
    }
    assert forall|x: usize| x < keys.len() implies #[trigger] places.contains(x) by {
        let y = turned(x as int) as usize;
        assert(order.contains(y));
        let p = choose|p: int| 0 <= p < order.len() && order[p] == y;
        assert(places[p] == x);
    }
    assert forall|p: int, q: int| 0 <= p < q < places.len() implies precedes(
        keys,
        #[trigger] places[p] as int,
        #[trigger] places[q] as int,
    ) by {
        assert(precedes(starts(segs), order[p] as int, order[q] as int));
        assert(swapped[places[p] as int] == segs[order[p] as int]);
        assert(swapped[places[q] as int] == segs[order[q] as int]);
        assert(order[p] < starts(segs).len() && order[q] < starts(segs).len());
    }
    assert(sorts(keys, places));
    assert(sorted =~= Seq::new(places.len(), |p: int| swapped[places[p] as int]));
    assert(sorted_by_start(swapped, sorted));
    assert(merge_of(swapped, gap, out));
    law_merging_is_determined(swapped, gap, out, other);
}

} // verus!
