use meetings::segments::{assign_speaker_to_asr, merge_adjacent, DiarSegment, MERGE_GAP_TICKS};
use meetings::order::stable_order;
use meetings::time::{frame_ticks, sample_ticks, TICKS_PER_SECOND};

fn seg(start: i128, end: i128, speaker: usize) -> DiarSegment {
    DiarSegment { start, end, speaker }
}

fn merged(segs: &[DiarSegment], gap: i128) -> Vec<DiarSegment> {
    let mut out = segs.to_vec();
    merge_adjacent(&mut out, gap);
    out
}

fn random(seed: &mut u32) -> i128 {
    *seed = seed.wrapping_mul(1664525).wrapping_add(1013904223);
    (*seed >> 10) as i128
}

#[test]
fn units_of_time() {
    assert_eq!(sample_ticks(16_000), TICKS_PER_SECOND);
    assert_eq!(frame_ticks(589), 10 * TICKS_PER_SECOND);
    assert_eq!(2 * MERGE_GAP_TICKS, TICKS_PER_SECOND);
}

#[test]
fn sorting_keeps_the_order_of_equal_keys() {
    assert_eq!(stable_order(&vec![]), Vec::<usize>::new());
    assert_eq!(stable_order(&vec![3, 1, 3, 1, 2]), vec![1, 3, 4, 0, 2]);
}

#[test]
fn nothing_merges_to_nothing() {
    assert_eq!(merged(&[], 10), vec![]);
}

#[test]
fn neighbours_of_one_speaker_are_joined() {
    assert_eq!(merged(&[seg(0, 10, 1), seg(15, 20, 1)], 5), vec![seg(0, 20, 1)]);
    assert_eq!(merged(&[seg(0, 10, 1), seg(16, 20, 1)], 5), vec![seg(0, 10, 1), seg(16, 20, 1)]);
    assert_eq!(merged(&[seg(0, 10, 1), seg(11, 20, 2)], 5), vec![seg(0, 10, 1), seg(11, 20, 2)]);
}

#[test]
fn a_speaker_in_between_keeps_segments_apart() {
    let segs = [seg(0, 10, 1), seg(4, 6, 2), seg(11, 20, 1)];
    assert_eq!(merged(&segs, 5), segs.to_vec());
}

#[test]
fn joined_segments_reach_to_the_later_end() {
    assert_eq!(merged(&[seg(0, 30, 1), seg(5, 8, 1), seg(33, 40, 1)], 5), vec![seg(0, 40, 1)]);
}

#[test]
fn segments_are_sorted_first() {
    assert_eq!(
        merged(&[seg(50, 60, 0), seg(0, 10, 0), seg(12, 20, 0)], 5),
        vec![seg(0, 20, 0), seg(50, 60, 0)]
    );
    // Segments that start together keep their order.
    assert_eq!(merged(&[seg(0, 5, 2), seg(0, 4, 1)], 5), vec![seg(0, 5, 2), seg(0, 4, 1)]);
}

#[test]
fn extreme_times_do_not_overflow() {
    assert_eq!(
        merged(&[seg(i128::MIN, i128::MIN, 0), seg(i128::MAX, i128::MAX, 0)], 5),
        vec![seg(i128::MIN, i128::MIN, 0), seg(i128::MAX, i128::MAX, 0)]
    );
    assert_eq!(
        merged(&[seg(i128::MIN, i128::MAX, 0), seg(-5, 5, 0)], 5),
        vec![seg(i128::MIN, i128::MAX, 0)]
    );
    let all = [seg(i128::MIN, i128::MAX, 7)];
    assert_eq!(assign_speaker_to_asr(&all, i128::MIN, i128::MAX), Some(7));
}

#[test]
fn merging_twice_is_merging_once() {
    let mut seed: u32 = 11;
    for _ in 0..200 {
        let segs: Vec<DiarSegment> = (0..12)
            .map(|_| {
                let start = random(&mut seed) % 300;
                seg(start, start + random(&mut seed) % 30, (random(&mut seed) % 3) as usize)
            })
            .collect();
        let once = merged(&segs, 7);
        assert_eq!(merged(&once, 7), once);
        assert!(once.len() <= segs.len());
        for s in &segs {
            assert!(once
                .iter()
                .any(|t| t.speaker == s.speaker && t.start <= s.start && s.end <= t.end));
        }
        for w in once.windows(2) {
            assert!(w[0].start <= w[1].start);
            assert!(w[0].speaker != w[1].speaker || w[1].start - w[0].end > 7);
        }
    }
}

#[test]
fn the_longest_overlap_names_the_speaker() {
    let diar = [seg(0, 10, 0), seg(10, 40, 1), seg(40, 45, 2)];
    assert_eq!(assign_speaker_to_asr(&diar, 5, 44), Some(1));
    assert_eq!(assign_speaker_to_asr(&diar, 0, 12), Some(0));
    assert_eq!(assign_speaker_to_asr(&diar, 41, 100), Some(2));
}

#[test]
fn the_first_of_equal_overlaps_names_the_speaker() {
    let diar = [seg(0, 10, 4), seg(10, 20, 5)];
    assert_eq!(assign_speaker_to_asr(&diar, 5, 15), Some(4));
}

#[test]
fn no_overlap_names_no_speaker() {
    assert_eq!(assign_speaker_to_asr(&[], 0, 10), None);
    assert_eq!(assign_speaker_to_asr(&[seg(0, 10, 0)], 10, 20), None);
    assert_eq!(assign_speaker_to_asr(&[seg(0, 10, 0)], 5, 5), None);
    assert_eq!(assign_speaker_to_asr(&[seg(0, 10, 0)], 8, 3), None);
}
