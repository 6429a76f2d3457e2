use meetings::arrays::Activity;
use meetings::measure::Measure;
use meetings::turns::{extract_turns, Turn, MIN_TURN_TICKS, OFFSET_BITS, ONSET_BITS};
use meetings::time::{TICKS_PER_FRAME, TICKS_PER_SECOND};

/// The activity of channels of the same length.
fn activity(channels: &[Vec<f32>]) -> Activity {
    let frames = channels.first().map_or(0, |c| c.len());
    let mut levels = Vec::new();
    for f in 0..frames {
        for c in channels {
            levels.push(Measure { bits: c[f].to_bits() });
        }
    }
    Activity::new(frames, channels.len(), &levels).unwrap()
}

fn found(channels: &[Vec<f32>]) -> Vec<Turn> {
    let onset = Measure { bits: ONSET_BITS };
    let offset = Measure { bits: OFFSET_BITS };
    extract_turns(&activity(channels), TICKS_PER_FRAME as u64, onset, offset)
}

fn turn(start: usize, end: usize, local_speaker: usize) -> Turn {
    Turn { start, end, local_speaker }
}

/// `len` frames, with the level `x` on those from `a` up to `b`.
fn burst(len: usize, a: usize, b: usize, x: f32) -> Vec<f32> {
    (0..len).map(|f| if a <= f && f < b { x } else { 0.0 }).collect()
}

#[test]
fn turn_levels_have_their_patterns() {
    assert_eq!(0.5f32.to_bits(), ONSET_BITS);
    assert_eq!(0.2f32.to_bits(), OFFSET_BITS);
    assert_eq!(4 * MIN_TURN_TICKS, TICKS_PER_SECOND);
}

#[test]
fn activity_has_a_level_for_each_frame_and_channel() {
    let level = Measure { bits: 0 };
    assert!(Activity::new(2, 3, &vec![level; 6]).is_some());
    assert!(Activity::new(2, 3, &vec![level; 5]).is_none());
    assert!(Activity::new(2, 3, &vec![level; 7]).is_none());
    assert!(Activity::new(0, 3, &vec![]).is_some());
    assert!(Activity::new(3, 0, &vec![]).is_some());
    assert!(Activity::new(0, 3, &vec![level]).is_none());
    assert!(Activity::new(usize::MAX, 0, &vec![]).is_none());
    assert!(Activity::new(isize::MAX as usize, 0, &vec![]).is_some());
    assert!(Activity::new(usize::MAX, 2, &vec![level; 2]).is_none());
}

#[test]
fn silence_has_no_turns() {
    assert_eq!(found(&[]), vec![]);
    assert_eq!(found(&[vec![], vec![], vec![]]), vec![]);
    assert_eq!(found(&[vec![0.0; 100]]), vec![]);
}

#[test]
fn a_burst_is_a_turn() {
    assert_eq!(found(&[burst(100, 10, 40, 0.9)]), vec![turn(10, 40, 0)]);
}

#[test]
fn turns_shorter_than_a_quarter_second_are_dropped() {
    assert_eq!(found(&[burst(100, 10, 24, 0.9)]), vec![]);
    assert_eq!(found(&[burst(100, 10, 25, 0.9)]), vec![turn(10, 25, 0)]);
    assert_eq!(found(&[burst(24, 10, 24, 0.9)]), vec![]);
    assert_eq!(found(&[burst(25, 10, 25, 0.9)]), vec![turn(10, 25, 0)]);
}

#[test]
fn the_length_of_a_frame_decides_which_turns_are_long_enough() {
    let onset = Measure { bits: ONSET_BITS };
    let offset = Measure { bits: 0.25f32.to_bits() };
    let channels =
        [vec![0.5, 0.75, 0.25, 0.5, 0.0, 0.0], vec![1.0, 0.0, 0.0, 0.0, 0.0, 0.75]];
    // Frames of a quarter of a second.
    let quarter = TICKS_PER_SECOND as u64 / 4;
    assert_eq!(
        extract_turns(&activity(&channels), quarter, onset, offset),
        vec![turn(0, 1, 1), turn(1, 4, 0), turn(5, 6, 1)]
    );
    assert_eq!(
        extract_turns(&activity(&channels), quarter - 1, onset, offset),
        vec![turn(1, 4, 0)]
    );
    assert_eq!(extract_turns(&activity(&channels), 0, onset, offset), vec![]);
    assert_eq!(extract_turns(&activity(&channels), u64::MAX, onset, offset).len(), 3);
}

#[test]
fn a_turn_may_last_to_the_end() {
    assert_eq!(found(&[burst(60, 30, 60, 0.7)]), vec![turn(30, 60, 0)]);
}

#[test]
fn onset_and_offset_differ() {
    // Half is not above the onset.
    assert_eq!(found(&[vec![0.5; 50]]), vec![]);
    // Between the levels a turn goes on, but none begins.
    let mut channel = vec![0.3; 60];
    assert_eq!(found(&[channel.clone()]), vec![]);
    channel[20] = 0.6;
    assert_eq!(found(&[channel.clone()]), vec![turn(20, 60, 0)]);
    // One fifth is not below the offset.
    channel[40] = 0.2;
    assert_eq!(found(&[channel.clone()]), vec![turn(20, 60, 0)]);
    channel[40] = 0.19;
    assert_eq!(found(&[channel.clone()]), vec![turn(20, 40, 0)]);
}

#[test]
fn what_is_no_number_neither_begins_nor_ends_a_turn() {
    let mut channel = vec![f32::NAN; 60];
    assert_eq!(found(&[channel.clone()]), vec![]);
    channel[5] = 0.9;
    assert_eq!(found(&[channel]), vec![turn(5, 60, 0)]);
}

#[test]
fn turns_are_listed_by_start_then_channel() {
    let first = burst(200, 50, 90, 0.9);
    let second: Vec<f32> = (0..200)
        .map(|f| if (10..30).contains(&f) || (50..80).contains(&f) { 0.8 } else { 0.0 })
        .collect();
    let third = burst(200, 20, 45, 0.9);
    assert_eq!(
        found(&[first, second, third]),
        vec![turn(10, 30, 1), turn(20, 45, 2), turn(50, 90, 0), turn(50, 80, 1)]
    );
}

#[test]
fn turns_agree_with_a_frame_by_frame_scan() {
    let mut seed: u32 = 3;
    for _ in 0..60 {
        let mut channels: Vec<Vec<f32>> = Vec::new();
        for _ in 0..3 {
            let mut level = 0.0f32;
            let mut channel = Vec::new();
            for _ in 0..150 {
                seed = seed.wrapping_mul(1664525).wrapping_add(1013904223);
                if (seed >> 20) % 9 == 0 {
                    level = ((seed >> 12) % 100) as f32 / 100.0;
                }
                channel.push(level);
            }
            channels.push(channel);
        }
        let mut expected = Vec::new();
        for (s, channel) in channels.iter().enumerate() {
            let mut since: Option<usize> = None;
            for f in 0..=channel.len() {
                let ends = f == channel.len() || channel[f] < 0.2;
                match since {
                    None => {
                        if f < channel.len() && channel[f] > 0.5 {
                            since = Some(f);
                        }
                    }
                    Some(start) => {
                        if ends {
                            if (f - start) as f64 * 10.0 / 589.0 >= 0.25 {
                                expected.push(turn(start, f, s));
                            }
                            since = None;
                        }
                    }
                }
            }
        }
        expected.sort_by_key(|t| t.start);
        assert_eq!(found(&channels), expected);
    }
}
