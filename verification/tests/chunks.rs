use meetings::chunks::{
    find_chunk_bounds, CHUNK_MAX_SAMPLES, CHUNK_TARGET_SAMPLES, FRAME_SAMPLES, SILENCE_MIN_FRAMES,
    SILENCE_RMS_BITS,
};
use meetings::measure::Measure;

fn loud(n: usize) -> Vec<f32> {
    vec![0.1; (n + FRAME_SAMPLES - 1) / FRAME_SAMPLES]
}

fn bounds(n: usize, rms: &[f32]) -> Vec<(usize, usize)> {
    let levels: Vec<Measure> = rms.iter().map(|x| Measure { bits: x.to_bits() }).collect();
    find_chunk_bounds(n, &levels)
}

#[test]
fn chunk_constants_are_what_the_times_say() {
    assert_eq!((16_000.0f32 * 0.02) as usize, FRAME_SAMPLES);
    assert_eq!((0.6f32 / 0.02) as usize, SILENCE_MIN_FRAMES);
    assert_eq!((28.0f32 * 16_000.0) as usize, CHUNK_TARGET_SAMPLES);
    assert_eq!((35.0f32 * 16_000.0) as usize, CHUNK_MAX_SAMPLES);
    assert_eq!(0.005f32.to_bits(), SILENCE_RMS_BITS);
}

#[test]
fn an_empty_recording_has_no_chunk() {
    assert_eq!(bounds(0, &[]), vec![]);
}

#[test]
fn a_short_recording_is_one_chunk() {
    assert_eq!(bounds(1, &loud(1)), vec![(0, 1)]);
    assert_eq!(bounds(CHUNK_MAX_SAMPLES, &[0.0; 1750]), vec![(0, CHUNK_MAX_SAMPLES)]);
}

#[test]
fn without_silence_chunks_have_the_greatest_length() {
    let n = 2 * CHUNK_MAX_SAMPLES + 5;
    assert_eq!(
        bounds(n, &loud(n)),
        vec![(0, 560_000), (560_000, 1_120_000), (1_120_000, 1_120_005)]
    );
    // Levels that are not known are not silent.
    assert_eq!(bounds(n, &[]), bounds(n, &loud(n)));
}

/// Levels of `n` samples, silent on the frames of `silences`.
fn with_silences(n: usize, silences: &[(usize, usize)]) -> Vec<f32> {
    let mut rms = loud(n);
    for (a, b) in silences {
        for level in &mut rms[*a..*b] {
            *level = 0.0;
        }
    }
    rms
}

#[test]
fn a_chunk_is_cut_in_the_silence_nearest_to_the_target() {
    // At 16 to 17 s and at 27.5 to 28.5 s.
    let n = 640_000;
    let all = bounds(n, &with_silences(n, &[(800, 850), (1_375, 1_425)]));
    assert_eq!(all, vec![(0, 455_680), (455_680, n)]);
    assert!(440_000 <= all[0].1 && all[0].1 <= 456_000);
    // The target is frame 1 400. The nearest silence may also come first, or
    // between others.
    let n = 600_000;
    let all = bounds(n, &with_silences(n, &[(1_300, 1_340), (1_600, 1_640)]));
    assert_eq!(all, vec![(0, 1_339 * 320), (1_339 * 320, n)]);
    let all = bounds(n, &with_silences(n, &[(900, 940), (1_200, 1_300), (1_700, 1_740)]));
    assert_eq!(all, vec![(0, 1_299 * 320), (1_299 * 320, n)]);
}

#[test]
fn the_center_of_a_silence_is_what_counts() {
    // The first ends nearer to the target, the second has the nearer center.
    let n = 600_000;
    let all = bounds(n, &with_silences(n, &[(1_000, 1_390), (1_420, 1_520)]));
    assert_eq!(all, vec![(0, 1_519 * 320), (1_519 * 320, n)]);
    // By half a frame.
    let all = bounds(n, &with_silences(n, &[(1_300, 1_340), (1_460, 1_501)]));
    assert_eq!(all[0].1, 1_339 * 320);
    let all = bounds(n, &with_silences(n, &[(1_300, 1_340), (1_460, 1_499)]));
    assert_eq!(all[0].1, 1_498 * 320);
}

#[test]
fn of_two_silences_as_near_the_earlier_is_taken() {
    let n = 600_000;
    let all = bounds(n, &with_silences(n, &[(1_300, 1_340), (1_460, 1_500)]));
    assert_eq!(all, vec![(0, 1_339 * 320), (1_339 * 320, n)]);
}

#[test]
fn the_target_counts_from_the_start_of_each_chunk() {
    // Without a silence in the first chunk the second begins at frame 1 750,
    // and its target is frame 3 150.
    let n = 1_250_000;
    let all = bounds(n, &with_silences(n, &[(2_500, 2_540), (3_100, 3_140), (3_300, 3_340)]));
    assert_eq!(all, vec![(0, 560_000), (560_000, 3_139 * 320), (3_139 * 320, n)]);
}

#[test]
fn a_silence_must_be_long_enough() {
    let n = 600_000;
    let mut rms = loud(n);
    for f in 900..929 {
        rms[f] = 0.001;
    }
    assert_eq!(bounds(n, &rms), vec![(0, 560_000), (560_000, n)]);
    rms[929] = 0.001;
    assert_eq!(bounds(n, &rms), vec![(0, 929 * 320), (929 * 320, n)]);
}

#[test]
fn silence_is_below_the_level() {
    let n = 600_000;
    let mut rms = loud(n);
    for f in 900..960 {
        rms[f] = 0.005;
    }
    assert_eq!(bounds(n, &rms), vec![(0, 560_000), (560_000, n)]);
    for f in 900..960 {
        rms[f] = f32::NAN;
    }
    assert_eq!(bounds(n, &rms), vec![(0, 560_000), (560_000, n)]);
}

#[test]
fn silences_early_in_a_chunk_are_passed_over() {
    let n = 600_000;
    let mut rms = loud(n);
    for f in 100..699 {
        rms[f] = 0.0;
    }
    assert_eq!(bounds(n, &rms), vec![(0, 560_000), (560_000, n)]);
    // What is silent before the search begins does not count.
    for f in 699..729 {
        rms[f] = 0.0;
    }
    assert_eq!(bounds(n, &rms), vec![(0, 560_000), (560_000, n)]);
    rms[729] = 0.0;
    assert_eq!(bounds(n, &rms), vec![(0, 729 * 320), (729 * 320, n)]);
}

#[test]
fn a_silence_up_to_the_greatest_length_is_cut_at_its_last_frame() {
    let n = 600_000;
    let mut rms = loud(n);
    for f in 1_700..1_875 {
        rms[f] = 0.0;
    }
    assert_eq!(bounds(n, &rms), vec![(0, 1_749 * 320), (1_749 * 320, n)]);
}

#[test]
fn chunks_partition_any_recording() {
    let mut seed: u32 = 5;
    for _ in 0..40 {
        seed = seed.wrapping_mul(1664525).wrapping_add(1013904223);
        let n = (seed >> 8) as usize % 4_000_000;
        let mut rms = loud(n);
        let mut level = 0.1;
        for x in rms.iter_mut() {
            seed = seed.wrapping_mul(1664525).wrapping_add(1013904223);
            if (seed >> 16) % 40 == 0 {
                level = if (seed >> 8) % 2 == 0 { 0.1 } else { 0.001 };
            }
            *x = level;
        }
        let all = bounds(n, &rms);
        let mut at = 0;
        for (i, (a, b)) in all.iter().enumerate() {
            assert_eq!(*a, at);
            assert!(a < b);
            assert!(b - a <= CHUNK_MAX_SAMPLES);
            if i + 1 < all.len() {
                assert!(b - a > CHUNK_TARGET_SAMPLES / 2);
                if b - a < CHUNK_MAX_SAMPLES {
                    let c = b / FRAME_SAMPLES;
                    assert!(rms[c + 1 - SILENCE_MIN_FRAMES..c + 1].iter().all(|x| *x < 0.005));
                }
            }
            at = *b;
        }
        assert_eq!(at, n);
    }
}
