//! Time, counted in whole ticks.
//!
//! Audio has 16 000 samples to the second, and the segmentation model gives
//! 589 frames to each window of ten seconds. A tick is the largest unit that
//! divides both a sample and a frame, so that times of either kind add up and
//! compare without rounding.

use vstd::prelude::*;

verus! {

/// Samples per second of the decoded audio.
pub const SAMPLE_RATE: usize = 16_000;

/// Ticks per second.
pub const TICKS_PER_SECOND: i128 = 9_424_000;

/// Ticks per sample.
pub const TICKS_PER_SAMPLE: i128 = 589;

/// Ticks per frame of the segmentation model.
pub const TICKS_PER_FRAME: i128 = 160_000;

/// A second is 16 000 samples, and ten seconds are 589 frames.
pub proof fn law_units_agree()
    ensures
        TICKS_PER_SECOND == SAMPLE_RATE * TICKS_PER_SAMPLE,
        10 * TICKS_PER_SECOND == 589 * TICKS_PER_FRAME,
{
}

/// The time at which a sample begins.
pub fn sample_ticks(sample: usize) -> (r: i128)
    ensures
        r == sample * TICKS_PER_SAMPLE,
{
    sample as i128 * TICKS_PER_SAMPLE
}

/// The time at which a frame begins.
pub fn frame_ticks(frame: usize) -> (r: i128)
    ensures
        r == frame * TICKS_PER_FRAME,
{
    frame as i128 * TICKS_PER_FRAME
}

} // verus!
