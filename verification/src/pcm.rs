//! Decoding a media file by way of `ffmpeg`: what it is asked for, and what
//! its output means.

use crate::errors::MeetingError;
use crate::measure::Measure;
use vstd::prelude::*;

verus! {

/// The arguments of `ffmpeg` that come before the input file.
pub fn ffmpeg_input_args() -> (r: [&'static str; 5])
    ensures
        r@[0]@ == "-nostdin"@,
        r@[1]@ == "-hide_banner"@,
        r@[2]@ == "-loglevel"@,
        r@[3]@ == "error"@,
        r@[4]@ == "-i"@,
{
    ["-nostdin", "-hide_banner", "-loglevel", "error", "-i"]
}

/// The arguments of `ffmpeg` that come after the input file: one channel,
/// 16 000 samples per second, each sample four bytes, the lowest first, to the
/// standard output.
pub fn ffmpeg_output_args() -> (r: [&'static str; 7])
    ensures
        r@[0]@ == "-ac"@,
        r@[1]@ == "1"@,
        r@[2]@ == "-ar"@,
        r@[3]@ == "16000"@,
        r@[4]@ == "-f"@,
        r@[5]@ == "f32le"@,
        r@[6]@ == "-"@,
{
    ["-ac", "1", "-ar", "16000", "-f", "f32le", "-"]
}

/// The sample in the four bytes from byte `at`, the lowest first.
pub open spec fn sample_at(bytes: Seq<u8>, at: int) -> int {
    bytes[at] + 0x100 * bytes[at + 1] + 0x1_0000 * bytes[at + 2] + 0x100_0000 * bytes[at + 3]
}

/// The bytes of a sample, the lowest first.
pub open spec fn bytes_of(sample: Measure) -> Seq<u8> {
    seq![
        (sample.bits % 0x100) as u8,
        (sample.bits / 0x100 % 0x100) as u8,
        (sample.bits / 0x1_0000 % 0x100) as u8,
        (sample.bits / 0x100_0000) as u8,
    ]
}

/// `samples` are the samples in `bytes`.
pub open spec fn decodes(bytes: Seq<u8>, samples: Seq<Measure>) -> bool {
    &&& bytes.len() == 4 * samples.len()
    &&& forall|i: int|
        0 <= i < samples.len() ==> (#[trigger] samples[i]).bits == sample_at(bytes, 4 * i)
}

/// The samples in the output of `ffmpeg`, which come in whole fours of bytes.
pub fn decode_pcm(bytes: &Vec<u8>) -> (r: Result<Vec<Measure>, MeetingError>)
    ensures
        match r {
            Ok(samples) => bytes@.len() % 4 == 0 && decodes(bytes@, samples@),
            Err(e) => bytes@.len() % 4 != 0 && e == MeetingError::UnalignedPcm,
        },
{
    let n: usize = bytes.len();
    if n % 4 != 0 {
        return Err(MeetingError::UnalignedPcm);
    }
    let mut samples: Vec<Measure> = Vec::new();
    for i in 0..n / 4
        invariant
            n == bytes@.len(),
            samples@.len() == i,
            forall|k: int|
                0 <= k < i ==> (#[trigger] samples@[k]).bits == sample_at(bytes@, 4 * k),
    {
        let at: usize = 4 * i;
        let bits: u32 = bytes[at] as u32 + 0x100 * bytes[at + 1] as u32 + 0x1_0000 * bytes[at
            + 2] as u32 + 0x100_0000 * bytes[at + 3] as u32;
        samples.push(Measure { bits });
    }
    Ok(samples)
}

/// What came of running `ffmpeg`: the samples in its output, if it succeeded
/// and its output is whole; otherwise what it said.
pub fn extracted(success: bool, stderr: String, bytes: &Vec<u8>) -> (r: Result<
    Vec<Measure>,
    MeetingError,
>)
    ensures
        match r {
            Ok(samples) => success && bytes@.len() % 4 == 0 && decodes(bytes@, samples@),
            Err(MeetingError::FfmpegFailed(message)) => !success && message == stderr,
            Err(MeetingError::UnalignedPcm) => success && bytes@.len() % 4 != 0,
            Err(_) => false,
        },
{
    if !success {
        return Err(MeetingError::FfmpegFailed(stderr));
    }
    decode_pcm(bytes)
}

/// The bytes of samples, one after the other, decode to those samples.
pub proof fn law_decoding_undoes_encoding(samples: Seq<Measure>, bytes: Seq<u8>)
    requires
        bytes.len() == 4 * samples.len(),
        forall|i: int|
            0 <= i < samples.len() ==> bytes.subrange(4 * i, 4 * i + 4) == #[trigger] bytes_of(
                samples[i],
            ),
    ensures
        decodes(bytes, samples),
{
    assert forall|i: int| 0 <= i < samples.len() implies (#[trigger] samples[i]).bits == sample_at(
        bytes,
        4 * i,
    ) by {
        let four = bytes.subrange(4 * i, 4 * i + 4);
        assert(four == bytes_of(samples[i]));
        assert(four[0] == bytes[4 * i] && four[1] == bytes[4 * i + 1] && four[2] == bytes[4 * i + 2]
            && four[3] == bytes[4 * i + 3]);
    }
}

/// Bytes decode to one list of samples only.
pub proof fn law_decoding_is_determined(bytes: Seq<u8>, samples: Seq<Measure>, other: Seq<Measure>)
    requires
        decodes(bytes, samples),
        decodes(bytes, other),
    ensures
        samples == other,
{
    assert forall|i: int| 0 <= i < samples.len() implies samples[i] == other[i] by {
        assert(samples[i].bits == other[i].bits);
    }
    assert(samples =~= other);
}

/// Each sample takes four bytes, the lowest first.
pub proof fn law_samples_are_little_endian(bytes: Seq<u8>, samples: Seq<Measure>, i: int)
    requires
        decodes(bytes, samples),
        0 <= i < samples.len(),
    ensures
        bytes.len() == 4 * samples.len(),
        bytes[4 * i] == samples[i].bits as int % 256,
        bytes[4 * i + 1] == samples[i].bits as int / 256 % 256,
        bytes[4 * i + 2] == samples[i].bits as int / 65_536 % 256,
        bytes[4 * i + 3] == samples[i].bits as int / 16_777_216,
{
    assert(samples[i].bits == sample_at(bytes, 4 * i));
}

} // verus!
