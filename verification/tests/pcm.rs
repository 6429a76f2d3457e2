use meetings::errors::{check_input, MeetingError};
use meetings::measure::Measure;
use meetings::pcm::{decode_pcm, extracted, ffmpeg_input_args, ffmpeg_output_args};

#[test]
fn samples_are_little_endian() {
    let numbers = [0.0f32, 1.0, -0.5, 3.25e-20, f32::MAX];
    let mut bytes = Vec::new();
    for x in numbers {
        bytes.extend(x.to_le_bytes());
    }
    let expected: Vec<Measure> =
        numbers.iter().map(|x| Measure { bits: x.to_bits() }).collect();
    assert_eq!(decode_pcm(&bytes), Ok(expected));
    assert_eq!(decode_pcm(&vec![1, 2, 3, 4]), Ok(vec![Measure { bits: 0x0403_0201 }]));
    assert_eq!(decode_pcm(&vec![]), Ok(vec![]));
}

#[test]
fn samples_must_be_whole() {
    for n in [1, 2, 3, 5, 6, 7] {
        let error = decode_pcm(&vec![0; n]).unwrap_err();
        assert_eq!(error, MeetingError::UnalignedPcm);
        assert_eq!(error.message(), "ffmpeg produced unaligned PCM output");
    }
}

#[test]
fn a_failed_run_tells_why() {
    let error = extracted(false, "no such codec".to_string(), &vec![0; 4]).unwrap_err();
    assert_eq!(error, MeetingError::FfmpegFailed("no such codec".to_string()));
    assert_eq!(error.message(), "ffmpeg failed: no such codec");
    // It failed, whatever it put out.
    assert!(matches!(
        extracted(false, String::new(), &vec![0; 3]),
        Err(MeetingError::FfmpegFailed(_))
    ));
    assert_eq!(extracted(true, "noise".to_string(), &vec![0; 3]), Err(MeetingError::UnalignedPcm));
    assert_eq!(
        extracted(true, "noise".to_string(), &vec![0; 4]),
        Ok(vec![Measure { bits: 0 }])
    );
}

#[test]
fn ffmpeg_is_asked_for_mono_samples() {
    assert_eq!(ffmpeg_input_args(), ["-nostdin", "-hide_banner", "-loglevel", "error", "-i"]);
    assert_eq!(ffmpeg_output_args(), ["-ac", "1", "-ar", "16000", "-f", "f32le", "-"]);
}

#[test]
fn a_missing_file_is_refused() {
    assert_eq!(check_input("a.mp4".to_string(), true), Ok("a.mp4".to_string()));
    let error = check_input("a.mp4".to_string(), false).unwrap_err();
    assert_eq!(error, MeetingError::FileNotFound("a.mp4".to_string()));
    assert_eq!(error.message(), "File not found: a.mp4");
}
