//! What can go wrong while a meeting is transcribed.

use crate::diarizer::DiarizeError;
use crate::powerset::POWERSET_CLASSES;
use crate::text::{decimal, decimal_string};
use vstd::prelude::*;

verus! {

/// Why a meeting could not be transcribed.
#[derive(Debug, PartialEq, Eq)]
pub enum MeetingError {
    /// There is no such file.
    FileNotFound(String),
    /// `ffmpeg` is not installed.
    FfmpegMissing,
    /// `ffmpeg` failed, and said this.
    FfmpegFailed(String),
    /// The output of `ffmpeg` does not end with a whole sample.
    UnalignedPcm,
    /// The job was cancelled.
    Cancelled,
}

impl MeetingError {
    /// The message for the user.
    pub open spec fn text(self) -> Seq<char> {
        match self {
            MeetingError::FileNotFound(path) => "File not found: "@ + path@,
            MeetingError::FfmpegMissing => "ffmpeg not found on PATH. Install ffmpeg to transcribe video files."@,
            MeetingError::FfmpegFailed(message) => "ffmpeg failed: "@ + message@,
            MeetingError::UnalignedPcm => "ffmpeg produced unaligned PCM output"@,
            MeetingError::Cancelled => "Cancelled"@,
        }
    }

    /// The message for the user.
    pub fn message(&self) -> (r: String)
        ensures
            r@ == self.text(),
    {
        match self {
            MeetingError::FileNotFound(path) => {
                let mut r: String = "File not found: ".to_owned();
                r.append(path.as_str());
                r
            },
            MeetingError::FfmpegMissing => {
                "ffmpeg not found on PATH. Install ffmpeg to transcribe video files.".to_owned()
            },
            MeetingError::FfmpegFailed(message) => {
                let mut r: String = "ffmpeg failed: ".to_owned();
                r.append(message.as_str());
                r
            },
            MeetingError::UnalignedPcm => "ffmpeg produced unaligned PCM output".to_owned(),
            MeetingError::Cancelled => "Cancelled".to_owned(),
        }
    }
}

impl DiarizeError {
    /// The message for the user.
    pub open spec fn text(self) -> Seq<char> {
        match self {
            DiarizeError::Cancelled => "Cancelled"@,
            DiarizeError::UnexpectedClasses(found) => "unexpected segmentation output classes: "@
                + decimal(found as nat) + " (expected "@ + decimal(POWERSET_CLASSES as nat) + ")"@,
        }
    }

    /// The message for the user.
    pub fn message(&self) -> (r: String)
        ensures
            r@ == self.text(),
    {
        match self {
            DiarizeError::Cancelled => "Cancelled".to_owned(),
            DiarizeError::UnexpectedClasses(found) => {
                let mut r: String = "unexpected segmentation output classes: ".to_owned();
                r.append(decimal_string(*found as u128).as_str());
                r.append(" (expected ");
                r.append(decimal_string(POWERSET_CLASSES as u128).as_str());
                r.append(")");
                r
            },
        }
    }
}

/// The file to transcribe, if it exists.
pub fn check_input(path: String, exists_on_disk: bool) -> (r: Result<String, MeetingError>)
    ensures
        r == (if exists_on_disk {
            Ok(path)
        } else {
            Err(MeetingError::FileNotFound(path))
        }),
{
    if exists_on_disk {
        Ok(path)
    } else {
        Err(MeetingError::FileNotFound(path))
    }
}

/// A message ends with what it is about, whole: the path, what `ffmpeg` said,
/// or the numbers of classes.
pub proof fn law_messages_tell_the_cause(cause: String, found: usize)
    ensures
        MeetingError::FileNotFound(cause).text() == "File not found: "@ + cause@,
        MeetingError::FfmpegFailed(cause).text() == "ffmpeg failed: "@ + cause@,
        MeetingError::Cancelled.text() == DiarizeError::Cancelled.text(),
        DiarizeError::UnexpectedClasses(found).text() == "unexpected segmentation output classes: "@
            + decimal(found as nat) + " (expected "@ + seq!['7'] + ")"@,
{
    assert(decimal(7) == seq!['7']);
}

} // verus!
