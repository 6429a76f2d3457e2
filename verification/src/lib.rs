//! Transcription of long meetings, with a label for who speaks.
//!
//! A recording is decoded to 16 000 samples per second, cut into chunks at
//! silences, and transcribed chunk by chunk. Speakers are told apart by
//! diarization of the whole recording, or, where its models are not installed,
//! by the pauses between the chunks. The finished meeting is stored.
//!
//! This crate holds what is decided along the way. Running `ffmpeg` and the
//! models, reading and writing files and the database, and the numeric work on
//! samples are done by its callers, who hand it plain values:
//!
//! - [`measure`]: numbers that are only compared, by their bit patterns;
//! - [`time`]: time in whole ticks;
//! - [`order`]: stable sorting;
//! - [`arrays`]: arrays of the `ndarray` crate;
//! - [`pcm`]: what `ffmpeg` is asked for, and its output;
//! - [`chunks`]: cutting a recording at silences;
//! - [`transcription`]: a transcription job from start to end;
//! - [`powerset`], [`turns`], [`cluster`], [`segments`], [`diarizer`]:
//!   diarization, step by step and as a whole; [`cluster_laws`] has what holds
//!   of every clustering;
//! - [`models`]: the models that diarization needs;
//! - [`jobs`]: the jobs under way, and their cancellation;
//! - [`store`]: finished meetings as they are stored;
//! - [`text`], [`errors`]: labels and messages.

pub mod arrays;
pub mod chunks;
pub mod cluster;
pub mod cluster_laws;
pub mod diarizer;
pub mod errors;
pub mod jobs;
pub mod measure;
pub mod models;
pub mod order;
pub mod pcm;
pub mod powerset;
pub mod segments;
pub mod store;
pub mod text;
pub mod time;
pub mod transcription;
pub mod turns;
