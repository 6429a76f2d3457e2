# meetings

Transcription of long meeting recordings, with a label for who speaks, written
and verified in [Verus](https://github.com/verus-lang/verus).

A recording is decoded to 16 000 samples per second, cut into chunks at
silences, and transcribed chunk by chunk. Speakers are told apart by
diarization of the whole recording: the activity of speakers in overlapping
windows, turns of speech, an embedding of each turn, single-linkage clustering
of the embeddings. Where the diarization models are not installed, a long pause
stands for a change of speaker. The finished meeting is stored in a table.

- `src/` is the library. Everything in it is verified: what each function
  returns is stated in its contract, and what holds of the whole is stated by
  the public proof functions whose names begin with `law_`.
- `tests/` runs the library on concrete values.
- `app/` runs `ffmpeg` and the ONNX models, does the floating point work on
  samples and embeddings, downloads models, and keeps the database.

Numbers that are only compared (levels, distances, scores) are known to the
library by their bit patterns in single precision, and are compared exactly.
Times are whole ticks, of which a sample has 589 and a frame of the
segmentation model 160 000, so that no time is ever rounded.
