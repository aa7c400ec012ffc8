# cohere_long_form

Long-form transcription for a speech model that takes a bounded amount of audio
per call. The library decides where a recording is cut, what is run next while it
is still running, and how the transcripts are put together. It is written in Verus:
every function has a contract, and the laws that hold across functions are proof
functions (their names start with `law_`).

- Complete recordings are planned globally: the cheapest way through the boundaries
  of the recording, which are cuts in its pauses and a grid of fallbacks.
- Running recordings are cut from a 50-second window, one span of 15 to 35 seconds
  at a time; what is left at the end takes two spans at most.
- No sample is lost, repeated or reordered, and no span exceeds the hard maximum.
- A failed chunk fails the whole transcription, and so does a cancellation, which is
  asked for between any two calls of the model.

## Layout

- `src/` is the library. `src/lib.rs` lists its modules.
- `tests/` runs it, with audio as `f32` samples.
- `app/` is what surrounds it: arithmetic in floating point, the voice detector, the
  model session, and the loop that carries out what a worker asks for.

Fractional numbers do not appear in `src/`. Energies and costs are integers that
order the same way, and the arithmetic on them is a trait, `scoring::Scoring`, of
which nothing is presumed: contracts speak of the values that it returned.
