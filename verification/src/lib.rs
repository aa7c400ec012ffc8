//! Long-form transcription for a speech model that accepts a bounded amount of
//! audio per call: where to cut a recording, and how to run the cuts.
//!
//! - `policy`: the limits that every plan keeps.
//! - `pauses`: finding the pauses in a recording.
//! - `span`: contiguous, non-overlapping coverage of a recording.
//! - `scoring`: what a boundary and a span are judged by.
//! - `scoring_laws`: what scores mean.
//! - `boundary`: where a recording may be cut.
//! - `boundary_laws`: what boundaries mean.
//! - `plan`: the spans that a recording is cut into.
//! - `first_span`: the next span of a recording that is still running.
//! - `suffix`: the last spans of a running recording.
//! - `plan_laws`: what holds of plans as a whole.
//! - `plan_costs`: what plans cost, span by span.
//! - `suffix_laws`: what holds of the last spans.
//! - `invariance`: what plans do not depend on.
//! - `rolling`: committing spans while a recording is still running.
//! - `rolling_laws`: what holds of rolling plans as a whole.
//! - `rolling_steps`: what the parts of a rolling plan are made from.
//! - `text`: the transcripts of chunks, and what is said when one fails.
//! - `sequence`: running the spans of a plan one after the other.
//! - `long_form`: transcribing a complete recording.
//! - `worker`: transcribing a recording while it is running.
//! - `worker_steps`: what each step of a worker does, and what its steps come to.
//! - `worker_laws`: what holds of a worker from start to end.
//! - `worker_agreement`: what two workers on the same audio have in common.

pub mod boundary;
pub mod boundary_laws;
pub mod first_span;
pub mod invariance;
pub mod long_form;
pub mod pauses;
pub mod plan;
pub mod plan_costs;
pub mod plan_laws;
pub mod policy;
pub mod rolling;
pub mod rolling_laws;
pub mod rolling_steps;
pub mod scoring;
pub mod scoring_laws;
pub mod sequence;
pub mod span;
pub mod suffix;
pub mod suffix_laws;
pub mod text;
pub mod worker;
pub mod worker_agreement;
pub mod worker_laws;
pub mod worker_steps;
