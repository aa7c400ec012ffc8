//! Transcribing a recording while it is running.
//!
//! A `RollingWorker` decides; it does nothing itself. Each of its methods takes
//! what has happened and returns what is to be done next: wait for a command,
//! ask whether the work is cancelled, find pauses, run the model, or reply.

use crate::first_span::{is_first_span, law_a_first_span_keeps_the_limits};
use crate::policy::ChunkPolicy;
use crate::rolling::{
    end_of, horizon, law_the_coordinator_preserves_samples, lemma_ends_inside, CoordinatorView,
    RollingChunkCoordinator,
};
use crate::scoring::Scoring;
use crate::span::{chained, full_coverage, joined};
use crate::suffix::{is_suffix_plan, law_a_suffix_plan_covers_the_rest};
use crate::text::{contents, merge_english_chunks, merged, rolling_cancelled};
use std::ops::Range;
use vstd::prelude::*;

verus! {

/// What a rolling transcription has come to.
#[derive(Debug)]
pub enum RollingOutcome {
    /// All audio is transcribed.
    Completed { text: String, detected_language: Option<String> },
    /// There is no transcript, for the reason given.
    Failed(String),
}

/// What is to be done next.
#[derive(Debug)]
pub enum WorkerAction {
    /// Wait for the next command: more audio, or the end of the recording.
    Receive,
    /// Ask whether the work is cancelled.
    PollCancel,
    /// Find the pauses in this range of the uncommitted audio.
    AnalyzePauses(Range<usize>),
    /// Run the model on the range `local` of the uncommitted audio, which is the
    /// range `absolute` of the recording.
    RunChunk { local: Range<usize>, absolute: Range<usize>, call_number: usize },
    /// Reply; nothing is left to do.
    Reply(RollingOutcome),
}

/// What a worker waits for.
#[derive(Clone, Copy, Debug, PartialEq, Eq, Structural)]
pub enum Phase {
    /// A command.
    Receiving,
    /// Whether the work is cancelled, before a span is chosen.
    PollingBackground,
    /// The pauses in the planning window.
    AnalyzingWindow,
    /// The transcript of the first `end` uncommitted samples.
    RunningBackground { end: usize },
    /// Whether the work is cancelled, at the end of the recording.
    PollingFinal,
    /// The pauses in all that is uncommitted.
    AnalyzingRest,
    /// Whether the work is cancelled, before one of the last spans.
    PollingChunk,
    /// The transcript of one of the last spans.
    RunningFinal,
    /// Nothing any more.
    Done,
}

/// What has happened.
pub enum WorkerEvent<S> {
    /// More audio has come in.
    Feed(Seq<S>),
    /// The recording has ended.
    Finalize,
    /// Whether the work is cancelled.
    CancelPolled(bool),
    /// The pauses that were found, or `None` where the analysis failed.
    Pauses(Option<Seq<Range<usize>>>),
    /// The transcript of a chunk and the language that the model has named, or
    /// what is said of the failure.
    Chunk(Result<(String, Option<String>), String>),
}

/// What a worker knows.
#[verifier::ext_equal]
pub struct WorkerView<S> {
    pub coordinator: CoordinatorView<S>,
    /// All audio that was taken.
    pub fed: Seq<S>,
    /// The number of samples that came in, taken or not.
    pub received: int,
    /// The transcripts so far, in order.
    pub texts: Seq<Seq<char>>,
    /// The ranges of the recording that the transcripts are of.
    pub transcribed: Seq<Range<usize>>,
    /// The first language that the model has named.
    pub language: Option<String>,
    /// What is said of the chunk that failed.
    pub sticky_error: Option<String>,
    /// The analysis has failed.
    pub vad_failed: bool,
    /// A cancellation was seen while the recording was running.
    pub cancelled: bool,
    /// The number of chunks transcribed while the recording was running.
    pub background_calls: int,
    /// The last spans, counted from the first uncommitted sample.
    pub final_spans: Seq<Range<usize>>,
    /// How many of the last spans are transcribed.
    pub final_index: int,
    pub phase: Phase,
}

impl<S> WorkerView<S> {
    /// Work goes on: no chunk has failed, and no cancellation was seen.
    pub open spec fn going(self) -> bool {
        self.sticky_error is None && !self.cancelled
    }

    /// Up to where the recording is transcribed.
    pub open spec fn position(self) -> int {
        match self.phase {
            Phase::PollingChunk | Phase::RunningFinal => self.coordinator.absolute_start
                + self.final_spans[self.final_index].start,
            Phase::Done => end_of(self.transcribed),
            _ => self.coordinator.absolute_start,
        }
    }

    /// The transcripts are of the recording from its start, in order and without
    /// a gap, and no audio that was taken is lost.
    pub open spec fn wf(self) -> bool {
        let policy = self.coordinator.policy;
        &&& self.coordinator.wf()
        &&& self.coordinator.holds_rest_of(self.fed)
        &&& 0 <= self.received <= usize::MAX
        &&& self.going() ==> self.received == self.fed.len()
        &&& self.texts.len() == self.transcribed.len()
        &&& self.texts.len() <= end_of(self.transcribed)
        &&& self.transcribed.len() > 0 ==> self.transcribed[0].start == 0
        &&& chained(self.transcribed)
        &&& forall|i: int|
            0 <= i < self.transcribed.len() ==> (#[trigger] self.transcribed[i]).start
                < self.transcribed[i].end && self.transcribed[i].end - self.transcribed[i].start
                <= policy.hard_max_samples
        &&& end_of(self.transcribed) == self.position()
        &&& 0 <= self.background_calls <= self.coordinator.absolute_start
        &&& match self.phase {
            Phase::PollingChunk | Phase::RunningFinal => self.texts.len() == self.background_calls
                + self.final_index,
            Phase::Done => true,
            _ => self.texts.len() == self.background_calls,
        }
        &&& match self.phase {
            Phase::Receiving => self.going() && horizon(policy) > 0
                ==> self.coordinator.uncommitted.len() < horizon(policy),
            Phase::PollingBackground => self.going() && self.coordinator.uncommitted.len()
                >= horizon(policy),
            Phase::AnalyzingWindow => {
                &&& self.going()
                &&& !self.vad_failed
                &&& self.coordinator.uncommitted.len() >= horizon(policy)
            },
            Phase::RunningBackground { end } => {
                &&& self.going()
                &&& 0 < end <= self.coordinator.uncommitted.len()
                &&& policy.soft_min_samples <= end <= policy.hard_max_samples
            },
            Phase::PollingFinal => {
                &&& !self.cancelled
                &&& self.going() && horizon(policy) > 0 ==> self.coordinator.uncommitted.len()
                    < horizon(policy)
            },
            Phase::AnalyzingRest => {
                &&& self.going()
                &&& !self.vad_failed
                &&& horizon(policy) > 0 ==> self.coordinator.uncommitted.len() < horizon(policy)
            },
            Phase::PollingChunk | Phase::RunningFinal => {
                &&& self.going()
                &&& 0 <= self.final_index < self.final_spans.len() <= 2
                &&& full_coverage(
                    self.final_spans,
                    self.coordinator.uncommitted.len(),
                    policy.hard_max_samples as nat,
                )
            },
            Phase::Done => true,
        }
    }

    /// With a chunk more transcribed.
    pub open spec fn heard(
        self,
        samples: Range<usize>,
        text: Seq<char>,
        language: Option<String>,
    ) -> Self {
        WorkerView {
            texts: self.texts.push(text),
            transcribed: self.transcribed.push(samples),
            language: if self.language is None {
                language
            } else {
                self.language
            },
            ..self
        }
    }

    /// The range of the recording that a range of uncommitted samples is.
    pub open spec fn absolute(self, local: Range<usize>) -> Range<usize> {
        Range {
            start: (self.coordinator.absolute_start + local.start) as usize,
            end: (self.coordinator.absolute_start + local.end) as usize,
        }
    }

    /// A span may have to be chosen next, and the policy allows that.
    pub open spec fn can_plan(self) -> bool {
        let policy = self.coordinator.policy;
        match self.phase {
            Phase::PollingBackground | Phase::AnalyzingWindow => policy.valid(),
            Phase::PollingFinal => self.sticky_error is None && self.coordinator.uncommitted.len()
                > 0 ==> policy.valid(),
            Phase::AnalyzingRest => self.coordinator.uncommitted.len() > 0 ==> policy.valid(),
            _ => true,
        }
    }
}

/// A worker that no audio has come in to.
pub open spec fn initial_worker<S>(policy: ChunkPolicy) -> WorkerView<S> {
    WorkerView {
        coordinator: CoordinatorView {
            uncommitted: Seq::empty(),
            absolute_start: 0,
            high_water: 0,
            policy,
        },
        fed: Seq::empty(),
        received: 0,
        texts: Seq::empty(),
        transcribed: Seq::empty(),
        language: None,
        sticky_error: None,
        vad_failed: false,
        cancelled: false,
        background_calls: 0,
        final_spans: Seq::empty(),
        final_index: 0,
        phase: Phase::Receiving,
    }
}

/// `action` is a reply of failure, of which `message` is said.
pub open spec fn replies_failed(action: WorkerAction, message: Seq<char>) -> bool {
    action matches WorkerAction::Reply(RollingOutcome::Failed(said)) && said@ == message
}

/// `action` is a reply that the work was cancelled.
pub open spec fn replies_cancelled(action: WorkerAction) -> bool {
    replies_failed(action, "Cohere rolling transcription was cancelled"@)
}

/// Spans are chosen as long as there is enough audio, else more has to come in.
pub open spec fn catches_up<S>(
    mid: WorkerView<S>,
    post: WorkerView<S>,
    action: WorkerAction,
) -> bool {
    if mid.coordinator.uncommitted.len() >= horizon(mid.coordinator.policy) {
        &&& post == (WorkerView { phase: Phase::PollingBackground, ..mid })
        &&& action is PollCancel
    } else {
        &&& post == (WorkerView { phase: Phase::Receiving, ..mid })
        &&& action is Receive
    }
}

/// The next span is chosen from the planning window, and the model is to be run
/// on it.
pub open spec fn chooses_span<S, M: Scoring<S>>(
    scoring: &M,
    mid: WorkerView<S>,
    pauses: Seq<Range<usize>>,
    post: WorkerView<S>,
    action: WorkerAction,
) -> bool {
    exists|end: usize|
        {
            &&& #[trigger] is_next_span(scoring, mid, pauses, end)
            &&& post == (WorkerView { phase: Phase::RunningBackground { end }, ..mid })
            &&& runs_chunk(mid, Range { start: 0usize, end }, action)
        }
}

/// The first `end` uncommitted samples are the next span, by the planning window.
pub open spec fn is_next_span<S, M: Scoring<S>>(
    scoring: &M,
    state: WorkerView<S>,
    pauses: Seq<Range<usize>>,
    end: usize,
) -> bool {
    is_first_span(
        scoring,
        state.coordinator.uncommitted.take(horizon(state.coordinator.policy)),
        pauses,
        state.coordinator.policy,
        Some(Range { start: 0usize, end }),
    )
}

/// The model is to be run on `local`.
pub open spec fn runs_chunk<S>(
    state: WorkerView<S>,
    local: Range<usize>,
    action: WorkerAction,
) -> bool {
    action matches WorkerAction::RunChunk { local: range, absolute, call_number } && {
        &&& range == local
        &&& absolute == state.absolute(local)
        &&& call_number == state.texts.len() + 1
    }
}

/// The last spans are run as long as there are any, else all is transcribed.
pub open spec fn goes_through_last_spans<S>(
    mid: WorkerView<S>,
    post: WorkerView<S>,
    action: WorkerAction,
) -> bool {
    if mid.final_index < mid.final_spans.len() {
        &&& post == (WorkerView { phase: Phase::PollingChunk, ..mid })
        &&& action is PollCancel
    } else {
        &&& post == (WorkerView { phase: Phase::Done, ..mid })
        &&& action matches WorkerAction::Reply(
            RollingOutcome::Completed { text, detected_language },
        ) && text@ == merged(mid.texts) && detected_language == mid.language
    }
}

/// All that is uncommitted is planned as the end of the recording.
pub open spec fn plans_rest<S, M: Scoring<S>>(
    scoring: &M,
    mid: WorkerView<S>,
    pauses: Seq<Range<usize>>,
    post: WorkerView<S>,
    action: WorkerAction,
) -> bool {
    exists|spans: Seq<Range<usize>>|
        {
            &&& #[trigger] is_suffix_plan(
                scoring,
                mid.coordinator.uncommitted,
                pauses,
                mid.coordinator.policy,
                spans,
            )
            &&& goes_through_last_spans(
                WorkerView { final_spans: spans, final_index: 0, ..mid },
                post,
                action,
            )
        }
}

/// More audio is counted, and taken unless work has stopped.
pub open spec fn takes_audio<S>(
    pre: WorkerView<S>,
    samples: Seq<S>,
    post: WorkerView<S>,
    action: WorkerAction,
) -> bool {
    let sum = pre.received + samples.len();
    let received = if sum > usize::MAX {
        usize::MAX as int
    } else {
        sum
    };
    if !pre.going() {
        &&& post == (WorkerView { received, ..pre })
        &&& action is Receive
    } else {
        catches_up(
            WorkerView {
                received,
                fed: pre.fed + samples,
                coordinator: pre.coordinator.pushed(samples),
                ..pre
            },
            post,
            action,
        )
    }
}

/// The recording has ended: a cancellation that was seen is the reply, else it
/// is asked for one.
pub open spec fn takes_end<S>(
    pre: WorkerView<S>,
    post: WorkerView<S>,
    action: WorkerAction,
) -> bool {
    if pre.cancelled {
        &&& post == (WorkerView { phase: Phase::Done, ..pre })
        &&& replies_cancelled(action)
    } else {
        &&& post == (WorkerView { phase: Phase::PollingFinal, ..pre })
        &&& action is PollCancel
    }
}

/// The transcript of the chunk that was run is kept, and its samples committed
/// while the recording is running. A failure stays until the recording has
/// ended, or is the reply where it has.
pub open spec fn takes_transcript<S>(
    pre: WorkerView<S>,
    result: Result<(String, Option<String>), String>,
    post: WorkerView<S>,
    action: WorkerAction,
) -> bool {
    match (pre.phase, result) {
        (Phase::RunningBackground { end }, Ok((text, language))) => {
            let heard = pre.heard(pre.absolute(Range { start: 0usize, end }), text@, language);
            catches_up(
                WorkerView {
                    coordinator: pre.coordinator.committed(end as int),
                    background_calls: pre.background_calls + 1,
                    ..heard
                },
                post,
                action,
            )
        },
        (Phase::RunningBackground { .. }, Err(error)) => {
            &&& post == (WorkerView { sticky_error: Some(error), phase: Phase::Receiving, ..pre })
            &&& action is Receive
        },
        (_, Ok((text, language))) => {
            let heard = pre.heard(
                pre.absolute(pre.final_spans[pre.final_index]),
                text@,
                language,
            );
            goes_through_last_spans(
                WorkerView { final_index: pre.final_index + 1, ..heard },
                post,
                action,
            )
        },
        (_, Err(error)) => {
            &&& post == (WorkerView { phase: Phase::Done, ..pre })
            &&& replies_failed(action, error@)
        },
    }
}

/// On `event` a worker goes from `pre` to `post` and asks for `action`.
pub open spec fn worker_step<S, M: Scoring<S>>(
    scoring: &M,
    pre: WorkerView<S>,
    event: WorkerEvent<S>,
    post: WorkerView<S>,
    action: WorkerAction,
) -> bool {
    let policy = pre.coordinator.policy;
    match (pre.phase, event) {
        (Phase::Receiving, WorkerEvent::Feed(samples)) => takes_audio(pre, samples, post, action),
        (Phase::PollingBackground, WorkerEvent::CancelPolled(cancelled)) => if cancelled {
            &&& post == (WorkerView { cancelled: true, phase: Phase::Receiving, ..pre })
            &&& action is Receive
        } else if pre.vad_failed {
            chooses_span(scoring, pre, Seq::empty(), post, action)
        } else {
            &&& post == (WorkerView { phase: Phase::AnalyzingWindow, ..pre })
            &&& action == WorkerAction::AnalyzePauses(
                Range { start: 0usize, end: horizon(policy) as usize },
            )
        },
        (Phase::AnalyzingWindow, WorkerEvent::Pauses(found)) => chooses_span(
            scoring,
            WorkerView { vad_failed: found is None, ..pre },
            found.unwrap_or(Seq::empty()),
            post,
            action,
        ),
        (Phase::RunningBackground { .. }, WorkerEvent::Chunk(result)) => takes_transcript(
            pre,
            result,
            post,
            action,
        ),
        (Phase::Receiving, WorkerEvent::Finalize) => takes_end(pre, post, action),
        (Phase::PollingFinal, WorkerEvent::CancelPolled(cancelled)) => if cancelled {
            &&& post == (WorkerView { phase: Phase::Done, ..pre })
            &&& replies_cancelled(action)
        } else if pre.sticky_error is Some {
            &&& post == (WorkerView { phase: Phase::Done, ..pre })
            &&& replies_failed(action, pre.sticky_error->0@)
        } else if pre.coordinator.uncommitted.len() <= policy.hard_max_samples || pre.vad_failed {
            plans_rest(scoring, pre, Seq::empty(), post, action)
        } else {
            &&& post == (WorkerView { phase: Phase::AnalyzingRest, ..pre })
            &&& action == WorkerAction::AnalyzePauses(
                Range { start: 0usize, end: pre.coordinator.uncommitted.len() as usize },
            )
        },
        (Phase::AnalyzingRest, WorkerEvent::Pauses(found)) => plans_rest(
            scoring,
            pre,
            found.unwrap_or(Seq::empty()),
            post,
            action,
        ),
        (Phase::PollingChunk, WorkerEvent::CancelPolled(cancelled)) => if cancelled {
            &&& post == (WorkerView { phase: Phase::Done, ..pre })
            &&& replies_cancelled(action)
        } else {
            &&& post == (WorkerView { phase: Phase::RunningFinal, ..pre })
            &&& runs_chunk(pre, pre.final_spans[pre.final_index], action)
        },
        (Phase::RunningFinal, WorkerEvent::Chunk(result)) => takes_transcript(
            pre,
            result,
            post,
            action,
        ),
        _ => false,
    }
}

/// The pauses that a vector holds, where there is one.
pub open spec fn pauses_in(found: Option<Vec<Range<usize>>>) -> Option<Seq<Range<usize>>> {
    match found {
        Some(pauses) => Some(pauses@),
        None => None,
    }
}

/// Another chunk behind the last transcribed one keeps the transcripts in order.
proof fn lemma_one_more_heard<S>(
    pre: WorkerView<S>,
    samples: Range<usize>,
    text: Seq<char>,
    language: Option<String>,
)
    requires
        pre.wf(),
        samples.start == end_of(pre.transcribed),
        samples.start < samples.end,
        samples.end - samples.start <= pre.coordinator.policy.hard_max_samples,
    ensures
        ({
            let post = pre.heard(samples, text, language);
            &&& post.texts.len() == post.transcribed.len()
            &&& post.texts.len() <= end_of(post.transcribed)
            &&& post.transcribed[0].start == 0
            &&& chained(post.transcribed)
            &&& forall|i: int|
                0 <= i < post.transcribed.len() ==> (#[trigger] post.transcribed[i]).start
                    < post.transcribed[i].end && post.transcribed[i].end
                    - post.transcribed[i].start <= pre.coordinator.policy.hard_max_samples
            &&& end_of(post.transcribed) == samples.end
        }),
{
    let post = pre.heard(samples, text, language);
    assert forall|i: int| 0 < i < post.transcribed.len() implies #[trigger] joined(
        post.transcribed,
        i,
    ) by {
        if i < pre.transcribed.len() {
            assert(joined(pre.transcribed, i));
        }
    }
}

proof fn lemma_audio_keeps_worker<S>(
    pre: WorkerView<S>,
    samples: Seq<S>,
    post: WorkerView<S>,
    action: WorkerAction,
)
    requires
        pre.wf(),
        pre.phase == Phase::Receiving,
        pre.fed.len() + samples.len() <= usize::MAX,
        takes_audio(pre, samples, post, action),
    ensures
        post.wf(),
        action is Receive || action is PollCancel,
{
    if pre.going() {
        law_the_coordinator_preserves_samples(pre.coordinator, pre.fed, samples, 0);
    }
}

proof fn lemma_transcript_keeps_worker<S>(
    pre: WorkerView<S>,
    result: Result<(String, Option<String>), String>,
    post: WorkerView<S>,
    action: WorkerAction,
)
    requires
        pre.wf(),
        pre.phase is RunningBackground || pre.phase == Phase::RunningFinal,
        takes_transcript(pre, result, post, action),
    ensures
        post.wf(),
        action matches WorkerAction::Reply(RollingOutcome::Completed { .. }) ==> {
            &&& post.going()
            &&& post.texts.len() <= post.background_calls + 2
            &&& full_coverage(
                post.transcribed,
                post.received as nat,
                post.coordinator.policy.hard_max_samples as nat,
            )
        },
{
    match (pre.phase, result) {
        (Phase::RunningBackground { end }, Ok((text, language))) => {
            let samples = pre.absolute(Range { start: 0usize, end });
            lemma_one_more_heard(pre, samples, text@, language);
            law_the_coordinator_preserves_samples(
                pre.coordinator,
                pre.fed,
                Seq::empty(),
                end as int,
            );
        },
        (Phase::RunningFinal, Ok((text, language))) => {
            let i = pre.final_index;
            let local = pre.final_spans[i];
            let samples = pre.absolute(local);
            let rest = pre.coordinator.uncommitted.len();
            let h = pre.coordinator.policy.hard_max_samples as nat;
            lemma_ends_inside(pre.final_spans, rest, h, i);
            assert(local.start < local.end && local.end - local.start <= h);
            lemma_one_more_heard(pre, samples, text@, language);
            if i + 1 < pre.final_spans.len() {
                assert(joined(pre.final_spans, i + 1));
            } else {
                assert(pre.final_spans.last() == local);
            }
        },
        _ => {},
    }
}

/// Each step keeps the transcripts in order and the audio complete.
pub proof fn lemma_step_keeps_worker<S, M: Scoring<S>>(
    scoring: &M,
    pre: WorkerView<S>,
    event: WorkerEvent<S>,
    post: WorkerView<S>,
    action: WorkerAction,
)
    requires
        pre.wf(),
        event matches WorkerEvent::Feed(samples) ==> pre.fed.len() + samples.len() <= usize::MAX,
        event matches WorkerEvent::CancelPolled(cancelled) ==> cancelled || pre.can_plan(),
        event is Pauses ==> pre.can_plan(),
        worker_step(scoring, pre, event, post, action),
    ensures
        post.wf(),
        action matches WorkerAction::Reply(RollingOutcome::Completed { .. }) ==> {
            &&& post.going()
            &&& post.texts.len() <= post.background_calls + 2
            &&& full_coverage(
                post.transcribed,
                post.received as nat,
                post.coordinator.policy.hard_max_samples as nat,
            )
        },
{
    let policy = pre.coordinator.policy;
    match (pre.phase, event) {
        (Phase::Receiving, WorkerEvent::Feed(samples)) => {
            lemma_audio_keeps_worker(pre, samples, post, action);
        },
        (Phase::PollingBackground, WorkerEvent::CancelPolled(cancelled)) => {
            if !cancelled && pre.vad_failed {
                lemma_chosen_span(scoring, pre, pre, Seq::empty(), post, action);
            }
        },
        (Phase::AnalyzingWindow, WorkerEvent::Pauses(found)) => {
            let mid = WorkerView { vad_failed: found is None, ..pre };
            lemma_chosen_span(scoring, pre, mid, found.unwrap_or(Seq::empty()), post, action);
        },
        (Phase::RunningBackground { .. }, WorkerEvent::Chunk(result)) => {
            lemma_transcript_keeps_worker(pre, result, post, action);
        },
        (Phase::PollingFinal, WorkerEvent::CancelPolled(cancelled)) => {
            if !cancelled && pre.sticky_error is None && (pre.coordinator.uncommitted.len()
                <= policy.hard_max_samples || pre.vad_failed) {
                lemma_planned_rest(scoring, pre, Seq::empty(), post, action);
            }
        },
        (Phase::AnalyzingRest, WorkerEvent::Pauses(found)) => {
            lemma_planned_rest(scoring, pre, found.unwrap_or(Seq::empty()), post, action);
        },
        (Phase::RunningFinal, WorkerEvent::Chunk(result)) => {
            lemma_transcript_keeps_worker(pre, result, post, action);
        },
        _ => {},
    }
}

proof fn lemma_chosen_span<S, M: Scoring<S>>(
    scoring: &M,
    pre: WorkerView<S>,
    mid: WorkerView<S>,
    pauses: Seq<Range<usize>>,
    post: WorkerView<S>,
    action: WorkerAction,
)
    requires
        pre.wf(),
        pre.phase == Phase::PollingBackground || pre.phase == Phase::AnalyzingWindow,
        mid == (WorkerView { vad_failed: mid.vad_failed, ..pre }),
        mid.coordinator.policy.valid(),
        chooses_span(scoring, mid, pauses, post, action),
    ensures
        post.wf(),
{
    let policy = mid.coordinator.policy;
    let window = mid.coordinator.uncommitted.take(horizon(policy));
    let end = choose|end: usize|
        {
            &&& #[trigger] is_next_span(scoring, mid, pauses, end)
            &&& post == (WorkerView { phase: Phase::RunningBackground { end }, ..mid })
            &&& runs_chunk(mid, Range { start: 0usize, end }, action)
        };
    law_a_first_span_keeps_the_limits(
        scoring,
        window,
        pauses,
        policy,
        Some(Range { start: 0usize, end }),
    );
}

proof fn lemma_planned_rest<S, M: Scoring<S>>(
    scoring: &M,
    mid: WorkerView<S>,
    pauses: Seq<Range<usize>>,
    post: WorkerView<S>,
    action: WorkerAction,
)
    requires
        mid.wf(),
        mid.going(),
        mid.phase == Phase::PollingFinal || mid.phase == Phase::AnalyzingRest,
        mid.coordinator.uncommitted.len() > 0 ==> mid.coordinator.policy.valid(),
        plans_rest(scoring, mid, pauses, post, action),
    ensures
        post.wf(),
        action matches WorkerAction::Reply(RollingOutcome::Completed { .. }) ==> {
            &&& post.going()
            &&& post.texts.len() <= post.background_calls + 2
            &&& full_coverage(
                post.transcribed,
                post.received as nat,
                post.coordinator.policy.hard_max_samples as nat,
            )
        },
{
    let policy = mid.coordinator.policy;
    let rest = mid.coordinator.uncommitted;
    let spans = choose|spans: Seq<Range<usize>>|
        {
            &&& #[trigger] is_suffix_plan(scoring, rest, pauses, policy, spans)
            &&& goes_through_last_spans(
                WorkerView { final_spans: spans, final_index: 0, ..mid },
                post,
                action,
            )
        };
    law_a_suffix_plan_covers_the_rest(scoring, rest, pauses, policy, spans);
}

/// Decides what is done for a recording while it is running and at its end.
pub struct RollingWorker<S> {
    coordinator: RollingChunkCoordinator<S>,
    raw_texts: Vec<String>,
    detected_language: Option<String>,
    sticky_error: Option<String>,
    vad_failed: bool,
    cancelled: bool,
    received_samples: usize,
    background_calls: usize,
    final_spans: Vec<Range<usize>>,
    final_index: usize,
    phase: Phase,
    fed: Ghost<Seq<S>>,
    transcribed: Ghost<Seq<Range<usize>>>,
}

impl<S> View for RollingWorker<S> {
    type V = WorkerView<S>;

    closed spec fn view(&self) -> WorkerView<S> {
        WorkerView {
            coordinator: self.coordinator@,
            fed: self.fed@,
            received: self.received_samples as int,
            texts: contents(self.raw_texts@),
            transcribed: self.transcribed@,
            language: self.detected_language,
            sticky_error: self.sticky_error,
            vad_failed: self.vad_failed,
            cancelled: self.cancelled,
            background_calls: self.background_calls as int,
            final_spans: self.final_spans@,
            final_index: self.final_index as int,
            phase: self.phase,
        }
    }
}

impl<S: Copy> RollingWorker<S> {
    /// A worker that no audio has come in to. It waits for a command.
    pub fn new(policy: ChunkPolicy) -> (worker: Self)
        requires
            policy.soft_min_samples <= policy.hard_max_samples,
        ensures
            worker@ == initial_worker::<S>(policy),
            worker@.wf(),
    {
        let worker = RollingWorker {
            coordinator: RollingChunkCoordinator::new(policy),
            raw_texts: Vec::new(),
            detected_language: None,
            sticky_error: None,
            vad_failed: false,
            cancelled: false,
            received_samples: 0,
            background_calls: 0,
            final_spans: Vec::new(),
            final_index: 0,
            phase: Phase::Receiving,
            fed: Ghost(Seq::empty()),
            transcribed: Ghost(Seq::empty()),
        };
        assert(worker@ =~= initial_worker::<S>(policy));
        assert(Seq::<S>::empty().skip(0) =~= Seq::empty());
        worker
    }

    /// The audio that is not committed, which ranges in actions count in.
    pub fn uncommitted_audio(&self) -> (audio: &[S])
        ensures
            audio@ == self@.coordinator.uncommitted,
    {
        self.coordinator.uncommitted_audio()
    }

    /// The number of samples that came in, taken or not.
    pub fn received_samples(&self) -> (count: usize)
        ensures
            count == self@.received,
    {
        self.received_samples
    }

    /// The number of chunks transcribed while the recording was running.
    pub fn background_calls(&self) -> (count: usize)
        ensures
            count == self@.background_calls,
    {
        self.background_calls
    }

    /// The most samples that were uncommitted at one time.
    pub fn high_water_samples(&self) -> (count: usize)
        ensures
            count == self@.coordinator.high_water,
    {
        self.coordinator.high_water_samples()
    }

    /// What the worker waits for.
    pub fn phase(&self) -> (phase: Phase)
        ensures
            phase == self@.phase,
    {
        self.phase
    }

    /// Whether work goes on: no chunk has failed, and no cancellation was seen.
    fn is_going(&self) -> (going: bool)
        ensures
            going == self@.going(),
    {
        self.sticky_error.is_none() && !self.cancelled
    }

    fn catch_up(&mut self) -> (action: WorkerAction)
        ensures
            catches_up(old(self)@, final(self)@, action),
    {
        if self.coordinator.uncommitted_samples() >= self.coordinator.rolling_horizon_samples() {
            self.phase = Phase::PollingBackground;
            WorkerAction::PollCancel
        } else {
            self.phase = Phase::Receiving;
            WorkerAction::Receive
        }
    }

    fn choose_span<M: Scoring<S>>(
        &mut self,
        pauses: &[Range<usize>],
        scoring: &M,
    ) -> (action: WorkerAction)
        requires
            old(self)@.coordinator.wf(),
            old(self)@.coordinator.uncommitted.len() >= horizon(old(self)@.coordinator.policy),
            old(self)@.texts.len() <= old(self)@.coordinator.absolute_start,
            old(self)@.coordinator.policy.valid(),
        ensures
            chooses_span(scoring, old(self)@, pauses@, final(self)@, action),
    {
        let chosen: Option<Range<usize>> = self.coordinator.next_ready_span(pauses, scoring);
        let end: usize = match chosen {
            Some(span) => span.end,
            None => 0,
        };
        assert(chosen == Some(Range { start: 0usize, end }));
        assert(is_next_span(scoring, self@, pauses@, end));
        let local: Range<usize> = 0..end;
        let absolute: Range<usize> = self.coordinator.absolute_range(&local);
        let call_number: usize = self.raw_texts.len() + 1;
        self.phase = Phase::RunningBackground { end };
        assert(self@ =~= (WorkerView { phase: Phase::RunningBackground { end }, ..old(self)@ }));
        WorkerAction::RunChunk { local, absolute, call_number }
    }

    fn continue_last_spans(&mut self) -> (action: WorkerAction)
        ensures
            goes_through_last_spans(old(self)@, final(self)@, action),
    {
        if self.final_index < self.final_spans.len() {
            self.phase = Phase::PollingChunk;
            WorkerAction::PollCancel
        } else {
            self.phase = Phase::Done;
            let text: String = merge_english_chunks(self.raw_texts.as_slice());
            let detected_language: Option<String> = match &self.detected_language {
                Some(language) => Some(language.clone()),
                None => None,
            };
            WorkerAction::Reply(RollingOutcome::Completed { text, detected_language })
        }
    }

    fn plan_rest<M: Scoring<S>>(
        &mut self,
        pauses: &[Range<usize>],
        scoring: &M,
    ) -> (action: WorkerAction)
        requires
            old(self)@.wf(),
            old(self)@.coordinator.uncommitted.len() > 0 ==> old(self)@.coordinator.policy.valid(),
        ensures
            plans_rest(scoring, old(self)@, pauses@, final(self)@, action),
    {
        let spans: Vec<Range<usize>> = self.coordinator.final_spans(pauses, scoring);
        let ghost planned = spans@;
        self.final_spans = spans;
        self.final_index = 0;
        proof {
            assert(is_suffix_plan(
                scoring,
                old(self)@.coordinator.uncommitted,
                pauses@,
                old(self)@.coordinator.policy,
                planned,
            ));
            assert(self@ =~= (WorkerView { final_spans: planned, final_index: 0, ..old(self)@ }));
        }
        self.continue_last_spans()
    }

    fn hear(&mut self, samples: Ghost<Range<usize>>, text: String, language: Option<String>)
        ensures
            final(self)@ == old(self)@.heard(samples@, text@, language),
    {
        if self.detected_language.is_none() {
            self.detected_language = language;
        }
        let ghost before = self.raw_texts@;
        self.raw_texts.push(text);
        self.transcribed = Ghost(self.transcribed@.push(samples@));
        proof {
            assert(contents(self.raw_texts@) =~= contents(before).push(text@));
            assert(self@ =~= old(self)@.heard(samples@, text@, language));
        }
    }

    /// More audio has come in. It is counted, and taken unless work has stopped.
    pub fn feed(&mut self, samples: &[S]) -> (action: WorkerAction)
        requires
            old(self)@.wf(),
            old(self)@.phase == Phase::Receiving,
            old(self)@.fed.len() + samples.len() <= usize::MAX,
        ensures
            takes_audio(old(self)@, samples@, final(self)@, action),
            final(self)@.wf(),
    {
        let ghost pre = self@;
        self.received_samples = self.received_samples.saturating_add(samples.len());
        let action: WorkerAction = if self.is_going() {
            self.coordinator.push(samples);
            self.fed = Ghost(self.fed@ + samples@);
            assert(self@ =~= (WorkerView {
                received: self@.received,
                fed: pre.fed + samples@,
                coordinator: pre.coordinator.pushed(samples@),
                ..pre
            }));
            self.catch_up()
        } else {
            assert(self@ =~= (WorkerView { received: self@.received, ..pre }));
            WorkerAction::Receive
        };
        proof {
            lemma_audio_keeps_worker(pre, samples@, self@, action);
        }
        action
    }

    /// The recording has ended.
    pub fn finalize(&mut self) -> (action: WorkerAction)
        requires
            old(self)@.wf(),
            old(self)@.phase == Phase::Receiving,
        ensures
            takes_end(old(self)@, final(self)@, action),
            final(self)@.wf(),
    {
        if self.cancelled {
            self.phase = Phase::Done;
            WorkerAction::Reply(RollingOutcome::Failed(rolling_cancelled()))
        } else {
            self.phase = Phase::PollingFinal;
            WorkerAction::PollCancel
        }
    }

    /// It was asked whether the work is cancelled.
    pub fn cancel_polled<M: Scoring<S>>(
        &mut self,
        cancelled: bool,
        scoring: &M,
    ) -> (action: WorkerAction)
        requires
            old(self)@.wf(),
            old(self)@.phase == Phase::PollingBackground || old(self)@.phase == Phase::PollingFinal
                || old(self)@.phase == Phase::PollingChunk,
            cancelled || old(self)@.can_plan(),
        ensures
            worker_step(
                scoring,
                old(self)@,
                WorkerEvent::CancelPolled(cancelled),
                final(self)@,
                action,
            ),
            final(self)@.wf(),
            action matches WorkerAction::Reply(RollingOutcome::Completed { .. }) ==> full_coverage(
                final(self)@.transcribed,
                final(self)@.received as nat,
                final(self)@.coordinator.policy.hard_max_samples as nat,
            ),
    {
        let ghost pre = self@;
        let none: Vec<Range<usize>> = Vec::new();
        assert(none@ =~= Seq::empty());
        let action: WorkerAction = match self.phase {
            Phase::PollingBackground => {
                if cancelled {
                    self.cancelled = true;
                    self.phase = Phase::Receiving;
                    WorkerAction::Receive
                } else if self.vad_failed {
                    self.choose_span(none.as_slice(), scoring)
                } else {
                    self.phase = Phase::AnalyzingWindow;
                    WorkerAction::AnalyzePauses(0..self.coordinator.rolling_horizon_samples())
                }
            },
            Phase::PollingFinal => {
                if cancelled {
                    self.phase = Phase::Done;
                    WorkerAction::Reply(RollingOutcome::Failed(rolling_cancelled()))
                } else if self.sticky_error.is_some() {
                    self.phase = Phase::Done;
                    let message: String = match &self.sticky_error {
                        Some(error) => error.clone(),
                        None => String::new(),
                    };
                    WorkerAction::Reply(RollingOutcome::Failed(message))
                } else if self.coordinator.uncommitted_samples() <= self.hard_max_samples()
                    || self.vad_failed {
                    self.plan_rest(none.as_slice(), scoring)
                } else {
                    self.phase = Phase::AnalyzingRest;
                    WorkerAction::AnalyzePauses(0..self.coordinator.uncommitted_samples())
                }
            },
            _ => {
                if cancelled {
                    self.phase = Phase::Done;
                    WorkerAction::Reply(RollingOutcome::Failed(rolling_cancelled()))
                } else {
                    proof {
                        lemma_ends_inside(
                            pre.final_spans,
                            pre.coordinator.uncommitted.len(),
                            pre.coordinator.policy.hard_max_samples as nat,
                            pre.final_index,
                        );
                        assert(pre.final_spans[pre.final_index].start
                            < pre.final_spans[pre.final_index].end);
                    }
                    let next: &Range<usize> = &self.final_spans[self.final_index];
                    let local: Range<usize> = next.start..next.end;
                    let absolute: Range<usize> = self.coordinator.absolute_range(&local);
                    let call_number: usize = self.raw_texts.len() + 1;
                    self.phase = Phase::RunningFinal;
                    WorkerAction::RunChunk { local, absolute, call_number }
                }
            },
        };
        proof {
            lemma_step_keeps_worker(
                scoring,
                pre,
                WorkerEvent::CancelPolled(cancelled),
                self@,
                action,
            );
        }
        action
    }

    /// The pauses that were asked for are found, or, as `None`, the analysis has
    /// failed.
    pub fn pauses_found<M: Scoring<S>>(
        &mut self,
        found: Option<Vec<Range<usize>>>,
        scoring: &M,
    ) -> (action: WorkerAction)
        requires
            old(self)@.wf(),
            old(self)@.phase == Phase::AnalyzingWindow || old(self)@.phase == Phase::AnalyzingRest,
            old(self)@.can_plan(),
        ensures
            worker_step(
                scoring,
                old(self)@,
                WorkerEvent::Pauses(pauses_in(found)),
                final(self)@,
                action,
            ),
            final(self)@.coordinator == old(self)@.coordinator,
            final(self)@.texts == old(self)@.texts,
            old(self)@.phase == Phase::AnalyzingRest ==> match found {
                Some(pauses) => is_suffix_plan(
                    scoring,
                    old(self)@.coordinator.uncommitted,
                    pauses@,
                    old(self)@.coordinator.policy,
                    final(self)@.final_spans,
                ),
                None => is_suffix_plan(
                    scoring,
                    old(self)@.coordinator.uncommitted,
                    Seq::empty(),
                    old(self)@.coordinator.policy,
                    final(self)@.final_spans,
                ),
            },
            old(self)@.phase == Phase::AnalyzingWindow ==> {
                &&& final(self)@.vad_failed == (found is None)
                &&& final(self)@.phase matches Phase::RunningBackground { end }
                &&& is_first_span(
                    scoring,
                    old(self)@.coordinator.uncommitted.take(
                        horizon(old(self)@.coordinator.policy),
                    ),
                    match found {
                        Some(pauses) => pauses@,
                        None => Seq::empty(),
                    },
                    old(self)@.coordinator.policy,
                    Some(Range { start: 0usize, end }),
                )
            },
            final(self)@.wf(),
            action matches WorkerAction::Reply(RollingOutcome::Completed { .. }) ==> full_coverage(
                final(self)@.transcribed,
                final(self)@.received as nat,
                final(self)@.coordinator.policy.hard_max_samples as nat,
            ),
    {
        let ghost pre = self@;
        let ghost event = WorkerEvent::Pauses(pauses_in(found));
        let failed: bool = found.is_none();
        let pauses: Vec<Range<usize>> = match found {
            Some(pauses) => pauses,
            None => Vec::new(),
        };
        let action: WorkerAction = match self.phase {
            Phase::AnalyzingWindow => {
                self.vad_failed = failed;
                assert(self@ =~= (WorkerView { vad_failed: failed, ..pre }));
                self.choose_span(pauses.as_slice(), scoring)
            },
            _ => self.plan_rest(pauses.as_slice(), scoring),
        };
        proof {
            lemma_step_keeps_worker(scoring, pre, event, self@, action);
        }
        action
    }

    /// The model has come back with the transcript of a chunk and the language
    /// it has named, or has failed.
    pub fn chunk_finished(
        &mut self,
        result: Result<(String, Option<String>), String>,
    ) -> (action: WorkerAction)
        requires
            old(self)@.wf(),
            old(self)@.phase is RunningBackground || old(self)@.phase == Phase::RunningFinal,
        ensures
            takes_transcript(old(self)@, result, final(self)@, action),
            final(self)@.wf(),
            action matches WorkerAction::Reply(RollingOutcome::Completed { .. }) ==> full_coverage(
                final(self)@.transcribed,
                final(self)@.received as nat,
                final(self)@.coordinator.policy.hard_max_samples as nat,
            ),
    {
        let ghost pre = self@;
        let ghost given = result;
        let action: WorkerAction = match self.phase {
            Phase::RunningBackground { end } => match result {
                Ok((text, language)) => {
                    let ghost samples = pre.absolute(Range { start: 0usize, end });
                    self.hear(Ghost(samples), text, language);
                    let committed: Range<usize> = self.coordinator.commit(0..end);
                    self.background_calls = self.background_calls + 1;
                    assert(self@ =~= (WorkerView {
                        coordinator: pre.coordinator.committed(end as int),
                        background_calls: pre.background_calls + 1,
                        ..pre.heard(samples, text@, language)
                    }));
                    self.catch_up()
                },
                Err(error) => {
                    self.sticky_error = Some(error);
                    self.phase = Phase::Receiving;
                    WorkerAction::Receive
                },
            },
            _ => match result {
                Ok((text, language)) => {
                    let ghost samples = pre.absolute(pre.final_spans[pre.final_index]);
                    self.hear(Ghost(samples), text, language);
                    assert(self.final_index < self.final_spans.len());
                    self.final_index = self.final_index + 1;
                    assert(self@ =~= (WorkerView {
                        final_index: pre.final_index + 1,
                        ..pre.heard(samples, text@, language)
                    }));
                    self.continue_last_spans()
                },
                Err(error) => {
                    self.phase = Phase::Done;
                    WorkerAction::Reply(RollingOutcome::Failed(error))
                },
            },
        };
        proof {
            lemma_transcript_keeps_worker(pre, given, self@, action);
        }
        action
    }

    fn hard_max_samples(&self) -> (count: usize)
        ensures
            count == self@.coordinator.policy.hard_max_samples,
    {
        self.coordinator.policy().hard_max_samples
    }
}

/// A complete transcript, as it is handed on.
#[derive(Debug)]
pub struct FinalizedStreamText<L> {
    pub text: String,
    /// What is known of the language of the text.
    pub output_language: L,
    pub supported_languages: Vec<String>,
    /// An empty text is a result too: nothing was said.
    pub empty_is_complete: bool,
}

/// What a recording worker replies.
#[derive(Debug)]
pub enum RecordingWorkerReply<L> {
    Completed(FinalizedStreamText<L>),
    Failed(String),
}

impl RollingOutcome {
    /// The reply that the outcome is. `with_model_detected_language` adds the
    /// language that the model has named to what was known before.
    pub fn into_reply<L, F: FnOnce(Option<String>) -> L>(
        self,
        with_model_detected_language: F,
        supported_languages: Vec<String>,
    ) -> (reply: RecordingWorkerReply<L>)
        requires
            self matches RollingOutcome::Completed { detected_language, .. } ==> call_requires(
                with_model_detected_language,
                (detected_language,),
            ),
        ensures
            match self {
                RollingOutcome::Completed { text, detected_language } => {
                    &&& reply matches RecordingWorkerReply::Completed(finalized)
                    &&& finalized.text == text
                    &&& call_ensures(
                        with_model_detected_language,
                        (detected_language,),
                        finalized.output_language,
                    )
                    &&& finalized.supported_languages == supported_languages
                    &&& finalized.empty_is_complete
                },
                RollingOutcome::Failed(message) => reply == RecordingWorkerReply::<L>::Failed(
                    message,
                ),
            },
    {
        match self {
            RollingOutcome::Completed { text, detected_language } => {
                let output_language = with_model_detected_language(detected_language);
                RecordingWorkerReply::Completed(
                    FinalizedStreamText {
                        text,
                        output_language,
                        supported_languages,
                        empty_is_complete: true,
                    },
                )
            },
            RollingOutcome::Failed(message) => RecordingWorkerReply::Failed(message),
        }
    }
}

} // verus!
