//! What each step of a worker does, and what its steps come to.

use crate::first_span::is_first_span;
use crate::policy::ChunkPolicy;
use crate::scoring::Scoring;
use crate::span::full_coverage;
use crate::suffix::is_suffix_plan;
use crate::text::merged;
use crate::worker::{
    chooses_span, goes_through_last_spans, initial_worker, is_next_span, plans_rest, runs_chunk, takes_audio,
    takes_end, takes_transcript, worker_step, Phase, RollingOutcome, WorkerAction, WorkerEvent,
    WorkerView,
};
use crate::worker_agreement::audio_of;
use crate::worker_laws::{is_life, law_a_worker_stays_in_order, step_at};
use std::ops::Range;
use vstd::prelude::*;

verus! {

/// The same transcripts came in, and the same failures and cancellations.
pub open spec fn same_results<S>(a: WorkerView<S>, b: WorkerView<S>) -> bool {
    &&& a.texts == b.texts
    &&& a.transcribed == b.transcribed
    &&& a.language == b.language
    &&& a.sticky_error == b.sticky_error
    &&& a.cancelled == b.cancelled
    &&& a.background_calls == b.background_calls
    &&& a.coordinator.policy == b.coordinator.policy
}

/// The same audio came in, and the same of it is committed.
pub open spec fn same_audio<S>(a: WorkerView<S>, b: WorkerView<S>) -> bool {
    &&& a.fed == b.fed
    &&& a.received == b.received
    &&& a.coordinator.uncommitted == b.coordinator.uncommitted
    &&& a.coordinator.absolute_start == b.coordinator.absolute_start
    &&& a.coordinator.high_water == b.coordinator.high_water
}

/// Law: all audio that comes in is put behind what was there, and a span is looked
/// for exactly where a span of the hard maximum and the soft minimum behind it are
/// at hand. After a failure or a cancellation audio is only counted.
pub proof fn law_what_audio_leads_to<S>(
    pre: WorkerView<S>,
    samples: Seq<S>,
    post: WorkerView<S>,
    action: WorkerAction,
)
    requires
        pre.wf(),
        pre.phase == Phase::Receiving,
        pre.fed.len() + samples.len() <= usize::MAX,
        takes_audio(pre, samples, post, action),
    ensures
        same_results(pre, post),
        pre.vad_failed == post.vad_failed,
        pre.received + samples.len() <= usize::MAX ==> post.received == pre.received
            + samples.len(),
        pre.received + samples.len() > usize::MAX ==> post.received == usize::MAX,
        post.coordinator.absolute_start == pre.coordinator.absolute_start,
        pre.sticky_error is Some || pre.cancelled ==> {
            &&& action is Receive
            &&& post.phase == Phase::Receiving
            &&& post.fed == pre.fed
            &&& post.coordinator.uncommitted == pre.coordinator.uncommitted
        },
        pre.sticky_error is None && !pre.cancelled ==> {
            let held = pre.coordinator.uncommitted.len() + samples.len();
            let policy = pre.coordinator.policy;
            let enough = held >= policy.hard_max_samples + policy.soft_min_samples || held
                == usize::MAX;
            &&& post.fed == pre.fed + samples
            &&& post.coordinator.uncommitted == pre.coordinator.uncommitted + samples
            &&& post.coordinator.high_water >= held
            &&& post.coordinator.high_water >= pre.coordinator.high_water
            &&& post.coordinator.high_water == pre.coordinator.high_water
                || post.coordinator.high_water == held
            &&& enough ==> action is PollCancel && post.phase == Phase::PollingBackground
            &&& !enough ==> action is Receive && post.phase == Phase::Receiving
        },
{
}

/// Law: at the end of a recording a cancellation that was seen is the reply, and
/// else it is asked for one; nothing else changes.
pub proof fn law_what_the_end_leads_to<S>(
    pre: WorkerView<S>,
    post: WorkerView<S>,
    action: WorkerAction,
)
    requires
        takes_end(pre, post, action),
    ensures
        same_results(pre, post),
        same_audio(pre, post),
        pre.vad_failed == post.vad_failed,
        pre.cancelled ==> post.phase == Phase::Done && (action matches WorkerAction::Reply(
            RollingOutcome::Failed(said),
        ) && said@ == "Cohere rolling transcription was cancelled"@),
        !pre.cancelled ==> post.phase == Phase::PollingFinal && action is PollCancel,
{
}

/// Law: a cancellation leads to no further work, at the end of the recording to
/// the reply that says so. Without one the pauses are looked for in exactly the
/// samples that are planned next, unless the analysis has failed or what is left
/// fits one span: that is planned without any pauses.
#[verifier::rlimit(40)]
pub proof fn law_what_asking_for_a_cancellation_leads_to<S, M: Scoring<S>>(
    scoring: &M,
    pre: WorkerView<S>,
    cancelled: bool,
    post: WorkerView<S>,
    action: WorkerAction,
)
    requires
        pre.wf(),
        cancelled || pre.can_plan(),
        worker_step(scoring, pre, WorkerEvent::CancelPolled(cancelled), post, action),
    ensures
        same_audio(pre, post),
        pre.vad_failed == post.vad_failed,
        post.texts == pre.texts && post.transcribed == pre.transcribed && post.language
            == pre.language && post.sticky_error == pre.sticky_error,
        post.cancelled == (pre.cancelled || (cancelled && pre.phase == Phase::PollingBackground)),
        cancelled && pre.phase == Phase::PollingBackground ==> post.phase == Phase::Receiving
            && action is Receive,
        cancelled && pre.phase != Phase::PollingBackground ==> post.phase == Phase::Done && (
        action matches WorkerAction::Reply(RollingOutcome::Failed(said)) && said@
            == "Cohere rolling transcription was cancelled"@),
        !cancelled && pre.phase == Phase::PollingBackground && !pre.vad_failed ==> {
            let policy = pre.coordinator.policy;
            &&& post.phase == Phase::AnalyzingWindow
            &&& action matches WorkerAction::AnalyzePauses(range)
            &&& range.start == 0
            &&& policy.hard_max_samples + policy.soft_min_samples <= usize::MAX ==> range.end
                == policy.hard_max_samples + policy.soft_min_samples
            &&& policy.hard_max_samples + policy.soft_min_samples > usize::MAX ==> range.end
                == usize::MAX
        },
        !cancelled && pre.phase == Phase::PollingBackground && pre.vad_failed ==> runs_next_span(
            scoring,
            pre,
            Seq::empty(),
            post,
            action,
        ),
        !cancelled && pre.phase == Phase::PollingFinal ==> match pre.sticky_error {
            Some(error) => post.phase == Phase::Done && (action matches WorkerAction::Reply(
                RollingOutcome::Failed(said),
            ) && said@ == error@),
            None => if pre.coordinator.uncommitted.len() > pre.coordinator.policy.hard_max_samples
                && !pre.vad_failed {
                &&& post.phase == Phase::AnalyzingRest
                &&& action matches WorkerAction::AnalyzePauses(range)
                &&& range.start == 0
                &&& range.end == pre.coordinator.uncommitted.len()
            } else {
                starts_last_spans(scoring, pre, Seq::empty(), post, action)
            },
        },
        !cancelled && pre.phase == Phase::PollingChunk ==> {
            let span = pre.final_spans[pre.final_index];
            let start = pre.coordinator.absolute_start;
            &&& post.phase == Phase::RunningFinal
            &&& post.final_spans == pre.final_spans
            &&& post.final_index == pre.final_index
            &&& action matches WorkerAction::RunChunk { local, absolute, call_number }
            &&& local == span
            &&& absolute.start == start + span.start
            &&& absolute.end == start + span.end
            &&& call_number == pre.texts.len() + 1
        },
{
    if !cancelled && pre.phase == Phase::PollingBackground && pre.vad_failed {
        lemma_next_span(scoring, pre, Seq::empty(), post, action);
    }
    if !cancelled && pre.phase == Phase::PollingFinal && pre.sticky_error is None && !(
    pre.coordinator.uncommitted.len() > pre.coordinator.policy.hard_max_samples
        && !pre.vad_failed) {
        lemma_last_spans(scoring, pre, Seq::empty(), post, action);
    }
    if !cancelled && pre.phase == Phase::PollingChunk {
        crate::rolling::lemma_ends_inside(
            pre.final_spans,
            pre.coordinator.uncommitted.len(),
            pre.coordinator.policy.hard_max_samples as nat,
            pre.final_index,
        );
        assert(pre.final_spans[pre.final_index].start < pre.final_spans[pre.final_index].end);
    }
}

/// The model is to be run on the first uncommitted samples, up to where the next
/// span ends in a window of the hard maximum and the soft minimum with exactly
/// `pauses` in it.
pub open spec fn runs_next_span<S, M: Scoring<S>>(
    scoring: &M,
    pre: WorkerView<S>,
    pauses: Seq<Range<usize>>,
    post: WorkerView<S>,
    action: WorkerAction,
) -> bool {
    let policy = pre.coordinator.policy;
    let sum = policy.hard_max_samples + policy.soft_min_samples;
    &&& action matches WorkerAction::RunChunk { local, absolute, call_number }
    &&& is_first_span(
        scoring,
        pre.coordinator.uncommitted.take(
            if sum <= usize::MAX {
                sum
            } else {
                usize::MAX as int
            },
        ),
        pauses,
        policy,
        Some(local),
    )
    &&& local.start == 0
    &&& post.phase == Phase::RunningBackground { end: local.end }
    &&& absolute.start == pre.coordinator.absolute_start
    &&& absolute.end == pre.coordinator.absolute_start + local.end
    &&& call_number == pre.texts.len() + 1
}

/// What is left is planned as the end of the recording with exactly `pauses`, and
/// the spans are gone through from the first; without any the work is done.
pub open spec fn starts_last_spans<S, M: Scoring<S>>(
    scoring: &M,
    pre: WorkerView<S>,
    pauses: Seq<Range<usize>>,
    post: WorkerView<S>,
    action: WorkerAction,
) -> bool {
    &&& is_suffix_plan(
        scoring,
        pre.coordinator.uncommitted,
        pauses,
        pre.coordinator.policy,
        post.final_spans,
    )
    &&& post.final_index == 0
    &&& post.final_spans.len() > 0 ==> post.phase == Phase::PollingChunk && action is PollCancel
    &&& post.final_spans.len() == 0 ==> post.phase == Phase::Done && (
    action matches WorkerAction::Reply(RollingOutcome::Completed { text, detected_language })
        && text@ == merged(pre.texts) && detected_language == pre.language)
}

proof fn lemma_next_span<S, M: Scoring<S>>(
    scoring: &M,
    mid: WorkerView<S>,
    pauses: Seq<Range<usize>>,
    post: WorkerView<S>,
    action: WorkerAction,
)
    requires
        mid.wf(),
        mid.coordinator.policy.valid(),
        mid.coordinator.uncommitted.len() >= crate::rolling::horizon(mid.coordinator.policy),
        chooses_span(scoring, mid, pauses, post, action),
    ensures
        runs_next_span(scoring, mid, pauses, post, action),
        same_audio(mid, post),
        same_results(mid, post),
        post.vad_failed == mid.vad_failed,
{
    let policy = mid.coordinator.policy;
    let end = choose|end: usize|
        {
            &&& #[trigger] is_next_span(scoring, mid, pauses, end)
            &&& post == (WorkerView { phase: Phase::RunningBackground { end }, ..mid })
            &&& runs_chunk(mid, Range { start: 0usize, end }, action)
        };
    crate::first_span::law_a_first_span_keeps_the_limits(
        scoring,
        mid.coordinator.uncommitted.take(crate::rolling::horizon(policy)),
        pauses,
        policy,
        Some(Range { start: 0usize, end }),
    );
}

proof fn lemma_last_spans<S, M: Scoring<S>>(
    scoring: &M,
    mid: WorkerView<S>,
    pauses: Seq<Range<usize>>,
    post: WorkerView<S>,
    action: WorkerAction,
)
    requires
        plans_rest(scoring, mid, pauses, post, action),
    ensures
        starts_last_spans(scoring, mid, pauses, post, action),
        same_audio(mid, post),
        same_results(mid, post),
        post.vad_failed == mid.vad_failed,
{
    let spans = choose|spans: Seq<Range<usize>>|
        {
            &&& #[trigger] is_suffix_plan(
                scoring,
                mid.coordinator.uncommitted,
                pauses,
                mid.coordinator.policy,
                spans,
            )
            &&& goes_through_last_spans(
                WorkerView { final_spans: spans, final_index: 0, ..mid },
                post,
                action,
            )
        };
    assert(post.final_spans == spans);
}

/// Law: the pauses that are found are the ones that are planned with, all of them
/// and no others: those in the window by the next span, those in what is left by
/// the last spans. A failed analysis counts as no pauses, and only one of the
/// window is remembered as failed.
pub proof fn law_what_pauses_lead_to<S, M: Scoring<S>>(
    scoring: &M,
    pre: WorkerView<S>,
    found: Option<Seq<Range<usize>>>,
    post: WorkerView<S>,
    action: WorkerAction,
)
    requires
        pre.wf(),
        pre.can_plan(),
        worker_step(scoring, pre, WorkerEvent::Pauses(found), post, action),
    ensures
        same_audio(pre, post),
        same_results(pre, post),
        pre.phase == Phase::AnalyzingRest && found is Some ==> is_suffix_plan(
            scoring,
            pre.coordinator.uncommitted,
            found->0,
            pre.coordinator.policy,
            post.final_spans,
        ),
        pre.phase == Phase::AnalyzingRest ==> post.vad_failed == pre.vad_failed,
        pre.phase == Phase::AnalyzingRest && found is Some ==> starts_last_spans(
            scoring,
            pre,
            found->0,
            post,
            action,
        ),
        pre.phase == Phase::AnalyzingRest && found is None ==> starts_last_spans(
            scoring,
            pre,
            Seq::empty(),
            post,
            action,
        ),
        pre.phase == Phase::AnalyzingWindow ==> post.vad_failed == (found is None),
        pre.phase == Phase::AnalyzingWindow && found is Some ==> runs_next_span(
            scoring,
            pre,
            found->0,
            post,
            action,
        ),
        pre.phase == Phase::AnalyzingWindow && found is None ==> runs_next_span(
            scoring,
            pre,
            Seq::empty(),
            post,
            action,
        ),
{
    match pre.phase {
        Phase::AnalyzingWindow => {
            let mid = WorkerView { vad_failed: found is None, ..pre };
            let policy = mid.coordinator.policy;
            let pauses = found.unwrap_or(Seq::empty());
            let end = choose|end: usize|
                {
                    &&& #[trigger] is_next_span(scoring, mid, pauses, end)
                    &&& post == (WorkerView { phase: Phase::RunningBackground { end }, ..mid })
                    &&& runs_chunk(mid, Range { start: 0usize, end }, action)
                };
            crate::first_span::law_a_first_span_keeps_the_limits(
                scoring,
                mid.coordinator.uncommitted.take(crate::rolling::horizon(policy)),
                pauses,
                policy,
                Some(Range { start: 0usize, end }),
            );
        },
        _ => {
            lemma_last_spans(scoring, pre, found.unwrap_or(Seq::empty()), post, action);
        },
    }
}

/// Law: a transcript is put behind the others, the first language that is named
/// stays, and the samples that it is of are the ones that the model was run on.
/// While the recording is running they are committed, and it goes on as it does
/// for audio; at its end the next of the last spans is turned to, or all is merged
/// and is the reply. A failure leaves the transcripts as they are.
pub proof fn law_what_a_transcript_leads_to<S>(
    pre: WorkerView<S>,
    result: Result<(String, Option<String>), String>,
    post: WorkerView<S>,
    action: WorkerAction,
)
    requires
        pre.wf(),
        pre.phase is RunningBackground || pre.phase == Phase::RunningFinal,
        takes_transcript(pre, result, post, action),
    ensures
        post.fed == pre.fed && post.received == pre.received && post.vad_failed == pre.vad_failed
            && post.cancelled == pre.cancelled && post.coordinator.policy
            == pre.coordinator.policy,
        result matches Ok((text, language)) ==> {
            &&& post.texts == pre.texts.push(text@)
            &&& post.language == if pre.language is Some {
                pre.language
            } else {
                language
            }
            &&& post.sticky_error == pre.sticky_error
            &&& post.transcribed.len() == pre.transcribed.len() + 1
            &&& post.transcribed.drop_last() == pre.transcribed
        },
        (pre.phase matches Phase::RunningBackground { end } && result is Ok) ==> {
            let start = pre.coordinator.absolute_start;
            let end = pre.phase->end;
            let held = pre.coordinator.uncommitted.len() - end;
            let policy = pre.coordinator.policy;
            let enough = held >= policy.hard_max_samples + policy.soft_min_samples || held
                == usize::MAX;
            &&& post.transcribed.last().start == start
            &&& post.transcribed.last().end == start + end
            &&& post.coordinator.absolute_start == start + end
            &&& post.coordinator.uncommitted == pre.coordinator.uncommitted.skip(end as int)
            &&& post.background_calls == pre.background_calls + 1
            &&& enough ==> action is PollCancel && post.phase == Phase::PollingBackground
            &&& !enough ==> action is Receive && post.phase == Phase::Receiving
        },
        pre.phase == Phase::RunningFinal && result is Ok ==> {
            let start = pre.coordinator.absolute_start;
            let span = pre.final_spans[pre.final_index];
            &&& post.transcribed.last().start == start + span.start
            &&& post.transcribed.last().end == start + span.end
            &&& same_audio(pre, post)
            &&& post.final_spans == pre.final_spans
            &&& post.final_index == pre.final_index + 1
            &&& post.background_calls == pre.background_calls
            &&& if post.final_index < post.final_spans.len() {
                post.phase == Phase::PollingChunk && action is PollCancel
            } else {
                post.phase == Phase::Done && (action matches WorkerAction::Reply(
                    RollingOutcome::Completed { text, detected_language },
                ) && text@ == merged(post.texts) && detected_language == post.language)
            }
        },
        result matches Err(error) ==> {
            &&& same_audio(pre, post)
            &&& post.texts == pre.texts
            &&& post.transcribed == pre.transcribed
            &&& post.language == pre.language
            &&& pre.phase is RunningBackground ==> post.sticky_error == Some(error) && post.phase
                == Phase::Receiving && action is Receive
            &&& pre.phase == Phase::RunningFinal ==> post.phase == Phase::Done && (
            action matches WorkerAction::Reply(RollingOutcome::Failed(said)) && said@ == error@)
        },
{
    if result is Ok {
        assert(post.transcribed.drop_last() =~= pre.transcribed);
    }
    if pre.phase == Phase::RunningFinal {
        crate::rolling::lemma_ends_inside(
            pre.final_spans,
            pre.coordinator.uncommitted.len(),
            pre.coordinator.policy.hard_max_samples as nat,
            pre.final_index,
        );
        assert(pre.final_spans[pre.final_index].start < pre.final_spans[pre.final_index].end);
    }
}

/// The transcripts among the first `n` events, in order.
pub open spec fn heard_texts<S>(events: Seq<WorkerEvent<S>>, n: int) -> Seq<Seq<char>>
    decreases n,
{
    if n <= 0 {
        seq![]
    } else {
        let before = heard_texts(events, n - 1);
        match events[n - 1] {
            WorkerEvent::Chunk(Ok((text, _))) => before.push(text@),
            _ => before,
        }
    }
}

/// The first language that is named in the first `n` events.
pub open spec fn named_language<S>(events: Seq<WorkerEvent<S>>, n: int) -> Option<String>
    decreases n,
{
    if n <= 0 {
        None
    } else {
        match (named_language(events, n - 1), events[n - 1]) {
            (None, WorkerEvent::Chunk(Ok((_, language)))) => language,
            (before, _) => before,
        }
    }
}

/// The first failure of a chunk in the first `n` events.
pub open spec fn first_failure<S>(events: Seq<WorkerEvent<S>>, n: int) -> Option<String>
    decreases n,
{
    if n <= 0 {
        None
    } else {
        match (first_failure(events, n - 1), events[n - 1]) {
            (None, WorkerEvent::Chunk(Err(error))) => Some(error),
            (before, _) => before,
        }
    }
}

/// One of the first `n` events is a cancellation.
pub open spec fn cancellation_seen<S>(events: Seq<WorkerEvent<S>>, n: int) -> bool
    decreases n,
{
    n > 0 && (cancellation_seen(events, n - 1) || events[n - 1] == WorkerEvent::<
        S,
    >::CancelPolled(true))
}

/// The ranges of the recording that the model was run on by the first `n` actions.
pub open spec fn called_ranges(actions: Seq<WorkerAction>, n: int) -> Seq<Range<usize>>
    decreases n,
{
    if n <= 0 {
        seq![]
    } else {
        let before = called_ranges(actions, n - 1);
        match actions[n - 1] {
            WorkerAction::RunChunk { absolute, .. } => before.push(absolute),
            _ => before,
        }
    }
}

/// The ranges that the model was run on are those of the transcripts, and that of
/// the chunk that it is running on.
spec fn called_as_heard<S>(state: WorkerView<S>, called: Seq<Range<usize>>) -> bool {
    match state.phase {
        Phase::RunningBackground { end } => called == state.transcribed.push(
            state.absolute(Range { start: 0usize, end }),
        ),
        Phase::RunningFinal => called == state.transcribed.push(
            state.absolute(state.final_spans[state.final_index]),
        ),
        _ => called == state.transcribed,
    }
}

/// A worker knows what its events and actions say.
spec fn remembers<S>(
    state: WorkerView<S>,
    events: Seq<WorkerEvent<S>>,
    actions: Seq<WorkerAction>,
    n: int,
) -> bool {
    let total = audio_of(events, n).len();
    &&& state.texts == heard_texts(events, n)
    &&& state.language == named_language(events, n)
    &&& state.phase != Phase::Done ==> state.sticky_error == first_failure(events, n)
    &&& state.phase != Phase::Done ==> state.cancelled == cancellation_seen(events, n)
    &&& state.going() ==> state.fed == audio_of(events, n)
    &&& total <= usize::MAX ==> state.received == total
    &&& total > usize::MAX ==> state.received == usize::MAX
    &&& first_failure(events, n) is None ==> called_as_heard(state, called_ranges(actions, n))
}

#[verifier::rlimit(40)]
proof fn lemma_step_is_remembered<S, M: Scoring<S>>(
    scoring: &M,
    pre: WorkerView<S>,
    post: WorkerView<S>,
    events: Seq<WorkerEvent<S>>,
    actions: Seq<WorkerAction>,
    n: int,
)
    requires
        0 <= n < events.len(),
        events.len() == actions.len(),
        remembers(pre, events, actions, n),
        pre.wf(),
        pre.coordinator.policy.valid(),
        worker_step(scoring, pre, events[n], post, actions[n]),
        events[n] matches WorkerEvent::Feed(samples) ==> pre.fed.len() + samples.len()
            <= usize::MAX,
    ensures
        remembers(post, events, actions, n + 1),
{
    let action = actions[n];
    match events[n] {
        WorkerEvent::Feed(samples) => {},
        WorkerEvent::Finalize => {},
        WorkerEvent::CancelPolled(cancelled) => {
            if !cancelled && pre.phase == Phase::PollingBackground && pre.vad_failed {
                lemma_next_span(scoring, pre, Seq::empty(), post, action);
            }
            if !cancelled && pre.phase == Phase::PollingFinal && pre.sticky_error is None && !(
            pre.coordinator.uncommitted.len() > pre.coordinator.policy.hard_max_samples
                && !pre.vad_failed) {
                lemma_last_spans(scoring, pre, Seq::empty(), post, action);
            }
        },
        WorkerEvent::Pauses(found) => {
            law_what_pauses_lead_to(scoring, pre, found, post, action);
        },
        WorkerEvent::Chunk(result) => {},
    }
}

proof fn lemma_a_worker_remembers<S, M: Scoring<S>>(
    scoring: &M,
    policy: ChunkPolicy,
    states: Seq<WorkerView<S>>,
    events: Seq<WorkerEvent<S>>,
    actions: Seq<WorkerAction>,
    n: int,
)
    requires
        policy.valid(),
        is_life(scoring, policy, states, events, actions),
        0 <= n < states.len(),
    ensures
        remembers(states[n], events, actions, n),
    decreases n,
{
    if n > 0 {
        lemma_a_worker_remembers(scoring, policy, states, events, actions, n - 1);
        law_a_worker_stays_in_order(scoring, policy, states, events, actions, n - 1);
        assert(step_at(scoring, states, events, actions, n - 1));
        lemma_step_is_remembered(
            scoring,
            states[n - 1],
            states[n],
            events,
            actions,
            n - 1,
        );
    }
}

/// Law: a worker replies with a transcript only where no chunk has failed and no
/// cancellation was seen. Its text is that of all transcripts that came in, in
/// order, its language the first that was named, and the ranges that the model was
/// run on are all audio that came in, once and in order, one per transcript.
#[verifier::rlimit(40)]
pub proof fn law_a_reply_is_made_of_what_came_in<S, M: Scoring<S>>(
    scoring: &M,
    policy: ChunkPolicy,
    states: Seq<WorkerView<S>>,
    events: Seq<WorkerEvent<S>>,
    actions: Seq<WorkerAction>,
    i: int,
    text: String,
    detected_language: Option<String>,
)
    requires
        policy.valid(),
        is_life(scoring, policy, states, events, actions),
        0 <= i < actions.len(),
        actions[i] == WorkerAction::Reply(RollingOutcome::Completed { text, detected_language }),
    ensures
        first_failure(events, i + 1) is None,
        !cancellation_seen(events, i + 1),
        text@ == merged(heard_texts(events, i + 1)),
        detected_language == named_language(events, i + 1),
        heard_texts(events, i + 1).len() == called_ranges(actions, i + 1).len(),
        full_coverage(
            called_ranges(actions, i + 1),
            audio_of(events, i + 1).len(),
            policy.hard_max_samples as nat,
        ),
{
    lemma_a_worker_remembers(scoring, policy, states, events, actions, i);
    lemma_a_worker_remembers(scoring, policy, states, events, actions, i + 1);
    law_a_worker_stays_in_order(scoring, policy, states, events, actions, i);
    assert(step_at(scoring, states, events, actions, i));
    crate::worker::lemma_step_keeps_worker(
        scoring,
        states[i],
        events[i],
        states[i + 1],
        actions[i],
    );
    assert(states[i].phase != Phase::Done);
    if let WorkerEvent::Pauses(found) = events[i] {
        law_what_pauses_lead_to(scoring, states[i], found, states[i + 1], actions[i]);
    }
}

/// Law: a worker replies with a failure only where there is a reason. Either a
/// cancellation was seen, and it is said so, or the first chunk that failed is
/// what is told of.
pub proof fn law_a_failure_has_a_reason<S, M: Scoring<S>>(
    scoring: &M,
    policy: ChunkPolicy,
    states: Seq<WorkerView<S>>,
    events: Seq<WorkerEvent<S>>,
    actions: Seq<WorkerAction>,
    i: int,
    said: String,
)
    requires
        policy.valid(),
        is_life(scoring, policy, states, events, actions),
        0 <= i < actions.len(),
        actions[i] == WorkerAction::Reply(RollingOutcome::Failed(said)),
    ensures
        ({
            ||| cancellation_seen(events, i + 1) && said@
                == "Cohere rolling transcription was cancelled"@
            ||| first_failure(events, i + 1) matches Some(error) && said@ == error@
        }),
{
    lemma_a_worker_remembers(scoring, policy, states, events, actions, i);
    law_a_worker_stays_in_order(scoring, policy, states, events, actions, i);
    assert(step_at(scoring, states, events, actions, i));
    if let WorkerEvent::Pauses(found) = events[i] {
        law_what_pauses_lead_to(scoring, states[i], found, states[i + 1], actions[i]);
    }
}

/// Law: every sample that comes in is counted, and as long as no chunk has failed
/// and no cancellation was seen every one is taken.
pub proof fn law_all_audio_is_counted<S, M: Scoring<S>>(
    scoring: &M,
    policy: ChunkPolicy,
    states: Seq<WorkerView<S>>,
    events: Seq<WorkerEvent<S>>,
    actions: Seq<WorkerAction>,
    i: int,
)
    requires
        policy.valid(),
        is_life(scoring, policy, states, events, actions),
        0 <= i < states.len(),
    ensures
        audio_of(events, i).len() <= usize::MAX ==> states[i].received == audio_of(
            events,
            i,
        ).len(),
        states[i].phase != Phase::Done && first_failure(events, i) is None && !cancellation_seen(
            events,
            i,
        ) ==> states[i].coordinator.uncommitted == audio_of(events, i).skip(
            states[i].coordinator.absolute_start,
        ),
{
    lemma_a_worker_remembers(scoring, policy, states, events, actions, i);
    law_a_worker_stays_in_order(scoring, policy, states, events, actions, i);
}

/// Law: a new worker waits for a command, holds no audio and no transcripts, and
/// nothing has failed or was cancelled.
pub proof fn law_a_new_worker_knows_nothing<S>(policy: ChunkPolicy)
    ensures
        ({
            let worker = initial_worker::<S>(policy);
            &&& worker.phase == Phase::Receiving
            &&& worker.coordinator.policy == policy
            &&& worker.coordinator.uncommitted.len() == 0
            &&& worker.coordinator.absolute_start == 0
            &&& worker.coordinator.high_water == 0
            &&& worker.fed.len() == 0
            &&& worker.received == 0
            &&& worker.texts.len() == 0
            &&& worker.transcribed.len() == 0
            &&& worker.language is None
            &&& worker.sticky_error is None
            &&& !worker.vad_failed
            &&& !worker.cancelled
            &&& worker.background_calls == 0
        }),
{
}

} // verus!
