//! What holds of a worker from start to end.

use crate::policy::ChunkPolicy;
use crate::rolling::{
    analysis, end_of, exhausted, horizon, is_rolling_plan, is_rolling_plan_with, is_tail_plan,
    known_pauses, lemma_ends_inside, lemma_rolled_one_more, rolled, rolling_step, shifted,
    tail_pauses,
};
use crate::rolling_laws::law_more_audio_keeps_committed_spans;
use crate::scoring::Scoring;
use crate::span::{full_coverage, piece};
use crate::suffix::is_suffix_plan;
use crate::text::merged;
use crate::worker::{
    catches_up, chooses_span, goes_through_last_spans, initial_worker, is_next_span,
    lemma_step_keeps_worker, plans_rest, replies_cancelled, replies_failed, runs_chunk, worker_step,
    Phase, RollingOutcome, WorkerAction, WorkerEvent, WorkerView,
};
use std::ops::Range;
use vstd::prelude::*;

verus! {

/// Step `i` of a worker's life.
pub open spec fn step_at<S, M: Scoring<S>>(
    scoring: &M,
    states: Seq<WorkerView<S>>,
    events: Seq<WorkerEvent<S>>,
    actions: Seq<WorkerAction>,
    i: int,
) -> bool {
    &&& worker_step(scoring, states[i], events[i], states[i + 1], actions[i])
    &&& events[i] matches WorkerEvent::Feed(samples) ==> states[i].fed.len() + samples.len()
        <= usize::MAX
}

/// A worker starts with `policy`, goes through `states` on `events`, and asks for
/// `actions`.
pub open spec fn is_life<S, M: Scoring<S>>(
    scoring: &M,
    policy: ChunkPolicy,
    states: Seq<WorkerView<S>>,
    events: Seq<WorkerEvent<S>>,
    actions: Seq<WorkerAction>,
) -> bool {
    &&& states.len() == events.len() + 1
    &&& actions.len() == events.len()
    &&& states[0] == initial_worker::<S>(policy)
    &&& forall|i: int| 0 <= i < events.len() ==> #[trigger] step_at(
        scoring,
        states,
        events,
        actions,
        i,
    )
}

/// Law: at every moment the transcripts are of the recording from its start, in
/// order and without a gap, and no audio that was taken is lost.
pub proof fn law_a_worker_stays_in_order<S, M: Scoring<S>>(
    scoring: &M,
    policy: ChunkPolicy,
    states: Seq<WorkerView<S>>,
    events: Seq<WorkerEvent<S>>,
    actions: Seq<WorkerAction>,
    i: int,
)
    requires
        policy.valid(),
        is_life(scoring, policy, states, events, actions),
        0 <= i < states.len(),
    ensures
        states[i].wf(),
        states[i].coordinator.policy == policy,
    decreases i,
{
    if i == 0 {
        assert(Seq::<S>::empty().skip(0) =~= Seq::empty());
    } else {
        law_a_worker_stays_in_order(scoring, policy, states, events, actions, i - 1);
        assert(step_at(scoring, states, events, actions, i - 1));
        lemma_step_keeps_worker(
            scoring,
            states[i - 1],
            events[i - 1],
            states[i],
            actions[i - 1],
        );
    }
}

/// Law: a completed transcription is of the whole recording. Every sample that
/// came in was transcribed exactly once and in order, no chunk above the hard
/// maximum and no more than two of them after its end, and the text is that of
/// all chunks.
pub proof fn law_a_completed_transcription_is_complete<S, M: Scoring<S>>(
    scoring: &M,
    policy: ChunkPolicy,
    states: Seq<WorkerView<S>>,
    events: Seq<WorkerEvent<S>>,
    actions: Seq<WorkerAction>,
    i: int,
    text: String,
    detected_language: Option<String>,
)
    requires
        policy.valid(),
        is_life(scoring, policy, states, events, actions),
        0 <= i < actions.len(),
        actions[i] == WorkerAction::Reply(RollingOutcome::Completed { text, detected_language }),
    ensures
        full_coverage(
            states[i + 1].transcribed,
            states[i + 1].received as nat,
            policy.hard_max_samples as nat,
        ),
        states[i + 1].received == states[i + 1].fed.len(),
        states[i + 1].texts.len() == states[i + 1].transcribed.len(),
        states[i + 1].texts.len() <= states[i + 1].background_calls + 2,
        text@ == merged(states[i + 1].texts),
        detected_language == states[i + 1].language,
        states[i + 1].sticky_error is None,
        !states[i + 1].cancelled,
{
    law_a_worker_stays_in_order(scoring, policy, states, events, actions, i);
    law_a_worker_stays_in_order(scoring, policy, states, events, actions, i + 1);
    assert(step_at(scoring, states, events, actions, i));
    lemma_step_keeps_worker(scoring, states[i], events[i], states[i + 1], actions[i]);
}

/// Law: every call of the model continues where the last one ended, with the
/// samples that the recording has there, and is counted. While the recording is
/// running it waits for a full horizon, and takes no less than the soft minimum.
pub proof fn law_calls_continue_where_the_last_ended<S, M: Scoring<S>>(
    scoring: &M,
    pre: WorkerView<S>,
    event: WorkerEvent<S>,
    post: WorkerView<S>,
    local: Range<usize>,
    absolute: Range<usize>,
    call_number: usize,
)
    requires
        pre.wf(),
        event matches WorkerEvent::CancelPolled(cancelled) ==> cancelled || pre.can_plan(),
        event is Pauses ==> pre.can_plan(),
        event matches WorkerEvent::Feed(samples) ==> pre.fed.len() + samples.len() <= usize::MAX,
        worker_step(
            scoring,
            pre,
            event,
            post,
            WorkerAction::RunChunk { local, absolute, call_number },
        ),
    ensures
        absolute.start == end_of(post.transcribed),
        absolute.start < absolute.end <= post.fed.len(),
        absolute.end - absolute.start <= post.coordinator.policy.hard_max_samples,
        post.phase is RunningBackground ==> absolute.end - absolute.start
            >= post.coordinator.policy.soft_min_samples,
        post.phase is RunningBackground ==> post.coordinator.uncommitted.len() >= horizon(
            post.coordinator.policy,
        ),
        call_number == post.transcribed.len() + 1,
        piece(post.coordinator.uncommitted, local) == piece(post.fed, absolute),
{
    let action = WorkerAction::RunChunk { local, absolute, call_number };
    lemma_step_keeps_worker(scoring, pre, event, post, action);
    if post.phase == Phase::RunningFinal {
        lemma_ends_inside(
            post.final_spans,
            post.coordinator.uncommitted.len(),
            post.coordinator.policy.hard_max_samples as nat,
            post.final_index,
        );
        assert(post.final_spans[post.final_index].start < post.final_spans[post.final_index].end);
    }
    assert(piece(post.coordinator.uncommitted, local) =~= piece(post.fed, absolute));
}

/// Law: whether the work is cancelled is asked before every call of the model,
/// and a cancellation that is seen leads to no call.
pub proof fn law_cancellation_is_asked_for_between_calls<S, M: Scoring<S>>(
    scoring: &M,
    pre: WorkerView<S>,
    event: WorkerEvent<S>,
    post: WorkerView<S>,
    action: WorkerAction,
)
    requires
        worker_step(scoring, pre, event, post, action),
    ensures
        action is RunChunk ==> event == WorkerEvent::<S>::CancelPolled(false) || (event is Pauses
            && pre.phase == Phase::AnalyzingWindow),
        post.phase == Phase::AnalyzingWindow ==> event == WorkerEvent::<S>::CancelPolled(false),
        event is Chunk ==> action is PollCancel || action is Receive || action is Reply,
        event == WorkerEvent::<S>::CancelPolled(true) ==> action is Receive || replies_cancelled(
            action,
        ),
{
}

/// Work has stopped, for a failed chunk or a cancellation.
pub open spec fn stopped<S>(state: WorkerView<S>) -> bool {
    match state.phase {
        Phase::Receiving | Phase::Done => !state.going(),
        Phase::PollingFinal => state.sticky_error is Some && !state.cancelled,
        _ => false,
    }
}

/// Law: a failure or a cancellation stays. From then on the model is not called
/// and no pauses are looked for, however much audio comes in, and the reply is
/// the failure or the cancellation, never a partial transcript.
pub proof fn law_stopped_work_stays_stopped<S, M: Scoring<S>>(
    scoring: &M,
    policy: ChunkPolicy,
    states: Seq<WorkerView<S>>,
    events: Seq<WorkerEvent<S>>,
    actions: Seq<WorkerAction>,
    i: int,
    j: int,
)
    requires
        is_life(scoring, policy, states, events, actions),
        0 <= i <= j < states.len(),
        stopped(states[i]),
    ensures
        stopped(states[j]),
        states[j].texts == states[i].texts,
        states[j].sticky_error == states[i].sticky_error,
        states[j].cancelled == states[i].cancelled,
        j < actions.len() ==> {
            ||| actions[j] is Receive
            ||| actions[j] is PollCancel
            ||| replies_cancelled(actions[j])
            ||| states[i].sticky_error is Some && replies_failed(
                actions[j],
                states[i].sticky_error->0@,
            )
        },
    decreases j - i,
{
    if i < j {
        law_stopped_work_stays_stopped(scoring, policy, states, events, actions, i, j - 1);
        assert(step_at(scoring, states, events, actions, j - 1));
    }
    if j < actions.len() {
        assert(step_at(scoring, states, events, actions, j));
    }
}

/// Law: a chunk that fails while the recording is running stops the work.
pub proof fn law_a_failed_chunk_stops_the_work<S, M: Scoring<S>>(
    scoring: &M,
    pre: WorkerView<S>,
    error: String,
    post: WorkerView<S>,
    action: WorkerAction,
)
    requires
        worker_step(scoring, pre, WorkerEvent::Chunk(Err(error)), post, action),
    ensures
        pre.phase is RunningBackground ==> stopped(post) && post.sticky_error == Some(error)
            && post.texts == pre.texts,
        pre.phase == Phase::RunningFinal ==> replies_failed(action, error@),
{
}

/// Law: an analysis that has failed is not asked for again.
pub proof fn law_a_failed_analysis_is_not_asked_for_again<S, M: Scoring<S>>(
    scoring: &M,
    policy: ChunkPolicy,
    states: Seq<WorkerView<S>>,
    events: Seq<WorkerEvent<S>>,
    actions: Seq<WorkerAction>,
    i: int,
    j: int,
)
    requires
        policy.valid(),
        is_life(scoring, policy, states, events, actions),
        0 <= i <= j < states.len(),
        states[i].vad_failed,
    ensures
        states[j].vad_failed,
        j < actions.len() ==> !(actions[j] is AnalyzePauses),
    decreases j - i,
{
    if i < j {
        law_a_failed_analysis_is_not_asked_for_again(
            scoring,
            policy,
            states,
            events,
            actions,
            i,
            j - 1,
        );
        law_a_worker_stays_in_order(scoring, policy, states, events, actions, j - 1);
        assert(step_at(scoring, states, events, actions, j - 1));
    }
    if j < actions.len() {
        law_a_worker_stays_in_order(scoring, policy, states, events, actions, j);
        assert(step_at(scoring, states, events, actions, j));
    }
}

/// Law: a recording that fits one span is run once, at its end, and no pauses
/// are looked for.
pub proof fn law_a_short_recording_takes_one_call<S, M: Scoring<S>>(
    scoring: &M,
    pre: WorkerView<S>,
    post: WorkerView<S>,
    action: WorkerAction,
)
    requires
        pre.wf(),
        pre.going(),
        pre.phase == Phase::PollingFinal,
        0 < pre.coordinator.uncommitted.len() <= pre.coordinator.policy.hard_max_samples,
        worker_step(scoring, pre, WorkerEvent::CancelPolled(false), post, action),
    ensures
        post.final_spans == seq![
            Range { start: 0usize, end: pre.coordinator.uncommitted.len() as usize },
        ],
        post.phase == Phase::PollingChunk,
        action is PollCancel,
{
}

/// Law: once a recording has ended, what is left of it is planned in two spans at
/// most, and the model is called for no more than those.
pub proof fn law_the_rest_takes_two_calls_at_most<S, M: Scoring<S>>(
    scoring: &M,
    policy: ChunkPolicy,
    states: Seq<WorkerView<S>>,
    events: Seq<WorkerEvent<S>>,
    actions: Seq<WorkerAction>,
    i: int,
)
    requires
        policy.valid(),
        is_life(scoring, policy, states, events, actions),
        0 <= i < actions.len(),
    ensures
        states[i + 1].phase == Phase::PollingChunk || states[i + 1].phase == Phase::RunningFinal
            ==> states[i + 1].final_spans.len() <= 2,
        states[i + 1].phase == Phase::RunningFinal ==> (actions[i] matches WorkerAction::RunChunk {
            call_number,
            ..
        } && call_number <= states[i + 1].background_calls + 2),
{
    law_a_worker_stays_in_order(scoring, policy, states, events, actions, i);
    law_a_worker_stays_in_order(scoring, policy, states, events, actions, i + 1);
    assert(step_at(scoring, states, events, actions, i));
}

/// Law: a worker that waits for a command, and has not stopped, holds less than
/// a horizon of audio that is not committed.
pub proof fn law_a_caught_up_worker_holds_less_than_a_horizon<S, M: Scoring<S>>(
    scoring: &M,
    policy: ChunkPolicy,
    states: Seq<WorkerView<S>>,
    events: Seq<WorkerEvent<S>>,
    actions: Seq<WorkerAction>,
    i: int,
)
    requires
        policy.valid(),
        is_life(scoring, policy, states, events, actions),
        0 <= i < states.len(),
        states[i].phase == Phase::Receiving,
        states[i].going(),
    ensures
        states[i].coordinator.uncommitted.len() < horizon(policy),
{
    law_a_worker_stays_in_order(scoring, policy, states, events, actions, i);
}

/// The pauses that a worker is told of are those that `analyze` finds.
pub open spec fn told_by<S, E, F: FnMut(&[S]) -> Result<Vec<Range<usize>>, E>>(
    analyze: F,
    state: WorkerView<S>,
    event: WorkerEvent<S>,
) -> bool {
    event matches WorkerEvent::Pauses(found) ==> {
        &&& state.phase == Phase::AnalyzingWindow ==> analysis(
            analyze,
            state.coordinator.uncommitted.take(horizon(state.coordinator.policy)),
            found,
        )
        &&& state.phase == Phase::AnalyzingRest ==> analysis(
            analyze,
            state.coordinator.uncommitted,
            found,
        )
    }
}

/// `failures` says how the analysis went for the spans transcribed so far, which
/// are early spans of a rolling plan.
pub open spec fn on_early_spans<S, E, M: Scoring<S>, F: FnMut(&[S]) -> Result<Vec<Range<usize>>, E>>(
    scoring: &M,
    analyze: F,
    state: WorkerView<S>,
    failures: Seq<bool>,
) -> bool {
    let policy = state.coordinator.policy;
    &&& rolled(scoring, analyze, policy, state.fed, state.transcribed, failures)
    &&& match state.phase {
        Phase::RunningBackground { end } => rolling_step(
            scoring,
            analyze,
            policy,
            state.coordinator.uncommitted,
            failures.last(),
            end as int,
            state.vad_failed,
        ),
        _ => failures.last() == state.vad_failed,
    }
}

/// The spans transcribed so far are the spans `early`, and the first of the last
/// spans, of a rolling plan.
pub open spec fn on_last_spans<S, E, M: Scoring<S>, F: FnMut(&[S]) -> Result<Vec<Range<usize>>, E>>(
    scoring: &M,
    analyze: F,
    state: WorkerView<S>,
    early: Seq<Range<usize>>,
    failures: Seq<bool>,
) -> bool {
    let policy = state.coordinator.policy;
    let start = state.coordinator.absolute_start;
    &&& rolled(scoring, analyze, policy, state.fed, early, failures)
    &&& end_of(early) == start
    &&& exhausted(policy, state.fed, early)
    &&& is_tail_plan(
        scoring,
        analyze,
        policy,
        state.fed.skip(start),
        failures.last(),
        state.final_spans,
    )
    &&& 0 <= state.final_index <= state.final_spans.len()
    &&& state.transcribed == early + shifted(state.final_spans, start).take(state.final_index)
}

/// What was transcribed so far is the beginning of a rolling plan.
pub open spec fn on_rolling_plan<S, E, M: Scoring<S>, F: FnMut(&[S]) -> Result<Vec<Range<usize>>, E>>(
    scoring: &M,
    analyze: F,
    state: WorkerView<S>,
) -> bool {
    match state.phase {
        Phase::Done => true,
        Phase::PollingChunk | Phase::RunningFinal => exists|
            early: Seq<Range<usize>>,
            failures: Seq<bool>,
        |
            #[trigger] on_last_spans(scoring, analyze, state, early, failures),
        _ => state.going() ==> exists|failures: Seq<bool>| #[trigger]
            on_early_spans(scoring, analyze, state, failures),
    }
}

proof fn lemma_chosen_from_window<
    S,
    E,
    M: Scoring<S>,
    F: FnMut(&[S]) -> Result<Vec<Range<usize>>, E>,
>(
    scoring: &M,
    analyze: F,
    pre: WorkerView<S>,
    mid: WorkerView<S>,
    pauses: Seq<Range<usize>>,
    post: WorkerView<S>,
    action: WorkerAction,
)
    requires
        pre.wf(),
        pre.phase == Phase::PollingBackground || pre.phase == Phase::AnalyzingWindow,
        mid == (WorkerView { vad_failed: mid.vad_failed, ..pre }),
        on_rolling_plan(scoring, analyze, pre),
        known_pauses(
            analyze,
            pre.coordinator.uncommitted.take(horizon(pre.coordinator.policy)),
            pre.vad_failed,
            pauses,
            mid.vad_failed,
        ),
        chooses_span(scoring, mid, pauses, post, action),
    ensures
        on_rolling_plan(scoring, analyze, post),
{
    let failures = choose|failures: Seq<bool>| #[trigger]
        on_early_spans(scoring, analyze, pre, failures);
    let end = choose|end: usize|
        {
            &&& #[trigger] is_next_span(scoring, mid, pauses, end)
            &&& post == (WorkerView { phase: Phase::RunningBackground { end }, ..mid })
            &&& runs_chunk(mid, Range { start: 0usize, end }, action)
        };
    assert(rolling_step(
        scoring,
        analyze,
        pre.coordinator.policy,
        pre.coordinator.uncommitted,
        failures.last(),
        end as int,
        mid.vad_failed,
    ));
    assert(on_early_spans(scoring, analyze, post, failures));
}

proof fn lemma_went_through_last_spans<
    S,
    E,
    M: Scoring<S>,
    F: FnMut(&[S]) -> Result<Vec<Range<usize>>, E>,
>(
    scoring: &M,
    analyze: F,
    mid: WorkerView<S>,
    post: WorkerView<S>,
    action: WorkerAction,
    early: Seq<Range<usize>>,
    failures: Seq<bool>,
)
    requires
        on_last_spans(scoring, analyze, mid, early, failures),
        goes_through_last_spans(mid, post, action),
    ensures
        on_rolling_plan(scoring, analyze, post),
        action is Reply ==> is_rolling_plan(
            scoring,
            analyze,
            post.coordinator.policy,
            post.fed,
            post.transcribed,
        ),
{
    assert(on_last_spans(scoring, analyze, post, early, failures));
    if mid.final_index >= mid.final_spans.len() {
        let all = shifted(mid.final_spans, mid.coordinator.absolute_start);
        assert(all.take(mid.final_index) =~= all);
        assert(is_rolling_plan_with(
            scoring,
            analyze,
            post.coordinator.policy,
            post.fed,
            post.transcribed,
            early,
            failures,
            mid.final_spans,
        ));
    }
}

proof fn lemma_planned_the_rest<
    S,
    E,
    M: Scoring<S>,
    F: FnMut(&[S]) -> Result<Vec<Range<usize>>, E>,
>(
    scoring: &M,
    analyze: F,
    pre: WorkerView<S>,
    pauses: Seq<Range<usize>>,
    post: WorkerView<S>,
    action: WorkerAction,
)
    requires
        pre.wf(),
        pre.going(),
        pre.coordinator.policy.valid(),
        pre.phase == Phase::PollingFinal || pre.phase == Phase::AnalyzingRest,
        on_rolling_plan(scoring, analyze, pre),
        tail_pauses(
            analyze,
            pre.coordinator.policy,
            pre.coordinator.uncommitted,
            pre.vad_failed,
            pauses,
        ),
        plans_rest(scoring, pre, pauses, post, action),
    ensures
        on_rolling_plan(scoring, analyze, post),
        action is Reply ==> is_rolling_plan(
            scoring,
            analyze,
            post.coordinator.policy,
            post.fed,
            post.transcribed,
        ),
{
    let policy = pre.coordinator.policy;
    let failures = choose|failures: Seq<bool>| #[trigger]
        on_early_spans(scoring, analyze, pre, failures);
    let spans = choose|spans: Seq<Range<usize>>|
        {
            &&& #[trigger] is_suffix_plan(
                scoring,
                pre.coordinator.uncommitted,
                pauses,
                policy,
                spans,
            )
            &&& goes_through_last_spans(
                WorkerView { final_spans: spans, final_index: 0, ..pre },
                post,
                action,
            )
        };
    let mid = WorkerView { final_spans: spans, final_index: 0, ..pre };
    let start = pre.coordinator.absolute_start;
    assert(pre.transcribed =~= pre.transcribed + shifted(spans, start).take(0));
    assert(is_tail_plan(
        scoring,
        analyze,
        policy,
        pre.coordinator.uncommitted,
        failures.last(),
        spans,
    ));
    assert(on_last_spans(scoring, analyze, mid, pre.transcribed, failures));
    lemma_went_through_last_spans(
        scoring,
        analyze,
        mid,
        post,
        action,
        pre.transcribed,
        failures,
    );
}

/// A worker that has caught up or not goes on along the same plan.
proof fn lemma_caught_up<S, E, M: Scoring<S>, F: FnMut(&[S]) -> Result<Vec<Range<usize>>, E>>(
    scoring: &M,
    analyze: F,
    mid: WorkerView<S>,
    post: WorkerView<S>,
    action: WorkerAction,
    failures: Seq<bool>,
)
    requires
        rolled(
            scoring,
            analyze,
            mid.coordinator.policy,
            mid.fed,
            mid.transcribed,
            failures,
        ),
        failures.last() == mid.vad_failed,
        catches_up(mid, post, action),
    ensures
        on_rolling_plan(scoring, analyze, post),
{
    assert(on_early_spans(scoring, analyze, post, failures));
}

proof fn lemma_step_stays_on_plan<
    S,
    E,
    M: Scoring<S>,
    F: FnMut(&[S]) -> Result<Vec<Range<usize>>, E>,
>(
    scoring: &M,
    analyze: F,
    pre: WorkerView<S>,
    event: WorkerEvent<S>,
    post: WorkerView<S>,
    action: WorkerAction,
)
    requires
        pre.wf(),
        pre.coordinator.policy.valid(),
        on_rolling_plan(scoring, analyze, pre),
        told_by(analyze, pre, event),
        event matches WorkerEvent::Feed(samples) ==> pre.fed.len() + samples.len() <= usize::MAX,
        worker_step(scoring, pre, event, post, action),
    ensures
        on_rolling_plan(scoring, analyze, post),
        action matches WorkerAction::Reply(RollingOutcome::Completed { .. }) ==> is_rolling_plan(
            scoring,
            analyze,
            post.coordinator.policy,
            post.fed,
            post.transcribed,
        ),
{
    let policy = pre.coordinator.policy;
    match (pre.phase, event) {
        (Phase::Receiving, WorkerEvent::Feed(samples)) => {
            if pre.going() {
                let failures = choose|failures: Seq<bool>| #[trigger]
                    on_early_spans(scoring, analyze, pre, failures);
                law_more_audio_keeps_committed_spans(
                    scoring,
                    analyze,
                    policy,
                    pre.fed,
                    samples,
                    pre.transcribed,
                    failures,
                );
                let mid = WorkerView {
                    received: post.received,
                    fed: pre.fed + samples,
                    coordinator: pre.coordinator.pushed(samples),
                    ..pre
                };
                lemma_caught_up(scoring, analyze, mid, post, action, failures);
            }
        },
        (Phase::PollingBackground, WorkerEvent::CancelPolled(cancelled)) => {
            if !cancelled {
                if pre.vad_failed {
                    lemma_chosen_from_window(
                        scoring,
                        analyze,
                        pre,
                        pre,
                        Seq::empty(),
                        post,
                        action,
                    );
                } else {
                    let failures = choose|failures: Seq<bool>| #[trigger]
                        on_early_spans(scoring, analyze, pre, failures);
                    assert(on_early_spans(scoring, analyze, post, failures));
                }
            }
        },
        (Phase::AnalyzingWindow, WorkerEvent::Pauses(found)) => {
            let mid = WorkerView { vad_failed: found is None, ..pre };
            let pauses = found.unwrap_or(Seq::empty());
            assert(known_pauses(
                analyze,
                pre.coordinator.uncommitted.take(horizon(policy)),
                pre.vad_failed,
                pauses,
                mid.vad_failed,
            ));
            lemma_chosen_from_window(scoring, analyze, pre, mid, pauses, post, action);
        },
        (Phase::RunningBackground { end }, WorkerEvent::Chunk(result)) => {
            if let Ok((text, language)) = result {
                let failures = choose|failures: Seq<bool>| #[trigger]
                    on_early_spans(scoring, analyze, pre, failures);
                lemma_rolled_one_more(
                    scoring,
                    analyze,
                    policy,
                    pre.fed,
                    pre.transcribed,
                    failures,
                    end as int,
                    pre.vad_failed,
                );
                let heard = pre.heard(pre.absolute(Range { start: 0usize, end }), text@, language);
                let mid = WorkerView {
                    coordinator: pre.coordinator.committed(end as int),
                    background_calls: pre.background_calls + 1,
                    ..heard
                };
                lemma_caught_up(
                    scoring,
                    analyze,
                    mid,
                    post,
                    action,
                    failures.push(pre.vad_failed),
                );
            }
        },
        (Phase::Receiving, WorkerEvent::Finalize) => {
            if pre.going() {
                let failures = choose|failures: Seq<bool>| #[trigger]
                    on_early_spans(scoring, analyze, pre, failures);
                assert(on_early_spans(scoring, analyze, post, failures));
            }
        },
        (Phase::PollingFinal, WorkerEvent::CancelPolled(cancelled)) => {
            if !cancelled && pre.sticky_error is None {
                if pre.coordinator.uncommitted.len() <= policy.hard_max_samples
                    || pre.vad_failed {
                    lemma_planned_the_rest(
                        scoring,
                        analyze,
                        pre,
                        Seq::empty(),
                        post,
                        action,
                    );
                } else {
                    let failures = choose|failures: Seq<bool>| #[trigger]
                        on_early_spans(scoring, analyze, pre, failures);
                    assert(on_early_spans(scoring, analyze, post, failures));
                }
            }
        },
        (Phase::AnalyzingRest, WorkerEvent::Pauses(found)) => {
            if pre.coordinator.uncommitted.len() <= policy.hard_max_samples {
                // Too little is left for the pauses to matter.
                lemma_short_rest_ignores_pauses(
                    scoring,
                    pre,
                    found.unwrap_or(Seq::empty()),
                    post,
                    action,
                );
                lemma_planned_the_rest(scoring, analyze, pre, Seq::empty(), post, action);
            } else {
                lemma_planned_the_rest(
                    scoring,
                    analyze,
                    pre,
                    found.unwrap_or(Seq::empty()),
                    post,
                    action,
                );
            }
        },
        (Phase::PollingChunk, WorkerEvent::CancelPolled(cancelled)) => {
            if !cancelled {
                let (early, failures) = choose|early: Seq<Range<usize>>, failures: Seq<bool>|
                    #[trigger] on_last_spans(scoring, analyze, pre, early, failures);
                assert(on_last_spans(scoring, analyze, post, early, failures));
            }
        },
        (Phase::RunningFinal, WorkerEvent::Chunk(result)) => {
            if let Ok((text, language)) = result {
                let (early, failures) = choose|early: Seq<Range<usize>>, failures: Seq<bool>|
                    #[trigger] on_last_spans(scoring, analyze, pre, early, failures);
                let i = pre.final_index;
                let samples = pre.absolute(pre.final_spans[i]);
                let heard = pre.heard(samples, text@, language);
                let mid = WorkerView { final_index: i + 1, ..heard };
                let all = shifted(pre.final_spans, pre.coordinator.absolute_start);
                assert(mid.transcribed =~= early + all.take(i + 1));
                assert(on_last_spans(scoring, analyze, mid, early, failures));
                lemma_went_through_last_spans(
                    scoring,
                    analyze,
                    mid,
                    post,
                    action,
                    early,
                    failures,
                );
            }
        },
        _ => {},
    }
}

/// What fits one span is planned the same way with any pauses.
proof fn lemma_short_rest_ignores_pauses<S, M: Scoring<S>>(
    scoring: &M,
    pre: WorkerView<S>,
    pauses: Seq<Range<usize>>,
    post: WorkerView<S>,
    action: WorkerAction,
)
    requires
        pre.coordinator.uncommitted.len() <= pre.coordinator.policy.hard_max_samples,
        plans_rest(scoring, pre, pauses, post, action),
    ensures
        plans_rest(scoring, pre, Seq::empty(), post, action),
{
    let rest = pre.coordinator.uncommitted;
    let policy = pre.coordinator.policy;
    let spans = choose|spans: Seq<Range<usize>>|
        {
            &&& #[trigger] is_suffix_plan(scoring, rest, pauses, policy, spans)
            &&& goes_through_last_spans(
                WorkerView { final_spans: spans, final_index: 0, ..pre },
                post,
                action,
            )
        };
    assert(is_suffix_plan(scoring, rest, Seq::empty(), policy, spans));
}

pub proof fn lemma_life_stays_on_plan<
    S,
    E,
    M: Scoring<S>,
    F: FnMut(&[S]) -> Result<Vec<Range<usize>>, E>,
>(
    scoring: &M,
    analyze: F,
    policy: ChunkPolicy,
    states: Seq<WorkerView<S>>,
    events: Seq<WorkerEvent<S>>,
    actions: Seq<WorkerAction>,
    i: int,
)
    requires
        policy.valid(),
        is_life(scoring, policy, states, events, actions),
        forall|k: int| 0 <= k < events.len() ==> #[trigger] told_by(analyze, states[k], events[k]),
        0 <= i < states.len(),
    ensures
        on_rolling_plan(scoring, analyze, states[i]),
    decreases i,
{
    if i == 0 {
        assert(on_early_spans(scoring, analyze, states[0], seq![false]));
    } else {
        lemma_life_stays_on_plan(scoring, analyze, policy, states, events, actions, i - 1);
        law_a_worker_stays_in_order(scoring, policy, states, events, actions, i - 1);
        assert(step_at(scoring, states, events, actions, i - 1));
        assert(told_by(analyze, states[i - 1], events[i - 1]));
        lemma_step_stays_on_plan(
            scoring,
            analyze,
            states[i - 1],
            events[i - 1],
            states[i],
            actions[i - 1],
        );
    }
}

/// Law: a running recording is cut the way a replay of the complete recording
/// cuts it, however it came in. The ranges behind a completed transcription are
/// a rolling plan for all audio that came in.
pub proof fn law_a_worker_follows_a_rolling_plan<
    S,
    E,
    M: Scoring<S>,
    F: FnMut(&[S]) -> Result<Vec<Range<usize>>, E>,
>(
    scoring: &M,
    analyze: F,
    policy: ChunkPolicy,
    states: Seq<WorkerView<S>>,
    events: Seq<WorkerEvent<S>>,
    actions: Seq<WorkerAction>,
    i: int,
)
    requires
        policy.valid(),
        is_life(scoring, policy, states, events, actions),
        forall|k: int| 0 <= k < events.len() ==> #[trigger] told_by(analyze, states[k], events[k]),
        0 <= i < actions.len(),
        actions[i] matches WorkerAction::Reply(RollingOutcome::Completed { .. }),
    ensures
        is_rolling_plan(scoring, analyze, policy, states[i + 1].fed, states[i + 1].transcribed),
{
    lemma_life_stays_on_plan(scoring, analyze, policy, states, events, actions, i);
    law_a_worker_stays_in_order(scoring, policy, states, events, actions, i);
    law_a_worker_stays_in_order(scoring, policy, states, events, actions, i + 1);
    assert(step_at(scoring, states, events, actions, i));
    assert(told_by(analyze, states[i], events[i]));
    lemma_step_stays_on_plan(
        scoring,
        analyze,
        states[i],
        events[i],
        states[i + 1],
        actions[i],
    );
}

} // verus!
