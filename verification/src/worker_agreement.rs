//! What two workers on the same audio have in common.

use crate::long_form::{first_language, texts_of};
use crate::plan_laws::repeatable;
use crate::policy::ChunkPolicy;
use crate::rolling::{
    end_of, is_rolling_plan, lemma_ends_inside, lemma_rolled_one_more, rolled, shifted,
};
use crate::rolling_laws::{
    goes_into_the_tail, is_course, law_a_recording_has_one_rolling_plan,
    law_more_audio_keeps_committed_spans, lemma_complete_is_longest, lemma_courses_agree,
    repeatable_analysis,
};
use crate::scoring::Scoring;
use crate::span::piece;
use crate::text::merged;
use crate::worker::{
    is_next_span, runs_chunk, worker_step, Phase, RollingOutcome, WorkerAction, WorkerEvent,
    WorkerView,
};
use crate::worker_laws::{
    is_life, law_a_worker_follows_a_rolling_plan, law_a_worker_stays_in_order,
    lemma_life_stays_on_plan, on_early_spans, on_last_spans, on_rolling_plan, step_at, told_by,
};
use std::ops::Range;
use vstd::prelude::*;

verus! {

/// What the model is called with.
#[verifier::ext_equal]
pub struct Call<S> {
    pub samples: Seq<S>,
    pub absolute: Range<usize>,
    pub call_number: int,
}

/// The calls among the first `n` actions of a worker.
pub open spec fn calls_of<S>(
    states: Seq<WorkerView<S>>,
    actions: Seq<WorkerAction>,
    n: int,
) -> Seq<Call<S>>
    decreases n,
{
    if n <= 0 {
        seq![]
    } else {
        let before = calls_of(states, actions, n - 1);
        match actions[n - 1] {
            WorkerAction::RunChunk { local, absolute, call_number } => before.push(
                Call {
                    samples: piece(states[n].coordinator.uncommitted, local),
                    absolute,
                    call_number: call_number as int,
                },
            ),
            _ => before,
        }
    }
}

/// All audio that came in with the first `n` events.
pub open spec fn audio_of<S>(events: Seq<WorkerEvent<S>>, n: int) -> Seq<S>
    decreases n,
{
    if n <= 0 {
        seq![]
    } else {
        let before = audio_of(events, n - 1);
        match events[n - 1] {
            WorkerEvent::Feed(samples) => before + samples,
            _ => before,
        }
    }
}

/// `run` may return `result` for `call`.
pub open spec fn transcribes<
    S,
    R: FnMut(&[S], Range<usize>, usize) -> Result<(String, Option<String>), String>,
>(
    run: R,
    call: Call<S>,
    result: Result<(String, Option<String>), String>,
) -> bool {
    exists|slice: &[S]|
        slice@ == call.samples && #[trigger] call_ensures(
            run,
            (slice, call.absolute, call.call_number as usize),
            result,
        )
}

/// `run` returns the same for the same call.
pub open spec fn repeatable_run<
    S,
    R: FnMut(&[S], Range<usize>, usize) -> Result<(String, Option<String>), String>,
>(
    run: R,
) -> bool {
    forall|
        call: Call<S>,
        a: Result<(String, Option<String>), String>,
        b: Result<(String, Option<String>), String>,
    |
        #[trigger] transcribes(run, call, a) && #[trigger] transcribes(run, call, b) ==> a == b
}

/// The range of uncommitted samples that the model is running on.
pub open spec fn current_span<S>(state: WorkerView<S>) -> Range<usize> {
    match state.phase {
        Phase::RunningBackground { end } => Range { start: 0usize, end },
        _ => state.final_spans[state.final_index],
    }
}

/// The call that the model is running on.
pub open spec fn current_call<S>(state: WorkerView<S>) -> Call<S> {
    Call {
        samples: piece(state.coordinator.uncommitted, current_span(state)),
        absolute: state.absolute(current_span(state)),
        call_number: state.texts.len() as int + 1,
    }
}

/// The worker is answered by `analyze` and `run`, and never cancelled.
pub open spec fn answered_by<
    S,
    E,
    F: FnMut(&[S]) -> Result<Vec<Range<usize>>, E>,
    R: FnMut(&[S], Range<usize>, usize) -> Result<(String, Option<String>), String>,
>(
    analyze: F,
    run: R,
    state: WorkerView<S>,
    event: WorkerEvent<S>,
) -> bool {
    &&& told_by(analyze, state, event)
    &&& event matches WorkerEvent::Chunk(result) ==> transcribes(run, current_call(state), result)
    &&& event != WorkerEvent::<S>::CancelPolled(true)
}

/// A worker with `policy` is fed and answered up to its reply, and never cancelled.
pub open spec fn is_answered_life<
    S,
    E,
    M: Scoring<S>,
    F: FnMut(&[S]) -> Result<Vec<Range<usize>>, E>,
    R: FnMut(&[S], Range<usize>, usize) -> Result<(String, Option<String>), String>,
>(
    scoring: &M,
    analyze: F,
    run: R,
    policy: ChunkPolicy,
    states: Seq<WorkerView<S>>,
    events: Seq<WorkerEvent<S>>,
    actions: Seq<WorkerAction>,
) -> bool {
    &&& is_life(scoring, policy, states, events, actions)
    &&& forall|k: int|
        0 <= k < events.len() ==> #[trigger] answered_by(analyze, run, states[k], events[k])
    &&& events.len() > 0
    &&& actions.last() is Reply
    &&& audio_of(events, events.len() as int).len() <= usize::MAX
}

/// Both outcomes are complete with the same text and language, or failures of
/// which the same is said.
pub open spec fn same_outcome(a: RollingOutcome, b: RollingOutcome) -> bool {
    match (a, b) {
        (
            RollingOutcome::Completed { text: text_a, detected_language: language_a },
            RollingOutcome::Completed { text: text_b, detected_language: language_b },
        ) => text_a@ == text_b@ && language_a == language_b,
        (RollingOutcome::Failed(a), RollingOutcome::Failed(b)) => a@ == b@,
        _ => false,
    }
}

/// Call number `k + 1` of a course through `audio`.
spec fn call_on<S>(audio: Seq<S>, course: Seq<Range<usize>>, k: int) -> Call<S> {
    Call { samples: piece(audio, course[k]), absolute: course[k], call_number: k + 1 }
}

/// All calls of a course through `audio`.
spec fn calls_on<S>(audio: Seq<S>, course: Seq<Range<usize>>) -> Seq<Call<S>> {
    Seq::new(course.len(), |k: int| call_on(audio, course, k))
}

/// `transcripts` are what `run` may return for the first calls of `course`.
spec fn transcribed_by<
    S,
    R: FnMut(&[S], Range<usize>, usize) -> Result<(String, Option<String>), String>,
>(
    run: R,
    audio: Seq<S>,
    course: Seq<Range<usize>>,
    transcripts: Seq<(String, Option<String>)>,
) -> bool {
    &&& transcripts.len() <= course.len()
    &&& forall|k: int|
        0 <= k < transcripts.len() ==> transcribes(
            run,
            #[trigger] call_on(audio, course, k),
            Ok(transcripts[k]),
        )
}

/// The worker has been called along `course`, of which `transcripts` are what has
/// come back. `audio` is all of the recording, of which `heard` has come in.
spec fn follows<
    S,
    R: FnMut(&[S], Range<usize>, usize) -> Result<(String, Option<String>), String>,
>(
    run: R,
    state: WorkerView<S>,
    heard: Seq<S>,
    audio: Seq<S>,
    course: Seq<Range<usize>>,
    transcripts: Seq<(String, Option<String>)>,
) -> bool {
    &&& !state.cancelled
    &&& state.fed.len() <= audio.len()
    &&& state.fed == audio.take(state.fed.len() as int)
    &&& state.going() ==> state.fed == heard
    &&& transcripts.len() == state.transcribed.len()
    &&& state.texts == texts_of(transcripts)
    &&& state.language == first_language(None, transcripts)
    &&& transcribed_by(run, audio, course, transcripts)
    &&& match state.sticky_error {
        Some(error) => {
            &&& state.phase == Phase::Receiving || state.phase == Phase::PollingFinal
            &&& course.len() == state.transcribed.len() + 1
            &&& transcribes(run, call_on(audio, course, course.len() - 1), Err(error))
        },
        None => match state.phase {
            Phase::RunningBackground { .. } | Phase::RunningFinal => course
                == state.transcribed.push(state.absolute(current_span(state))),
            _ => course == state.transcribed,
        },
    }
}

/// The recording has ended for a worker in this phase.
spec fn has_ended(phase: Phase) -> bool {
    match phase {
        Phase::PollingFinal
        | Phase::AnalyzingRest
        | Phase::PollingChunk
        | Phase::RunningFinal
        | Phase::Done => true,
        _ => false,
    }
}

/// What came in earlier is the beginning of what came in later.
proof fn lemma_audio_grows<S>(events: Seq<WorkerEvent<S>>, i: int, j: int)
    requires
        0 <= i <= j,
    ensures
        audio_of(events, i).len() <= audio_of(events, j).len(),
        audio_of(events, i) == audio_of(events, j).take(audio_of(events, i).len() as int),
    decreases j - i,
{
    let a = audio_of(events, i);
    if i < j {
        lemma_audio_grows(events, i, j - 1);
        let b = audio_of(events, j - 1);
        assert(a =~= audio_of(events, j).take(a.len() as int));
    } else {
        assert(a =~= a.take(a.len() as int));
    }
}

/// No more audio comes in once the recording has ended.
proof fn lemma_no_more_audio<S, M: Scoring<S>>(
    scoring: &M,
    policy: ChunkPolicy,
    states: Seq<WorkerView<S>>,
    events: Seq<WorkerEvent<S>>,
    actions: Seq<WorkerAction>,
    i: int,
    j: int,
)
    requires
        is_life(scoring, policy, states, events, actions),
        0 <= i <= j < states.len(),
        has_ended(states[i].phase),
    ensures
        has_ended(states[j].phase),
        audio_of(events, j) == audio_of(events, i),
    decreases j - i,
{
    if i < j {
        lemma_no_more_audio(scoring, policy, states, events, actions, i, j - 1);
        assert(step_at(scoring, states, events, actions, j - 1));
    }
}

/// What the model runs on is what the recording holds there.
proof fn lemma_current_call<S>(state: WorkerView<S>, audio: Seq<S>)
    requires
        state.wf(),
        state.phase is RunningBackground || state.phase == Phase::RunningFinal,
        state.fed.len() <= audio.len() <= usize::MAX,
        state.fed == audio.take(state.fed.len() as int),
    ensures
        current_call(state).samples == piece(audio, current_call(state).absolute),
        current_call(state).absolute.start == end_of(state.transcribed),
        current_call(state).absolute.start < current_call(state).absolute.end <= state.fed.len(),
{
    let local = current_span(state);
    if state.phase == Phase::RunningFinal {
        lemma_ends_inside(
            state.final_spans,
            state.coordinator.uncommitted.len(),
            state.coordinator.policy.hard_max_samples as nat,
            state.final_index,
        );
        assert(state.final_spans[state.final_index].start
            < state.final_spans[state.final_index].end);
    }
    assert(piece(state.coordinator.uncommitted, local) =~= piece(audio, state.absolute(local)));
}

/// A worker that runs the model is on a course through the recording.
proof fn lemma_running_is_on_course<
    S,
    E,
    M: Scoring<S>,
    F: FnMut(&[S]) -> Result<Vec<Range<usize>>, E>,
>(
    scoring: &M,
    analyze: F,
    state: WorkerView<S>,
    audio: Seq<S>,
)
    requires
        state.wf(),
        state.phase is RunningBackground || state.phase == Phase::RunningFinal,
        on_rolling_plan(scoring, analyze, state),
        state.fed.len() <= audio.len() <= usize::MAX,
        state.fed == audio.take(state.fed.len() as int),
        state.phase == Phase::RunningFinal ==> state.fed == audio,
    ensures
        is_course(
            scoring,
            analyze,
            state.coordinator.policy,
            audio,
            state.transcribed.push(state.absolute(current_span(state))),
        ),
{
    let policy = state.coordinator.policy;
    let next = state.absolute(current_span(state));
    let course = state.transcribed.push(next);
    lemma_current_call(state, audio);
    if state.phase == Phase::RunningFinal {
        let (early, failures) = choose|early: Seq<Range<usize>>, failures: Seq<bool>| #[trigger]
            on_last_spans(scoring, analyze, state, early, failures);
        let k = state.final_index;
        let all = shifted(state.final_spans, state.coordinator.absolute_start);
        assert(course =~= early + all.take(k + 1));
        assert(goes_into_the_tail(
            scoring,
            analyze,
            policy,
            audio,
            course,
            early,
            failures,
            state.final_spans,
            k + 1,
        ));
    } else {
        let failures = choose|failures: Seq<bool>| #[trigger]
            on_early_spans(scoring, analyze, state, failures);
        let end = current_span(state).end;
        lemma_rolled_one_more(
            scoring,
            analyze,
            policy,
            state.fed,
            state.transcribed,
            failures,
            end as int,
            state.vad_failed,
        );
        let more = audio.skip(state.fed.len() as int);
        assert(state.fed + more =~= audio);
        law_more_audio_keeps_committed_spans(
            scoring,
            analyze,
            policy,
            state.fed,
            more,
            course,
            failures.push(state.vad_failed),
        );
        assert(rolled(
            scoring,
            analyze,
            policy,
            audio,
            course,
            failures.push(state.vad_failed),
        ));
    }
}

/// One more transcript.
proof fn lemma_one_more_transcript<
    S,
    R: FnMut(&[S], Range<usize>, usize) -> Result<(String, Option<String>), String>,
>(
    run: R,
    pre: WorkerView<S>,
    heard: Seq<S>,
    audio: Seq<S>,
    course: Seq<Range<usize>>,
    transcripts: Seq<(String, Option<String>)>,
    transcript: (String, Option<String>),
)
    requires
        pre.wf(),
        audio.len() <= usize::MAX,
        follows(run, pre, heard, audio, course, transcripts),
        pre.sticky_error is None,
        pre.phase is RunningBackground || pre.phase == Phase::RunningFinal,
        transcribes(run, current_call(pre), Ok(transcript)),
    ensures
        ({
            let post = pre.heard(
                pre.absolute(current_span(pre)),
                transcript.0@,
                transcript.1,
            );
            let more = transcripts.push(transcript);
            &&& course == post.transcribed
            &&& post.texts == texts_of(more)
            &&& post.language == first_language(None, more)
            &&& transcribed_by(run, audio, course, more)
        }),
{
    let more = transcripts.push(transcript);
    let k = transcripts.len() as int;
    lemma_current_call(pre, audio);
    assert(more.drop_last() =~= transcripts);
    assert(texts_of(more) =~= texts_of(transcripts).push(transcript.0@));
    assert(call_on(audio, course, k) =~= current_call(pre));
    assert forall|j: int| 0 <= j < more.len() implies transcribes(
        run,
        #[trigger] call_on(audio, course, j),
        Ok(more[j]),
    ) by {
        if j < k {
            assert(more[j] == transcripts[j]);
        }
    }
}

/// A step that calls the model leads on along a course.
proof fn lemma_follows_with_call<
    S,
    M: Scoring<S>,
    R: FnMut(&[S], Range<usize>, usize) -> Result<(String, Option<String>), String>,
>(
    scoring: &M,
    run: R,
    pre: WorkerView<S>,
    event: WorkerEvent<S>,
    post: WorkerView<S>,
    local: Range<usize>,
    absolute: Range<usize>,
    call_number: usize,
    heard: Seq<S>,
    audio: Seq<S>,
    course: Seq<Range<usize>>,
    transcripts: Seq<(String, Option<String>)>,
)
    requires
        worker_step(
            scoring,
            pre,
            event,
            post,
            WorkerAction::RunChunk { local, absolute, call_number },
        ),
        follows(run, pre, heard, audio, course, transcripts),
    ensures
        !(event is Feed),
        post.phase is RunningBackground || post.phase == Phase::RunningFinal,
        local == current_span(post),
        absolute == post.absolute(local),
        call_number == course.len() + 1,
        post.sticky_error is None,
        course == post.transcribed,
        follows(run, post, heard, audio, course.push(absolute), transcripts),
{
    let next = course.push(absolute);
    assert(transcribed_by(run, audio, next, transcripts)) by {
        assert forall|k: int| 0 <= k < transcripts.len() implies transcribes(
            run,
            #[trigger] call_on(audio, next, k),
            Ok(transcripts[k]),
        ) by {
            assert(call_on(audio, next, k) == call_on(audio, course, k));
        }
    }
    match (pre.phase, event) {
        (Phase::PollingBackground, WorkerEvent::CancelPolled(_)) => {
            let end = choose|end: usize|
                {
                    &&& #[trigger] is_next_span(scoring, pre, Seq::empty(), end)
                    &&& post == (WorkerView { phase: Phase::RunningBackground { end }, ..pre })
                    &&& runs_chunk(
                        pre,
                        Range { start: 0usize, end },
                        WorkerAction::RunChunk { local, absolute, call_number },
                    )
                };
            assert(post.phase == Phase::RunningBackground { end });
        },
        (Phase::AnalyzingWindow, WorkerEvent::Pauses(found)) => {
            let mid = WorkerView { vad_failed: found is None, ..pre };
            let pauses = found.unwrap_or(Seq::empty());
            let end = choose|end: usize|
                {
                    &&& #[trigger] is_next_span(scoring, mid, pauses, end)
                    &&& post == (WorkerView { phase: Phase::RunningBackground { end }, ..mid })
                    &&& runs_chunk(
                        mid,
                        Range { start: 0usize, end },
                        WorkerAction::RunChunk { local, absolute, call_number },
                    )
                };
            assert(post.phase == Phase::RunningBackground { end });
        },
        _ => {},
    }
}

/// A step that calls no model, and is not the last, stays on its course.
proof fn lemma_follows_without_call<
    S,
    E,
    M: Scoring<S>,
    F: FnMut(&[S]) -> Result<Vec<Range<usize>>, E>,
    R: FnMut(&[S], Range<usize>, usize) -> Result<(String, Option<String>), String>,
>(
    scoring: &M,
    analyze: F,
    run: R,
    pre: WorkerView<S>,
    event: WorkerEvent<S>,
    post: WorkerView<S>,
    action: WorkerAction,
    heard: Seq<S>,
    audio: Seq<S>,
    course: Seq<Range<usize>>,
    transcripts: Seq<(String, Option<String>)>,
) -> (after: Seq<(String, Option<String>)>)
    requires
        pre.wf(),
        audio.len() <= usize::MAX,
        worker_step(scoring, pre, event, post, action),
        answered_by(analyze, run, pre, event),
        follows(run, pre, heard, audio, course, transcripts),
        !(action is RunChunk),
        post.phase != Phase::Done,
        event matches WorkerEvent::Feed(samples) ==> (heard + samples).len() <= audio.len()
            && heard + samples == audio.take((heard + samples).len() as int),
    ensures
        follows(
            run,
            post,
            match event {
                WorkerEvent::Feed(samples) => heard + samples,
                _ => heard,
            },
            audio,
            course,
            after,
        ),
{
    match (pre.phase, event) {
        (Phase::RunningBackground { .. }, WorkerEvent::Chunk(Ok(transcript))) => {
            lemma_one_more_transcript(
                run,
                pre,
                heard,
                audio,
                course,
                transcripts,
                transcript,
            );
            transcripts.push(transcript)
        },
        (Phase::RunningFinal, WorkerEvent::Chunk(Ok(transcript))) => {
            lemma_one_more_transcript(
                run,
                pre,
                heard,
                audio,
                course,
                transcripts,
                transcript,
            );
            transcripts.push(transcript)
        },
        (Phase::RunningBackground { .. }, WorkerEvent::Chunk(Err(error))) => {
            lemma_current_call(pre, audio);
            assert(call_on(audio, course, course.len() - 1) =~= current_call(pre));
            transcripts
        },
        _ => transcripts,
    }
}

proof fn lemma_life_follows<
    S,
    E,
    M: Scoring<S>,
    F: FnMut(&[S]) -> Result<Vec<Range<usize>>, E>,
    R: FnMut(&[S], Range<usize>, usize) -> Result<(String, Option<String>), String>,
>(
    scoring: &M,
    analyze: F,
    run: R,
    policy: ChunkPolicy,
    states: Seq<WorkerView<S>>,
    events: Seq<WorkerEvent<S>>,
    actions: Seq<WorkerAction>,
    i: int,
) -> (along: (Seq<Range<usize>>, Seq<(String, Option<String>)>))
    requires
        policy.valid(),
        is_answered_life(scoring, analyze, run, policy, states, events, actions),
        0 <= i < events.len(),
    ensures
        follows(
            run,
            states[i],
            audio_of(events, i),
            audio_of(events, events.len() as int),
            along.0,
            along.1,
        ),
        calls_of(states, actions, i) == calls_on(
            audio_of(events, events.len() as int),
            along.0,
        ),
        is_course(
            scoring,
            analyze,
            policy,
            audio_of(events, events.len() as int),
            along.0,
        ),
    decreases i,
{
    let n = events.len() as int;
    let audio = audio_of(events, n);
    if i == 0 {
        let course = Seq::<Range<usize>>::empty();
        let transcripts = Seq::<(String, Option<String>)>::empty();
        assert(audio.take(0) =~= Seq::empty());
        assert(texts_of(transcripts) =~= Seq::empty());
        assert(calls_on(audio, course) =~= Seq::empty());
        assert(rolled(scoring, analyze, policy, audio, course, seq![false]));
        (course, transcripts)
    } else {
        let (course, transcripts) = lemma_life_follows(
            scoring,
            analyze,
            run,
            policy,
            states,
            events,
            actions,
            i - 1,
        );
        let pre = states[i - 1];
        let event = events[i - 1];
        let post = states[i];
        let action = actions[i - 1];
        assert(step_at(scoring, states, events, actions, i - 1));
        assert(step_at(scoring, states, events, actions, i));
        assert(answered_by(analyze, run, states[i - 1], events[i - 1]));
        law_a_worker_stays_in_order(scoring, policy, states, events, actions, i - 1);
        law_a_worker_stays_in_order(scoring, policy, states, events, actions, i);
        lemma_audio_grows(events, i, n);
        lemma_audio_grows(events, i - 1, n);
        if let WorkerAction::RunChunk { local, absolute, call_number } = action {
            let next = course.push(absolute);
            assert forall|k: int| 0 <= k < events.len() implies #[trigger] told_by(
                analyze,
                states[k],
                events[k],
            ) by {
                assert(answered_by(analyze, run, states[k], events[k]));
            }
            lemma_life_stays_on_plan(scoring, analyze, policy, states, events, actions, i);
            lemma_follows_with_call(
                scoring,
                run,
                pre,
                event,
                post,
                local,
                absolute,
                call_number,
                audio_of(events, i - 1),
                audio,
                course,
                transcripts,
            );
            if post.phase == Phase::RunningFinal {
                lemma_no_more_audio(scoring, policy, states, events, actions, i, n);
            }
            lemma_running_is_on_course(scoring, analyze, post, audio);
            lemma_current_call(post, audio);
            assert(calls_of(states, actions, i) =~= calls_on(audio, next)) by {
                assert forall|k: int| 0 <= k < course.len() implies call_on(audio, course, k)
                    == #[trigger] calls_on(audio, next)[k] by {
                    assert(next[k] == course[k]);
                }
            }
            (next, transcripts)
        } else {
            let after = lemma_follows_without_call(
                scoring,
                analyze,
                run,
                pre,
                event,
                post,
                action,
                audio_of(events, i - 1),
                audio,
                course,
                transcripts,
            );
            (course, after)
        }
    }
}

/// How a life ends: along which calls, with which transcripts, and with what.
spec fn ends_with<
    S,
    E,
    M: Scoring<S>,
    F: FnMut(&[S]) -> Result<Vec<Range<usize>>, E>,
    R: FnMut(&[S], Range<usize>, usize) -> Result<(String, Option<String>), String>,
>(
    scoring: &M,
    analyze: F,
    run: R,
    policy: ChunkPolicy,
    audio: Seq<S>,
    course: Seq<Range<usize>>,
    transcripts: Seq<(String, Option<String>)>,
    outcome: RollingOutcome,
) -> bool {
    &&& is_course(scoring, analyze, policy, audio, course) || is_rolling_plan(
        scoring,
        analyze,
        policy,
        audio,
        course,
    )
    &&& transcribed_by(run, audio, course, transcripts)
    &&& match outcome {
        RollingOutcome::Completed { text, detected_language } => {
            &&& is_rolling_plan(scoring, analyze, policy, audio, course)
            &&& transcripts.len() == course.len()
            &&& text@ == merged(texts_of(transcripts))
            &&& detected_language == first_language(None, transcripts)
        },
        RollingOutcome::Failed(message) => {
            &&& course.len() == transcripts.len() + 1
            &&& exists|error: String| #[trigger]
                transcribes(run, call_on(audio, course, course.len() - 1), Err(error)) && error@
                    == message@
        },
    }
}

proof fn lemma_life_ends<
    S,
    E,
    M: Scoring<S>,
    F: FnMut(&[S]) -> Result<Vec<Range<usize>>, E>,
    R: FnMut(&[S], Range<usize>, usize) -> Result<(String, Option<String>), String>,
>(
    scoring: &M,
    analyze: F,
    run: R,
    policy: ChunkPolicy,
    states: Seq<WorkerView<S>>,
    events: Seq<WorkerEvent<S>>,
    actions: Seq<WorkerAction>,
) -> (along: (Seq<Range<usize>>, Seq<(String, Option<String>)>))
    requires
        policy.valid(),
        is_answered_life(scoring, analyze, run, policy, states, events, actions),
    ensures
        calls_of(states, actions, events.len() as int) == calls_on(
            audio_of(events, events.len() as int),
            along.0,
        ),
        actions.last() matches WorkerAction::Reply(outcome) && ends_with(
            scoring,
            analyze,
            run,
            policy,
            audio_of(events, events.len() as int),
            along.0,
            along.1,
            outcome,
        ),
{
    let n = events.len() as int;
    let audio = audio_of(events, n);
    let (course, transcripts) = lemma_life_follows(
        scoring,
        analyze,
        run,
        policy,
        states,
        events,
        actions,
        n - 1,
    );
    let pre = states[n - 1];
    let event = events[n - 1];
    let post = states[n];
    assert(step_at(scoring, states, events, actions, n - 1));
    assert(answered_by(analyze, run, states[n - 1], events[n - 1]));
    law_a_worker_stays_in_order(scoring, policy, states, events, actions, n - 1);
    if actions[n - 1] matches WorkerAction::Reply(RollingOutcome::Completed { .. }) {
        assert forall|k: int| 0 <= k < events.len() implies #[trigger] told_by(
            analyze,
            states[k],
            events[k],
        ) by {
            assert(answered_by(analyze, run, states[k], events[k]));
        }
        law_a_worker_follows_a_rolling_plan(
            scoring,
            analyze,
            policy,
            states,
            events,
            actions,
            n - 1,
        );
    }
    match (pre.phase, event) {
        (Phase::RunningFinal, WorkerEvent::Chunk(Ok(transcript))) => {
            lemma_one_more_transcript(
                run,
                pre,
                audio_of(events, n - 1),
                audio,
                course,
                transcripts,
                transcript,
            );
            (course, transcripts.push(transcript))
        },
        (Phase::RunningFinal, WorkerEvent::Chunk(Err(error))) => {
            lemma_current_call(pre, audio);
            assert(call_on(audio, course, course.len() - 1) =~= current_call(pre));
            (course, transcripts)
        },
        _ => (course, transcripts),
    }
}

/// One life's failure is no other life's success.
proof fn lemma_failure_is_shared<
    S,
    E,
    M: Scoring<S>,
    F: FnMut(&[S]) -> Result<Vec<Range<usize>>, E>,
    R: FnMut(&[S], Range<usize>, usize) -> Result<(String, Option<String>), String>,
>(
    scoring: &M,
    analyze: F,
    run: R,
    policy: ChunkPolicy,
    audio: Seq<S>,
    course_a: Seq<Range<usize>>,
    transcripts_a: Seq<(String, Option<String>)>,
    a: RollingOutcome,
    course_b: Seq<Range<usize>>,
    transcripts_b: Seq<(String, Option<String>)>,
    b: RollingOutcome,
)
    requires
        repeatable(scoring),
        repeatable_analysis(analyze),
        repeatable_run(run),
        policy.valid(),
        audio.len() <= usize::MAX,
        ends_with(scoring, analyze, run, policy, audio, course_a, transcripts_a, a),
        ends_with(scoring, analyze, run, policy, audio, course_b, transcripts_b, b),
        a is Failed,
    ensures
        b is Failed,
        course_b.len() <= course_a.len(),
{
    let last = course_a.len() - 1;
    let error = match a {
        RollingOutcome::Failed(message) => choose|error: String| #[trigger]
            transcribes(run, call_on(audio, course_a, last), Err(error)) && error@ == message@,
        _ => arbitrary(),
    };
    if b is Completed {
        lemma_complete_is_longest(scoring, analyze, policy, audio, course_b, course_a);
    }
    if last < transcripts_b.len() {
        lemma_courses_agree(scoring, analyze, policy, audio, course_a, course_b, last);
        assert(call_on(audio, course_a, last) == call_on(audio, course_b, last));
        assert(transcribes(run, call_on(audio, course_b, last), Ok(transcripts_b[last])));
        assert(transcribes(run, call_on(audio, course_b, last), Err(error)));
    }
}

/// Law: how a recording is divided into feeds has no effect. Two workers that the
/// same audio comes in to, and that are answered alike and never cancelled, make
/// the same calls of the model, with the same samples, ranges and numbers, and
/// give equal replies.
pub proof fn law_workers_on_the_same_audio_agree<
    S,
    E,
    M: Scoring<S>,
    F: FnMut(&[S]) -> Result<Vec<Range<usize>>, E>,
    R: FnMut(&[S], Range<usize>, usize) -> Result<(String, Option<String>), String>,
>(
    scoring: &M,
    analyze: F,
    run: R,
    policy: ChunkPolicy,
    states_a: Seq<WorkerView<S>>,
    events_a: Seq<WorkerEvent<S>>,
    actions_a: Seq<WorkerAction>,
    states_b: Seq<WorkerView<S>>,
    events_b: Seq<WorkerEvent<S>>,
    actions_b: Seq<WorkerAction>,
)
    requires
        repeatable(scoring),
        repeatable_analysis(analyze),
        repeatable_run(run),
        policy.valid(),
        is_answered_life(scoring, analyze, run, policy, states_a, events_a, actions_a),
        is_answered_life(scoring, analyze, run, policy, states_b, events_b, actions_b),
        audio_of(events_a, events_a.len() as int) == audio_of(events_b, events_b.len() as int),
    ensures
        calls_of(states_a, actions_a, events_a.len() as int) == calls_of(
            states_b,
            actions_b,
            events_b.len() as int,
        ),
        actions_a.last() matches WorkerAction::Reply(a) && (
        actions_b.last() matches WorkerAction::Reply(b) && same_outcome(a, b)),
{
    let audio = audio_of(events_a, events_a.len() as int);
    let (ca, ta) = lemma_life_ends(scoring, analyze, run, policy, states_a, events_a, actions_a);
    let (cb, tb) = lemma_life_ends(scoring, analyze, run, policy, states_b, events_b, actions_b);
    let a = actions_a.last()->Reply_0;
    let b = actions_b.last()->Reply_0;
    if a is Failed {
        lemma_failure_is_shared(scoring, analyze, run, policy, audio, ca, ta, a, cb, tb, b);
    }
    if b is Failed {
        lemma_failure_is_shared(scoring, analyze, run, policy, audio, cb, tb, b, ca, ta, a);
    }
    if a is Completed {
        law_a_recording_has_one_rolling_plan(scoring, analyze, policy, audio, ca, cb);
    }
    assert forall|k: int| 0 <= k < ca.len() implies ca[k] == cb[k] by {
        lemma_courses_agree(scoring, analyze, policy, audio, ca, cb, k);
    }
    assert(ca =~= cb);
    assert forall|k: int| 0 <= k < ta.len() implies ta[k] == tb[k] by {
        assert(transcribes(run, call_on(audio, ca, k), Ok(ta[k])));
        assert(transcribes(run, call_on(audio, ca, k), Ok(tb[k])));
    }
    assert(ta =~= tb);
}

} // verus!
