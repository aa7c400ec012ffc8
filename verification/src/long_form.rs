//! Transcribing a complete recording.

use crate::plan::{is_global_plan, plan_spans};
use crate::policy::{default_policy, ChunkPolicy};
use crate::rolling::{
    analysis, can_analyze_while_rolling, is_rolling_plan, plan_rolling_replay_spans,
};
use crate::rolling_steps::answers;
use crate::scoring::Scoring;
use crate::sequence::{
    can_ask_in_order, can_run_in_order, is_sequence_outcome, law_what_a_sequence_comes_to,
    run_chunk_sequence, ChunkSequenceError,
};
use crate::span::full_coverage;
use crate::text::{contents, merge_english_chunks, merged};
use std::ops::Range;
use vstd::prelude::*;

verus! {

/// The work that a recording worker is started for.
#[derive(Clone, Copy, Debug, PartialEq, Eq, Structural)]
pub enum RecordingWorkerIntent {
    /// Feeding a model that takes audio as a stream.
    NativeStream,
    /// Transcribing spans of a running recording one by one.
    CohereRollingBatch,
}

fn is_cohere(model_arch: &str) -> (cohere: bool)
    ensures
        cohere == (model_arch@ == "cohere_asr"@),
{
    model_arch.to_owned() == "cohere_asr".to_owned()
}

/// Whether a recording is planned in spans: only for this architecture, and only
/// where it is longer than a span may be.
pub fn should_use_long_form_chunking(model_arch: &str, audio_len: usize) -> (chunked: bool)
    ensures
        chunked == (model_arch@ == "cohere_asr"@ && audio_len > default_policy().hard_max_samples),
{
    let policy: ChunkPolicy = Default::default();
    is_cohere(model_arch) && audio_len > policy.hard_max_samples
}

/// Whether a worker can do what it is meant for with the loaded model.
pub fn recording_worker_path_available(
    intent: RecordingWorkerIntent,
    model_arch: Option<&str>,
    supports_streaming: bool,
) -> (available: bool)
    ensures
        available == match intent {
            RecordingWorkerIntent::NativeStream => supports_streaming,
            RecordingWorkerIntent::CohereRollingBatch => model_arch is Some && model_arch->0@
                == "cohere_asr"@,
        },
{
    match intent {
        RecordingWorkerIntent::NativeStream => supports_streaming,
        RecordingWorkerIntent::CohereRollingBatch => match model_arch {
            Some(arch) => is_cohere(arch),
            None => false,
        },
    }
}

/// `spans` are a plan for a complete recording: the rolling one where that is
/// asked for, else the best one with the pauses that `analyze` finds, if it does
/// not fail.
pub open spec fn is_long_form_plan<
    S,
    E,
    M: Scoring<S>,
    A: FnMut(&[S]) -> Result<Vec<Range<usize>>, E>,
>(
    scoring: &M,
    analyze: A,
    policy: ChunkPolicy,
    audio: Seq<S>,
    rolling_replay: bool,
    spans: Seq<Range<usize>>,
) -> bool {
    if rolling_replay {
        is_rolling_plan(scoring, analyze, policy, audio, spans)
    } else {
        exists|found: Option<Seq<Range<usize>>>| #[trigger]
            analysis(analyze, audio, found) && is_global_plan(
                scoring,
                audio,
                found.unwrap_or(Seq::empty()),
                policy,
                spans,
            )
    }
}

/// `analyze` can be called on what pauses are looked for in: the complete
/// recording, or what a rolling plan looks at in turn.
pub open spec fn can_analyze<
    S,
    E,
    M: Scoring<S>,
    A: FnMut(&[S]) -> Result<Vec<Range<usize>>, E>,
>(
    scoring: &M,
    analyze: A,
    policy: ChunkPolicy,
    audio: Seq<S>,
    rolling_replay: bool,
) -> bool {
    if rolling_replay {
        can_analyze_while_rolling(scoring, analyze, policy, audio)
    } else {
        forall|slice: &[S]| slice@ == audio ==> #[trigger] call_requires(analyze, (slice,))
    }
}

/// Plans a complete recording.
pub fn plan_long_form_spans<
    S: Copy,
    E,
    M: Scoring<S>,
    A: FnMut(&[S]) -> Result<Vec<Range<usize>>, E>,
>(
    audio: &[S],
    policy: ChunkPolicy,
    rolling_replay: bool,
    analyze_pauses: A,
    scoring: &M,
) -> (spans: Vec<Range<usize>>)
    requires
        policy.valid(),
        can_analyze(scoring, analyze_pauses, policy, audio@, rolling_replay),
    ensures
        is_long_form_plan(scoring, analyze_pauses, policy, audio@, rolling_replay, spans@),
        full_coverage(spans@, audio.len() as nat, policy.hard_max_samples as nat),
{
    if rolling_replay {
        return plan_rolling_replay_spans(audio, policy, analyze_pauses, scoring);
    }
    let mut analyze: A = analyze_pauses;
    let pauses: Vec<Range<usize>> = match analyze(audio) {
        Ok(found) => {
            assert(analysis(analyze_pauses, audio@, Some(found@)));
            found
        },
        Err(_) => {
            assert(analysis(analyze_pauses, audio@, None));
            Vec::new()
        },
    };
    plan_spans(audio, pauses.as_slice(), policy, scoring)
}

/// `known`, or the first language in `transcripts` where it is `None`.
pub open spec fn first_language(
    known: Option<String>,
    transcripts: Seq<(String, Option<String>)>,
) -> Option<String>
    decreases transcripts.len(),
{
    if transcripts.len() == 0 {
        known
    } else {
        let before = first_language(known, transcripts.drop_last());
        if before is Some {
            before
        } else {
            transcripts.last().1
        }
    }
}

/// The texts of `transcripts`.
pub open spec fn texts_of(transcripts: Seq<(String, Option<String>)>) -> Seq<Seq<char>> {
    Seq::new(transcripts.len(), |i: int| transcripts[i].0@)
}

/// Merges the transcripts of all chunks, and keeps the first language that the
/// model has named as the language of the whole.
pub fn combine_transcripts(
    transcripts: Vec<(String, Option<String>)>,
    model_detected_language: &mut Option<String>,
) -> (text: String)
    ensures
        text@ == merged(texts_of(transcripts@)),
        *final(model_detected_language) == first_language(
            *old(model_detected_language),
            transcripts@,
        ),
{
    let ghost all = transcripts@;
    let mut texts: Vec<String> = Vec::new();
    assert(all.take(0) =~= seq![]);
    for transcript in it: transcripts
        invariant
            it.seq() == all,
            texts.len() == it.index(),
            contents(texts@) == texts_of(all.take(it.index())),
            *model_detected_language == first_language(
                *old(model_detected_language),
                all.take(it.index()),
            ),
    {
        proof {
            assert(all.take(it.index() + 1).drop_last() =~= all.take(it.index()));
        }
        let ghost before = texts@;
        let (text, language) = transcript;
        if model_detected_language.is_none() {
            *model_detected_language = language;
        }
        texts.push(text);
        proof {
            let now = texts_of(all.take(it.index() + 1));
            assert forall|i: int| 0 <= i < texts@.len() implies contents(texts@)[i] == now[i] by {
                if i < before.len() {
                    assert(contents(before)[i] == texts_of(all.take(it.index()))[i]);
                }
            }
            assert(contents(texts@) =~= now);
        }
    }
    assert(all.take(all.len() as int) =~= all);
    merge_english_chunks(texts.as_slice())
}

/// `result` is what transcribing `spans` one by one may lead to, and `language`
/// the language that is known afterwards.
pub open spec fn is_transcription<
    E,
    C: Fn(usize) -> bool,
    R: FnMut(&Range<usize>, usize, usize) -> Result<(String, Option<String>), E>,
>(
    spans: Seq<Range<usize>>,
    is_cancelled: C,
    run: R,
    known: Option<String>,
    result: Result<String, ChunkSequenceError<E>>,
    language: Option<String>,
) -> bool {
    exists|outcome: Result<Vec<(String, Option<String>)>, ChunkSequenceError<E>>|
        {
            &&& #[trigger] is_sequence_outcome(spans, is_cancelled, run, outcome)
            &&& match outcome {
                Ok(transcripts) => {
                    &&& result is Ok
                    &&& result->Ok_0@ == merged(texts_of(transcripts@))
                    &&& language == first_language(known, transcripts@)
                },
                Err(error) => {
                    &&& result == Result::<String, ChunkSequenceError<E>>::Err(error)
                    &&& language == known
                },
            }
        }
}

/// `planned` was told of `spans`.
pub open spec fn told_of<P: FnOnce(&[Range<usize>])>(
    planned: P,
    spans: Seq<Range<usize>>,
) -> bool {
    exists|slice: &[Range<usize>]|
        slice@ == spans && #[trigger] call_ensures(planned, (slice,), ())
}

/// `spans` are a plan for a complete recording within the default limits, and
/// cover it.
pub open spec fn can_be_planned<
    S,
    E,
    M: Scoring<S>,
    A: FnMut(&[S]) -> Result<Vec<Range<usize>>, E>,
>(
    scoring: &M,
    analyze: A,
    audio: Seq<S>,
    rolling_replay: bool,
    spans: Seq<Range<usize>>,
) -> bool {
    &&& is_long_form_plan(scoring, analyze, default_policy(), audio, rolling_replay, spans)
    &&& full_coverage(spans, audio.len(), default_policy().hard_max_samples as nat)
}

/// Transcribes a complete recording: plans it, tells `planned` of the spans, runs
/// every span through the model in order, and merges what comes back. One failed
/// chunk fails the whole, and so does a cancellation before a chunk but the first;
/// the model is not called again then.
pub fn transcribe_cohere_chunks<
    S: Copy,
    EA,
    E,
    M: Scoring<S>,
    A: FnMut(&[S]) -> Result<Vec<Range<usize>>, EA>,
    P: FnOnce(&[Range<usize>]),
    C: Fn(usize) -> bool,
    R: FnMut(&Range<usize>, usize, usize) -> Result<(String, Option<String>), E>,
>(
    audio: &[S],
    rolling_replay: bool,
    analyze_pauses: A,
    planned: P,
    is_cancelled: &C,
    run: R,
    scoring: &M,
    model_detected_language: &mut Option<String>,
) -> (result: Result<String, ChunkSequenceError<E>>)
    requires
        can_analyze(scoring, analyze_pauses, default_policy(), audio@, rolling_replay),
        forall|slice: &[Range<usize>]|
            can_be_planned(scoring, analyze_pauses, audio@, rolling_replay, slice@)
                ==> #[trigger] call_requires(planned, (slice,)),
        forall|spans: Seq<Range<usize>>|
            #[trigger] can_be_planned(scoring, analyze_pauses, audio@, rolling_replay, spans)
                && told_of(planned, spans) ==> can_ask_in_order(spans, *is_cancelled, run)
                && can_run_in_order(spans, *is_cancelled, run),
    ensures
        exists|spans: Seq<Range<usize>>|
            {
                &&& #[trigger] can_be_planned(
                    scoring,
                    analyze_pauses,
                    audio@,
                    rolling_replay,
                    spans,
                )
                &&& told_of(planned, spans)
                &&& is_transcription(
                    spans,
                    *is_cancelled,
                    run,
                    *old(model_detected_language),
                    result,
                    *final(model_detected_language),
                )
            },
{
    let policy: ChunkPolicy = Default::default();
    let spans: Vec<Range<usize>> = plan_long_form_spans(
        audio,
        policy,
        rolling_replay,
        analyze_pauses,
        scoring,
    );
    assert(can_be_planned(scoring, analyze_pauses, audio@, rolling_replay, spans@));
    planned(spans.as_slice());
    assert(told_of(planned, spans@));
    let outcome = run_chunk_sequence(spans.as_slice(), is_cancelled, run);
    assert(is_sequence_outcome(spans@, *is_cancelled, run, outcome));
    match outcome {
        Ok(transcripts) => Ok(combine_transcripts(transcripts, model_detected_language)),
        Err(error) => Err(error),
    }
}

/// Law: the language of a recording is the one that was known before, or else the
/// first that the model has named.
pub proof fn law_the_first_language_stays(
    known: Option<String>,
    transcripts: Seq<(String, Option<String>)>,
)
    ensures
        known is Some ==> first_language(known, transcripts) == known,
        known is None ==> {
            ||| first_language(known, transcripts) is None && forall|i: int|
                0 <= i < transcripts.len() ==> (#[trigger] transcripts[i]).1 is None
            ||| exists|k: int|
                {
                    &&& 0 <= k < transcripts.len()
                    &&& (#[trigger] transcripts[k]).1 is Some
                    &&& first_language(known, transcripts) == transcripts[k].1
                    &&& forall|i: int| 0 <= i < k ==> (#[trigger] transcripts[i]).1 is None
                }
        },
    decreases transcripts.len(),
{
    if transcripts.len() > 0 {
        let before = transcripts.drop_last();
        let last = transcripts.len() - 1;
        law_the_first_language_stays(known, before);
        assert forall|i: int| 0 <= i < last implies before[i] == #[trigger] transcripts[i] by {}
        if known is None {
            if first_language(known, before) is Some {
                let k = choose|k: int|
                    {
                        &&& 0 <= k < before.len()
                        &&& (#[trigger] before[k]).1 is Some
                        &&& first_language(known, before) == before[k].1
                        &&& forall|i: int| 0 <= i < k ==> (#[trigger] before[i]).1 is None
                    };
                assert(transcripts[k].1 is Some);
                assert forall|i: int| 0 <= i < k implies (#[trigger] transcripts[i]).1 is None by {
                    assert(before[i].1 is None);
                }
            } else {
                assert forall|i: int| 0 <= i < last implies (
                #[trigger] transcripts[i]).1 is None by {
                    assert(before[i].1 is None);
                }
                if transcripts[last].1 is Some {
                    assert(first_language(known, transcripts) == transcripts[last].1);
                }
            }
        }
    }
}

/// Law: every transcript has its text, in its place.
pub proof fn law_texts_keep_their_place(transcripts: Seq<(String, Option<String>)>)
    ensures
        texts_of(transcripts).len() == transcripts.len(),
        forall|i: int|
            0 <= i < transcripts.len() ==> #[trigger] texts_of(transcripts)[i]
                == transcripts[i].0@,
{
}

/// Law: a complete recording is planned with the pauses that are found in all of
/// it, or with none where the analysis fails; where a rolling plan is asked for it
/// is one.
pub proof fn law_a_recording_is_planned_with_its_pauses<
    S,
    E,
    M: Scoring<S>,
    A: FnMut(&[S]) -> Result<Vec<Range<usize>>, E>,
>(
    scoring: &M,
    analyze: A,
    finds: spec_fn(Seq<S>) -> Option<Seq<Range<usize>>>,
    policy: ChunkPolicy,
    audio: Seq<S>,
    rolling_replay: bool,
    spans: Seq<Range<usize>>,
)
    requires
        answers(analyze, finds),
        is_long_form_plan(scoring, analyze, policy, audio, rolling_replay, spans),
    ensures
        rolling_replay ==> is_rolling_plan(scoring, analyze, policy, audio, spans),
        !rolling_replay && finds(audio) is Some ==> is_global_plan(
            scoring,
            audio,
            finds(audio)->0,
            policy,
            spans,
        ),
        !rolling_replay && finds(audio) is None ==> is_global_plan(
            scoring,
            audio,
            Seq::empty(),
            policy,
            spans,
        ),
{
}

/// Law: a recording is transcribed where every span of its plan is: the text is
/// that of all transcripts in order, and the language the first that was named.
/// What stops the sequence is what comes of it, and leaves the language alone.
pub proof fn law_what_a_transcription_comes_to<
    E,
    C: Fn(usize) -> bool,
    R: FnMut(&Range<usize>, usize, usize) -> Result<(String, Option<String>), E>,
>(
    spans: Seq<Range<usize>>,
    is_cancelled: C,
    run: R,
    known: Option<String>,
    result: Result<String, ChunkSequenceError<E>>,
    language: Option<String>,
)
    requires
        is_transcription(spans, is_cancelled, run, known, result, language),
    ensures
        result matches Ok(text) ==> exists|transcripts: Seq<(String, Option<String>)>|
            {
                &&& transcripts.len() == spans.len()
                &&& forall|i: int|
                    0 <= i < spans.len() ==> call_ensures(
                        run,
                        (&spans[i], i as usize, spans.len() as usize),
                        Ok(#[trigger] transcripts[i]),
                    )
                &&& text@ == merged(
                    Seq::new(spans.len(), |i: int| transcripts[i].0@),
                )
                &&& language == #[trigger] first_language(known, transcripts)
            },
        result matches Err(error) ==> language == known && is_sequence_outcome::<
            (String, Option<String>),
            E,
            C,
            R,
        >(spans, is_cancelled, run, Err(error)),
{
    let outcome = choose|
        outcome: Result<Vec<(String, Option<String>)>, ChunkSequenceError<E>>,
    |
        {
            &&& #[trigger] is_sequence_outcome(spans, is_cancelled, run, outcome)
            &&& match outcome {
                Ok(transcripts) => {
                    &&& result is Ok
                    &&& result->Ok_0@ == merged(texts_of(transcripts@))
                    &&& language == first_language(known, transcripts@)
                },
                Err(error) => {
                    &&& result == Result::<String, ChunkSequenceError<E>>::Err(error)
                    &&& language == known
                },
            }
        };
    law_what_a_sequence_comes_to(spans, is_cancelled, run, outcome);
    if let Ok(transcripts) = outcome {
        let all = transcripts@;
        assert(texts_of(all) =~= Seq::new(spans.len(), |i: int| all[i].0@));
        assert(language == first_language(known, all));
    }
}

/// Law: what is told of a plan is the plan itself, all of its spans, and the plan
/// keeps the default limits: spans of 35 seconds at most that cover the recording.
pub proof fn law_what_is_told_of_a_plan<
    S,
    E,
    M: Scoring<S>,
    A: FnMut(&[S]) -> Result<Vec<Range<usize>>, E>,
    P: FnOnce(&[Range<usize>]),
>(
    scoring: &M,
    analyze: A,
    planned: P,
    audio: Seq<S>,
    rolling_replay: bool,
    spans: Seq<Range<usize>>,
)
    requires
        can_be_planned(scoring, analyze, audio, rolling_replay, spans),
        told_of(planned, spans),
    ensures
        exists|slice: &[Range<usize>]|
            slice@.len() == spans.len() && slice@ == spans && #[trigger] call_ensures(
                planned,
                (slice,),
                (),
            ),
        is_long_form_plan(scoring, analyze, default_policy(), audio, rolling_replay, spans),
        full_coverage(spans, audio.len(), 560_000),
{
}

} // verus!
