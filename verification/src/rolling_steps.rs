//! What the parts of a rolling plan are made from.

use crate::first_span::is_first_span;
use crate::policy::ChunkPolicy;
use crate::rolling::{
    analysis, end_of, horizon, is_ready_span, is_rolling_plan, is_rolling_plan_with, known_pauses,
    lemma_ends_inside, rolling_step_at, tail_pauses, CoordinatorView,
};
use crate::scoring::Scoring;
use crate::span::joined;
use crate::suffix::{is_suffix_plan, law_a_suffix_plan_covers_the_rest};
use std::ops::Range;
use vstd::prelude::*;

verus! {

/// Law: what is fed is put behind what is uncommitted; what is committed is taken
/// off its front, and moves the position of the rest on. Neither drops a sample,
/// and the high-water mark is the most that was uncommitted.
pub proof fn law_what_a_coordinator_holds<S>(
    state: CoordinatorView<S>,
    samples: Seq<S>,
    end: int,
)
    requires
        state.wf(),
        0 <= end <= state.uncommitted.len(),
    ensures
        state.pushed(samples).uncommitted == state.uncommitted + samples,
        state.pushed(samples).absolute_start == state.absolute_start,
        state.pushed(samples).policy == state.policy,
        state.pushed(samples).high_water >= state.high_water,
        state.pushed(samples).high_water >= state.uncommitted.len() + samples.len(),
        state.pushed(samples).high_water == state.high_water || state.pushed(samples).high_water
            == state.uncommitted.len() + samples.len(),
        state.uncommitted.take(end) + state.committed(end).uncommitted == state.uncommitted,
        state.committed(end).uncommitted.len() == state.uncommitted.len() - end,
        state.committed(end).absolute_start == state.absolute_start + end,
        state.committed(end).policy == state.policy,
        state.committed(end).high_water == state.high_water,
{
    assert(state.uncommitted.take(end) + state.committed(end).uncommitted
        =~= state.uncommitted);
}

/// Law: a span is committed early only once a span of the hard maximum and the
/// soft minimum behind it are at hand, and is then chosen from exactly so many
/// samples, with the pauses that are given.
pub proof fn law_when_a_span_is_ready<S, M: Scoring<S>>(
    scoring: &M,
    state: CoordinatorView<S>,
    pauses: Seq<Range<usize>>,
    span: Option<Range<usize>>,
    reach: int,
)
    requires
        state.wf(),
        reach == state.policy.hard_max_samples + state.policy.soft_min_samples,
        is_ready_span(scoring, state, pauses, span),
    ensures
        reach <= usize::MAX && state.uncommitted.len() < reach ==> span is None,
        reach <= usize::MAX && state.uncommitted.len() >= reach ==> is_first_span(
            scoring,
            state.uncommitted.take(reach),
            pauses,
            state.policy,
            span,
        ),
        reach > usize::MAX && state.uncommitted.len() < usize::MAX ==> span is None,
{
}

/// `analyze` returns what `finds` says, and fails where that is nothing.
pub open spec fn answers<S, E, F: FnMut(&[S]) -> Result<Vec<Range<usize>>, E>>(
    analyze: F,
    finds: spec_fn(Seq<S>) -> Option<Seq<Range<usize>>>,
) -> bool {
    forall|slice: &[S], result: Result<Vec<Range<usize>>, E>| #[trigger]
        call_ensures(analyze, (slice,), result) ==> match result {
            Ok(pauses) => finds(slice@) == Some(pauses@),
            Err(_) => finds(slice@) is None,
        }
}

/// The pauses to plan with: those that are found, or none where the analysis
/// fails, has failed before or is not needed.
pub open spec fn pauses_or_none<S>(
    finds: spec_fn(Seq<S>) -> Option<Seq<Range<usize>>>,
    window: Seq<S>,
    without: bool,
) -> Seq<Range<usize>> {
    if without || finds(window) is None {
        Seq::empty()
    } else {
        finds(window)->0
    }
}

/// Span `i` starts where the one before it ended, with `reach` samples at hand,
/// and is the next span in exactly these, with the pauses that are found in them.
pub open spec fn is_early_span<S, M: Scoring<S>>(
    scoring: &M,
    finds: spec_fn(Seq<S>) -> Option<Seq<Range<usize>>>,
    policy: ChunkPolicy,
    reach: int,
    audio: Seq<S>,
    spans: Seq<Range<usize>>,
    failed: Seq<bool>,
    i: int,
) -> bool {
    let start = spans[i].start as int;
    let window = audio.subrange(start, start + reach);
    &&& start == if i == 0 {
        0
    } else {
        spans[i - 1].end as int
    }
    &&& start < spans[i].end
    &&& start + reach <= audio.len()
    &&& failed[i + 1] == (failed[i] || finds(window) is None)
    &&& is_first_span(
        scoring,
        window,
        pauses_or_none(finds, window, failed[i]),
        policy,
        Some(Range { start: 0usize, end: (spans[i].end - start) as usize }),
    )
}

/// `spans` are early spans, the first `count`, as long as `reach` samples are at
/// hand, and then `tail`, a plan for all the rest as the end of a recording, with
/// the pauses that are found in it where it takes more than one span.
pub open spec fn is_planned_by_parts<S, M: Scoring<S>>(
    scoring: &M,
    finds: spec_fn(Seq<S>) -> Option<Seq<Range<usize>>>,
    policy: ChunkPolicy,
    reach: int,
    audio: Seq<S>,
    spans: Seq<Range<usize>>,
    count: int,
    failed: Seq<bool>,
    tail: Seq<Range<usize>>,
) -> bool {
    let done = if count == 0 {
        0
    } else {
        spans[count - 1].end as int
    };
    let rest = audio.skip(done);
    &&& 0 <= count
    &&& spans.len() == count + tail.len()
    &&& failed.len() == count + 1
    &&& !failed[0]
    &&& forall|i: int|
        0 <= i < count ==> #[trigger] is_early_span(
            scoring,
            finds,
            policy,
            reach,
            audio,
            spans,
            failed,
            i,
        )
    &&& 0 <= done <= audio.len() < done + reach
    &&& is_suffix_plan(
        scoring,
        rest,
        pauses_or_none(finds, rest, failed[count] || rest.len() <= policy.hard_max_samples),
        policy,
        tail,
    )
    &&& forall|j: int|
        0 <= j < tail.len() ==> (#[trigger] tail[j]).start + done == spans[count + j].start
            && tail[j].end + done == spans[count + j].end
}

/// Law: the pauses that are found are the ones that a rolling plan is made with,
/// all of them and no others. Each early span is the next span in the hard maximum
/// and the soft minimum behind the one before, with the pauses in exactly these
/// samples, and the last spans are a plan for the rest with the pauses in it. After
/// a failure of the analysis, and for a rest that fits one span, there are none.
#[verifier::rlimit(40)]
pub proof fn law_a_rolling_plan_is_made_with_the_pauses_found<
    S,
    E,
    M: Scoring<S>,
    F: FnMut(&[S]) -> Result<Vec<Range<usize>>, E>,
>(
    scoring: &M,
    analyze: F,
    finds: spec_fn(Seq<S>) -> Option<Seq<Range<usize>>>,
    policy: ChunkPolicy,
    reach: int,
    audio: Seq<S>,
    spans: Seq<Range<usize>>,
)
    requires
        policy.valid(),
        audio.len() < usize::MAX,
        reach == policy.hard_max_samples + policy.soft_min_samples,
        answers(analyze, finds),
        is_rolling_plan(scoring, analyze, policy, audio, spans),
    ensures
        exists|count: int, failed: Seq<bool>, tail: Seq<Range<usize>>|
            #[trigger] is_planned_by_parts(
                scoring,
                finds,
                policy,
                reach,
                audio,
                spans,
                count,
                failed,
                tail,
            ),
{
    let (early, failures, tail) = choose|
        early: Seq<Range<usize>>,
        failures: Seq<bool>,
        tail: Seq<Range<usize>>,
    |
        #[trigger] is_rolling_plan_with(
            scoring,
            analyze,
            policy,
            audio,
            spans,
            early,
            failures,
            tail,
        );
    let count = early.len() as int;
    let done = end_of(early);
    assert forall|i: int| 0 <= i < count implies #[trigger] is_early_span(
        scoring,
        finds,
        policy,
        reach,
        audio,
        spans,
        failures,
        i,
    ) by {
        lemma_early_span(
            scoring,
            analyze,
            finds,
            policy,
            reach,
            audio,
            early,
            failures,
            i,
        );
        assert(spans[i] == early[i]);
        if i > 0 {
            assert(spans[i - 1] == early[i - 1]);
        }
    }
    if count > 0 {
        assert(is_early_span(
            scoring,
            finds,
            policy,
            reach,
            audio,
            spans,
            failures,
            count - 1,
        ));
        assert(spans[count - 1] == early[count - 1]);
        assert(rolling_step_at(scoring, analyze, policy, audio, early, failures, count - 1));
    }
    let rest = audio.skip(done);
    let pauses = choose|pauses: Seq<Range<usize>>|
        {
            &&& #[trigger] tail_pauses(analyze, policy, rest, failures.last(), pauses)
            &&& is_suffix_plan(scoring, rest, pauses, policy, tail)
        };
    assert(pauses =~= pauses_or_none(
        finds,
        rest,
        failures[count] || rest.len() <= policy.hard_max_samples,
    ));
    law_a_suffix_plan_covers_the_rest(scoring, rest, pauses, policy, tail);
    assert forall|j: int| 0 <= j < tail.len() implies (#[trigger] tail[j]).start + done
        == spans[count + j].start && tail[j].end + done == spans[count + j].end by {
        lemma_ends_inside(tail, rest.len(), policy.hard_max_samples as nat, j);
        assert(tail[j].start < tail[j].end);
        assert(spans[count + j] == crate::rolling::shifted(tail, done)[j]);
    }
    assert(is_planned_by_parts(
        scoring,
        finds,
        policy,
        reach,
        audio,
        spans,
        count,
        failures,
        tail,
    ));
}

proof fn lemma_early_span<
    S,
    E,
    M: Scoring<S>,
    F: FnMut(&[S]) -> Result<Vec<Range<usize>>, E>,
>(
    scoring: &M,
    analyze: F,
    finds: spec_fn(Seq<S>) -> Option<Seq<Range<usize>>>,
    policy: ChunkPolicy,
    reach: int,
    audio: Seq<S>,
    early: Seq<Range<usize>>,
    failures: Seq<bool>,
    i: int,
)
    requires
        audio.len() < usize::MAX,
        reach == policy.hard_max_samples + policy.soft_min_samples,
        answers(analyze, finds),
        crate::rolling::rolled(scoring, analyze, policy, audio, early, failures),
        0 <= i < early.len(),
    ensures
        is_early_span(scoring, finds, policy, reach, audio, early, failures, i),
{
    assert(rolling_step_at(scoring, analyze, policy, audio, early, failures, i));
    if i > 0 {
        assert(joined(early, i));
    }
    let start = early[i].start as int;
    let rest = audio.skip(start);
    assert(rest.len() >= horizon(policy));
    assert(reach == horizon(policy));
    let window = audio.subrange(start, start + reach);
    assert(rest.take(horizon(policy)) =~= window);
    let pauses = choose|pauses: Seq<Range<usize>>|
        {
            &&& #[trigger] known_pauses(
                analyze,
                window,
                failures[i],
                pauses,
                failures[i + 1],
            )
            &&& is_first_span(
                scoring,
                window,
                pauses,
                policy,
                Some(Range { start: 0usize, end: (early[i].end - start) as usize }),
            )
        };
    assert(pauses =~= pauses_or_none(finds, window, failures[i]));
}

/// Law: what `analyze` may return on a window is all that is known of it, every
/// pause, or that it failed.
pub proof fn law_an_analysis_is_what_was_returned<
    S,
    E,
    F: FnMut(&[S]) -> Result<Vec<Range<usize>>, E>,
>(
    analyze: F,
    slice: &[S],
    result: Result<Vec<Range<usize>>, E>,
)
    requires
        call_ensures(analyze, (slice,), result),
    ensures
        result matches Ok(pauses) ==> analysis(analyze, slice@, Some(pauses@)),
        result is Err ==> analysis(analyze, slice@, None),
{
}

/// Law: where what is left behind the early spans is longer than the hard maximum,
/// the analysis has not failed before, and it finds the pauses `found` there, the
/// last spans are a plan for what is left with exactly these. Where it fails, or
/// has failed before, or one span is enough, they are a plan without any pauses.
pub proof fn law_the_tail_is_planned_with_the_pauses_found<
    S,
    E,
    M: Scoring<S>,
    F: FnMut(&[S]) -> Result<Vec<Range<usize>>, E>,
>(
    scoring: &M,
    analyze: F,
    policy: ChunkPolicy,
    audio: Seq<S>,
    spans: Seq<Range<usize>>,
    early: Seq<Range<usize>>,
    failures: Seq<bool>,
    tail: Seq<Range<usize>>,
    rest: Seq<S>,
    found: Seq<Range<usize>>,
)
    requires
        is_rolling_plan_with(
            scoring,
            analyze,
            policy,
            audio,
            spans,
            early,
            failures,
            tail,
        ),
        rest == audio.skip(
            if early.len() == 0 {
                0
            } else {
                early[early.len() - 1].end as int
            },
        ),
    ensures
        rest.len() > policy.hard_max_samples && !failures.last() && (forall|
            slice: &[S],
            result: Result<Vec<Range<usize>>, E>,
        |
            slice@ == rest && #[trigger] call_ensures(analyze, (slice,), result) ==> (
            result matches Ok(pauses) && pauses@ == found)) ==> is_suffix_plan(
            scoring,
            rest,
            found,
            policy,
            tail,
        ),
        rest.len() <= policy.hard_max_samples || failures.last() || (forall|
            slice: &[S],
            result: Result<Vec<Range<usize>>, E>,
        |
            slice@ == rest && #[trigger] call_ensures(analyze, (slice,), result)
                ==> result is Err) ==> is_suffix_plan(scoring, rest, Seq::empty(), policy, tail),
{
    let pauses = choose|pauses: Seq<Range<usize>>|
        {
            &&& #[trigger] tail_pauses(analyze, policy, rest, failures.last(), pauses)
            &&& is_suffix_plan(scoring, rest, pauses, policy, tail)
        };
    if pauses.len() == 0 {
        assert(pauses =~= Seq::empty());
    }
}

} // verus!
