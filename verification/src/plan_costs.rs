//! What plans cost, span by span.

use crate::boundary::{is_boundaries, law_boundaries_span_the_audio, ordered, BoundaryCandidate};
use crate::first_span::is_first_span;
use crate::plan::{
    allowed_step, arrival, beats, best_arrival, edge_between, is_global_plan, is_path,
    law_a_plan_covers_the_recording, lemma_fewer_candidates_than_samples, lemma_path_to,
    lemma_plan_parts, linked, not_reached, path_to, plan_table, planned_spans, spans_along,
    PlanState,
};
use crate::plan_laws::{
    finite_totals, lemma_repeatable_scores, lemma_same_boundaries, lemma_table_totals,
    order_preserving, repeatable, repeatable_scores, table_totals, total_step, totals_along,
};
use crate::policy::ChunkPolicy;
use crate::scoring::{costs, finite_cost, sums, terms_of, Scoring, INFINITE_COST};
use crate::span::{
    full_coverage, joined, law_a_fixed_cut_leaves_full_spans, law_what_full_coverage_is,
};
use crate::suffix::{
    costs_in_two, cuts_in_two, halves, is_best_cut, is_cut_in_two, is_suffix_plan,
    law_a_suffix_plan_covers_the_rest, lemma_suffix_parts, two_span_scores,
};
use crate::suffix_laws::{
    lemma_best_cut_is_a_way, lemma_same_two_span_cost, lemma_short_way_cuts_in_two,
};
use std::ops::Range;
use vstd::prelude::*;

verus! {

/// Law: audio that one span may hold is one span, of all of it, and no audio none,
/// whatever pauses it has.
pub proof fn law_audio_that_fits_is_one_span<S, M: Scoring<S>>(
    scoring: &M,
    audio: Seq<S>,
    pauses: Seq<Range<usize>>,
    policy: ChunkPolicy,
    spans: Seq<Range<usize>>,
    span: Option<Range<usize>>,
)
    requires
        audio.len() <= policy.hard_max_samples,
    ensures
        is_global_plan(scoring, audio, pauses, policy, spans) || is_suffix_plan(
            scoring,
            audio,
            pauses,
            policy,
            spans,
        ) ==> {
            &&& spans.len() == if audio.len() == 0 {
                0nat
            } else {
                1nat
            }
            &&& audio.len() > 0 ==> spans[0].start == 0 && spans[0].end == audio.len()
        },
        is_first_span(scoring, audio, pauses, policy, span) ==> {
            &&& span is None <==> audio.len() == 0
            &&& span matches Some(r) ==> r.start == 0 && r.end == audio.len()
        },
{
}

/// Law: what is left at the end of a recording is planned like a complete
/// recording where one span may hold it, or where a span of the hard maximum and
/// the soft minimum are at hand.
pub proof fn law_a_long_rest_is_planned_like_a_recording<S, M: Scoring<S>>(
    scoring: &M,
    audio: Seq<S>,
    pauses: Seq<Range<usize>>,
    policy: ChunkPolicy,
    spans: Seq<Range<usize>>,
)
    requires
        audio.len() <= usize::MAX,
        audio.len() <= policy.hard_max_samples || audio.len() >= policy.hard_max_samples
            + policy.soft_min_samples,
    ensures
        is_suffix_plan(scoring, audio, pauses, policy, spans) <==> is_global_plan(
            scoring,
            audio,
            pauses,
            policy,
            spans,
        ),
{
}

/// `totals` are what `scoring` may give for `spans` of `audio_len` samples, up to
/// each of them, where every one ends at one of `candidates`, and the one that
/// ends with the audio is the last.
pub open spec fn adds_up<S, M: Scoring<S>>(
    scoring: &M,
    candidates: Seq<BoundaryCandidate>,
    policy: ChunkPolicy,
    audio_len: int,
    spans: Seq<Range<usize>>,
    totals: Seq<i64>,
) -> bool {
    &&& totals.len() == spans.len() + 1
    &&& totals[0] == 0
    &&& forall|i: int|
        0 <= i < spans.len() ==> #[trigger] span_adds_up(
            scoring,
            candidates,
            policy,
            audio_len,
            spans,
            totals,
            i,
        )
}

/// Span `i` adds its own cost to what those before it come to.
pub open spec fn span_adds_up<S, M: Scoring<S>>(
    scoring: &M,
    candidates: Seq<BoundaryCandidate>,
    policy: ChunkPolicy,
    audio_len: int,
    spans: Seq<Range<usize>>,
    totals: Seq<i64>,
    i: int,
) -> bool {
    exists|j: int, cost: i64|
        {
            &&& 0 <= j < candidates.len()
            &&& candidates[j].sample == spans[i].end
            &&& #[trigger] span_costs(scoring, spans[i], candidates[j], policy, audio_len, cost)
            &&& sums(scoring, totals[i], cost, totals[i + 1])
        }
}

/// `scoring` may give `cost` for a span of `audio_len` samples that ends at
/// `boundary`.
pub open spec fn span_costs<S, M: Scoring<S>>(
    scoring: &M,
    span: Range<usize>,
    boundary: BoundaryCandidate,
    policy: ChunkPolicy,
    audio_len: int,
    cost: i64,
) -> bool {
    costs(
        scoring,
        terms_of((span.end - span.start) as usize, boundary, span.end == audio_len, policy),
        cost,
    )
}

/// The boundary at `sample`.
spec fn boundary_at(candidates: Seq<BoundaryCandidate>, sample: usize) -> int {
    choose|j: int| 0 <= j < candidates.len() && (#[trigger] candidates[j]).sample == sample
}

/// The boundaries that `spans` end at, behind the first one.
spec fn path_of(candidates: Seq<BoundaryCandidate>, spans: Seq<Range<usize>>) -> Seq<int> {
    Seq::new(
        spans.len() + 1,
        |i: int|
            if i == 0 {
                0
            } else {
                boundary_at(candidates, spans[i - 1].end)
            },
    )
}

/// Spans that add up are a way through the boundaries, and cost what it costs.
#[verifier::rlimit(40)]
proof fn lemma_spans_are_a_way<S, M: Scoring<S>>(
    scoring: &M,
    candidates: Seq<BoundaryCandidate>,
    policy: ChunkPolicy,
    n: nat,
    spans: Seq<Range<usize>>,
    totals: Seq<i64>,
) -> (path: Seq<int>)
    requires
        ordered(candidates),
        candidates.len() >= 2,
        candidates[0].sample == 0,
        candidates.last().sample == n,
        0 < n,
        full_coverage(spans, n, policy.hard_max_samples as nat),
        adds_up(scoring, candidates, policy, n as int, spans, totals),
    ensures
        path.len() == spans.len() + 1,
        is_path(candidates, policy.hard_max_samples, path, candidates.len() - 1),
        totals_along(scoring, candidates, policy, path, totals),
        spans == spans_along(candidates, path),
{
    let path = path_of(candidates, spans);
    let last = candidates.len() - 1;
    assert forall|i: int| 0 <= i < path.len() implies {
        &&& 0 <= #[trigger] path[i] < candidates.len()
        &&& candidates[path[i]].sample == if i == 0 {
            0
        } else {
            spans[i - 1].end
        }
    } by {
        if i > 0 {
            assert(span_adds_up(
                scoring,
                candidates,
                policy,
                n as int,
                spans,
                totals,
                i - 1,
            ));
            let j = choose|j: int|
                0 <= j < candidates.len() && (#[trigger] candidates[j]).sample == spans[i - 1].end;
            assert(boundary_at(candidates, spans[i - 1].end) == j);
        }
    }
    assert forall|i: int| 0 < i < path.len() implies #[trigger] allowed_step(
        candidates,
        policy.hard_max_samples,
        path,
        i,
    ) && total_step(scoring, candidates, policy, path, totals, i) && candidates[path[i
        - 1]].sample == spans[i - 1].start by {
        let s = path[i - 1];
        let e = path[i];
        let span = spans[i - 1];
        assert(span.start < span.end);
        if i > 1 {
            assert(joined(spans, i - 1));
        }
        assert(candidates[s].sample == span.start);
        assert(s < e) by {
            if e < s {
                assert(candidates[e].sample < candidates[s].sample);
            }
        }
        assert(span_adds_up(scoring, candidates, policy, n as int, spans, totals, i - 1));
        let (j, cost) = choose|j: int, cost: i64|
            {
                &&& 0 <= j < candidates.len()
                &&& candidates[j].sample == span.end
                &&& #[trigger] span_costs(scoring, span, candidates[j], policy, n as int, cost)
                &&& sums(scoring, totals[i - 1], cost, totals[i])
            };
        assert(j == e) by {
            if j < e {
                assert(candidates[j].sample < candidates[e].sample);
            } else if e < j {
                assert(candidates[e].sample < candidates[j].sample);
            }
        }
        assert((span.end == n) == (e == last)) by {
            if e < last {
                assert(candidates[e].sample < candidates[last].sample);
            }
        }
        assert(costs(scoring, edge_between(candidates, policy, s, e), cost));
    }
    assert forall|i: int| 0 < i < path.len() implies #[trigger] total_step(
        scoring,
        candidates,
        policy,
        path,
        totals,
        i,
    ) by {
        assert(allowed_step(candidates, policy.hard_max_samples, path, i));
    }
    assert(path.last() == last) by {
        let e = path[path.len() - 1];
        assert(candidates[e].sample == spans[spans.len() - 1].end);
        if e < last {
            assert(candidates[e].sample < candidates[last].sample);
        }
    }
    assert forall|i: int| 0 <= i < spans.len() implies spans[i] == spans_along(
        candidates,
        path,
    )[i] by {
        assert(allowed_step(candidates, policy.hard_max_samples, path, i + 1));
        assert(candidates[path[i + 1 - 1]].sample == spans[i + 1 - 1].start);
        assert(candidates[path[i + 1]].sample == spans[i].end);
    }
    assert(spans =~= spans_along(candidates, path));
    path
}

/// The spans along a way through the boundaries add up to what it costs.
proof fn lemma_a_way_adds_up<S, M: Scoring<S>>(
    scoring: &M,
    candidates: Seq<BoundaryCandidate>,
    policy: ChunkPolicy,
    n: nat,
    path: Seq<int>,
    end: int,
    totals: Seq<i64>,
)
    requires
        ordered(candidates),
        candidates.len() >= 2,
        candidates[0].sample == 0,
        candidates.last().sample == n,
        is_path(candidates, policy.hard_max_samples, path, end),
        totals_along(scoring, candidates, policy, path, totals),
    ensures
        adds_up(scoring, candidates, policy, n as int, spans_along(candidates, path), totals),
{
    let spans = spans_along(candidates, path);
    let last = candidates.len() - 1;
    assert forall|i: int| 0 <= i < spans.len() implies #[trigger] span_adds_up(
        scoring,
        candidates,
        policy,
        n as int,
        spans,
        totals,
        i,
    ) by {
        assert(allowed_step(candidates, policy.hard_max_samples, path, i + 1));
        assert(total_step(scoring, candidates, policy, path, totals, i + 1));
        let s = path[i];
        let e = path[i + 1];
        let cost = choose|cost: i64| #[trigger]
            costs(scoring, edge_between(candidates, policy, s, e), cost) && sums(
                scoring,
                totals[i],
                cost,
                totals[i + 1],
            );
        assert((spans[i].end == n) == (e == last)) by {
            if e < last {
                assert(candidates[e].sample < candidates[last].sample);
            }
        }
        assert(span_costs(scoring, spans[i], candidates[e], policy, n as int, cost));
    }
}

/// A chain of spans from the first sample on that has cost numbers so far does not
/// go below all numbers with its last span.
pub open spec fn stays_above<S, M: Scoring<S>>(
    scoring: &M,
    candidates: Seq<BoundaryCandidate>,
    policy: ChunkPolicy,
    audio_len: int,
) -> bool {
    forall|spans: Seq<Range<usize>>, totals: Seq<i64>|
        #[trigger] adds_up(scoring, candidates, policy, audio_len, spans, totals) && is_chain(
            policy,
            spans,
        ) && finite_totals(totals.drop_last()) ==> -INFINITE_COST - 1 < totals.last()
}

/// Only numbers lead from one number to another.
pub open spec fn sums_only_numbers<S, M: Scoring<S>>(scoring: &M) -> bool {
    forall|x: i64, y: i64, a: i64|
        finite_cost(x) && finite_cost(a) && #[trigger] sums(scoring, x, y, a) ==> finite_cost(y)
}

/// `spans` go on from the first sample, each where the one before ended, none of
/// them empty or above the hard maximum.
pub open spec fn is_chain(policy: ChunkPolicy, spans: Seq<Range<usize>>) -> bool {
    &&& spans.len() > 0 ==> spans[0].start == 0
    &&& forall|i: int, j: int|
        0 <= i && j == i + 1 && j < spans.len() ==> (#[trigger] spans[i]).end == (
        #[trigger] spans[j]).start
    &&& forall|i: int|
        0 <= i < spans.len() ==> 0 < (#[trigger] spans[i]).end - spans[i].start
            <= policy.hard_max_samples
}

/// The way to a boundary and on to another one is a chain that adds up to what the
/// table says.
proof fn lemma_arrival_stays_above<S, M: Scoring<S>>(
    scoring: &M,
    candidates: Seq<BoundaryCandidate>,
    policy: ChunkPolicy,
    n: nat,
    states: Seq<PlanState>,
    arrivals: Map<(int, int), i64>,
    s: int,
    e: int,
)
    requires
        ordered(candidates),
        candidates.len() >= 2,
        candidates[0].sample == 0,
        candidates.last().sample == n,
        stays_above(scoring, candidates, policy, n as int),
        plan_table(scoring, candidates, policy, states, arrivals),
        states.len() <= usize::MAX + 1,
        linked(candidates, states, policy.hard_max_samples, s, e),
    ensures
        -INFINITE_COST - 1 < arrivals[(s, e)],
{
    let h = policy.hard_max_samples;
    lemma_path_to(scoring, candidates, policy, states, arrivals, s);
    let before = path_to(states, s);
    let path = before.push(e);
    let totals = table_totals(states, before).push(arrivals[(s, e)]);
    assert forall|i: int| 0 < i < path.len() implies #[trigger] allowed_step(
        candidates,
        h,
        path,
        i,
    ) by {
        if i < before.len() {
            assert(allowed_step(candidates, h, before, i));
        } else {
            assert(path[i - 1] == before.last());
        }
    }
    assert forall|i: int| 0 < i < path.len() implies #[trigger] total_step(
        scoring,
        candidates,
        policy,
        path,
        totals,
        i,
    ) by {
        if i < before.len() {
            assert(crate::plan::step_of_table(states, arrivals, before, i));
            assert(allowed_step(candidates, h, before, i));
            assert(0 <= before[i - 1] < states.len());
            assert(linked(candidates, states, h, before[i - 1], before[i]));
        } else {
            assert(path[i - 1] == s);
            assert(totals[i - 1] == states[s].cost);
        }
    }
    assert(is_path(candidates, h, path, e));
    assert(totals_along(scoring, candidates, policy, path, totals));
    lemma_a_way_adds_up(scoring, candidates, policy, n, path, e, totals);
    let spans = spans_along(candidates, path);
    assert(is_chain(policy, spans)) by {
        assert forall|i: int| 0 <= i < spans.len() implies 0 < (#[trigger] spans[i]).end
            - spans[i].start <= h by {
            assert(allowed_step(candidates, h, path, i + 1));
            assert(candidates[path[i]].sample < candidates[path[i + 1]].sample);
        }
    }
    assert(finite_totals(totals.drop_last())) by {
        assert(totals.drop_last() =~= table_totals(states, before));
        assert forall|i: int| 0 <= i < before.len() implies finite_cost(
            #[trigger] table_totals(states, before)[i],
        ) by {
            assert(finite_cost(states[before[i]].cost));
        }
    }
    assert(totals.last() == arrivals[(s, e)]);
}

/// The best way of a table leads to the end, and costs no more than other spans.
#[verifier::rlimit(40)]
proof fn lemma_planned_is_cheapest<S, M: Scoring<S>>(
    scoring: &M,
    audio: Seq<S>,
    pauses: Seq<Range<usize>>,
    policy: ChunkPolicy,
    candidates: Seq<BoundaryCandidate>,
    states: Seq<PlanState>,
    arrivals: Map<(int, int), i64>,
    other: Seq<Range<usize>>,
    other_totals: Seq<i64>,
) -> (totals: Seq<i64>)
    requires
        policy.hard_max_samples < audio.len() <= usize::MAX,
        policy.valid(),
        order_preserving(scoring),
        is_boundaries(scoring, audio, pauses, policy, candidates),
        plan_table(scoring, candidates, policy, states, arrivals),
        sums_only_numbers(scoring),
        stays_above(scoring, candidates, policy, audio.len() as int),
        full_coverage(other, audio.len(), policy.hard_max_samples as nat),
        adds_up(scoring, candidates, policy, audio.len() as int, other, other_totals),
        finite_totals(other_totals),
    ensures
        ({
            let planned = planned_spans(
                candidates,
                states,
                audio.len() as int,
                policy.hard_max_samples as int,
            );
            &&& finite_cost(states.last().cost)
            &&& planned == spans_along(candidates, path_to(states, candidates.len() - 1))
            &&& adds_up(scoring, candidates, policy, audio.len() as int, planned, totals)
            &&& finite_totals(totals)
            &&& totals.last() == states.last().cost
            &&& totals.last() <= other_totals.last()
        }),
{
    law_boundaries_span_the_audio(scoring, audio, pauses, policy, candidates);
    lemma_fewer_candidates_than_samples(candidates);
    let path = lemma_spans_are_a_way(
        scoring,
        candidates,
        policy,
        audio.len(),
        other,
        other_totals,
    );
    lemma_no_path_is_better(
        scoring,
        candidates,
        policy,
        audio.len(),
        states,
        arrivals,
        path,
        other_totals,
        candidates.len() - 1,
        path.len() - 1,
    );
    lemma_table_totals(scoring, candidates, policy, states, arrivals);
    let planned = path_to(states, candidates.len() - 1);
    let totals = table_totals(states, planned);
    lemma_a_way_adds_up(
        scoring,
        candidates,
        policy,
        audio.len(),
        planned,
        candidates.len() - 1,
        totals,
    );
    totals
}

/// Law: no other way to cut a recording at its boundaries, within the hard
/// maximum, costs less than the plan, span by span.
pub proof fn law_no_other_cut_is_cheaper<S, M: Scoring<S>>(
    scoring: &M,
    audio: Seq<S>,
    pauses: Seq<Range<usize>>,
    policy: ChunkPolicy,
    candidates: Seq<BoundaryCandidate>,
    spans: Seq<Range<usize>>,
    other: Seq<Range<usize>>,
    other_totals: Seq<i64>,
)
    requires
        policy.hard_max_samples < audio.len() <= usize::MAX,
        policy.valid(),
        order_preserving(scoring),
        is_boundaries(scoring, audio, pauses, policy, candidates),
        sums_only_numbers(scoring),
        stays_above(scoring, candidates, policy, audio.len() as int),
        is_global_plan(scoring, audio, pauses, policy, spans),
        full_coverage(other, audio.len(), policy.hard_max_samples as nat),
        adds_up(scoring, candidates, policy, audio.len() as int, other, other_totals),
        finite_totals(other_totals),
    ensures
        exists|totals: Seq<i64>|
            #[trigger] adds_up(
                scoring,
                candidates,
                policy,
                audio.len() as int,
                spans,
                totals,
            ) && totals.last() <= other_totals.last(),
{
    lemma_repeatable_scores(scoring);
    let (chosen, states, arrivals) = lemma_plan_parts(scoring, audio, pauses, policy, spans);
    lemma_same_boundaries(scoring, audio, pauses, policy, candidates, chosen);
    lemma_planned_is_cheapest(
        scoring,
        audio,
        pauses,
        policy,
        candidates,
        states,
        arrivals,
        other,
        other_totals,
    );
}

/// Where the cuts into two are compared, the one that is taken costs no more than
/// others.
proof fn lemma_best_cut_is_cheapest<S, M: Scoring<S>>(
    scoring: &M,
    candidates: Seq<BoundaryCandidate>,
    policy: ChunkPolicy,
    n: nat,
    spans: Seq<Range<usize>>,
    other: Seq<Range<usize>>,
    other_totals: Seq<i64>,
) -> (totals: Seq<i64>)
    requires
        repeatable_scores(scoring),
        ordered(candidates),
        candidates.len() >= 2,
        candidates[0].sample == 0,
        candidates.last().sample == n,
        policy.hard_max_samples < n,
        exists|scores: Seq<i64>|
            #[trigger] two_span_scores(scoring, candidates, policy, scores) && is_cut_in_two(
                candidates,
                policy.hard_max_samples,
                scores,
                n as int,
                spans,
            ),
        full_coverage(other, n, policy.hard_max_samples as nat),
        other.len() <= 2,
        adds_up(scoring, candidates, policy, n as int, other, other_totals),
        finite_totals(other_totals),
    ensures
        adds_up(scoring, candidates, policy, n as int, spans, totals),
        totals.last() <= other_totals.last(),
{
    let h = policy.hard_max_samples;
    let path = lemma_spans_are_a_way(scoring, candidates, policy, n, other, other_totals);
    lemma_short_way_cuts_in_two(scoring, candidates, policy, path, other_totals);
    let scores = choose|scores: Seq<i64>|
        #[trigger] two_span_scores(scoring, candidates, policy, scores) && is_cut_in_two(
            candidates,
            h,
            scores,
            n as int,
            spans,
        );
    let j = path[1];
    assert(cuts_in_two(candidates, h, j));
    lemma_same_two_span_cost(scoring, candidates, policy, j, other_totals[2], scores[j]);
    assert(finite_cost(other_totals[2]));
    let i = choose|i: int| #[trigger]
        is_best_cut(candidates, h, scores, i) && spans == halves(candidates[i].sample, n as int);
    let cut = seq![0, i, candidates.len() - 1];
    let totals = lemma_best_cut_is_a_way(scoring, candidates, policy, scores, i, cut);
    lemma_a_way_adds_up(
        scoring,
        candidates,
        policy,
        n,
        cut,
        candidates.len() - 1,
        totals,
    );
    assert(spans =~= spans_along(candidates, cut));
    totals
}

/// Law: below the hard maximum and the soft minimum together, what is left at the
/// end of a recording is cut in two, and no other way to cut it in two at its
/// boundaries costs less, span by span.
#[verifier::rlimit(40)]
pub proof fn law_no_other_cut_in_two_is_cheaper<S, M: Scoring<S>>(
    scoring: &M,
    audio: Seq<S>,
    pauses: Seq<Range<usize>>,
    policy: ChunkPolicy,
    candidates: Seq<BoundaryCandidate>,
    spans: Seq<Range<usize>>,
    other: Seq<Range<usize>>,
    other_totals: Seq<i64>,
)
    requires
        policy.hard_max_samples < audio.len() <= usize::MAX,
        audio.len() < policy.hard_max_samples + policy.soft_min_samples,
        audio.len() < usize::MAX,
        policy.valid(),
        order_preserving(scoring),
        is_boundaries(scoring, audio, pauses, policy, candidates),
        sums_only_numbers(scoring),
        stays_above(scoring, candidates, policy, audio.len() as int),
        is_suffix_plan(scoring, audio, pauses, policy, spans),
        full_coverage(other, audio.len(), policy.hard_max_samples as nat),
        other.len() <= 2,
        adds_up(scoring, candidates, policy, audio.len() as int, other, other_totals),
        finite_totals(other_totals),
    ensures
        spans.len() == 2,
        exists|totals: Seq<i64>|
            #[trigger] adds_up(
                scoring,
                candidates,
                policy,
                audio.len() as int,
                spans,
                totals,
            ) && totals.last() <= other_totals.last(),
{
    lemma_repeatable_scores(scoring);
    let n = audio.len() as int;
    let h = policy.hard_max_samples;
    law_a_suffix_plan_covers_the_rest(scoring, audio, pauses, policy, spans);
    law_what_full_coverage_is(spans, audio.len(), h as nat);
    let (chosen, states, arrivals) = lemma_suffix_parts(scoring, audio, pauses, policy, spans);
    lemma_same_boundaries(scoring, audio, pauses, policy, candidates, chosen);
    law_boundaries_span_the_audio(scoring, audio, pauses, policy, candidates);
    if planned_spans(candidates, states, n, h as int).len() <= 2 {
        let totals = lemma_planned_is_cheapest(
            scoring,
            audio,
            pauses,
            policy,
            candidates,
            states,
            arrivals,
            other,
            other_totals,
        );
        assert(adds_up(scoring, candidates, policy, n, spans, totals));
    } else {
        lemma_best_cut_is_cheapest(
            scoring,
            candidates,
            policy,
            audio.len(),
            spans,
            other,
            other_totals,
        );
    }
}

/// Law: a plan for more than one span ends its spans at boundaries, and costs a
/// number; only where it does not every span but the last is as long as it may be,
/// whatever the scoring returned.
pub proof fn law_where_a_plan_cuts<S, M: Scoring<S>>(
    scoring: &M,
    audio: Seq<S>,
    pauses: Seq<Range<usize>>,
    policy: ChunkPolicy,
    candidates: Seq<BoundaryCandidate>,
    spans: Seq<Range<usize>>,
)
    requires
        policy.hard_max_samples < audio.len() <= usize::MAX,
        policy.valid(),
        repeatable(scoring),
        is_boundaries(scoring, audio, pauses, policy, candidates),
        is_global_plan(scoring, audio, pauses, policy, spans),
    ensures
        ({
            ||| exists|totals: Seq<i64>|
                #[trigger] adds_up(
                    scoring,
                    candidates,
                    policy,
                    audio.len() as int,
                    spans,
                    totals,
                ) && finite_totals(totals)
            ||| forall|i: int|
                0 <= i < spans.len() - 1 ==> (#[trigger] spans[i]).end - spans[i].start
                    == policy.hard_max_samples
        }),
{
    lemma_repeatable_scores(scoring);
    let (chosen, states, arrivals) = lemma_plan_parts(scoring, audio, pauses, policy, spans);
    lemma_same_boundaries(scoring, audio, pauses, policy, candidates, chosen);
    lemma_planned_cuts(scoring, audio, pauses, policy, candidates, states, arrivals, spans);
}

proof fn lemma_planned_cuts<S, M: Scoring<S>>(
    scoring: &M,
    audio: Seq<S>,
    pauses: Seq<Range<usize>>,
    policy: ChunkPolicy,
    candidates: Seq<BoundaryCandidate>,
    states: Seq<PlanState>,
    arrivals: Map<(int, int), i64>,
    spans: Seq<Range<usize>>,
)
    requires
        policy.hard_max_samples < audio.len() <= usize::MAX,
        policy.valid(),
        is_boundaries(scoring, audio, pauses, policy, candidates),
        plan_table(scoring, candidates, policy, states, arrivals),
        spans == planned_spans(
            candidates,
            states,
            audio.len() as int,
            policy.hard_max_samples as int,
        ),
    ensures
        ({
            ||| exists|totals: Seq<i64>|
                #[trigger] adds_up(
                    scoring,
                    candidates,
                    policy,
                    audio.len() as int,
                    spans,
                    totals,
                ) && finite_totals(totals)
            ||| forall|i: int|
                0 <= i < spans.len() - 1 ==> (#[trigger] spans[i]).end - spans[i].start
                    == policy.hard_max_samples
        }),
{
    law_boundaries_span_the_audio(scoring, audio, pauses, policy, candidates);
    if finite_cost(states.last().cost) {
        lemma_fewer_candidates_than_samples(candidates);
        lemma_table_totals(scoring, candidates, policy, states, arrivals);
        let planned = path_to(states, states.len() - 1);
        let totals = table_totals(states, planned);
        lemma_a_way_adds_up(
        scoring,
        candidates,
        policy,
        audio.len(),
        planned,
        candidates.len() - 1,
        totals,
    );
    } else {
        law_a_fixed_cut_leaves_full_spans(audio.len() as int, policy.hard_max_samples as int);
    }
}

/// Law: below the hard maximum and the soft minimum together, more than one span
/// of what is left at the end of a recording is cut in two, at a boundary and at a
/// cost that is a number, or else at the hard maximum, whatever the scoring
/// returned.
#[verifier::rlimit(40)]
pub proof fn law_where_a_rest_is_cut<S, M: Scoring<S>>(
    scoring: &M,
    audio: Seq<S>,
    pauses: Seq<Range<usize>>,
    policy: ChunkPolicy,
    candidates: Seq<BoundaryCandidate>,
    spans: Seq<Range<usize>>,
)
    requires
        policy.hard_max_samples < audio.len() < usize::MAX,
        audio.len() < policy.hard_max_samples + policy.soft_min_samples,
        policy.valid(),
        repeatable(scoring),
        is_boundaries(scoring, audio, pauses, policy, candidates),
        is_suffix_plan(scoring, audio, pauses, policy, spans),
    ensures
        spans.len() == 2,
        spans[0].start == 0 && spans[0].end == spans[1].start && spans[1].end == audio.len(),
        spans[0].end == policy.hard_max_samples || exists|totals: Seq<i64>|
            #[trigger] adds_up(
                scoring,
                candidates,
                policy,
                audio.len() as int,
                spans,
                totals,
            ) && finite_totals(totals),
{
    lemma_repeatable_scores(scoring);
    let n = audio.len() as int;
    let h = policy.hard_max_samples;
    law_a_suffix_plan_covers_the_rest(scoring, audio, pauses, policy, spans);
    law_what_full_coverage_is(spans, audio.len(), h as nat);
    let (chosen, states, arrivals) = lemma_suffix_parts(scoring, audio, pauses, policy, spans);
    lemma_same_boundaries(scoring, audio, pauses, policy, candidates, chosen);
    law_boundaries_span_the_audio(scoring, audio, pauses, policy, candidates);
    if planned_spans(candidates, states, n, h as int).len() <= 2 {
        lemma_planned_cuts(scoring, audio, pauses, policy, candidates, states, arrivals, spans);
        assert(spans.len() == 2);
        assert(spans[0].end - spans[0].start <= h);
    } else {
        let scores = choose|scores: Seq<i64>|
            #[trigger] two_span_scores(scoring, candidates, policy, scores) && is_cut_in_two(
                candidates,
                h,
                scores,
                n,
                spans,
            );
        if exists|i: int| #[trigger]
            is_best_cut(candidates, h, scores, i) && spans == halves(candidates[i].sample, n) {
            let i = choose|i: int| #[trigger]
                is_best_cut(candidates, h, scores, i) && spans == halves(candidates[i].sample, n);
            let path = seq![0, i, candidates.len() - 1];
            let totals = lemma_best_cut_is_a_way(scoring, candidates, policy, scores, i, path);
            lemma_a_way_adds_up(
        scoring,
        candidates,
        policy,
        audio.len(),
        path,
        candidates.len() - 1,
        totals,
    );
            assert(spans =~= spans_along(candidates, path));
        } else {
            law_a_fixed_cut_leaves_full_spans(n, h as int);
        }
    }
}

/// Beyond keeping their order, `scoring` tells sums apart that start from
/// different totals.
pub open spec fn tells_totals_apart<S, M: Scoring<S>>(scoring: &M) -> bool {
    &&& order_preserving(scoring)
    &&& forall|low: i64, high: i64, edge: i64, a: i64, b: i64|
        low < high && finite_cost(low) && finite_cost(high) && finite_cost(edge)
            && #[trigger] sums(scoring, low, edge, a) && #[trigger] sums(scoring, high, edge, b)
            ==> a < b
}

/// A way is no better than what the table has: it costs no less, and where totals
/// are told apart and it costs the same, it has no fewer spans.
#[verifier::rlimit(40)]
proof fn lemma_no_path_is_better<S, M: Scoring<S>>(
    scoring: &M,
    candidates: Seq<BoundaryCandidate>,
    policy: ChunkPolicy,
    audio_len: nat,
    states: Seq<PlanState>,
    arrivals: Map<(int, int), i64>,
    path: Seq<int>,
    totals: Seq<i64>,
    e: int,
    n: int,
)
    requires
        ordered(candidates),
        candidates.len() >= 2,
        candidates[0].sample == 0,
        candidates.last().sample == audio_len,
        plan_table(scoring, candidates, policy, states, arrivals),
        order_preserving(scoring),
        sums_only_numbers(scoring),
        stays_above(scoring, candidates, policy, audio_len as int),
        states.len() <= usize::MAX + 1,
        is_path(candidates, policy.hard_max_samples, path, e),
        totals_along(scoring, candidates, policy, path, totals),
        finite_totals(totals),
        0 <= n < path.len(),
    ensures
        0 <= path[n] < candidates.len(),
        finite_cost(states[path[n]].cost),
        states[path[n]].cost <= totals[n],
        tells_totals_apart(scoring) && states[path[n]].cost == totals[n] ==> {
            &&& states[path[n]].chunks <= n
            &&& n > 0 && states[path[n]].chunks == n ==> (
            states[path[n]].predecessor matches Some(p) && p <= path[n - 1])
        },
    decreases n,
{
    if n > 0 {
        lemma_no_path_is_better(
            scoring,
            candidates,
            policy,
            audio_len,
            states,
            arrivals,
            path,
            totals,
            e,
            n - 1,
        );
        lemma_repeatable_scores(scoring);
        let h = policy.hard_max_samples;
        let s = path[n - 1];
        let t = path[n];
        assert(allowed_step(candidates, h, path, n));
        assert(linked(candidates, states, h, s, t));
        let edge = edge_between(candidates, policy, s, t);
        assert(total_step(scoring, candidates, policy, path, totals, n));
        let a = choose|a: i64| #[trigger]
            costs(scoring, edge, a) && sums(scoring, states[s].cost, a, arrivals[(s, t)]);
        let b = choose|b: i64| #[trigger]
            costs(scoring, edge, b) && sums(scoring, totals[n - 1], b, totals[n]);
        assert(a == b);
        assert(finite_cost(totals[n - 1]) && finite_cost(totals[n]));
        assert(finite_cost(a));
        assert(arrivals[(s, t)] <= totals[n]);
        lemma_arrival_stays_above(
            scoring,
            candidates,
            policy,
            audio_len,
            states,
            arrivals,
            s,
            t,
        );
        assert(best_arrival(candidates, h, states, arrivals, t));
        assert(!beats(arrival(states, arrivals, s, t), states[t]));
        lemma_path_to(scoring, candidates, policy, states, arrivals, s);
        assert(states[s].chunks <= s < usize::MAX);
        assert(states[t] != not_reached());
        let u = choose|u: int| #[trigger]
            linked(candidates, states, h, u, t) && states[t] == arrival(states, arrivals, u, t)
                && beats(states[t], not_reached());
        assert(linked(candidates, states, h, u, t));
        lemma_arrival_stays_above(
            scoring,
            candidates,
            policy,
            audio_len,
            states,
            arrivals,
            u,
            t,
        );
    }
}

/// Law: of the ways to cut a recording at its boundaries that cost no more than
/// any other, the plan is one of fewest spans, and of those one whose last span
/// starts first.
#[verifier::rlimit(40)]
pub proof fn law_the_plan_has_fewest_spans<S, M: Scoring<S>>(
    scoring: &M,
    audio: Seq<S>,
    pauses: Seq<Range<usize>>,
    policy: ChunkPolicy,
    candidates: Seq<BoundaryCandidate>,
    spans: Seq<Range<usize>>,
    totals: Seq<i64>,
    other: Seq<Range<usize>>,
    other_totals: Seq<i64>,
)
    requires
        policy.hard_max_samples < audio.len() <= usize::MAX,
        policy.valid(),
        tells_totals_apart(scoring),
        is_boundaries(scoring, audio, pauses, policy, candidates),
        sums_only_numbers(scoring),
        stays_above(scoring, candidates, policy, audio.len() as int),
        is_global_plan(scoring, audio, pauses, policy, spans),
        adds_up(scoring, candidates, policy, audio.len() as int, spans, totals),
        full_coverage(other, audio.len(), policy.hard_max_samples as nat),
        adds_up(scoring, candidates, policy, audio.len() as int, other, other_totals),
        finite_totals(other_totals),
        other_totals.last() <= totals.last(),
    ensures
        spans.len() <= other.len(),
        spans.len() == other.len() ==> spans.last().start <= other.last().start,
{
    lemma_repeatable_scores(scoring);
    let n = audio.len();
    let (chosen, states, arrivals) = lemma_plan_parts(scoring, audio, pauses, policy, spans);
    lemma_same_boundaries(scoring, audio, pauses, policy, candidates, chosen);
    law_boundaries_span_the_audio(scoring, audio, pauses, policy, candidates);
    lemma_fewer_candidates_than_samples(candidates);
    let planned_totals = lemma_planned_is_cheapest(
        scoring,
        audio,
        pauses,
        policy,
        candidates,
        states,
        arrivals,
        other,
        other_totals,
    );
    let planned = path_to(states, candidates.len() - 1);
    let path = lemma_spans_are_a_way(scoring, candidates, policy, n, other, other_totals);
    law_a_plan_covers_the_recording(scoring, audio, pauses, policy, spans);
    let own = lemma_spans_are_a_way(scoring, candidates, policy, n, spans, totals);
    let same = lemma_spans_are_a_way(scoring, candidates, policy, n, spans, planned_totals);
    lemma_same_totals(scoring, candidates, policy, spans, own, totals, same, planned_totals);
    lemma_the_table_has_fewest_spans(
        scoring,
        candidates,
        policy,
        n,
        states,
        arrivals,
        path,
        other_totals,
    );
    assert(other.len() == path.len() - 1);
    assert(spans.len() == planned.len() - 1);
    assert(other.last().start == candidates[path[path.len() - 2]].sample);
    assert(spans.last().start == candidates[planned[planned.len() - 2]].sample);
}

/// The best way to the last boundary is one of fewest spans, and of those one
/// whose last span starts first.
proof fn lemma_the_table_has_fewest_spans<S, M: Scoring<S>>(
    scoring: &M,
    candidates: Seq<BoundaryCandidate>,
    policy: ChunkPolicy,
    audio_len: nat,
    states: Seq<PlanState>,
    arrivals: Map<(int, int), i64>,
    path: Seq<int>,
    totals: Seq<i64>,
)
    requires
        ordered(candidates),
        candidates.len() >= 2,
        plan_table(scoring, candidates, policy, states, arrivals),
        candidates[0].sample == 0,
        candidates.last().sample == audio_len,
        tells_totals_apart(scoring),
        sums_only_numbers(scoring),
        stays_above(scoring, candidates, policy, audio_len as int),
        states.len() <= usize::MAX + 1,
        finite_cost(states.last().cost),
        is_path(candidates, policy.hard_max_samples, path, candidates.len() - 1),
        totals_along(scoring, candidates, policy, path, totals),
        finite_totals(totals),
        totals.last() <= states.last().cost,
    ensures
        ({
            let planned = path_to(states, candidates.len() - 1);
            &&& planned.last() == candidates.len() - 1
            &&& planned.len() >= 2
            &&& path.len() >= 2
            &&& planned.len() <= path.len()
            &&& planned.len() == path.len() ==> candidates[planned[planned.len() - 2]].sample
                <= candidates[path[path.len() - 2]].sample
        }),
{
    let last = candidates.len() - 1;
    let planned = path_to(states, last);
    lemma_path_to(scoring, candidates, policy, states, arrivals, last);
    lemma_no_path_is_better(
        scoring,
        candidates,
        policy,
        audio_len,
        states,
        arrivals,
        path,
        totals,
        last,
        path.len() - 1,
    );
    let k = path.len() - 1;
    assert(path[k] == last);
    if planned.len() == path.len() {
        let p = planned[planned.len() - 2];
        assert(crate::plan::step_of_table(states, arrivals, planned, planned.len() - 1));
        assert(allowed_step(candidates, policy.hard_max_samples, path, k));
        assert(allowed_step(
            candidates,
            policy.hard_max_samples,
            planned,
            planned.len() - 1,
        ));
        assert(states[last].predecessor == Some(p as usize));
        if p < path[k - 1] {
            assert(candidates[p].sample < candidates[path[k - 1]].sample);
        }
    }
}

/// Two ways along the same spans are one, and cost the same.
proof fn lemma_same_totals<S, M: Scoring<S>>(
    scoring: &M,
    candidates: Seq<BoundaryCandidate>,
    policy: ChunkPolicy,
    spans: Seq<Range<usize>>,
    a: Seq<int>,
    a_totals: Seq<i64>,
    b: Seq<int>,
    b_totals: Seq<i64>,
)
    requires
        order_preserving(scoring),
        ordered(candidates),
        is_path(candidates, policy.hard_max_samples, a, candidates.len() - 1),
        is_path(candidates, policy.hard_max_samples, b, candidates.len() - 1),
        totals_along(scoring, candidates, policy, a, a_totals),
        totals_along(scoring, candidates, policy, b, b_totals),
        spans == spans_along(candidates, a),
        spans == spans_along(candidates, b),
    ensures
        a_totals.last() == b_totals.last(),
{
    assert(spans.len() == a.len() - 1);
    assert(spans.len() == b.len() - 1);
    lemma_same_total_at(
        scoring,
        candidates,
        policy,
        spans,
        a,
        a_totals,
        b,
        b_totals,
        a.len() - 1,
    );
}

proof fn lemma_same_total_at<S, M: Scoring<S>>(
    scoring: &M,
    candidates: Seq<BoundaryCandidate>,
    policy: ChunkPolicy,
    spans: Seq<Range<usize>>,
    a: Seq<int>,
    a_totals: Seq<i64>,
    b: Seq<int>,
    b_totals: Seq<i64>,
    i: int,
)
    requires
        order_preserving(scoring),
        ordered(candidates),
        is_path(candidates, policy.hard_max_samples, a, candidates.len() - 1),
        is_path(candidates, policy.hard_max_samples, b, candidates.len() - 1),
        totals_along(scoring, candidates, policy, a, a_totals),
        totals_along(scoring, candidates, policy, b, b_totals),
        spans == spans_along(candidates, a),
        spans == spans_along(candidates, b),
        a.len() == b.len(),
        0 <= i < a.len(),
    ensures
        a[i] == b[i],
        a_totals[i] == b_totals[i],
    decreases i,
{
    if i > 0 {
        lemma_same_total_at(
            scoring,
            candidates,
            policy,
            spans,
            a,
            a_totals,
            b,
            b_totals,
            i - 1,
        );
        lemma_repeatable_scores(scoring);
        assert(allowed_step(candidates, policy.hard_max_samples, a, i));
        assert(allowed_step(candidates, policy.hard_max_samples, b, i));
        assert(spans[i - 1].end == candidates[a[i]].sample);
        assert(spans[i - 1].end == candidates[b[i]].sample);
        if a[i] < b[i] {
            assert(candidates[a[i]].sample < candidates[b[i]].sample);
        } else if b[i] < a[i] {
            assert(candidates[b[i]].sample < candidates[a[i]].sample);
        }
        assert(total_step(scoring, candidates, policy, a, a_totals, i));
        assert(total_step(scoring, candidates, policy, b, b_totals, i));
    }
}

/// Law: of the ways to cut what is left at the end of a recording in two that cost
/// no more than any other, the one that cuts first is taken.
#[verifier::rlimit(40)]
pub proof fn law_the_first_of_equal_cuts_in_two_is_taken<S, M: Scoring<S>>(
    scoring: &M,
    audio: Seq<S>,
    pauses: Seq<Range<usize>>,
    policy: ChunkPolicy,
    candidates: Seq<BoundaryCandidate>,
    spans: Seq<Range<usize>>,
    totals: Seq<i64>,
    other: Seq<Range<usize>>,
    other_totals: Seq<i64>,
)
    requires
        policy.hard_max_samples < audio.len() < usize::MAX,
        audio.len() < policy.hard_max_samples + policy.soft_min_samples,
        policy.valid(),
        tells_totals_apart(scoring),
        is_boundaries(scoring, audio, pauses, policy, candidates),
        sums_only_numbers(scoring),
        stays_above(scoring, candidates, policy, audio.len() as int),
        is_suffix_plan(scoring, audio, pauses, policy, spans),
        adds_up(scoring, candidates, policy, audio.len() as int, spans, totals),
        finite_totals(totals),
        full_coverage(other, audio.len(), policy.hard_max_samples as nat),
        other.len() <= 2,
        adds_up(scoring, candidates, policy, audio.len() as int, other, other_totals),
        finite_totals(other_totals),
        other_totals.last() <= totals.last(),
    ensures
        spans.len() == 2,
        other.len() == 2,
        spans[0].end <= other[0].end,
{
    lemma_repeatable_scores(scoring);
    let n = audio.len();
    let h = policy.hard_max_samples;
    law_a_suffix_plan_covers_the_rest(scoring, audio, pauses, policy, spans);
    let (chosen, states, arrivals) = lemma_suffix_parts(scoring, audio, pauses, policy, spans);
    lemma_same_boundaries(scoring, audio, pauses, policy, candidates, chosen);
    law_boundaries_span_the_audio(scoring, audio, pauses, policy, candidates);
    lemma_fewer_candidates_than_samples(candidates);
    let path = lemma_spans_are_a_way(scoring, candidates, policy, n, other, other_totals);
    let own = lemma_spans_are_a_way(scoring, candidates, policy, n, spans, totals);
    lemma_short_way_cuts_in_two(scoring, candidates, policy, path, other_totals);
    lemma_short_way_cuts_in_two(scoring, candidates, policy, own, totals);
    assert(spans[0].end == candidates[own[1]].sample);
    assert(other[0].end == candidates[path[1]].sample);
    let planned = planned_spans(candidates, states, n as int, h as int);
    if planned.len() <= 2 {
        let best_totals = lemma_planned_is_cheapest(
            scoring,
            audio,
            pauses,
            policy,
            candidates,
            states,
            arrivals,
            other,
            other_totals,
        );
        let best = path_to(states, candidates.len() - 1);
        let same = lemma_spans_are_a_way(scoring, candidates, policy, n, spans, best_totals);
        lemma_same_totals(scoring, candidates, policy, spans, own, totals, same, best_totals);
        lemma_the_table_has_fewest_spans(
            scoring,
            candidates,
            policy,
            n,
            states,
            arrivals,
            path,
            other_totals,
        );
        assert(spans.len() == best.len() - 1);
        assert(spans[0].end == candidates[best[1]].sample);
    } else {
        lemma_first_cut_in_two(
            scoring,
            candidates,
            policy,
            n as int,
            spans,
            own,
            totals,
            path,
            other_totals,
        );
    }
}

/// Where the cuts into two are compared, the first of the cheapest is taken.
proof fn lemma_first_cut_in_two<S, M: Scoring<S>>(
    scoring: &M,
    candidates: Seq<BoundaryCandidate>,
    policy: ChunkPolicy,
    n: int,
    spans: Seq<Range<usize>>,
    own: Seq<int>,
    totals: Seq<i64>,
    path: Seq<int>,
    other_totals: Seq<i64>,
)
    requires
        repeatable_scores(scoring),
        ordered(candidates),
        exists|scores: Seq<i64>|
            #[trigger] two_span_scores(scoring, candidates, policy, scores) && is_cut_in_two(
                candidates,
                policy.hard_max_samples,
                scores,
                n,
                spans,
            ),
        spans.len() == 2,
        own.len() == 3,
        path.len() == 3,
        totals.len() == 3,
        other_totals.len() == 3,
        cuts_in_two(candidates, policy.hard_max_samples, own[1]),
        cuts_in_two(candidates, policy.hard_max_samples, path[1]),
        costs_in_two(scoring, candidates, policy, own[1], totals[2]),
        costs_in_two(scoring, candidates, policy, path[1], other_totals[2]),
        finite_cost(other_totals[2]),
        other_totals[2] <= totals[2],
        spans[0].end == candidates[own[1]].sample,
    ensures
        candidates[own[1]].sample <= candidates[path[1]].sample,
{
    let h = policy.hard_max_samples;
    let scores = choose|scores: Seq<i64>|
        #[trigger] two_span_scores(scoring, candidates, policy, scores) && is_cut_in_two(
            candidates,
            h,
            scores,
            n,
            spans,
        );
    let j = path[1];
    lemma_same_two_span_cost(scoring, candidates, policy, j, other_totals[2], scores[j]);
    lemma_same_two_span_cost(scoring, candidates, policy, own[1], totals[2], scores[own[1]]);
    let i = choose|i: int| #[trigger]
        is_best_cut(candidates, h, scores, i) && spans == halves(candidates[i].sample, n);
    assert(is_best_cut(candidates, h, scores, i));
    assert(own[1] == i) by {
        if own[1] < i {
            assert(candidates[own[1]].sample < candidates[i].sample);
        } else if i < own[1] {
            assert(candidates[i].sample < candidates[own[1]].sample);
        }
    }
    if i < j {
        assert(candidates[i].sample < candidates[j].sample);
    }
}

} // verus!
