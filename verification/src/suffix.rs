//! The last spans of a running recording.
//!
//! What is left at the end of a recording is planned like a complete recording.
//! Below the horizon it takes no more than two spans: where the best plan has
//! more, the best cut into two stands in for it.

use crate::boundary::{
    boundary_candidates, is_boundaries, law_boundaries_span_the_audio, ordered, BoundaryCandidate,
};
use crate::plan::{
    best_ways, edge_between, is_finite, is_global_plan, law_a_plan_covers_the_recording,
    lemma_fewer_candidates_than_samples, lemma_path_covers, lemma_path_to, path_to, plan_spans,
    plan_table, planned_spans, trace_back, PlanState,
};
use crate::policy::ChunkPolicy;
use crate::rolling::horizon;
use crate::scoring::{costs, edge_cost, extends, finite_cost, sums, Scoring, INFINITE_COST};
use crate::span::{fixed_maximum_spans, fixed_spans, full_coverage, joined, lemma_fixed_spans_cover};
use std::ops::Range;
use vstd::prelude::*;

verus! {

/// A cut at boundary `i` alone leaves two spans that are both allowed.
pub open spec fn cuts_in_two(
    candidates: Seq<BoundaryCandidate>,
    hard_max: usize,
    i: int,
) -> bool {
    &&& 0 < i < candidates.len() - 1
    &&& candidates[i].sample - candidates[0].sample <= hard_max
    &&& candidates[candidates.len() - 1].sample - candidates[i].sample <= hard_max
}

/// `scoring` may give the cost `cost` for a cut at boundary `i` alone. It is
/// infinite where that of the first span is no number.
pub open spec fn costs_in_two<S, M: Scoring<S>>(
    scoring: &M,
    candidates: Seq<BoundaryCandidate>,
    policy: ChunkPolicy,
    i: int,
    cost: i64,
) -> bool {
    exists|first: i64|
        {
            &&& #[trigger] extends(scoring, 0, edge_between(candidates, policy, 0, i), first)
            &&& if finite_cost(first) {
                extends(
                    scoring,
                    first,
                    edge_between(candidates, policy, i, candidates.len() - 1),
                    cost,
                )
            } else {
                cost == INFINITE_COST
            }
        }
}

/// `scores` are the costs that `scoring` gave for each cut into two.
pub open spec fn two_span_scores<S, M: Scoring<S>>(
    scoring: &M,
    candidates: Seq<BoundaryCandidate>,
    policy: ChunkPolicy,
    scores: Seq<i64>,
) -> bool {
    &&& scores.len() == candidates.len()
    &&& forall|i: int| #[trigger]
        cuts_in_two(candidates, policy.hard_max_samples, i) ==> costs_in_two(
            scoring,
            candidates,
            policy,
            i,
            scores[i],
        )
}

/// The cut at boundary `i` costs a number, and it is the first of the cheapest
/// cuts into two that do.
pub open spec fn is_best_cut(
    candidates: Seq<BoundaryCandidate>,
    hard_max: usize,
    scores: Seq<i64>,
    i: int,
) -> bool {
    &&& cuts_in_two(candidates, hard_max, i)
    &&& finite_cost(scores[i])
    &&& forall|j: int| #[trigger]
        cuts_in_two(candidates, hard_max, j) && finite_cost(scores[j]) ==> scores[i] < scores[j]
            || scores[i] == scores[j] && i <= j
}

/// No cut into two costs a number.
pub open spec fn has_no_cut(
    candidates: Seq<BoundaryCandidate>,
    hard_max: usize,
    scores: Seq<i64>,
) -> bool {
    forall|j: int| #[trigger] cuts_in_two(candidates, hard_max, j) ==> !finite_cost(scores[j])
}

/// The two spans that a cut of `audio_len` samples at `sample` leaves.
pub open spec fn halves(sample: usize, audio_len: int) -> Seq<Range<usize>> {
    seq![
        Range { start: 0usize, end: sample },
        Range { start: sample, end: audio_len as usize },
    ]
}

/// `spans` are the best cut into two, or the cut at the hard maximum where no
/// single boundary does it.
pub open spec fn is_cut_in_two(
    candidates: Seq<BoundaryCandidate>,
    hard_max: usize,
    scores: Seq<i64>,
    audio_len: int,
    spans: Seq<Range<usize>>,
) -> bool {
    ||| exists|i: int| #[trigger]
        is_best_cut(candidates, hard_max, scores, i) && spans == halves(
            candidates[i].sample,
            audio_len,
        )
    ||| has_no_cut(candidates, hard_max, scores) && spans == fixed_spans(
        audio_len,
        hard_max as int,
    )
}

/// `spans` are what the best plan comes down to where it may have two spans at
/// most: the plan itself where that is so, else the best cut into two.
pub open spec fn is_short_plan<S, M: Scoring<S>>(
    scoring: &M,
    candidates: Seq<BoundaryCandidate>,
    states: Seq<PlanState>,
    policy: ChunkPolicy,
    audio_len: int,
    spans: Seq<Range<usize>>,
) -> bool {
    let planned = planned_spans(candidates, states, audio_len, policy.hard_max_samples as int);
    if planned.len() <= 2 {
        spans == planned
    } else {
        exists|scores: Seq<i64>|
            {
                &&& #[trigger] two_span_scores(scoring, candidates, policy, scores)
                &&& is_cut_in_two(
                    candidates,
                    policy.hard_max_samples,
                    scores,
                    audio_len,
                    spans,
                )
            }
    }
}

/// `spans` are a plan for `audio` as the end of a recording: the best plan, and
/// below the horizon one of two spans at most.
pub open spec fn is_suffix_plan<S, M: Scoring<S>>(
    scoring: &M,
    audio: Seq<S>,
    pauses: Seq<Range<usize>>,
    policy: ChunkPolicy,
    spans: Seq<Range<usize>>,
) -> bool {
    if audio.len() <= policy.hard_max_samples || audio.len() >= horizon(policy) {
        is_global_plan(scoring, audio, pauses, policy, spans)
    } else {
        exists|
            candidates: Seq<BoundaryCandidate>,
            states: Seq<PlanState>,
            arrivals: Map<(int, int), i64>,
        |
            {
                &&& #[trigger] is_boundaries(scoring, audio, pauses, policy, candidates)
                &&& #[trigger] plan_table(scoring, candidates, policy, states, arrivals)
                &&& is_short_plan(
                    scoring,
                    candidates,
                    states,
                    policy,
                    audio.len() as int,
                    spans,
                )
            }
    }
}

/// Below the horizon a cut at every hard maximum leaves no more than two spans.
proof fn lemma_two_fixed_spans(policy: ChunkPolicy, n: int)
    requires
        policy.valid(),
        0 <= n < horizon(policy),
    ensures
        fixed_spans(n, policy.hard_max_samples as int).len() <= 2,
{
    let h = policy.hard_max_samples as int;
    assert((n + h - 1) / h <= 2) by (nonlinear_arith)
        requires
            0 < h,
            0 <= n < 2 * h,
    ;
}

/// The two halves of an allowed cut have full coverage.
proof fn lemma_halves_cover(
    candidates: Seq<BoundaryCandidate>,
    hard_max: usize,
    i: int,
    n: int,
)
    requires
        ordered(candidates),
        candidates.len() >= 2,
        candidates[0].sample == 0,
        candidates.last().sample == n,
        cuts_in_two(candidates, hard_max, i),
    ensures
        full_coverage(halves(candidates[i].sample, n), n as nat, hard_max as nat),
{
    let spans = halves(candidates[i].sample, n);
    assert(candidates[0].sample < candidates[i].sample);
    assert(candidates[i].sample < candidates[candidates.len() - 1].sample);
    assert(joined(spans, 1));
}

/// Cuts audio in two at the best single boundary, or at the hard maximum where
/// none does it.
fn cut_in_two<S, M: Scoring<S>>(
    candidates: &Vec<BoundaryCandidate>,
    policy: ChunkPolicy,
    audio_len: usize,
    scoring: &M,
) -> (spans: Vec<Range<usize>>)
    requires
        ordered(candidates@),
        candidates.len() >= 2,
        candidates@[0].sample == 0,
        candidates@.last().sample == audio_len,
        policy.hard_max_samples > 0,
    ensures
        exists|scores: Seq<i64>| #[trigger]
            two_span_scores(scoring, candidates@, policy, scores) && is_cut_in_two(
                candidates@,
                policy.hard_max_samples,
                scores,
                audio_len as int,
                spans@,
            ),
{
    let hard_max: usize = policy.hard_max_samples;
    let last_index: usize = candidates.len() - 1;
    let end: BoundaryCandidate = candidates[last_index];
    let mut best: Option<usize> = None;
    let mut best_cost: i64 = INFINITE_COST;
    let mut index: usize = 1;
    let ghost mut scores: Seq<i64> = seq![0];
    while index < last_index
        invariant
            ordered(candidates@),
            candidates@[0].sample == 0,
            hard_max == policy.hard_max_samples,
            last_index == candidates.len() - 1,
            end == candidates@[last_index as int],
            1 <= index,
            index <= last_index || last_index == 0,
            scores.len() == index,
            forall|i: int|
                i < index && #[trigger] cuts_in_two(candidates@, hard_max, i) ==> costs_in_two(
                    scoring,
                    candidates@,
                    policy,
                    i,
                    scores[i],
                ),
            match best {
                Some(b) => {
                    &&& b < index
                    &&& best_cost == scores[b as int]
                    &&& cuts_in_two(candidates@, hard_max, b as int)
                    &&& finite_cost(best_cost)
                    &&& forall|j: int|
                        j < index && #[trigger] cuts_in_two(candidates@, hard_max, j)
                            && finite_cost(scores[j]) ==> best_cost < scores[j] || best_cost
                            == scores[j] && b <= j
                },
                None => forall|j: int|
                    j < index && #[trigger] cuts_in_two(candidates@, hard_max, j) ==> !finite_cost(
                        scores[j],
                    ),
            },
        decreases last_index - index,
    {
        let cut: BoundaryCandidate = candidates[index];
        let ghost i = index as int;
        let ghost scores0 = scores;
        assert(cut.sample < end.sample);
        let mut cost: i64 = INFINITE_COST;
        if cut.sample <= hard_max && end.sample - cut.sample <= hard_max {
            let first_edge: i64 = edge_cost(cut.sample, &cut, false, policy, scoring);
            let first: i64 = scoring.plus(0, first_edge);
            proof {
                assert(costs(scoring, edge_between(candidates@, policy, 0, i), first_edge));
                assert(sums(scoring, 0, first_edge, first));
                assert(extends(scoring, 0, edge_between(candidates@, policy, 0, i), first));
            }
            if is_finite(first) {
                let second_edge: i64 = edge_cost(
                    end.sample - cut.sample,
                    &end,
                    true,
                    policy,
                    scoring,
                );
                cost = scoring.plus(first, second_edge);
                proof {
                    let edge = edge_between(candidates@, policy, i, candidates@.len() - 1);
                    assert(costs(scoring, edge, second_edge));
                    assert(sums(scoring, first, second_edge, cost));
                    assert(extends(scoring, first, edge, cost));
                }
            }
            assert(costs_in_two(scoring, candidates@, policy, i, cost));
            if is_finite(cost) {
                let better: bool = match best {
                    Some(_) => cost < best_cost,
                    None => true,
                };
                if better {
                    best = Some(index);
                    best_cost = cost;
                }
            }
        }
        proof {
            scores = scores.push(cost);
            assert forall|j: int| j < index + 1 && #[trigger]
                cuts_in_two(candidates@, hard_max, j) implies j == i || scores[j]
                == scores0[j] by {}
        }
        index = index + 1;
    }
    proof {
        scores = scores + Seq::new((candidates.len() - scores.len()) as nat, |i: int| 0i64);
        assert(two_span_scores(scoring, candidates@, policy, scores));
        if let Some(b) = best {
            assert(is_best_cut(candidates@, hard_max, scores, b as int));
        }
    }
    match best {
        Some(b) => {
            let sample: usize = candidates[b].sample;
            let mut spans: Vec<Range<usize>> = Vec::new();
            spans.push(0..sample);
            spans.push(sample..audio_len);
            assert(spans@ =~= halves(sample, audio_len as int));
            spans
        },
        None => {
            assert(has_no_cut(candidates@, hard_max, scores));
            fixed_maximum_spans(audio_len, hard_max)
        },
    }
}

/// Plans what is left at the end of a recording. Below the horizon it takes no
/// more than two spans.
pub fn plan_suffix_spans<S: Copy, M: Scoring<S>>(
    audio: &[S],
    pauses: &[Range<usize>],
    policy: ChunkPolicy,
    scoring: &M,
) -> (spans: Vec<Range<usize>>)
    requires
        audio.len() > 0 ==> policy.valid(),
    ensures
        is_suffix_plan(scoring, audio@, pauses@, policy, spans@),
        full_coverage(spans@, audio.len() as nat, policy.hard_max_samples as nat),
        audio.len() < horizon(policy) ==> spans.len() <= 2,
{
    let horizon_samples: usize = policy.hard_max_samples.saturating_add(policy.soft_min_samples);
    if audio.len() <= policy.hard_max_samples || audio.len() >= horizon_samples {
        return plan_spans(audio, pauses, policy, scoring);
    }
    let candidates: Vec<BoundaryCandidate> = boundary_candidates(audio, pauses, policy, scoring);
    proof {
        law_boundaries_span_the_audio(scoring, audio@, pauses@, policy, candidates@);
        lemma_two_fixed_spans(policy, audio@.len() as int);
    }
    let (states, Ghost(arrivals)) = best_ways(&candidates, policy, scoring);
    let last_index: usize = candidates.len() - 1;
    let spans: Vec<Range<usize>> = if !is_finite(states[last_index].cost) {
        fixed_maximum_spans(audio.len(), policy.hard_max_samples)
    } else {
        proof {
            lemma_path_to(scoring, candidates@, policy, states@, arrivals, last_index as int);
        }
        if states[last_index].chunks <= 2 {
            trace_back(&candidates, &states)
        } else {
            cut_in_two(&candidates, policy, audio.len(), scoring)
        }
    };
    proof {
        assert(is_short_plan(
            scoring,
            candidates@,
            states@,
            policy,
            audio@.len() as int,
            spans@,
        ));
        law_a_suffix_plan_covers_the_rest(scoring, audio@, pauses@, policy, spans@);
    }
    spans
}

/// Law: what is left at the end of a recording is covered exactly once and in
/// order, within the hard maximum, and below the horizon in two spans at most,
/// whatever the scoring returned.
pub proof fn law_a_suffix_plan_covers_the_rest<S, M: Scoring<S>>(
    scoring: &M,
    audio: Seq<S>,
    pauses: Seq<Range<usize>>,
    policy: ChunkPolicy,
    spans: Seq<Range<usize>>,
)
    requires
        audio.len() <= usize::MAX,
        audio.len() > 0 ==> policy.valid(),
        is_suffix_plan(scoring, audio, pauses, policy, spans),
    ensures
        full_coverage(spans, audio.len(), policy.hard_max_samples as nat),
        audio.len() < horizon(policy) ==> spans.len() <= 2,
        audio.len() <= policy.hard_max_samples ==> spans.len() <= 1,
{
    if audio.len() <= policy.hard_max_samples || audio.len() >= horizon(policy) {
        law_a_plan_covers_the_recording(scoring, audio, pauses, policy, spans);
    } else {
        let n = audio.len() as int;
        let h = policy.hard_max_samples;
        let (candidates, states, arrivals) = lemma_suffix_parts(
            scoring,
            audio,
            pauses,
            policy,
            spans,
        );
        law_boundaries_span_the_audio(scoring, audio, pauses, policy, candidates);
        lemma_two_fixed_spans(policy, n);
        lemma_fixed_spans_cover(n, h as int);
        let planned = planned_spans(candidates, states, n, h as int);
        if planned.len() <= 2 {
            if finite_cost(states.last().cost) {
                lemma_fewer_candidates_than_samples(candidates);
                let last = states.len() - 1;
                lemma_path_to(scoring, candidates, policy, states, arrivals, last);
                lemma_path_covers(candidates, h, path_to(states, last), audio.len());
            }
        } else {
            let scores = choose|scores: Seq<i64>| #[trigger]
                two_span_scores(scoring, candidates, policy, scores) && is_cut_in_two(
                    candidates,
                    h,
                    scores,
                    n,
                    spans,
                );
            if exists|i: int| #[trigger]
                is_best_cut(candidates, h, scores, i) && spans == halves(candidates[i].sample, n) {
                let i = choose|i: int| #[trigger]
                    is_best_cut(candidates, h, scores, i) && spans == halves(
                        candidates[i].sample,
                        n,
                    );
                lemma_halves_cover(candidates, h, i, n);
            }
        }
    }
}

/// What a plan below the horizon comes from.
pub proof fn lemma_suffix_parts<S, M: Scoring<S>>(
    scoring: &M,
    audio: Seq<S>,
    pauses: Seq<Range<usize>>,
    policy: ChunkPolicy,
    spans: Seq<Range<usize>>,
) -> (parts: (Seq<BoundaryCandidate>, Seq<PlanState>, Map<(int, int), i64>))
    requires
        policy.hard_max_samples < audio.len() < horizon(policy),
        is_suffix_plan(scoring, audio, pauses, policy, spans),
    ensures
        is_boundaries(scoring, audio, pauses, policy, parts.0),
        plan_table(scoring, parts.0, policy, parts.1, parts.2),
        is_short_plan(scoring, parts.0, parts.1, policy, audio.len() as int, spans),
{
    choose|
        candidates: Seq<BoundaryCandidate>,
        states: Seq<PlanState>,
        arrivals: Map<(int, int), i64>,
    |
        {
            &&& #[trigger] is_boundaries(scoring, audio, pauses, policy, candidates)
            &&& #[trigger] plan_table(scoring, candidates, policy, states, arrivals)
            &&& is_short_plan(scoring, candidates, states, policy, audio.len() as int, spans)
        }
}

/// Law: below the horizon, a best plan of two spans at most is the plan for what
/// is left at the end.
pub proof fn law_a_short_best_plan_stands<S, M: Scoring<S>>(
    scoring: &M,
    audio: Seq<S>,
    pauses: Seq<Range<usize>>,
    policy: ChunkPolicy,
    spans: Seq<Range<usize>>,
)
    requires
        is_global_plan(scoring, audio, pauses, policy, spans),
        spans.len() <= 2,
    ensures
        is_suffix_plan(scoring, audio, pauses, policy, spans),
{
}

} // verus!
