//! What holds of the last spans of a running recording.

use crate::boundary::{is_boundaries, law_boundaries_span_the_audio, BoundaryCandidate};
use crate::plan::{
    allowed_step, edge_between, is_path, lemma_fewer_candidates_than_samples, lemma_path_to,
    path_to, planned_spans, spans_along,
};
use crate::plan_laws::{
    costs_are_numbers, finite_totals, law_planning_is_deterministic, lemma_cheapest_way,
    lemma_repeatable_scores, lemma_same_boundaries, lemma_same_states, order_preserving, repeatable,
    repeatable_scores, table_totals, total_step, totals_along,
};
use crate::policy::ChunkPolicy;
use crate::rolling::horizon;
use crate::scoring::{extends, finite_cost, Scoring, INFINITE_COST};
use crate::span::fixed_spans;
use crate::suffix::{
    costs_in_two, cuts_in_two, halves, has_no_cut, is_best_cut, is_cut_in_two, is_suffix_plan,
    lemma_suffix_parts, two_span_scores,
};
use std::ops::Range;
use vstd::prelude::*;

verus! {

/// A cut into two costs the same every time.
pub proof fn lemma_same_two_span_cost<S, M: Scoring<S>>(
    scoring: &M,
    candidates: Seq<BoundaryCandidate>,
    policy: ChunkPolicy,
    i: int,
    a: i64,
    b: i64,
)
    requires
        repeatable_scores(scoring),
        costs_in_two(scoring, candidates, policy, i, a),
        costs_in_two(scoring, candidates, policy, i, b),
    ensures
        a == b,
{
}

/// Law: with a scoring that returns the same for the same arguments, what is left
/// at the end of a recording is planned the same way every time.
pub proof fn law_suffix_planning_is_deterministic<S, M: Scoring<S>>(
    scoring: &M,
    audio: Seq<S>,
    pauses: Seq<Range<usize>>,
    policy: ChunkPolicy,
    a: Seq<Range<usize>>,
    b: Seq<Range<usize>>,
)
    requires
        repeatable(scoring),
        audio.len() <= usize::MAX,
        audio.len() > 0 ==> policy.valid(),
        is_suffix_plan(scoring, audio, pauses, policy, a),
        is_suffix_plan(scoring, audio, pauses, policy, b),
    ensures
        a == b,
{
    if audio.len() <= policy.hard_max_samples || audio.len() >= horizon(policy) {
        law_planning_is_deterministic(scoring, audio, pauses, policy, a, b);
    } else {
        lemma_repeatable_scores(scoring);
        let n = audio.len() as int;
        let h = policy.hard_max_samples;
        let (ca, sa, aa) = lemma_suffix_parts(scoring, audio, pauses, policy, a);
        let (cb, sb, ab) = lemma_suffix_parts(scoring, audio, pauses, policy, b);
        lemma_same_boundaries(scoring, audio, pauses, policy, ca, cb);
        law_boundaries_span_the_audio(scoring, audio, pauses, policy, ca);
        lemma_same_states(scoring, ca, policy, sa, aa, sb, ab, ca.len() - 1);
        assert(sa =~= sb);
        if planned_spans(ca, sa, n, h as int).len() > 2 {
            let scores_a = choose|scores: Seq<i64>| #[trigger]
                two_span_scores(scoring, ca, policy, scores) && is_cut_in_two(ca, h, scores, n, a);
            let scores_b = choose|scores: Seq<i64>| #[trigger]
                two_span_scores(scoring, ca, policy, scores) && is_cut_in_two(ca, h, scores, n, b);
            assert forall|i: int| #[trigger] cuts_in_two(ca, h, i) implies scores_a[i]
                == scores_b[i] by {
                lemma_same_two_span_cost(scoring, ca, policy, i, scores_a[i], scores_b[i]);
            }
            lemma_same_cut_in_two(ca, h, n, scores_a, a, scores_b, b);
        }
    }
}

proof fn lemma_same_cut_in_two(
    candidates: Seq<BoundaryCandidate>,
    hard_max: usize,
    n: int,
    scores_a: Seq<i64>,
    a: Seq<Range<usize>>,
    scores_b: Seq<i64>,
    b: Seq<Range<usize>>,
)
    requires
        is_cut_in_two(candidates, hard_max, scores_a, n, a),
        is_cut_in_two(candidates, hard_max, scores_b, n, b),
        forall|i: int| #[trigger]
            cuts_in_two(candidates, hard_max, i) ==> scores_a[i] == scores_b[i],
    ensures
        a == b,
{
    if !has_no_cut(candidates, hard_max, scores_a) {
        let i = choose|i: int| #[trigger]
            is_best_cut(candidates, hard_max, scores_a, i) && a == halves(candidates[i].sample, n);
        assert(!has_no_cut(candidates, hard_max, scores_b));
        let j = choose|j: int| #[trigger]
            is_best_cut(candidates, hard_max, scores_b, j) && b == halves(candidates[j].sample, n);
        assert(cuts_in_two(candidates, hard_max, i) && cuts_in_two(candidates, hard_max, j));
        assert(i == j);
    } else {
        assert(has_no_cut(candidates, hard_max, scores_b));
        if exists|i: int| #[trigger]
            is_best_cut(candidates, hard_max, scores_a, i) && a == halves(
                candidates[i].sample,
                n,
            ) {
            let i = choose|i: int| #[trigger]
                is_best_cut(candidates, hard_max, scores_a, i) && a == halves(
                    candidates[i].sample,
                    n,
                );
            assert(cuts_in_two(candidates, hard_max, i));
        }
        if exists|i: int| #[trigger]
            is_best_cut(candidates, hard_max, scores_b, i) && b == halves(
                candidates[i].sample,
                n,
            ) {
            let i = choose|i: int| #[trigger]
                is_best_cut(candidates, hard_max, scores_b, i) && b == halves(
                    candidates[i].sample,
                    n,
                );
            assert(cuts_in_two(candidates, hard_max, i));
        }
    }
}

/// `path` leads to the last boundary in two spans at most, `scoring` may give it
/// `totals`, and no path of two spans at most costs less, whatever numbers
/// `scoring` may give for it.
pub open spec fn is_cheapest_short_way<S, M: Scoring<S>>(
    scoring: &M,
    candidates: Seq<BoundaryCandidate>,
    policy: ChunkPolicy,
    path: Seq<int>,
    totals: Seq<i64>,
) -> bool {
    &&& path.len() <= 3
    &&& is_path(candidates, policy.hard_max_samples, path, candidates.len() - 1)
    &&& totals_along(scoring, candidates, policy, path, totals)
    &&& finite_totals(totals)
    &&& forall|other: Seq<int>, other_totals: Seq<i64>|
        #[trigger] totals_along(scoring, candidates, policy, other, other_totals) && other.len()
            <= 3 && finite_totals(other_totals) && is_path(
            candidates,
            policy.hard_max_samples,
            other,
            candidates.len() - 1,
        ) ==> totals.last() <= other_totals.last()
}

/// No path leads to the last boundary in two spans at most, at a cost that is a
/// number.
pub open spec fn has_no_short_way<S, M: Scoring<S>>(
    scoring: &M,
    candidates: Seq<BoundaryCandidate>,
    policy: ChunkPolicy,
) -> bool {
    forall|path: Seq<int>, totals: Seq<i64>| #[trigger]
        totals_along(scoring, candidates, policy, path, totals) && path.len() <= 3
            && finite_totals(totals) ==> !is_path(
            candidates,
            policy.hard_max_samples,
            path,
            candidates.len() - 1,
        )
}

/// A path of two spans at most to the end of audio that one span may not hold is
/// a cut into two, and costs what that costs.
pub proof fn lemma_short_way_cuts_in_two<S, M: Scoring<S>>(
    scoring: &M,
    candidates: Seq<BoundaryCandidate>,
    policy: ChunkPolicy,
    path: Seq<int>,
    totals: Seq<i64>,
)
    requires
        candidates.len() >= 2,
        candidates.last().sample - candidates[0].sample > policy.hard_max_samples,
        is_path(candidates, policy.hard_max_samples, path, candidates.len() - 1),
        path.len() <= 3,
        totals_along(scoring, candidates, policy, path, totals),
        finite_totals(totals),
    ensures
        path.len() == 3,
        cuts_in_two(candidates, policy.hard_max_samples, path[1]),
        costs_in_two(scoring, candidates, policy, path[1], totals[2]),
{
    let h = policy.hard_max_samples;
    if path.len() == 2 {
        assert(allowed_step(candidates, h, path, 1));
    } else {
        assert(path.len() == 3);
        assert(allowed_step(candidates, h, path, 1));
        assert(allowed_step(candidates, h, path, 2));
        assert(total_step(scoring, candidates, policy, path, totals, 1));
        assert(total_step(scoring, candidates, policy, path, totals, 2));
        assert(finite_cost(totals[1]));
        assert(extends(
            scoring,
            0,
            edge_between(candidates, policy, 0, path[1]),
            totals[1],
        ));
    }
}

/// Law: below the horizon, what is left at the end of a recording is planned the
/// cheapest way that takes two spans at most. Only where no such way leads through
/// the boundaries is it cut at the hard maximum.
pub proof fn law_the_suffix_plan_is_cheapest_of_two<S, M: Scoring<S>>(
    scoring: &M,
    audio: Seq<S>,
    pauses: Seq<Range<usize>>,
    policy: ChunkPolicy,
    spans: Seq<Range<usize>>,
)
    requires
        policy.hard_max_samples < audio.len() < horizon(policy),
        policy.valid(),
        order_preserving(scoring),
        costs_are_numbers(scoring, audio, pauses, policy),
        is_suffix_plan(scoring, audio, pauses, policy, spans),
    ensures
        exists|candidates: Seq<BoundaryCandidate>|
            {
                &&& #[trigger] is_boundaries(scoring, audio, pauses, policy, candidates)
                &&& {
                    ||| exists|path: Seq<int>, totals: Seq<i64>| #[trigger]
                        is_cheapest_short_way(scoring, candidates, policy, path, totals) && spans
                            == spans_along(candidates, path)
                    ||| has_no_short_way(scoring, candidates, policy) && spans == fixed_spans(
                        audio.len() as int,
                        policy.hard_max_samples as int,
                    )
                }
            },
{
    lemma_repeatable_scores(scoring);
    let n = audio.len() as int;
    let h = policy.hard_max_samples;
    let (candidates, states, arrivals) = lemma_suffix_parts(
        scoring,
        audio,
        pauses,
        policy,
        spans,
    );
    law_boundaries_span_the_audio(scoring, audio, pauses, policy, candidates);
    lemma_fewer_candidates_than_samples(candidates);
    lemma_cheapest_way(scoring, audio, pauses, policy, candidates, states, arrivals);
    let last = candidates.len() - 1;
    if planned_spans(candidates, states, n, h as int).len() <= 2 {
        if finite_cost(states.last().cost) {
            let planned = path_to(states, last);
            lemma_path_to(scoring, candidates, policy, states, arrivals, last);
            assert(is_cheapest_short_way(
                scoring,
                candidates,
                policy,
                planned,
                table_totals(states, planned),
            ));
        } else {
            assert(has_no_short_way(scoring, candidates, policy));
        }
    } else {
        let scores = choose|scores: Seq<i64>| #[trigger]
            two_span_scores(scoring, candidates, policy, scores) && is_cut_in_two(
                candidates,
                h,
                scores,
                n,
                spans,
            );
        assert forall|other: Seq<int>, totals: Seq<i64>|
            #[trigger] totals_along(scoring, candidates, policy, other, totals) && other.len()
                <= 3 && finite_totals(totals) && is_path(candidates, h, other, last) implies {
            &&& other.len() == 3
            &&& cuts_in_two(candidates, h, other[1])
            &&& totals.last() == scores[other[1]]
            &&& finite_cost(totals.last())
        } by {
            lemma_short_way_cuts_in_two(scoring, candidates, policy, other, totals);
            assert(totals[2] == scores[other[1]]) by {
                lemma_same_two_span_cost(
                    scoring,
                    candidates,
                    policy,
                    other[1],
                    totals[2],
                    scores[other[1]],
                );
            }
            assert(finite_cost(totals[2]));
        }
        if exists|i: int| #[trigger]
            is_best_cut(candidates, h, scores, i) && spans == halves(candidates[i].sample, n) {
            let i = choose|i: int| #[trigger]
                is_best_cut(candidates, h, scores, i) && spans == halves(candidates[i].sample, n);
            let path = seq![0, i, last];
            let totals = lemma_best_cut_is_a_way(scoring, candidates, policy, scores, i, path);
            assert(is_cheapest_short_way(scoring, candidates, policy, path, totals));
            assert(spans =~= spans_along(candidates, path));
        } else {
            assert(has_no_cut(candidates, h, scores));
            assert(has_no_short_way(scoring, candidates, policy));
        }
    }
}

/// A best cut into two is a path to the last boundary.
pub proof fn lemma_best_cut_is_a_way<S, M: Scoring<S>>(
    scoring: &M,
    candidates: Seq<BoundaryCandidate>,
    policy: ChunkPolicy,
    scores: Seq<i64>,
    i: int,
    path: Seq<int>,
) -> (totals: Seq<i64>)
    requires
        two_span_scores(scoring, candidates, policy, scores),
        is_best_cut(candidates, policy.hard_max_samples, scores, i),
        path == seq![0, i, candidates.len() - 1],
    ensures
        is_path(candidates, policy.hard_max_samples, path, candidates.len() - 1),
        totals_along(scoring, candidates, policy, path, totals),
        finite_totals(totals),
        totals.last() == scores[i],
{
    let last = candidates.len() - 1;
    assert(costs_in_two(scoring, candidates, policy, i, scores[i]));
    let first = choose|first: i64|
        {
            &&& #[trigger] extends(scoring, 0, edge_between(candidates, policy, 0, i), first)
            &&& if finite_cost(first) {
                extends(scoring, first, edge_between(candidates, policy, i, last), scores[i])
            } else {
                scores[i] == INFINITE_COST
            }
        };
    assert(finite_cost(first));
    let totals = seq![0i64, first, scores[i]];
    assert forall|k: int| 0 < k < path.len() implies #[trigger] total_step(
        scoring,
        candidates,
        policy,
        path,
        totals,
        k,
    ) by {
        assert(k == 1 || k == 2);
    }
    assert forall|k: int| 0 < k < path.len() implies #[trigger] allowed_step(
        candidates,
        policy.hard_max_samples,
        path,
        k,
    ) by {
        assert(k == 1 || k == 2);
    }
    totals
}

} // verus!
