//! What holds of plans as a whole.

use crate::boundary::{
    at_least_silent, clipped, cut_window, end_boundary, energy_grid, first_least, grid_point,
    has_candidate_at, has_source, is_boundaries, is_quietest_cut, law_boundaries_span_the_audio,
    lemma_boundary_parts, lemma_multiple_inside, moved_on, offers, ordered, pause_cut, pause_cuts,
    prevails, rank, settled_offers, window_energies, BoundaryCandidate, BoundaryKind,
};
use crate::first_span::{
    eligible, ends_first_span, first_costs, goes_before, is_choice, is_first_span,
    lemma_first_span_parts,
};
use crate::plan::{
    allowed_step, arrival, beats, best_arrival, edge_between, is_global_plan, is_path,
    lemma_fewer_candidates_than_samples, lemma_path_to, lemma_plan_parts, linked, not_reached,
    path_to, plan_table, spans_along, step_of_table, PlanState,
};
use crate::policy::ChunkPolicy;
use crate::scoring::{
    adds_sample, costs, counts, cut_costs, divides, energizes, extends, finite_cost, length_costs,
    levels, measures, multiplies, partial_sums, roots, shortfall_costs, slides, sounds, subtracts,
    sums, EdgeTerms, Scoring,
};
use crate::span::fixed_spans;
use std::ops::Range;
use vstd::prelude::*;

verus! {

/// `scoring` returns the same for the same arguments.
pub open spec fn repeatable<S, M: Scoring<S>>(scoring: &M) -> bool {
    &&& forall|sample: S, a: i64, b: i64|
        #[trigger] energizes(scoring, sample, a) && #[trigger] energizes(scoring, sample, b) ==> a
            == b
    &&& forall|samples: usize, a: i64, b: i64|
        #[trigger] counts(scoring, samples, a) && #[trigger] counts(scoring, samples, b) ==> a
            == b
    &&& forall|x: i64, y: i64, a: i64, b: i64|
        #[trigger] sums(scoring, x, y, a) && #[trigger] sums(scoring, x, y, b) ==> a == b
    &&& forall|x: i64, y: i64, a: i64, b: i64|
        #[trigger] subtracts(scoring, x, y, a) && #[trigger] subtracts(scoring, x, y, b) ==> a
            == b
    &&& forall|x: i64, y: i64, a: i64, b: i64|
        #[trigger] multiplies(scoring, x, y, a) && #[trigger] multiplies(scoring, x, y, b) ==> a
            == b
    &&& forall|x: i64, y: i64, a: i64, b: i64|
        #[trigger] divides(scoring, x, y, a) && #[trigger] divides(scoring, x, y, b) ==> a == b
    &&& forall|mean: i64, a: u32, b: u32|
        #[trigger] roots(scoring, mean, a) && #[trigger] roots(scoring, mean, b) ==> a == b
    &&& forall|rms: u32, a: i64, b: i64|
        #[trigger] sounds(scoring, rms, a) && #[trigger] sounds(scoring, rms, b) ==> a == b
}

/// Energies, loudness, costs and their sums are the same for the same arguments.
pub open spec fn repeatable_scores<S, M: Scoring<S>>(scoring: &M) -> bool {
    &&& forall|window: Seq<S>, a: i64, b: i64|
        #[trigger] measures(scoring, window, a) && #[trigger] measures(scoring, window, b) ==> a
            == b
    &&& forall|energy: i64, leaving: S, entering: S, a: i64, b: i64|
        #[trigger] slides(scoring, energy, leaving, entering, a) && #[trigger] slides(
            scoring,
            energy,
            leaving,
            entering,
            b,
        ) ==> a == b
    &&& forall|energy: i64, window: usize, a: u32, b: u32|
        #[trigger] levels(scoring, energy, window, a) && #[trigger] levels(
            scoring,
            energy,
            window,
            b,
        ) ==> a == b
    &&& forall|edge: EdgeTerms, a: i64, b: i64|
        #[trigger] costs(scoring, edge, a) && #[trigger] costs(scoring, edge, b) ==> a == b
    &&& forall|total: i64, edge: i64, a: i64, b: i64|
        #[trigger] sums(scoring, total, edge, a) && #[trigger] sums(scoring, total, edge, b) ==> a
            == b
}

proof fn lemma_same_partial_sums<S, M: Scoring<S>>(
    scoring: &M,
    window: Seq<S>,
    a: Seq<i64>,
    b: Seq<i64>,
    i: int,
)
    requires
        repeatable(scoring),
        partial_sums(scoring, window, a),
        partial_sums(scoring, window, b),
        0 <= i < a.len(),
    ensures
        a[i] == b[i],
    decreases i,
{
    if i > 0 {
        lemma_same_partial_sums(scoring, window, a, b, i - 1);
        assert(adds_sample(scoring, window, a, i - 1));
        assert(adds_sample(scoring, window, b, i - 1));
    }
}

proof fn lemma_same_cost<S, M: Scoring<S>>(scoring: &M, edge: EdgeTerms, a: i64, b: i64)
    requires
        repeatable(scoring),
        costs(scoring, edge, a),
        costs(scoring, edge, b),
    ensures
        a == b,
{
    reveal(costs);
    let (length_a, span_a, cut_a) = choose|length: i64, span: i64, cut: i64|
        {
            &&& #[trigger] length_costs(scoring, edge, length)
            &&& #[trigger] shortfall_costs(scoring, edge.shortfall, length, span)
            &&& #[trigger] cut_costs(scoring, edge.cut, cut)
            &&& sums(scoring, span, cut, a)
        };
    let (length_b, span_b, cut_b) = choose|length: i64, span: i64, cut: i64|
        {
            &&& #[trigger] length_costs(scoring, edge, length)
            &&& #[trigger] shortfall_costs(scoring, edge.shortfall, length, span)
            &&& #[trigger] cut_costs(scoring, edge.cut, cut)
            &&& sums(scoring, span, cut, b)
        };
    assert(length_a == length_b);
    assert(span_a == span_b);
    assert(cut_a == cut_b);
}

/// Scores are repeatable where the arithmetic that they are put together with is.
pub proof fn lemma_repeatable_scores<S, M: Scoring<S>>(scoring: &M)
    requires
        repeatable(scoring),
    ensures
        repeatable_scores(scoring),
{
    assert forall|window: Seq<S>, a: i64, b: i64|
        #[trigger] measures(scoring, window, a) && #[trigger] measures(
            scoring,
            window,
            b,
        ) implies a == b by {
        reveal(measures);
        let x = choose|x: Seq<i64>| #[trigger]
            partial_sums(scoring, window, x) && x.last() == a;
        let y = choose|y: Seq<i64>| #[trigger]
            partial_sums(scoring, window, y) && y.last() == b;
        lemma_same_partial_sums(scoring, window, x, y, window.len() as int);
    }
    assert forall|energy: i64, leaving: S, entering: S, a: i64, b: i64|
        #[trigger] slides(scoring, energy, leaving, entering, a) && #[trigger] slides(
            scoring,
            energy,
            leaving,
            entering,
            b,
        ) implies a == b by {
        reveal(slides);
    }
    assert forall|energy: i64, window: usize, a: u32, b: u32|
        #[trigger] levels(scoring, energy, window, a) && #[trigger] levels(
            scoring,
            energy,
            window,
            b,
        ) implies a == b by {
        reveal(levels);
    }
    assert forall|edge: EdgeTerms, a: i64, b: i64|
        #[trigger] costs(scoring, edge, a) && #[trigger] costs(scoring, edge, b) implies a
        == b by {
        lemma_same_cost(scoring, edge, a, b);
    }
}

/// `scoring` is repeatable, and a span never turns the cheaper of two plans into
/// the dearer one.
pub open spec fn order_preserving<S, M: Scoring<S>>(scoring: &M) -> bool {
    &&& repeatable(scoring)
    &&& forall|low: i64, high: i64, edge: i64, a: i64, b: i64|
        low <= high && finite_cost(low) && finite_cost(high) && finite_cost(edge)
            && #[trigger] sums(scoring, low, edge, a) && #[trigger] sums(scoring, high, edge, b)
            ==> a <= b
}

/// `totals` are numbers.
pub open spec fn finite_totals(totals: Seq<i64>) -> bool {
    forall|i: int| 0 <= i < totals.len() ==> finite_cost(#[trigger] totals[i])
}

/// Whatever `scoring` may give for a span that is no longer than allowed is a
/// number.
pub open spec fn finite_edges<S, M: Scoring<S>>(
    scoring: &M,
    candidates: Seq<BoundaryCandidate>,
    policy: ChunkPolicy,
) -> bool {
    forall|s: int, e: int, cost: i64|
        0 <= s < e < candidates.len() && candidates[e].sample - candidates[s].sample
            <= policy.hard_max_samples && #[trigger] costs(
            scoring,
            edge_between(candidates, policy, s, e),
            cost,
        ) ==> finite_cost(cost)
}

/// Every cost of going from one boundary to another is a number.
pub open spec fn finite_arrivals(
    candidates: Seq<BoundaryCandidate>,
    hard_max: usize,
    states: Seq<PlanState>,
    arrivals: Map<(int, int), i64>,
) -> bool {
    forall|s: int, e: int| #[trigger]
        linked(candidates, states, hard_max, s, e) ==> finite_cost(arrivals[(s, e)])
}

/// `totals` are costs that `scoring` may give for going along `path`, up to each
/// of its boundaries.
pub open spec fn totals_along<S, M: Scoring<S>>(
    scoring: &M,
    candidates: Seq<BoundaryCandidate>,
    policy: ChunkPolicy,
    path: Seq<int>,
    totals: Seq<i64>,
) -> bool {
    &&& totals.len() == path.len()
    &&& totals[0] == 0
    &&& forall|i: int|
        0 < i < path.len() ==> #[trigger] total_step(scoring, candidates, policy, path, totals, i)
}

/// Entry `i` of `totals` is the entry before it with step `i` of `path` behind it.
pub open spec fn total_step<S, M: Scoring<S>>(
    scoring: &M,
    candidates: Seq<BoundaryCandidate>,
    policy: ChunkPolicy,
    path: Seq<int>,
    totals: Seq<i64>,
    i: int,
) -> bool {
    extends(
        scoring,
        totals[i - 1],
        edge_between(candidates, policy, path[i - 1], path[i]),
        totals[i],
    )
}

/// The costs in the table along `path`.
pub open spec fn table_totals(states: Seq<PlanState>, path: Seq<int>) -> Seq<i64> {
    Seq::new(path.len(), |i: int| states[path[i]].cost)
}

/// A boundary behind a reachable one is reached, at no more than the cost of
/// coming from there.
proof fn lemma_reached<S, M: Scoring<S>>(
    scoring: &M,
    candidates: Seq<BoundaryCandidate>,
    policy: ChunkPolicy,
    states: Seq<PlanState>,
    arrivals: Map<(int, int), i64>,
    s: int,
    e: int,
)
    requires
        plan_table(scoring, candidates, policy, states, arrivals),
        finite_arrivals(candidates, policy.hard_max_samples, states, arrivals),
        linked(candidates, states, policy.hard_max_samples, s, e),
    ensures
        finite_cost(states[e].cost),
        states[e].cost <= arrivals[(s, e)],
{
    let h = policy.hard_max_samples;
    assert(best_arrival(candidates, h, states, arrivals, e));
    assert(finite_cost(arrivals[(s, e)]));
    assert(!beats(arrival(states, arrivals, s, e), states[e]));
    if states[e] != not_reached() {
        let t = choose|t: int| #[trigger]
            linked(candidates, states, h, t, e) && states[e] == arrival(states, arrivals, t, e)
                && beats(states[e], not_reached());
        assert(finite_cost(arrivals[(t, e)]));
    }
}

proof fn lemma_no_path_is_cheaper<S, M: Scoring<S>>(
    scoring: &M,
    candidates: Seq<BoundaryCandidate>,
    policy: ChunkPolicy,
    states: Seq<PlanState>,
    arrivals: Map<(int, int), i64>,
    path: Seq<int>,
    totals: Seq<i64>,
    e: int,
    n: int,
)
    requires
        plan_table(scoring, candidates, policy, states, arrivals),
        finite_arrivals(candidates, policy.hard_max_samples, states, arrivals),
        finite_edges(scoring, candidates, policy),
        order_preserving(scoring),
        is_path(candidates, policy.hard_max_samples, path, e),
        totals_along(scoring, candidates, policy, path, totals),
        finite_totals(totals),
        0 <= n < path.len(),
    ensures
        0 <= path[n] < candidates.len(),
        finite_cost(states[path[n]].cost),
        states[path[n]].cost <= totals[n],
    decreases n,
{
    if n > 0 {
        lemma_no_path_is_cheaper(
            scoring,
            candidates,
            policy,
            states,
            arrivals,
            path,
            totals,
            e,
            n - 1,
        );
        let s = path[n - 1];
        let t = path[n];
        assert(allowed_step(candidates, policy.hard_max_samples, path, n));
        assert(linked(candidates, states, policy.hard_max_samples, s, t));
        lemma_reached(scoring, candidates, policy, states, arrivals, s, t);
        let edge = edge_between(candidates, policy, s, t);
        assert(total_step(scoring, candidates, policy, path, totals, n));
        let a = choose|a: i64| #[trigger]
            costs(scoring, edge, a) && sums(scoring, states[s].cost, a, arrivals[(s, t)]);
        let b = choose|b: i64| #[trigger]
            costs(scoring, edge, b) && sums(scoring, totals[n - 1], b, totals[n]);
        lemma_same_cost(scoring, edge, a, b);
        assert(finite_cost(totals[n - 1]));
        assert(costs(scoring, edge_between(candidates, policy, s, t), a));
    }
}

/// The way through the boundaries that a table has found is one that `scoring`
/// gives the costs of the table for.
pub proof fn lemma_table_totals<S, M: Scoring<S>>(
    scoring: &M,
    candidates: Seq<BoundaryCandidate>,
    policy: ChunkPolicy,
    states: Seq<PlanState>,
    arrivals: Map<(int, int), i64>,
)
    requires
        plan_table(scoring, candidates, policy, states, arrivals),
        0 < states.len() <= usize::MAX + 1,
        finite_cost(states.last().cost),
    ensures
        ({
            let planned = path_to(states, states.len() - 1);
            &&& is_path(candidates, policy.hard_max_samples, planned, candidates.len() - 1)
            &&& totals_along(scoring, candidates, policy, planned, table_totals(states, planned))
            &&& finite_totals(table_totals(states, planned))
            &&& table_totals(states, planned).last() == states.last().cost
        }),
{
    let last = candidates.len() - 1;
    lemma_path_to(scoring, candidates, policy, states, arrivals, last);
    let planned = path_to(states, last);
    let planned_totals = table_totals(states, planned);
    assert forall|i: int| 0 < i < planned.len() implies #[trigger] total_step(
        scoring,
        candidates,
        policy,
        planned,
        planned_totals,
        i,
    ) by {
        assert(step_of_table(states, arrivals, planned, i));
        assert(allowed_step(candidates, policy.hard_max_samples, planned, i));
        assert(0 <= planned[i - 1] < states.len());
        assert(linked(
            candidates,
            states,
            policy.hard_max_samples,
            planned[i - 1],
            planned[i],
        ));
    }
}

/// However a recording is measured, every cost of going from one boundary to
/// another is a number.
pub open spec fn costs_are_numbers<S, M: Scoring<S>>(
    scoring: &M,
    audio: Seq<S>,
    pauses: Seq<Range<usize>>,
    policy: ChunkPolicy,
) -> bool {
    forall|
        candidates: Seq<BoundaryCandidate>,
        states: Seq<PlanState>,
        arrivals: Map<(int, int), i64>,
    |
        #[trigger] is_boundaries(scoring, audio, pauses, policy, candidates)
            && #[trigger] plan_table(scoring, candidates, policy, states, arrivals)
            ==> {
            &&& finite_edges(scoring, candidates, policy)
            &&& finite_arrivals(candidates, policy.hard_max_samples, states, arrivals)
        }
}

/// `path` leads to the last boundary, `scoring` may give it `totals`, and no path
/// to the last boundary costs less, whatever numbers `scoring` may give for it.
pub open spec fn is_cheapest_way<S, M: Scoring<S>>(
    scoring: &M,
    candidates: Seq<BoundaryCandidate>,
    policy: ChunkPolicy,
    path: Seq<int>,
    totals: Seq<i64>,
) -> bool {
    &&& is_path(candidates, policy.hard_max_samples, path, candidates.len() - 1)
    &&& totals_along(scoring, candidates, policy, path, totals)
    &&& finite_totals(totals)
    &&& forall|other: Seq<int>, other_totals: Seq<i64>|
        #[trigger] totals_along(scoring, candidates, policy, other, other_totals)
            && finite_totals(other_totals) && is_path(
            candidates,
            policy.hard_max_samples,
            other,
            candidates.len() - 1,
        ) ==> totals.last() <= other_totals.last()
}

/// No path leads to the last boundary at a cost that is a number.
pub open spec fn has_no_way<S, M: Scoring<S>>(
    scoring: &M,
    candidates: Seq<BoundaryCandidate>,
    policy: ChunkPolicy,
) -> bool {
    forall|path: Seq<int>, totals: Seq<i64>| #[trigger]
        totals_along(scoring, candidates, policy, path, totals) && finite_totals(totals)
            ==> !is_path(
            candidates,
            policy.hard_max_samples,
            path,
            candidates.len() - 1,
        )
}

/// The best way that a table has found is a cheapest one, or there is none.
pub proof fn lemma_cheapest_way<S, M: Scoring<S>>(
    scoring: &M,
    audio: Seq<S>,
    pauses: Seq<Range<usize>>,
    policy: ChunkPolicy,
    candidates: Seq<BoundaryCandidate>,
    states: Seq<PlanState>,
    arrivals: Map<(int, int), i64>,
)
    requires
        0 < audio.len() <= usize::MAX,
        policy.valid(),
        order_preserving(scoring),
        costs_are_numbers(scoring, audio, pauses, policy),
        is_boundaries(scoring, audio, pauses, policy, candidates),
        plan_table(scoring, candidates, policy, states, arrivals),
    ensures
        if finite_cost(states.last().cost) {
            is_cheapest_way(
                scoring,
                candidates,
                policy,
                path_to(states, states.len() - 1),
                table_totals(states, path_to(states, states.len() - 1)),
            )
        } else {
            has_no_way(scoring, candidates, policy)
        },
{
    let h = policy.hard_max_samples;
    law_boundaries_span_the_audio(scoring, audio, pauses, policy, candidates);
    lemma_fewer_candidates_than_samples(candidates);
    let last = candidates.len() - 1;
    assert forall|path: Seq<int>, totals: Seq<i64>| #[trigger]
        totals_along(scoring, candidates, policy, path, totals) && finite_totals(totals)
            && is_path(candidates, h, path, last) implies finite_cost(states.last().cost)
        && states.last().cost <= totals.last() by {
        lemma_no_path_is_cheaper(
            scoring,
            candidates,
            policy,
            states,
            arrivals,
            path,
            totals,
            last,
            path.len() - 1,
        );
    }
    if finite_cost(states.last().cost) {
        lemma_table_totals(scoring, candidates, policy, states, arrivals);
    }
}

/// Law: no way to cut a recording at its boundaries is cheaper than the plan.
/// Only where no way leads through them is it cut blindly.
pub proof fn law_the_plan_is_cheapest<S, M: Scoring<S>>(
    scoring: &M,
    audio: Seq<S>,
    pauses: Seq<Range<usize>>,
    policy: ChunkPolicy,
    spans: Seq<Range<usize>>,
)
    requires
        policy.hard_max_samples < audio.len() <= usize::MAX,
        policy.valid(),
        order_preserving(scoring),
        costs_are_numbers(scoring, audio, pauses, policy),
        is_global_plan(scoring, audio, pauses, policy, spans),
    ensures
        exists|candidates: Seq<BoundaryCandidate>|
            {
                &&& #[trigger] is_boundaries(scoring, audio, pauses, policy, candidates)
                &&& {
                    ||| exists|path: Seq<int>, totals: Seq<i64>| #[trigger]
                        is_cheapest_way(scoring, candidates, policy, path, totals) && spans
                            == spans_along(candidates, path)
                    ||| has_no_way(scoring, candidates, policy) && spans == fixed_spans(
                        audio.len() as int,
                        policy.hard_max_samples as int,
                    )
                }
            },
{
    let (candidates, states, arrivals) = lemma_plan_parts(scoring, audio, pauses, policy, spans);
    lemma_cheapest_way(scoring, audio, pauses, policy, candidates, states, arrivals);
}

proof fn lemma_all_reached<S, M: Scoring<S>>(
    scoring: &M,
    audio: Seq<S>,
    pauses: Seq<Range<usize>>,
    policy: ChunkPolicy,
    candidates: Seq<BoundaryCandidate>,
    states: Seq<PlanState>,
    arrivals: Map<(int, int), i64>,
    e: int,
)
    requires
        0 < audio.len() <= usize::MAX,
        policy.valid(),
        policy.energy_window_samples <= policy.hard_max_samples,
        is_boundaries(scoring, audio, pauses, policy, candidates),
        plan_table(scoring, candidates, policy, states, arrivals),
        finite_arrivals(candidates, policy.hard_max_samples, states, arrivals),
        0 <= e < candidates.len(),
    ensures
        finite_cost(states[e].cost),
    decreases e,
{
    if e > 0 {
        lemma_all_reached(scoring, audio, pauses, policy, candidates, states, arrivals, e - 1);
        law_boundaries_span_the_audio(scoring, audio, pauses, policy, candidates);
        let w = policy.energy_window_samples as int;
        let from = candidates[e - 1].sample as int;
        let to = candidates[e].sample as int;
        if to - from > w {
            let k = from / w + 1;
            assert(from < k * w <= from + w && 0 < k) by (nonlinear_arith)
                requires
                    0 < w,
                    0 <= from,
                    k == from / w + 1,
            ;
            if e < candidates.len() - 1 {
                assert(candidates[e].sample < candidates[candidates.len() - 1].sample);
            }
            assert(k * policy.energy_window_samples < audio.len());
            assert(has_candidate_at(candidates, (k * policy.energy_window_samples) as usize));
            let j = choose|j: int|
                0 <= j < candidates.len() && (#[trigger] candidates[j]).sample == (k
                    * policy.energy_window_samples) as usize;
            if j < e - 1 {
                assert(candidates[j].sample < candidates[e - 1].sample);
            } else if j > e {
                assert(candidates[e].sample < candidates[j].sample);
            }
            assert(false);
        }
        assert(candidates[e - 1].sample < candidates[e].sample);
        assert(linked(candidates, states, policy.hard_max_samples, e - 1, e));
        lemma_reached(scoring, candidates, policy, states, arrivals, e - 1, e);
    }
}

/// Law: the fallback grid connects every recording. As long as costs are numbers
/// and the grid is no wider than a span may be, the plan cuts at boundaries and
/// never blindly.
pub proof fn law_the_grid_connects_every_recording<S, M: Scoring<S>>(
    scoring: &M,
    audio: Seq<S>,
    pauses: Seq<Range<usize>>,
    policy: ChunkPolicy,
    spans: Seq<Range<usize>>,
)
    requires
        policy.hard_max_samples < audio.len() <= usize::MAX,
        policy.valid(),
        policy.energy_window_samples <= policy.hard_max_samples,
        costs_are_numbers(scoring, audio, pauses, policy),
        is_global_plan(scoring, audio, pauses, policy, spans),
    ensures
        exists|candidates: Seq<BoundaryCandidate>, path: Seq<int>|
            {
                &&& #[trigger] is_boundaries(scoring, audio, pauses, policy, candidates)
                &&& #[trigger] is_path(
                    candidates,
                    policy.hard_max_samples,
                    path,
                    candidates.len() - 1,
                )
                &&& spans == spans_along(candidates, path)
            },
{
    let h = policy.hard_max_samples;
    let (candidates, states, arrivals) = lemma_plan_parts(scoring, audio, pauses, policy, spans);
    law_boundaries_span_the_audio(scoring, audio, pauses, policy, candidates);
    lemma_fewer_candidates_than_samples(candidates);
    let last = candidates.len() - 1;
    lemma_all_reached(scoring, audio, pauses, policy, candidates, states, arrivals, last);
    lemma_path_to(scoring, candidates, policy, states, arrivals, last);
    assert(is_path(candidates, h, path_to(states, last), candidates.len() - 1));
}

/// The two recordings agree on `start..end`.
pub open spec fn agree_on<S>(a: Seq<S>, b: Seq<S>, start: int, end: int) -> bool {
    &&& 0 <= start <= end <= a.len()
    &&& end <= b.len()
    &&& forall|t: int| start <= t < end ==> #[trigger] a[t] == b[t]
}

proof fn lemma_same_energies<S, M: Scoring<S>>(
    scoring: &M,
    a: Seq<S>,
    b: Seq<S>,
    start: int,
    window: int,
    energies_a: Seq<i64>,
    energies_b: Seq<i64>,
    k: int,
)
    requires
        repeatable_scores(scoring),
        0 < window,
        agree_on(a, b, start, start + window + energies_a.len() - 1),
        energies_a.len() == energies_b.len(),
        window_energies(scoring, a, start, window, energies_a),
        window_energies(scoring, b, start, window, energies_b),
        0 <= k < energies_a.len(),
    ensures
        energies_a[k] == energies_b[k],
    decreases k,
{
    if k == 0 {
        assert(a.subrange(start, start + window) =~= b.subrange(start, start + window));
    } else {
        lemma_same_energies(scoring, a, b, start, window, energies_a, energies_b, k - 1);
        assert(moved_on(scoring, a, start, window, energies_a, k));
        assert(moved_on(scoring, b, start, window, energies_b, k));
        assert(a[start + k - 1] == b[start + k - 1]);
        assert(a[start + k - 1 + window] == b[start + k - 1 + window]);
    }
}

proof fn lemma_same_cut<S, M: Scoring<S>>(
    scoring: &M,
    a: Seq<S>,
    b: Seq<S>,
    start: int,
    end: int,
    energy_window: int,
    sample_a: int,
    rms_a: u32,
    sample_b: int,
    rms_b: u32,
)
    requires
        repeatable_scores(scoring),
        start < end,
        agree_on(a, b, start, end),
        is_quietest_cut(scoring, a, start, end, energy_window, sample_a, rms_a),
        is_quietest_cut(scoring, b, start, end, energy_window, sample_b, rms_b),
    ensures
        sample_a == sample_b,
        rms_a == rms_b,
        start <= sample_a < end,
{
    let window = cut_window(end - start, energy_window);
    let (ea, ba) = choose|energies: Seq<i64>, best: int|
        {
            &&& energies.len() == end - start - window + 1
            &&& #[trigger] window_energies(scoring, a, start, window, energies)
            &&& #[trigger] first_least(energies, best)
            &&& sample_a == start + best + window / 2
            &&& levels(scoring, at_least_silent(energies[best]), window as usize, rms_a)
        };
    let (eb, bb) = choose|energies: Seq<i64>, best: int|
        {
            &&& energies.len() == end - start - window + 1
            &&& #[trigger] window_energies(scoring, b, start, window, energies)
            &&& #[trigger] first_least(energies, best)
            &&& sample_b == start + best + window / 2
            &&& levels(scoring, at_least_silent(energies[best]), window as usize, rms_b)
        };
    assert forall|k: int| 0 <= k < ea.len() implies ea[k] == eb[k] by {
        lemma_same_energies(scoring, a, b, start, window, ea, eb, k);
    }
    assert(ea =~= eb);
    assert(ba == bb) by {
        if ba < bb {
            assert(eb[bb] < eb[ba]);
        } else if bb < ba {
            assert(ea[ba] < ea[bb]);
        }
    }
}

/// What a pause offers in two recordings that agree on it.
pub proof fn lemma_same_pause_cut<S, M: Scoring<S>>(
    scoring: &M,
    a: Seq<S>,
    b: Seq<S>,
    pause: Range<usize>,
    policy: ChunkPolicy,
    cut_a: Option<BoundaryCandidate>,
    cut_b: Option<BoundaryCandidate>,
)
    requires
        repeatable_scores(scoring),
        agree_on(a, b, 0, a.len() as int),
        a.len() == b.len() || pause.end <= a.len(),
        pause_cut(scoring, a, pause, policy, cut_a),
        pause_cut(scoring, b, pause, policy, cut_b),
    ensures
        cut_a == cut_b,
{
    let n = a.len() as int;
    let start = clipped(pause.start as int, n);
    let end = clipped(pause.end as int, n);
    let w = policy.energy_window_samples as int;
    if start < end && end - start >= policy.min_pause_samples {
        let (sa, ra) = choose|sample: int, rms: u32|
            #[trigger] is_quietest_cut(scoring, a, start, end, w, sample, rms) && cut_a == (
            if 0 < sample < a.len() {
                Some(
                    BoundaryCandidate {
                        sample: sample as usize,
                        kind: BoundaryKind::VadPause,
                        pause_samples: (end - start) as usize,
                        rms,
                    },
                )
            } else {
                None
            });
        let (sb, rb) = choose|sample: int, rms: u32|
            #[trigger] is_quietest_cut(scoring, b, start, end, w, sample, rms) && cut_b == (
            if 0 < sample < b.len() {
                Some(
                    BoundaryCandidate {
                        sample: sample as usize,
                        kind: BoundaryKind::VadPause,
                        pause_samples: (end - start) as usize,
                        rms,
                    },
                )
            } else {
                None
            });
        lemma_same_cut(scoring, a, b, start, end, w, sa, ra, sb, rb);
    }
}

/// A pause behind `limit` offers nothing up to `limit`.
proof fn lemma_far_pause_cut<S, M: Scoring<S>>(
    scoring: &M,
    audio: Seq<S>,
    pause: Range<usize>,
    policy: ChunkPolicy,
    cut: Option<BoundaryCandidate>,
    limit: int,
)
    requires
        pause_cut(scoring, audio, pause, policy, cut),
        limit < pause.start,
        limit < audio.len() <= usize::MAX,
    ensures
        cut matches Some(c) ==> c.sample > limit,
{
}

pub proof fn lemma_same_grid_point<S, M: Scoring<S>>(
    scoring: &M,
    a: Seq<S>,
    b: Seq<S>,
    w: int,
    sample: int,
    point_a: Option<BoundaryCandidate>,
    point_b: Option<BoundaryCandidate>,
)
    requires
        repeatable_scores(scoring),
        agree_on(a, b, 0, a.len() as int),
        0 < w <= sample < a.len(),
        a.len() == b.len() || sample - w / 2 + w <= a.len(),
        grid_point(scoring, a, w, sample, point_a),
        grid_point(scoring, b, w, sample, point_b),
    ensures
        point_a == point_b,
{
    let start = sample - w / 2;
    let end = clipped(start + w, a.len() as int);
    assert(end == clipped(start + w, b.len() as int));
    assert(a.subrange(start, end) =~= b.subrange(start, end));
}

/// Two candidates that prevail on one sample are one.
proof fn lemma_one_prevails(offered: Seq<Option<BoundaryCandidate>>, j: int, k: int)
    requires
        prevails(offered, j),
        prevails(offered, k),
        offered[j]->0.sample == offered[k]->0.sample,
    ensures
        j == k,
{
}

/// What is offered settles which candidates there are.
proof fn lemma_settled_once(
    offered: Seq<Option<BoundaryCandidate>>,
    a: Seq<BoundaryCandidate>,
    b: Seq<BoundaryCandidate>,
)
    requires
        settled_offers(offered, a),
        settled_offers(offered, b),
    ensures
        a == b,
{
    assert forall|c: BoundaryCandidate| a.contains(c) implies b.contains(c) by {
        lemma_settled_member(offered, a, b, c);
    }
    assert forall|c: BoundaryCandidate| b.contains(c) implies a.contains(c) by {
        lemma_settled_member(offered, b, a, c);
    }
    lemma_ordered_once(a, b);
}

proof fn lemma_settled_member(
    offered: Seq<Option<BoundaryCandidate>>,
    a: Seq<BoundaryCandidate>,
    b: Seq<BoundaryCandidate>,
    c: BoundaryCandidate,
)
    requires
        settled_offers(offered, a),
        settled_offers(offered, b),
        a.contains(c),
    ensures
        b.contains(c),
{
    let i = choose|i: int| 0 <= i < a.len() && a[i] == c;
    assert(has_source(offered, a[i]));
    let k = choose|k: int| #[trigger] prevails(offered, k) && offered[k] == Some(c);
    assert(has_candidate_at(b, offered[k]->0.sample));
    let j = choose|j: int| 0 <= j < b.len() && (#[trigger] b[j]).sample == c.sample;
    assert(has_source(offered, b[j]));
    let l = choose|l: int| #[trigger] prevails(offered, l) && offered[l] == Some(b[j]);
    lemma_one_prevails(offered, k, l);
    assert(b[j] == c);
}

pub proof fn lemma_ordered_once(a: Seq<BoundaryCandidate>, b: Seq<BoundaryCandidate>)
    requires
        ordered(a),
        ordered(b),
        forall|c: BoundaryCandidate| a.contains(c) ==> b.contains(c),
        forall|c: BoundaryCandidate| b.contains(c) ==> a.contains(c),
    ensures
        a == b,
    decreases a.len(),
{
    if a.len() == 0 {
        if b.len() > 0 {
            assert(b.contains(b[0]));
        }
        assert(a =~= b);
    } else {
        assert(a.contains(a[0]));
        assert(b.len() > 0);
        let n = a.len() - 1;
        let m = b.len() - 1;
        assert(a.contains(a[n]));
        assert(b.contains(b[m]));
        let i = choose|i: int| 0 <= i < b.len() && b[i] == a[n];
        let j = choose|j: int| 0 <= j < a.len() && a[j] == b[m];
        assert(a[n] == b[m]) by {
            if i < m {
                assert(b[i].sample < b[m].sample);
                if j < n {
                    assert(a[j].sample < a[n].sample);
                }
            }
        }
        let a0 = a.drop_last();
        let b0 = b.drop_last();
        assert forall|c: BoundaryCandidate| a0.contains(c) implies b0.contains(c) by {
            let k = choose|k: int| 0 <= k < a0.len() && a0[k] == c;
            assert(a[k] == c);
            assert(a.contains(c));
            assert(a[k].sample < a[n].sample);
            let l = choose|l: int| 0 <= l < b.len() && b[l] == c;
            assert(b0[l] == c);
        }
        assert forall|c: BoundaryCandidate| b0.contains(c) implies a0.contains(c) by {
            let k = choose|k: int| 0 <= k < b0.len() && b0[k] == c;
            assert(b[k] == c);
            assert(b.contains(c));
            assert(b[k].sample < b[m].sample);
            let l = choose|l: int| 0 <= l < a.len() && a[l] == c;
            assert(a0[l] == c);
        }
        lemma_ordered_once(a0, b0);
        assert(a =~= a0.push(a[n]));
        assert(b =~= b0.push(b[m]));
    }
}

/// The boundaries of one recording are the same every time.
pub proof fn lemma_same_boundaries<S, M: Scoring<S>>(
    scoring: &M,
    audio: Seq<S>,
    pauses: Seq<Range<usize>>,
    policy: ChunkPolicy,
    a: Seq<BoundaryCandidate>,
    b: Seq<BoundaryCandidate>,
)
    requires
        repeatable_scores(scoring),
        0 < audio.len() <= usize::MAX,
        policy.energy_window_samples > 0,
        is_boundaries(scoring, audio, pauses, policy, a),
        is_boundaries(scoring, audio, pauses, policy, b),
    ensures
        a == b,
{
    let w = policy.energy_window_samples as int;
    let n = audio.len() as int;
    let (cuts_a, grid_a) = lemma_boundary_parts(scoring, audio, pauses, policy, a);
    let (cuts_b, grid_b) = lemma_boundary_parts(scoring, audio, pauses, policy, b);
    assert forall|i: int| 0 <= i < cuts_a.len() implies cuts_a[i] == cuts_b[i] by {
        lemma_same_pause_cut(scoring, audio, audio, pauses[i], policy, cuts_a[i], cuts_b[i]);
    }
    assert forall|i: int| 0 <= i < grid_a.len() implies grid_a[i] == grid_b[i] by {
        lemma_multiple_inside(n, w, i + 1);
        assert((i + 1) * w >= w) by (nonlinear_arith)
            requires
                0 <= i,
                0 < w,
        ;
        lemma_same_grid_point(scoring, audio, audio, w, (i + 1) * w, grid_a[i], grid_b[i]);
    }
    assert(cuts_a =~= cuts_b);
    assert(grid_a =~= grid_b);
    lemma_settled_once(offers(n, cuts_a, grid_a), a, b);
}

pub proof fn lemma_same_states<S, M: Scoring<S>>(
    scoring: &M,
    candidates: Seq<BoundaryCandidate>,
    policy: ChunkPolicy,
    states_a: Seq<PlanState>,
    arrivals_a: Map<(int, int), i64>,
    states_b: Seq<PlanState>,
    arrivals_b: Map<(int, int), i64>,
    e: int,
)
    requires
        repeatable_scores(scoring),
        plan_table(scoring, candidates, policy, states_a, arrivals_a),
        plan_table(scoring, candidates, policy, states_b, arrivals_b),
        0 <= e < candidates.len(),
    ensures
        forall|i: int| 0 <= i <= e ==> #[trigger] states_a[i] == states_b[i],
    decreases e,
{
    if e > 0 {
        lemma_same_states(
            scoring,
            candidates,
            policy,
            states_a,
            arrivals_a,
            states_b,
            arrivals_b,
            e - 1,
        );
        let h = policy.hard_max_samples;
        assert(best_arrival(candidates, h, states_a, arrivals_a, e));
        assert(best_arrival(candidates, h, states_b, arrivals_b, e));
        assert forall|s: int| #[trigger] linked(candidates, states_a, h, s, e) implies linked(
            candidates,
            states_b,
            h,
            s,
            e,
        ) && arrival(states_a, arrivals_a, s, e) == arrival(states_b, arrivals_b, s, e) by {
            assert(states_a[s] == states_b[s]);
            assert(linked(candidates, states_b, h, s, e));
            let edge = edge_between(candidates, policy, s, e);
            let total = states_a[s].cost;
            let x = choose|x: i64| #[trigger]
                costs(scoring, edge, x) && sums(scoring, total, x, arrivals_a[(s, e)]);
            let y = choose|y: i64| #[trigger]
                costs(scoring, edge, y) && sums(scoring, total, y, arrivals_b[(s, e)]);
            assert(x == y);
        }
        assert forall|s: int| #[trigger] linked(candidates, states_b, h, s, e) implies linked(
            candidates,
            states_a,
            h,
            s,
            e,
        ) by {
            assert(states_a[s] == states_b[s]);
        }
        if states_a[e] != not_reached() {
            let s = choose|s: int| #[trigger]
                linked(candidates, states_a, h, s, e) && states_a[e] == arrival(
                    states_a,
                    arrivals_a,
                    s,
                    e,
                ) && beats(states_a[e], not_reached());
            assert(linked(candidates, states_b, h, s, e));
            assert(!beats(states_a[e], states_b[e]));
        }
        if states_b[e] != not_reached() {
            let s = choose|s: int| #[trigger]
                linked(candidates, states_b, h, s, e) && states_b[e] == arrival(
                    states_b,
                    arrivals_b,
                    s,
                    e,
                ) && beats(states_b[e], not_reached());
            assert(linked(candidates, states_a, h, s, e));
            assert(!beats(states_b[e], states_a[e]));
        }
        assert(states_a[e] == states_b[e]);
    }
}

/// Law: with a scoring that returns the same for the same arguments, a recording
/// is planned the same way every time, ties and all.
pub proof fn law_planning_is_deterministic<S, M: Scoring<S>>(
    scoring: &M,
    audio: Seq<S>,
    pauses: Seq<Range<usize>>,
    policy: ChunkPolicy,
    a: Seq<Range<usize>>,
    b: Seq<Range<usize>>,
)
    requires
        repeatable(scoring),
        audio.len() <= usize::MAX,
        audio.len() > 0 ==> policy.valid(),
        is_global_plan(scoring, audio, pauses, policy, a),
        is_global_plan(scoring, audio, pauses, policy, b),
    ensures
        a == b,
{
    lemma_repeatable_scores(scoring);
    if audio.len() == 0 {
        assert(a =~= b);
    } else if audio.len() > policy.hard_max_samples {
        let (ca, sa, aa) = lemma_plan_parts(scoring, audio, pauses, policy, a);
        let (cb, sb, ab) = lemma_plan_parts(scoring, audio, pauses, policy, b);
        lemma_same_boundaries(scoring, audio, pauses, policy, ca, cb);
        law_boundaries_span_the_audio(scoring, audio, pauses, policy, ca);
        lemma_same_states(scoring, ca, policy, sa, aa, sb, ab, ca.len() - 1);
        assert(sa =~= sb);
    }
}

/// What of `a` stands up to `limit` stands in the boundaries of a longer
/// recording too, and the other way round.
proof fn lemma_near_boundaries_agree<S, M: Scoring<S>>(
    scoring: &M,
    short: Seq<S>,
    long: Seq<S>,
    pauses: Seq<Range<usize>>,
    policy: ChunkPolicy,
    a: Seq<BoundaryCandidate>,
    b: Seq<BoundaryCandidate>,
    c: BoundaryCandidate,
)
    requires
        repeatable_scores(scoring),
        policy.valid(),
        short.len() <= long.len() <= usize::MAX,
        agree_on(short, long, 0, short.len() as int),
        measured_within(short.len() as int, pauses, policy),
        is_boundaries(scoring, short, pauses, policy, a),
        is_boundaries(scoring, long, pauses, policy, b),
        c.sample <= policy.hard_max_samples,
    ensures
        a.contains(c) <==> b.contains(c),
{
    let w = policy.energy_window_samples as int;
    let h = policy.hard_max_samples as int;
    let n = short.len() as int;
    let m = long.len() as int;
    let (cuts_a, grid_a) = lemma_boundary_parts(scoring, short, pauses, policy, a);
    let (cuts_b, grid_b) = lemma_boundary_parts(scoring, long, pauses, policy, b);
    let oa = offers(n, cuts_a, grid_a);
    let ob = offers(m, cuts_b, grid_b);
    assert((n - 1) / w <= (m - 1) / w) by (nonlinear_arith)
        requires
            0 < w,
            n <= m,
    ;
    assert(oa.len() <= ob.len());
    // Slot for slot the two offers are the same as far as the limit.
    assert forall|k: int| 0 <= k < oa.len() && near(oa, k, h) implies #[trigger] oa[k]
        == ob[k] by {
        lemma_near_slot(
            scoring,
            short,
            long,
            pauses,
            policy,
            cuts_a,
            grid_a,
            cuts_b,
            grid_b,
            k,
        );
    }
    assert forall|k: int| 0 <= k < ob.len() && near(ob, k, h) implies k < oa.len()
        && #[trigger] ob[k] == oa[k] by {
        lemma_near_slot(
            scoring,
            short,
            long,
            pauses,
            policy,
            cuts_a,
            grid_a,
            cuts_b,
            grid_b,
            k,
        );
    }
    if a.contains(c) {
        lemma_member_by_near_slots(oa, ob, a, b, c, h);
    }
    if b.contains(c) {
        lemma_member_by_near_slots(ob, oa, b, a, c, h);
    }
}

/// Slot `k` holds an offer up to `limit`.
spec fn near(offered: Seq<Option<BoundaryCandidate>>, k: int, limit: int) -> bool {
    offered[k] is Some && offered[k]->0.sample <= limit
}

proof fn lemma_member_by_near_slots(
    oa: Seq<Option<BoundaryCandidate>>,
    ob: Seq<Option<BoundaryCandidate>>,
    a: Seq<BoundaryCandidate>,
    b: Seq<BoundaryCandidate>,
    c: BoundaryCandidate,
    limit: int,
)
    requires
        settled_offers(oa, a),
        settled_offers(ob, b),
        c.sample <= limit,
        forall|k: int|
            0 <= k < oa.len() && near(oa, k, limit) ==> k < ob.len() && #[trigger] oa[k] == ob[k],
        forall|k: int|
            0 <= k < ob.len() && near(ob, k, limit) ==> k < oa.len() && #[trigger] ob[k] == oa[k],
        a.contains(c),
    ensures
        b.contains(c),
{
    let i = choose|i: int| 0 <= i < a.len() && a[i] == c;
    assert(has_source(oa, a[i]));
    let k = choose|k: int| #[trigger] prevails(oa, k) && oa[k] == Some(c);
    assert(near(oa, k, limit));
    assert(oa[k] == ob[k]);
    assert(prevails(ob, k)) by {
        assert forall|j: int|
            0 <= j < ob.len() && (#[trigger] ob[j]) is Some && ob[j]->0.sample
                == ob[k]->0.sample implies {
            &&& rank(ob[k]->0.kind) <= rank(ob[j]->0.kind)
            &&& j < k ==> rank(ob[k]->0.kind) < rank(ob[j]->0.kind)
        } by {
            assert(near(ob, j, limit));
            assert(ob[j] == oa[j]);
            assert(oa[j] is Some);
        }
    }
    assert(has_candidate_at(b, ob[k]->0.sample));
    let j = choose|j: int| 0 <= j < b.len() && (#[trigger] b[j]).sample == c.sample;
    assert(has_source(ob, b[j]));
    let l = choose|l: int| #[trigger] prevails(ob, l) && ob[l] == Some(b[j]);
    lemma_one_prevails(ob, k, l);
    assert(b[j] == c);
}

proof fn lemma_near_slot<S, M: Scoring<S>>(
    scoring: &M,
    short: Seq<S>,
    long: Seq<S>,
    pauses: Seq<Range<usize>>,
    policy: ChunkPolicy,
    cuts_a: Seq<Option<BoundaryCandidate>>,
    grid_a: Seq<Option<BoundaryCandidate>>,
    cuts_b: Seq<Option<BoundaryCandidate>>,
    grid_b: Seq<Option<BoundaryCandidate>>,
    k: int,
)
    requires
        repeatable_scores(scoring),
        policy.valid(),
        short.len() <= long.len() <= usize::MAX,
        agree_on(short, long, 0, short.len() as int),
        measured_within(short.len() as int, pauses, policy),
        pause_cuts(scoring, short, pauses, policy, cuts_a),
        pause_cuts(scoring, long, pauses, policy, cuts_b),
        energy_grid(scoring, short, policy.energy_window_samples as int, grid_a),
        energy_grid(scoring, long, policy.energy_window_samples as int, grid_b),
        0 <= k,
    ensures
        ({
            let h = policy.hard_max_samples as int;
            let oa = offers(short.len() as int, cuts_a, grid_a);
            let ob = offers(long.len() as int, cuts_b, grid_b);
            &&& k < oa.len() && near(oa, k, h) ==> k < ob.len() && oa[k] == ob[k]
            &&& k < ob.len() && near(ob, k, h) ==> k < oa.len() && oa[k] == ob[k]
        }),
{
    let w = policy.energy_window_samples as int;
    let h = policy.hard_max_samples as int;
    let n = short.len() as int;
    let m = long.len() as int;
    let oa = offers(n, cuts_a, grid_a);
    let ob = offers(m, cuts_b, grid_b);
    let p = pauses.len() as int;
    assert((n - 1) / w <= (m - 1) / w) by (nonlinear_arith)
        requires
            0 < w,
            n <= m,
    ;
    if k == 0 {
    } else if k <= p {
        let i = k - 1;
        assert(oa[k] == cuts_a[i]);
        assert(ob[k] == cuts_b[i]);
        assert(pause_cut(scoring, short, pauses[i], policy, cuts_a[i]));
        assert(pause_cut(scoring, long, pauses[i], policy, cuts_b[i]));
        assert(pauses[i].end <= n || pauses[i].start > h);
        if pauses[i].end <= n {
            lemma_same_pause_cut(scoring, short, long, pauses[i], policy, cuts_a[i], cuts_b[i]);
        } else {
            lemma_far_pause_cut(scoring, short, pauses[i], policy, cuts_a[i], h);
            lemma_far_pause_cut(scoring, long, pauses[i], policy, cuts_b[i], h);
        }
    } else {
        let g = k - 1 - p;
        if g < grid_b.len() {
            assert(ob[k] == grid_b[g]);
            assert(grid_point(scoring, long, w, (g + 1) * w, grid_b[g]));
            lemma_multiple_inside(m, w, g + 1);
            if (g + 1) * w <= h {
                assert((g + 1) * w <= (h / w) * w && (g + 1) <= (n - 1) / w) by (nonlinear_arith)
                    requires
                        0 < w,
                        0 <= g,
                        h < n,
                        (g + 1) * w <= h,
                ;
                assert((g + 1) * w >= w) by (nonlinear_arith)
                    requires
                        0 <= g,
                        0 < w,
                ;
                assert(oa[k] == grid_a[g]);
                assert(grid_point(scoring, short, w, (g + 1) * w, grid_a[g]));
                lemma_same_grid_point(
                    scoring,
                    short,
                    long,
                    w,
                    (g + 1) * w,
                    grid_a[g],
                    grid_b[g],
                );
            } else if g < grid_a.len() {
                assert(oa[k] == grid_a[g]);
                assert(grid_point(scoring, short, w, (g + 1) * w, grid_a[g]));
                lemma_multiple_inside(n, w, g + 1);
            } else if k < oa.len() {
                assert(oa[k] == Some(end_boundary(n)));
            }
        } else if k < ob.len() {
            assert(ob[k] == Some(end_boundary(m)));
            if k < oa.len() {
                assert(oa[k] == Some(end_boundary(n)));
            }
        }
    }
}

/// A window of `len` samples holds all that bears on where a first span ends: it
/// goes beyond the hard maximum, no pause that starts before the hard maximum is
/// cut off by the window's end, and no fallback boundary up to the hard maximum
/// has its loudness measured across that end.
pub open spec fn measured_within(
    len: int,
    pauses: Seq<Range<usize>>,
    policy: ChunkPolicy,
) -> bool {
    let w = policy.energy_window_samples as int;
    let h = policy.hard_max_samples as int;
    &&& h < len
    &&& (h / w) * w - w / 2 + w <= len
    &&& forall|i: int|
        0 <= i < pauses.len() ==> (#[trigger] pauses[i]).end <= len || pauses[i].start > h
}

/// Law: where the next span ends does not depend on where the window that it is
/// planned in happens to end, as long as the window holds all that bears on it.
pub proof fn law_a_first_span_ignores_the_window_end<S, M: Scoring<S>>(
    scoring: &M,
    short: Seq<S>,
    long: Seq<S>,
    pauses: Seq<Range<usize>>,
    policy: ChunkPolicy,
    a: Option<Range<usize>>,
    b: Option<Range<usize>>,
)
    requires
        repeatable(scoring),
        policy.valid(),
        short.len() <= long.len() <= usize::MAX,
        agree_on(short, long, 0, short.len() as int),
        measured_within(short.len() as int, pauses, policy),
        is_first_span(scoring, short, pauses, policy, a),
        is_first_span(scoring, long, pauses, policy, b),
    ensures
        a == b,
{
    lemma_repeatable_scores(scoring);
    let (ca, sa, ea) = lemma_first_span_parts(scoring, short, pauses, policy, a);
    let (cb, sb, eb) = lemma_first_span_parts(scoring, long, pauses, policy, b);
    assert forall|c: BoundaryCandidate| eligible(policy, c) implies (ca.contains(c)
        <==> cb.contains(c)) by {
        lemma_near_boundaries_agree(scoring, short, long, pauses, policy, ca, cb, c);
    }
    lemma_same_choice(scoring, policy, ca, sa, ea, cb, sb, eb);
}

/// Law: the end of the window has no influence on the next span where the window
/// goes beyond the hard maximum by an energy window, and every pause ends inside
/// it.
pub proof fn law_a_first_span_stays_when_the_window_grows<S, M: Scoring<S>>(
    scoring: &M,
    short: Seq<S>,
    more: Seq<S>,
    pauses: Seq<Range<usize>>,
    policy: ChunkPolicy,
    a: Option<Range<usize>>,
    b: Option<Range<usize>>,
)
    requires
        repeatable(scoring),
        policy.valid(),
        policy.hard_max_samples + policy.energy_window_samples <= short.len(),
        (short + more).len() <= usize::MAX,
        forall|i: int| 0 <= i < pauses.len() ==> (#[trigger] pauses[i]).end <= short.len(),
        is_first_span(scoring, short, pauses, policy, a),
        is_first_span(scoring, short + more, pauses, policy, b),
    ensures
        a == b,
{
    let w = policy.energy_window_samples as int;
    let h = policy.hard_max_samples as int;
    assert((h / w) * w <= h) by (nonlinear_arith)
        requires
            0 < w,
            0 <= h,
    ;
    law_a_first_span_ignores_the_window_end(
        scoring,
        short,
        short + more,
        pauses,
        policy,
        a,
        b,
    );
}

/// Boundaries with the same eligible ones among them lead to the same first span.
proof fn lemma_same_choice<S, M: Scoring<S>>(
    scoring: &M,
    policy: ChunkPolicy,
    ca: Seq<BoundaryCandidate>,
    sa: Seq<i64>,
    ea: usize,
    cb: Seq<BoundaryCandidate>,
    sb: Seq<i64>,
    eb: usize,
)
    requires
        repeatable_scores(scoring),
        first_costs(scoring, ca, policy, sa),
        first_costs(scoring, cb, policy, sb),
        ends_first_span(ca, policy, sa, ea),
        ends_first_span(cb, policy, sb, eb),
        forall|c: BoundaryCandidate| eligible(policy, c) ==> (ca.contains(c) <==> cb.contains(c)),
    ensures
        ea == eb,
{
    if exists|i: int| #[trigger] is_choice(ca, policy, sa, i) && ea == ca[i].sample {
        let i = choose|i: int| #[trigger] is_choice(ca, policy, sa, i) && ea == ca[i].sample;
        assert(ca.contains(ca[i]));
        let ib = choose|ib: int| 0 <= ib < cb.len() && cb[ib] == ca[i];
        assert(eligible(policy, cb[ib]));
        let j = choose|j: int| #[trigger] is_choice(cb, policy, sb, j) && eb == cb[j].sample;
        assert(is_choice(cb, policy, sb, j));
        assert(cb.contains(cb[j]));
        let ja = choose|ja: int| 0 <= ja < ca.len() && ca[ja] == cb[j];
        assert(eligible(policy, ca[ja]));
        if ca[i] != cb[j] {
            assert(goes_before(sa[i], ca[i], sa[ja], ca[ja]));
            assert(goes_before(sb[j], cb[j], sb[ib], cb[ib]));
            assert(sa[i] == sb[ib]);
            assert(sa[ja] == sb[j]);
            assert(false);
        }
    } else {
        if exists|j: int| #[trigger] is_choice(cb, policy, sb, j) && eb == cb[j].sample {
            let j = choose|j: int| #[trigger] is_choice(cb, policy, sb, j) && eb == cb[j].sample;
            assert(cb.contains(cb[j]));
            let ja = choose|ja: int| 0 <= ja < ca.len() && ca[ja] == cb[j];
            assert(eligible(policy, ca[ja]));
        }
    }
}

/// Law: with a scoring that returns the same for the same arguments, the next
/// span of a window is the same every time.
pub proof fn law_a_first_span_is_deterministic<S, M: Scoring<S>>(
    scoring: &M,
    audio: Seq<S>,
    pauses: Seq<Range<usize>>,
    policy: ChunkPolicy,
    a: Option<Range<usize>>,
    b: Option<Range<usize>>,
)
    requires
        repeatable(scoring),
        audio.len() <= usize::MAX,
        audio.len() > 0 ==> policy.valid(),
        is_first_span(scoring, audio, pauses, policy, a),
        is_first_span(scoring, audio, pauses, policy, b),
    ensures
        a == b,
{
    lemma_repeatable_scores(scoring);
    if audio.len() > policy.hard_max_samples {
        let (ca, sa, ea) = lemma_first_span_parts(scoring, audio, pauses, policy, a);
        let (cb, sb, eb) = lemma_first_span_parts(scoring, audio, pauses, policy, b);
        lemma_same_boundaries(scoring, audio, pauses, policy, ca, cb);
        lemma_same_choice(scoring, policy, ca, sa, ea, cb, sb, eb);
    }
}

} // verus!
