//! The spans that a recording is cut into.

use crate::boundary::{
    boundary_candidates, is_boundaries, law_boundaries_span_the_audio, ordered, BoundaryCandidate,
};
use crate::policy::ChunkPolicy;
use crate::scoring::{
    costs, edge_cost, extends, finite_cost, sums, terms_of, EdgeTerms, Scoring, INFINITE_COST,
};
use crate::span::{
    chained, fixed_maximum_spans, fixed_spans, full_coverage, lemma_fixed_spans_cover,
};
use std::ops::Range;
use vstd::prelude::*;

verus! {

/// The cheapest known way to reach a boundary.
#[derive(Clone, Copy, Debug, PartialEq, Eq, Structural)]
pub struct PlanState {
    /// Cost of all spans up to the boundary.
    pub cost: i64,
    /// Number of those spans.
    pub chunks: usize,
    /// The boundary that the last of those spans starts at.
    pub predecessor: Option<usize>,
}

/// The state of a boundary that no way is known to.
pub open spec fn not_reached() -> PlanState {
    PlanState { cost: INFINITE_COST, chunks: usize::MAX, predecessor: None }
}

/// The state of the start of a recording.
pub open spec fn at_start() -> PlanState {
    PlanState { cost: 0, chunks: 0, predecessor: None }
}

/// `new` is cheaper than `current`, or as cheap with fewer spans, or equal in
/// both with an earlier last boundary.
pub open spec fn beats(new: PlanState, current: PlanState) -> bool {
    ||| new.cost < current.cost
    ||| new.cost == current.cost && new.chunks < current.chunks
    ||| new.cost == current.cost && new.chunks == current.chunks && match (
        new.predecessor,
        current.predecessor,
    ) {
        (Some(p), Some(q)) => p < q,
        (Some(_), None) => true,
        _ => false,
    }
}

/// A span may lead from boundary `s`, which is reachable, to boundary `e`.
pub open spec fn linked(
    candidates: Seq<BoundaryCandidate>,
    states: Seq<PlanState>,
    hard_max: usize,
    s: int,
    e: int,
) -> bool {
    &&& 0 <= s < e < candidates.len()
    &&& candidates[e].sample - candidates[s].sample <= hard_max
    &&& finite_cost(states[s].cost)
}

/// The terms of the span between two boundaries.
pub open spec fn edge_between(
    candidates: Seq<BoundaryCandidate>,
    policy: ChunkPolicy,
    s: int,
    e: int,
) -> EdgeTerms {
    terms_of(
        (candidates[e].sample - candidates[s].sample) as usize,
        candidates[e],
        e == candidates.len() - 1,
        policy,
    )
}

/// The way to boundary `e` whose last span starts at boundary `s`, where
/// `arrivals` gives its cost.
pub open spec fn arrival(
    states: Seq<PlanState>,
    arrivals: Map<(int, int), i64>,
    s: int,
    e: int,
) -> PlanState {
    PlanState {
        cost: arrivals[(s, e)],
        chunks: (states[s].chunks + 1) as usize,
        predecessor: Some(s as usize),
    }
}

/// `states[e]` is the best of all ways to boundary `e`.
pub open spec fn best_arrival(
    candidates: Seq<BoundaryCandidate>,
    hard_max: usize,
    states: Seq<PlanState>,
    arrivals: Map<(int, int), i64>,
    e: int,
) -> bool {
    &&& states[e] == not_reached() || exists|s: int| #[trigger]
        linked(candidates, states, hard_max, s, e) && states[e] == arrival(states, arrivals, s, e)
            && beats(states[e], not_reached())
    &&& forall|s: int| #[trigger]
        linked(candidates, states, hard_max, s, e) ==> !beats(
            arrival(states, arrivals, s, e),
            states[e],
        )
}

/// `states` hold the best way to each boundary, where `arrivals` are the costs
/// that `scoring` gave for going from one boundary to a later one.
pub open spec fn plan_table<S, M: Scoring<S>>(
    scoring: &M,
    candidates: Seq<BoundaryCandidate>,
    policy: ChunkPolicy,
    states: Seq<PlanState>,
    arrivals: Map<(int, int), i64>,
) -> bool {
    &&& states.len() == candidates.len()
    &&& states[0] == at_start()
    &&& forall|e: int|
        0 < e < states.len() ==> #[trigger] best_arrival(
            candidates,
            policy.hard_max_samples,
            states,
            arrivals,
            e,
        )
    &&& forall|s: int, e: int| #[trigger]
        linked(candidates, states, policy.hard_max_samples, s, e) ==> extends(
            scoring,
            states[s].cost,
            edge_between(candidates, policy, s, e),
            arrivals[(s, e)],
        )
}

/// The boundaries on the best way to boundary `e`.
pub open spec fn path_to(states: Seq<PlanState>, e: int) -> Seq<int>
    decreases e,
{
    match states[e].predecessor {
        Some(p) => if p < e {
            path_to(states, p as int).push(e)
        } else {
            seq![e]
        },
        None => seq![e],
    }
}

/// The spans between the boundaries of `path`.
pub open spec fn spans_along(candidates: Seq<BoundaryCandidate>, path: Seq<int>) -> Seq<
    Range<usize>,
> {
    Seq::new(
        (path.len() - 1) as nat,
        |i: int|
            Range { start: candidates[path[i]].sample, end: candidates[path[i + 1]].sample },
    )
}

/// The spans that a table of best ways comes down to: those on the best way to
/// the end, or a cut after every `hard_max` samples where there is none.
pub open spec fn planned_spans(
    candidates: Seq<BoundaryCandidate>,
    states: Seq<PlanState>,
    audio_len: int,
    hard_max: int,
) -> Seq<Range<usize>> {
    if finite_cost(states.last().cost) {
        spans_along(candidates, path_to(states, states.len() - 1))
    } else {
        fixed_spans(audio_len, hard_max)
    }
}

/// `spans` are a best plan for the whole of `audio`: one span if that is
/// allowed, else the best way through its boundaries.
pub open spec fn is_global_plan<S, M: Scoring<S>>(
    scoring: &M,
    audio: Seq<S>,
    pauses: Seq<Range<usize>>,
    policy: ChunkPolicy,
    spans: Seq<Range<usize>>,
) -> bool {
    if audio.len() == 0 {
        spans.len() == 0
    } else if audio.len() <= policy.hard_max_samples {
        spans == seq![Range { start: 0usize, end: audio.len() as usize }]
    } else {
        exists|
            candidates: Seq<BoundaryCandidate>,
            states: Seq<PlanState>,
            arrivals: Map<(int, int), i64>,
        |
            {
                &&& #[trigger] is_boundaries(scoring, audio, pauses, policy, candidates)
                &&& #[trigger] plan_table(scoring, candidates, policy, states, arrivals)
                &&& spans == planned_spans(
                    candidates,
                    states,
                    audio.len() as int,
                    policy.hard_max_samples as int,
                )
            }
    }
}

pub(crate) fn is_finite(cost: i64) -> (finite: bool)
    ensures
        finite == finite_cost(cost),
{
    -INFINITE_COST - 1 < cost && cost < INFINITE_COST
}

fn is_better(new: PlanState, current: PlanState) -> (better: bool)
    ensures
        better == beats(new, current),
{
    if new.cost != current.cost {
        return new.cost < current.cost;
    }
    if new.chunks != current.chunks {
        return new.chunks < current.chunks;
    }
    match (new.predecessor, current.predecessor) {
        (Some(p), Some(q)) => p < q,
        (Some(_), None) => true,
        _ => false,
    }
}

/// A reachable boundary takes no more spans to reach than there are boundaries
/// before it.
spec fn chunks_bounded(states: Seq<PlanState>, n: int) -> bool {
    forall|i: int|
        0 <= i < n && finite_cost((#[trigger] states[i]).cost) ==> states[i].chunks <= i
}

/// The first `n` states are final, and the costs of leaving them for boundaries
/// before `n` are known.
spec fn table_up_to<S, M: Scoring<S>>(
    scoring: &M,
    candidates: Seq<BoundaryCandidate>,
    policy: ChunkPolicy,
    states: Seq<PlanState>,
    arrivals: Map<(int, int), i64>,
    n: int,
) -> bool {
    &&& states.len() == candidates.len()
    &&& 0 < n <= states.len()
    &&& states[0] == at_start()
    &&& chunks_bounded(states, n)
    &&& forall|e: int|
        0 < e < n ==> #[trigger] best_arrival(
            candidates,
            policy.hard_max_samples,
            states,
            arrivals,
            e,
        )
    &&& forall|s: int, e: int|
        e < n && #[trigger] linked(candidates, states, policy.hard_max_samples, s, e) ==> extends(
            scoring,
            states[s].cost,
            edge_between(candidates, policy, s, e),
            arrivals[(s, e)],
        )
}

/// The states before `n` and the costs of reaching them are the same in both tables.
spec fn same_before(
    states: Seq<PlanState>,
    arrivals: Map<(int, int), i64>,
    states2: Seq<PlanState>,
    arrivals2: Map<(int, int), i64>,
    n: int,
) -> bool {
    &&& states.len() == states2.len()
    &&& forall|i: int| 0 <= i < n ==> #[trigger] states[i] == states2[i]
    &&& forall|s: int, e: int| e < n ==> #[trigger] arrivals[(s, e)] == arrivals2[(s, e)]
}

proof fn lemma_table_is_stable<S, M: Scoring<S>>(
    scoring: &M,
    candidates: Seq<BoundaryCandidate>,
    policy: ChunkPolicy,
    states: Seq<PlanState>,
    arrivals: Map<(int, int), i64>,
    states2: Seq<PlanState>,
    arrivals2: Map<(int, int), i64>,
    n: int,
)
    requires
        table_up_to(scoring, candidates, policy, states, arrivals, n),
        same_before(states, arrivals, states2, arrivals2, n),
    ensures
        table_up_to(scoring, candidates, policy, states2, arrivals2, n),
{
    let h = policy.hard_max_samples;
    assert forall|i: int| 0 <= i < n && finite_cost((#[trigger] states2[i]).cost) implies states2[i].chunks
        <= i by {
        assert(states[i] == states2[i]);
    }
    assert(states[0] == states2[0]);
    assert forall|e: int| 0 < e < n implies #[trigger] best_arrival(
        candidates,
        h,
        states2,
        arrivals2,
        e,
    ) by {
        assert(best_arrival(candidates, h, states, arrivals, e));
        assert(states[e] == states2[e]);
        if states[e] != not_reached() {
            let s = choose|s: int| #[trigger]
                linked(candidates, states, h, s, e) && states[e] == arrival(states, arrivals, s, e)
                    && beats(states[e], not_reached());
            assert(states[s] == states2[s]);
            assert(arrivals[(s, e)] == arrivals2[(s, e)]);
            assert(linked(candidates, states2, h, s, e));
        }
        assert forall|s: int| #[trigger] linked(candidates, states2, h, s, e) implies !beats(
            arrival(states2, arrivals2, s, e),
            states2[e],
        ) by {
            assert(states[s] == states2[s]);
            assert(arrivals[(s, e)] == arrivals2[(s, e)]);
            assert(linked(candidates, states, h, s, e));
        }
    }
    assert forall|s: int, e: int|
        e < n && #[trigger] linked(candidates, states2, h, s, e) implies extends(
        scoring,
        states2[s].cost,
        edge_between(candidates, policy, s, e),
        arrivals2[(s, e)],
    ) by {
        assert(states[s] == states2[s]);
        assert(arrivals[(s, e)] == arrivals2[(s, e)]);
        assert(linked(candidates, states, h, s, e));
    }
}

/// Finds the best way to each boundary.
pub(crate) fn best_ways<S: Copy, M: Scoring<S>>(
    candidates: &Vec<BoundaryCandidate>,
    policy: ChunkPolicy,
    scoring: &M,
) -> (table: (Vec<PlanState>, Ghost<Map<(int, int), i64>>))
    requires
        candidates.len() > 0,
        ordered(candidates@),
    ensures
        plan_table(scoring, candidates@, policy, table.0@, table.1@),
{
    let count: usize = candidates.len();
    let hard_max: usize = policy.hard_max_samples;
    let mut states: Vec<PlanState> = Vec::new();
    states.push(PlanState { cost: 0, chunks: 0, predecessor: None });
    let ghost mut arrivals: Map<(int, int), i64> = Map::empty();
    let mut filled: usize = 1;
    while filled < count
        invariant
            1 <= filled <= count,
            states.len() == filled,
            states@[0] == at_start(),
            forall|i: int| 0 < i < filled ==> #[trigger] states@[i] == not_reached(),
        decreases count - filled,
    {
        states.push(
            PlanState { cost: INFINITE_COST, chunks: usize::MAX, predecessor: None },
        );
        filled = filled + 1;
    }

    let mut end_index: usize = 1;
    while end_index < count
        invariant
            count == candidates.len(),
            hard_max == policy.hard_max_samples,
            1 <= end_index <= count,
            ordered(candidates@),
            table_up_to(scoring, candidates@, policy, states@, arrivals, end_index as int),
            forall|i: int| end_index <= i < count ==> #[trigger] states@[i] == not_reached(),
        decreases count - end_index,
    {
        let end_candidate: BoundaryCandidate = candidates[end_index];
        let ghost e = end_index as int;
        let mut start_index: usize = end_index;
        while start_index > 0
            invariant_except_break
                forall|s: int|
                    start_index <= s && #[trigger] linked(candidates@, states@, hard_max, s, e)
                        ==> !beats(arrival(states@, arrivals, s, e), states@[e]) && extends(
                        scoring,
                        states@[s].cost,
                        edge_between(candidates@, policy, s, e),
                        arrivals[(s, e)],
                    ),
            invariant
                count == candidates.len(),
                hard_max == policy.hard_max_samples,
                e == end_index,
                end_candidate == candidates@[e],
                0 < e < count,
                0 <= start_index <= end_index,
                ordered(candidates@),
                table_up_to(scoring, candidates@, policy, states@, arrivals, e),
                forall|i: int| e < i < count ==> #[trigger] states@[i] == not_reached(),
                states@[e] == not_reached() || exists|s: int|
                    start_index <= s && #[trigger] linked(candidates@, states@, hard_max, s, e)
                        && states@[e] == arrival(
                        states@,
                        arrivals,
                        s,
                        e,
                    ) && beats(states@[e], not_reached()),
            ensures
                forall|s: int| #[trigger]
                    linked(candidates@, states@, hard_max, s, e) ==> !beats(
                        arrival(states@, arrivals, s, e),
                        states@[e],
                    ) && extends(
                        scoring,
                        states@[s].cost,
                        edge_between(candidates@, policy, s, e),
                        arrivals[(s, e)],
                    ),
            decreases start_index,
        {
            start_index = start_index - 1;
            let ghost s = start_index as int;
            assert(candidates@[s].sample < candidates@[e].sample);
            let span_samples: usize = end_candidate.sample - candidates[start_index].sample;
            if span_samples > hard_max {
                proof {
                    assert forall|t: int| #[trigger]
                        linked(candidates@, states@, hard_max, t, e) implies t > s by {
                        if t < s {
                            assert(candidates@[t].sample < candidates@[s].sample);
                        }
                    }
                }
                break;
            }
            let start_state: PlanState = states[start_index];
            if is_finite(start_state.cost) {
                let edge: i64 = edge_cost(
                    span_samples,
                    &end_candidate,
                    end_index == count - 1,
                    policy,
                    scoring,
                );
                let cost: i64 = scoring.plus(start_state.cost, edge);
                let way = PlanState {
                    cost,
                    chunks: start_state.chunks + 1,
                    predecessor: Some(start_index),
                };
                let ghost states0 = states@;
                let ghost arrivals0 = arrivals;
                proof {
                    arrivals = arrivals.insert((s, e), cost);
                    assert(costs(scoring, edge_between(candidates@, policy, s, e), edge));
                    assert(sums(scoring, start_state.cost, edge, cost));
                    assert(extends(
                        scoring,
                        start_state.cost,
                        edge_between(candidates@, policy, s, e),
                        cost,
                    ));
                }
                if is_better(way, states[end_index]) {
                    states.set(end_index, way);
                }
                proof {
                    lemma_table_is_stable(
                        scoring,
                        candidates@,
                        policy,
                        states0,
                        arrivals0,
                        states@,
                        arrivals,
                        e,
                    );
                    assert(linked(candidates@, states@, hard_max, s, e));
                    assert(arrival(states@, arrivals, s, e) == way);
                    assert forall|t: int|
                        start_index <= t && #[trigger] linked(candidates@, states@, hard_max, t, e)
                        implies !beats(arrival(states@, arrivals, t, e), states@[e]) && extends(
                        scoring,
                        states@[t].cost,
                        edge_between(candidates@, policy, t, e),
                        arrivals[(t, e)],
                    ) by {
                        if t > s {
                            assert(linked(candidates@, states0, hard_max, t, e));
                            assert(arrival(states@, arrivals, t, e) == arrival(
                                states0,
                                arrivals0,
                                t,
                                e,
                            ));
                        }
                    }
                    if states@[e] != way && states0[e] != not_reached() {
                        let t = choose|t: int|
                            s < t && #[trigger] linked(candidates@, states0, hard_max, t, e)
                                && states0[e] == arrival(
                                states0,
                                arrivals0,
                                t,
                                e,
                            ) && beats(states0[e], not_reached());
                        assert(linked(candidates@, states@, hard_max, t, e));
                    }
                }
            } else {
                assert(!linked(candidates@, states@, hard_max, s, e));
            }
        }
        proof {
            assert(best_arrival(candidates@, hard_max, states@, arrivals, e));
            assert(chunks_bounded(states@, e + 1));
        }
        end_index = end_index + 1;
    }
    (states, Ghost(arrivals))
}

/// `path` leads from the first boundary to boundary `e`, every span on it allowed.
pub open spec fn is_path(
    candidates: Seq<BoundaryCandidate>,
    hard_max: usize,
    path: Seq<int>,
    e: int,
) -> bool {
    &&& path.len() > 0
    &&& path[0] == 0
    &&& path.last() == e
    &&& 0 <= e < candidates.len()
    &&& forall|i: int| 0 < i < path.len() ==> #[trigger] allowed_step(candidates, hard_max, path, i)
}

/// Step `i` of `path` leads to a later boundary by a span that is not too long.
pub open spec fn allowed_step(
    candidates: Seq<BoundaryCandidate>,
    hard_max: usize,
    path: Seq<int>,
    i: int,
) -> bool {
    &&& 0 <= path[i - 1] < path[i] < candidates.len()
    &&& candidates[path[i]].sample - candidates[path[i - 1]].sample <= hard_max
}

/// Step `i` of `path` is how its end is reached in the table of best ways.
pub open spec fn step_of_table(
    states: Seq<PlanState>,
    arrivals: Map<(int, int), i64>,
    path: Seq<int>,
    i: int,
) -> bool {
    states[path[i]] == arrival(states, arrivals, path[i - 1], path[i])
}

/// The best way to a reachable boundary is a path of reachable boundaries, of as
/// many spans as its state says.
pub proof fn lemma_path_to<S, M: Scoring<S>>(
    scoring: &M,
    candidates: Seq<BoundaryCandidate>,
    policy: ChunkPolicy,
    states: Seq<PlanState>,
    arrivals: Map<(int, int), i64>,
    e: int,
)
    requires
        plan_table(scoring, candidates, policy, states, arrivals),
        states.len() <= usize::MAX + 1,
        0 <= e < states.len(),
        finite_cost(states[e].cost),
    ensures
        is_path(candidates, policy.hard_max_samples, path_to(states, e), e),
        path_to(states, e).len() == states[e].chunks + 1,
        path_to(states, e).len() <= e + 1,
        forall|i: int|
            0 <= i < path_to(states, e).len() ==> 0 <= #[trigger] path_to(states, e)[i]
                < states.len() && finite_cost(states[path_to(states, e)[i]].cost),
        forall|i: int|
            0 < i < path_to(states, e).len() ==> #[trigger] step_of_table(
                states,
                arrivals,
                path_to(states, e),
                i,
            ),
    decreases e,
{
    let h = policy.hard_max_samples;
    if e > 0 {
        assert(best_arrival(candidates, h, states, arrivals, e));
        let s = choose|s: int| #[trigger]
            linked(candidates, states, h, s, e) && states[e] == arrival(states, arrivals, s, e)
                && beats(states[e], not_reached());
        lemma_path_to(scoring, candidates, policy, states, arrivals, s);
        let head = path_to(states, s);
        let path = path_to(states, e);
        assert(path == head.push(e));
        assert forall|i: int| 0 < i < path.len() implies #[trigger] allowed_step(
            candidates,
            h,
            path,
            i,
        ) by {
            if i < head.len() {
                assert(allowed_step(candidates, h, head, i));
            } else {
                assert(path[i - 1] == head.last());
            }
        }
        assert forall|i: int| 0 <= i < path.len() implies 0 <= #[trigger] path[i] < states.len()
            && finite_cost(states[path[i]].cost) by {
            if i < head.len() {
                assert(head[i] == path[i]);
            }
        }
        assert forall|i: int| 0 < i < path.len() implies #[trigger] step_of_table(
            states,
            arrivals,
            path,
            i,
        ) by {
            if i < head.len() {
                assert(step_of_table(states, arrivals, head, i));
            } else {
                assert(path[i - 1] == head.last());
            }
        }
    }
}

/// The spans of a path to the last boundary have full coverage.
pub proof fn lemma_path_covers(
    candidates: Seq<BoundaryCandidate>,
    hard_max: usize,
    path: Seq<int>,
    audio_len: nat,
)
    requires
        ordered(candidates),
        candidates.len() >= 2,
        candidates[0].sample == 0,
        candidates.last().sample == audio_len,
        is_path(candidates, hard_max, path, candidates.len() - 1),
    ensures
        full_coverage(spans_along(candidates, path), audio_len, hard_max as nat),
{
    let spans = spans_along(candidates, path);
    assert(path.len() >= 2);
    assert(candidates[0].sample < candidates[candidates.len() - 1].sample);
    assert forall|i: int| 0 <= i < spans.len() implies (#[trigger] spans[i]).start < spans[i].end
        && spans[i].end - spans[i].start <= hard_max by {
        assert(allowed_step(candidates, hard_max, path, i + 1));
    }
    assert(chained(spans));
}

/// Follows the best way back from the last boundary.
pub(crate) fn trace_back(
    candidates: &Vec<BoundaryCandidate>,
    states: &Vec<PlanState>,
) -> (spans: Vec<Range<usize>>)
    requires
        states.len() == candidates.len(),
        states.len() > 0,
    ensures
        spans@ == spans_along(candidates@, path_to(states@, states.len() - 1)),
{
    let last_index: usize = states.len() - 1;
    let ghost path = path_to(states@, last_index as int);
    let mut visited: Vec<usize> = Vec::new();
    let mut cursor: usize = last_index;
    visited.push(cursor);
    let mut going: bool = true;
    while going
        invariant
            states.len() == candidates.len(),
            last_index == states.len() - 1,
            cursor <= last_index,
            path == path_to(states@, last_index as int),
            visited.len() > 0,
            visited@.last() == cursor,
            forall|i: int| 0 <= i < visited.len() ==> #[trigger] visited@[i] <= last_index,
            path == path_to(states@, cursor as int) + Seq::new(
                (visited.len() - 1) as nat,
                |i: int| visited@[visited.len() - 2 - i] as int,
            ),
            !going ==> path_to(states@, cursor as int) == seq![cursor as int],
        decreases (if going {
            1int
        } else {
            0int
        }) + cursor,
    {
        match states[cursor].predecessor {
            Some(predecessor) if predecessor < cursor => {
                let ghost visited0 = visited@;
                let ghost cursor0 = cursor as int;
                let ghost tail0 = Seq::new(
                    (visited.len() - 1) as nat,
                    |i: int| visited@[visited.len() - 2 - i] as int,
                );
                cursor = predecessor;
                visited.push(cursor);
                proof {
                    let head = path_to(states@, cursor as int);
                    let tail = Seq::new(
                        (visited.len() - 1) as nat,
                        |i: int| visited@[visited.len() - 2 - i] as int,
                    );
                    assert(path_to(states@, cursor0) == head.push(cursor0));
                    assert(tail =~= seq![cursor0] + tail0);
                    assert(head.push(cursor0) + tail0 =~= head + tail);
                }
            },
            _ => {
                going = false;
            },
        }
    }
    proof {
        assert(path =~= Seq::new(
            visited@.len(),
            |i: int| visited@[visited.len() - 1 - i] as int,
        ));
    }
    let mut spans: Vec<Range<usize>> = Vec::new();
    let mut left: usize = visited.len() - 1;
    while left > 0
        invariant
            states.len() == candidates.len(),
            last_index == states.len() - 1,
            left < visited.len(),
            forall|i: int| 0 <= i < visited.len() ==> #[trigger] visited@[i] <= last_index,
            path == Seq::new(visited@.len(), |i: int| visited@[visited.len() - 1 - i] as int),
            spans.len() == visited.len() - 1 - left,
            forall|i: int|
                0 <= i < spans.len() ==> #[trigger] spans@[i] == (Range {
                    start: candidates@[path[i]].sample,
                    end: candidates@[path[i + 1]].sample,
                }),
        decreases left,
    {
        let start: usize = candidates[visited[left]].sample;
        let end: usize = candidates[visited[left - 1]].sample;
        spans.push(start..end);
        left = left - 1;
    }
    assert(spans@ =~= spans_along(candidates@, path));
    spans
}

/// Finds a globally scored sequence of contiguous, non-overlapping spans.
pub fn plan_spans<S: Copy, M: Scoring<S>>(
    audio: &[S],
    pauses: &[Range<usize>],
    policy: ChunkPolicy,
    scoring: &M,
) -> (spans: Vec<Range<usize>>)
    requires
        audio.len() > 0 ==> policy.valid(),
    ensures
        is_global_plan(scoring, audio@, pauses@, policy, spans@),
        full_coverage(spans@, audio.len() as nat, policy.hard_max_samples as nat),
{
    if audio.len() == 0 {
        return Vec::new();
    }
    if audio.len() <= policy.hard_max_samples {
        let mut spans: Vec<Range<usize>> = Vec::new();
        spans.push(0..audio.len());
        return spans;
    }
    let candidates: Vec<BoundaryCandidate> = boundary_candidates(audio, pauses, policy, scoring);
    proof {
        law_boundaries_span_the_audio(scoring, audio@, pauses@, policy, candidates@);
    }
    let (states, Ghost(arrivals)) = best_ways(&candidates, policy, scoring);
    let last_index: usize = candidates.len() - 1;
    if !is_finite(states[last_index].cost) {
        return fixed_maximum_spans(audio.len(), policy.hard_max_samples);
    }
    proof {
        lemma_path_to(scoring, candidates@, policy, states@, arrivals, last_index as int);
        lemma_path_covers(
            candidates@,
            policy.hard_max_samples,
            path_to(states@, last_index as int),
            audio@.len(),
        );
    }
    trace_back(&candidates, &states)
}

/// What a best plan for more than one span comes from.
pub proof fn lemma_plan_parts<S, M: Scoring<S>>(
    scoring: &M,
    audio: Seq<S>,
    pauses: Seq<Range<usize>>,
    policy: ChunkPolicy,
    spans: Seq<Range<usize>>,
) -> (parts: (Seq<BoundaryCandidate>, Seq<PlanState>, Map<(int, int), i64>))
    requires
        policy.hard_max_samples < audio.len(),
        is_global_plan(scoring, audio, pauses, policy, spans),
    ensures
        is_boundaries(scoring, audio, pauses, policy, parts.0),
        plan_table(scoring, parts.0, policy, parts.1, parts.2),
        spans == planned_spans(
            parts.0,
            parts.1,
            audio.len() as int,
            policy.hard_max_samples as int,
        ),
{
    choose|
        candidates: Seq<BoundaryCandidate>,
        states: Seq<PlanState>,
        arrivals: Map<(int, int), i64>,
    |
        {
            &&& #[trigger] is_boundaries(scoring, audio, pauses, policy, candidates)
            &&& #[trigger] plan_table(scoring, candidates, policy, states, arrivals)
            &&& spans == planned_spans(
                candidates,
                states,
                audio.len() as int,
                policy.hard_max_samples as int,
            )
        }
}

/// Law: every best plan covers the recording exactly once and in order, within
/// the hard maximum, whatever the scoring returned.
pub proof fn law_a_plan_covers_the_recording<S, M: Scoring<S>>(
    scoring: &M,
    audio: Seq<S>,
    pauses: Seq<Range<usize>>,
    policy: ChunkPolicy,
    spans: Seq<Range<usize>>,
)
    requires
        audio.len() <= usize::MAX,
        audio.len() > 0 ==> policy.valid(),
        is_global_plan(scoring, audio, pauses, policy, spans),
    ensures
        full_coverage(spans, audio.len(), policy.hard_max_samples as nat),
{
    if audio.len() > policy.hard_max_samples {
        let n = audio.len() as int;
        let h = policy.hard_max_samples as int;
        let (candidates, states, arrivals) = lemma_plan_parts(
            scoring,
            audio,
            pauses,
            policy,
            spans,
        );
        law_boundaries_span_the_audio(scoring, audio, pauses, policy, candidates);
        if finite_cost(states.last().cost) {
            lemma_fewer_candidates_than_samples(candidates);
            let last = states.len() - 1;
            lemma_path_to(scoring, candidates, policy, states, arrivals, last);
            lemma_path_covers(
                candidates,
                policy.hard_max_samples,
                path_to(states, last),
                audio.len(),
            );
        } else {
            lemma_fixed_spans_cover(n, h);
        }
    }
}

/// Candidates at ever later samples are no more than there are sample positions.
pub proof fn lemma_fewer_candidates_than_samples(candidates: Seq<BoundaryCandidate>)
    requires
        ordered(candidates),
        candidates.len() > 0,
    ensures
        candidates.len() <= candidates.last().sample + 1,
    decreases candidates.len(),
{
    if candidates.len() > 1 {
        let rest = candidates.drop_last();
        assert(candidates[candidates.len() - 2].sample < candidates[candidates.len() - 1].sample);
        lemma_fewer_candidates_than_samples(rest);
    }
}

} // verus!
