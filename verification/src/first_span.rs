//! The next span of a recording that is still running.

use crate::boundary::{
    boundary_candidates, boundary_rank, is_boundaries, law_boundaries_span_the_audio,
    law_inner_boundaries_have_a_reason, ordered, rank, BoundaryCandidate, BoundaryKind,
};
use crate::plan_laws::{lemma_repeatable_scores, lemma_same_boundaries, repeatable};
use crate::policy::ChunkPolicy;
use crate::scoring::{costs, edge_cost, terms_of, Scoring};
use std::ops::Range;
use vstd::prelude::*;

verus! {

/// A boundary that a first span may end at.
pub open spec fn eligible(policy: ChunkPolicy, candidate: BoundaryCandidate) -> bool {
    &&& policy.soft_min_samples <= candidate.sample <= policy.hard_max_samples
    &&& candidate.kind != BoundaryKind::End
}

/// `a` at cost `cost_a` goes before `b` at cost `cost_b`: it is cheaper, or as
/// cheap and of lower rank, or equal in both and earlier.
pub open spec fn goes_before(
    cost_a: i64,
    a: BoundaryCandidate,
    cost_b: i64,
    b: BoundaryCandidate,
) -> bool {
    ||| cost_a < cost_b
    ||| cost_a == cost_b && rank(a.kind) < rank(b.kind)
    ||| cost_a == cost_b && rank(a.kind) == rank(b.kind) && a.sample < b.sample
}

/// `scores` are the costs that `scoring` gave for a first span up to each
/// eligible boundary.
pub open spec fn first_costs<S, M: Scoring<S>>(
    scoring: &M,
    candidates: Seq<BoundaryCandidate>,
    policy: ChunkPolicy,
    scores: Seq<i64>,
) -> bool {
    &&& scores.len() == candidates.len()
    &&& forall|i: int|
        0 <= i < candidates.len() && eligible(policy, #[trigger] candidates[i]) ==> costs(
            scoring,
            terms_of(candidates[i].sample, candidates[i], false, policy),
            scores[i],
        )
}

/// Boundary `i` is eligible and goes before every other eligible one.
pub open spec fn is_choice(
    candidates: Seq<BoundaryCandidate>,
    policy: ChunkPolicy,
    scores: Seq<i64>,
    i: int,
) -> bool {
    &&& 0 <= i < candidates.len()
    &&& eligible(policy, candidates[i])
    &&& forall|j: int|
        0 <= j < candidates.len() && j != i && eligible(policy, #[trigger] candidates[j])
            ==> goes_before(scores[i], candidates[i], scores[j], candidates[j])
}

/// `end` is where the best first span ends: at the eligible boundary that goes
/// before all others, or at the hard maximum where none is eligible.
pub open spec fn ends_first_span(
    candidates: Seq<BoundaryCandidate>,
    policy: ChunkPolicy,
    scores: Seq<i64>,
    end: usize,
) -> bool {
    ||| exists|i: int| #[trigger]
        is_choice(candidates, policy, scores, i) && end == candidates[i].sample
    ||| end == policy.hard_max_samples && forall|i: int|
        0 <= i < candidates.len() ==> !eligible(policy, #[trigger] candidates[i])
}

/// `span` is the next span to commit of audio that goes on behind `audio`: all
/// of it if that is allowed, else up to the best eligible boundary.
pub open spec fn is_first_span<S, M: Scoring<S>>(
    scoring: &M,
    audio: Seq<S>,
    pauses: Seq<Range<usize>>,
    policy: ChunkPolicy,
    span: Option<Range<usize>>,
) -> bool {
    if audio.len() == 0 {
        span is None
    } else if audio.len() <= policy.hard_max_samples {
        span == Some(Range { start: 0usize, end: audio.len() as usize })
    } else {
        exists|candidates: Seq<BoundaryCandidate>, scores: Seq<i64>, end: usize|
            {
                &&& #[trigger] is_boundaries(scoring, audio, pauses, policy, candidates)
                &&& first_costs(scoring, candidates, policy, scores)
                &&& #[trigger] ends_first_span(candidates, policy, scores, end)
                &&& span == Some(Range { start: 0usize, end })
            }
    }
}

/// Chooses the next span to commit without taking the end of `audio` for the end
/// of the recording: only the first span is scored, and what lies behind it is
/// left for later.
pub fn plan_first_span<S: Copy, M: Scoring<S>>(
    audio: &[S],
    pauses: &[Range<usize>],
    policy: ChunkPolicy,
    scoring: &M,
) -> (span: Option<Range<usize>>)
    requires
        audio.len() > 0 ==> policy.valid(),
    ensures
        is_first_span(scoring, audio@, pauses@, policy, span),
        span is None <==> audio.len() == 0,
        span matches Some(r) ==> r.start == 0 && 0 < r.end <= audio.len() && r.end
            <= policy.hard_max_samples,
        audio.len() > policy.hard_max_samples ==> span->0.end >= policy.soft_min_samples,
{
    if audio.len() == 0 {
        return None;
    }
    if audio.len() <= policy.hard_max_samples {
        return Some(0..audio.len());
    }
    let candidates: Vec<BoundaryCandidate> = boundary_candidates(audio, pauses, policy, scoring);
    proof {
        law_boundaries_span_the_audio(scoring, audio@, pauses@, policy, candidates@);
    }
    let mut best: Option<usize> = None;
    let mut best_cost: i64 = 0;
    let mut index: usize = 0;
    let ghost mut scores: Seq<i64> = seq![];
    while index < candidates.len()
        invariant
            0 <= index <= candidates.len(),
            ordered(candidates@),
            scores.len() == index,
            forall|i: int|
                0 <= i < index && eligible(policy, #[trigger] candidates@[i]) ==> costs(
                    scoring,
                    terms_of(candidates@[i].sample, candidates@[i], false, policy),
                    scores[i],
                ),
            match best {
                None => forall|i: int|
                    0 <= i < index ==> !eligible(policy, #[trigger] candidates@[i]),
                Some(b) => {
                    &&& b < index
                    &&& best_cost == scores[b as int]
                    &&& eligible(policy, candidates@[b as int])
                    &&& forall|j: int|
                        0 <= j < index && j != b && eligible(policy, #[trigger] candidates@[j])
                            ==> goes_before(
                            scores[b as int],
                            candidates@[b as int],
                            scores[j],
                            candidates@[j],
                        )
                },
            },
        decreases candidates.len() - index,
    {
        let candidate: BoundaryCandidate = candidates[index];
        let ghost mut score: i64 = 0;
        if candidate.sample >= policy.soft_min_samples && candidate.sample
            <= policy.hard_max_samples && candidate.kind != BoundaryKind::End {
            let cost: i64 = edge_cost(candidate.sample, &candidate, false, policy, scoring);
            proof {
                score = cost;
            }
            match best {
                None => {
                    best = Some(index);
                    best_cost = cost;
                },
                Some(b) => {
                    let rank_new: u8 = boundary_rank(candidate.kind);
                    let rank_best: u8 = boundary_rank(candidates[b].kind);
                    assert(candidates@[b as int].sample < candidate.sample);
                    if cost < best_cost || (cost == best_cost && rank_new < rank_best) {
                        best = Some(index);
                        best_cost = cost;
                    }
                },
            }
        }
        proof {
            scores = scores.push(score);
        }
        index = index + 1;
    }
    let end: usize = match best {
        Some(b) => candidates[b].sample,
        None => policy.hard_max_samples,
    };
    proof {
        assert(first_costs(scoring, candidates@, policy, scores));
        if let Some(b) = best {
            assert(is_choice(candidates@, policy, scores, b as int));
        }
        assert(ends_first_span(candidates@, policy, scores, end));
    }
    Some(0..end)
}

/// What the next span of a window beyond the hard maximum comes from.
pub proof fn lemma_first_span_parts<S, M: Scoring<S>>(
    scoring: &M,
    audio: Seq<S>,
    pauses: Seq<Range<usize>>,
    policy: ChunkPolicy,
    span: Option<Range<usize>>,
) -> (parts: (Seq<BoundaryCandidate>, Seq<i64>, usize))
    requires
        policy.hard_max_samples < audio.len(),
        is_first_span(scoring, audio, pauses, policy, span),
    ensures
        is_boundaries(scoring, audio, pauses, policy, parts.0),
        first_costs(scoring, parts.0, policy, parts.1),
        ends_first_span(parts.0, policy, parts.1, parts.2),
        span == Some(Range { start: 0usize, end: parts.2 }),
{
    choose|candidates: Seq<BoundaryCandidate>, scores: Seq<i64>, end: usize|
        {
            &&& #[trigger] is_boundaries(scoring, audio, pauses, policy, candidates)
            &&& first_costs(scoring, candidates, policy, scores)
            &&& #[trigger] ends_first_span(candidates, policy, scores, end)
            &&& span == Some(Range { start: 0usize, end })
        }
}

/// Law: the next span starts at the first sample, is not empty, and keeps the
/// hard maximum; where more audio than that is at hand, it keeps the soft
/// minimum too.
pub proof fn law_a_first_span_keeps_the_limits<S, M: Scoring<S>>(
    scoring: &M,
    audio: Seq<S>,
    pauses: Seq<Range<usize>>,
    policy: ChunkPolicy,
    span: Option<Range<usize>>,
)
    requires
        0 < audio.len() <= usize::MAX,
        policy.valid(),
        is_first_span(scoring, audio, pauses, policy, span),
    ensures
        span is Some,
        span->0.start == 0,
        0 < span->0.end <= audio.len(),
        span->0.end <= policy.hard_max_samples,
        audio.len() > policy.hard_max_samples ==> span->0.end >= policy.soft_min_samples,
{
}

/// Law: where more audio is at hand than the hard maximum, the next span ends at
/// a boundary, between the soft minimum and the hard maximum, that is not the end
/// of the audio, and only where there is none at the hard maximum itself.
pub proof fn law_a_first_span_ends_at_a_boundary<S, M: Scoring<S>>(
    scoring: &M,
    audio: Seq<S>,
    pauses: Seq<Range<usize>>,
    policy: ChunkPolicy,
    candidates: Seq<BoundaryCandidate>,
    span: Option<Range<usize>>,
)
    requires
        repeatable(scoring),
        policy.valid(),
        policy.hard_max_samples < audio.len() <= usize::MAX,
        is_boundaries(scoring, audio, pauses, policy, candidates),
        is_first_span(scoring, audio, pauses, policy, span),
    ensures
        span matches Some(r) && r.start == 0,
        ({
            ||| exists|i: int|
                0 <= i < candidates.len() && (#[trigger] candidates[i]).sample == span->0.end
                    && policy.soft_min_samples <= candidates[i].sample <= policy.hard_max_samples
            ||| span->0.end == policy.hard_max_samples && forall|i: int|
                0 <= i < candidates.len() ==> (#[trigger] candidates[i]).sample
                    < policy.soft_min_samples || policy.hard_max_samples < candidates[i].sample
        }),
{
    lemma_repeatable_scores(scoring);
    let (chosen, scores, end) = lemma_first_span_parts(scoring, audio, pauses, policy, span);
    lemma_same_boundaries(scoring, audio, pauses, policy, candidates, chosen);
    assert forall|i: int|
        0 <= i < candidates.len() && (#[trigger] candidates[i]).kind == BoundaryKind::End implies
        candidates[i].sample == audio.len() by {
        law_inner_boundaries_have_a_reason(scoring, audio, pauses, policy, candidates, i);
    }
    if exists|i: int| #[trigger]
        is_choice(candidates, policy, scores, i) && end == candidates[i].sample {
        let i = choose|i: int| #[trigger]
            is_choice(candidates, policy, scores, i) && end == candidates[i].sample;
        assert(candidates[i].sample == span->0.end);
    } else {
        assert forall|i: int| 0 <= i < candidates.len() implies (#[trigger] candidates[i]).sample
            < policy.soft_min_samples || policy.hard_max_samples < candidates[i].sample by {
            assert(!eligible(policy, candidates[i]));
        }
    }
}

/// Law: the next span is the cheapest: no span up to another boundary between the
/// soft minimum and the hard maximum costs less. Of those that cost the same one
/// that ends in a pause is taken, and of those of one kind the shortest.
pub proof fn law_the_first_span_is_cheapest<S, M: Scoring<S>>(
    scoring: &M,
    audio: Seq<S>,
    pauses: Seq<Range<usize>>,
    policy: ChunkPolicy,
    candidates: Seq<BoundaryCandidate>,
    span: Option<Range<usize>>,
    i: int,
    j: int,
    x: i64,
    y: i64,
)
    requires
        repeatable(scoring),
        policy.valid(),
        policy.hard_max_samples < audio.len() <= usize::MAX,
        is_boundaries(scoring, audio, pauses, policy, candidates),
        is_first_span(scoring, audio, pauses, policy, span),
        0 <= i < candidates.len(),
        0 <= j < candidates.len(),
        span == Some(Range { start: 0usize, end: candidates[i].sample }),
        policy.soft_min_samples <= candidates[j].sample <= policy.hard_max_samples,
        costs(scoring, terms_of(candidates[i].sample, candidates[i], false, policy), x),
        costs(scoring, terms_of(candidates[j].sample, candidates[j], false, policy), y),
    ensures
        x <= y,
        x == y && candidates[j].kind == BoundaryKind::VadPause ==> candidates[i].kind
            == BoundaryKind::VadPause,
        x == y && candidates[j].kind == candidates[i].kind ==> candidates[i].sample
            <= candidates[j].sample,
{
    lemma_repeatable_scores(scoring);
    let (chosen, scores, end) = lemma_first_span_parts(scoring, audio, pauses, policy, span);
    lemma_same_boundaries(scoring, audio, pauses, policy, candidates, chosen);
    law_boundaries_span_the_audio(scoring, audio, pauses, policy, candidates);
    law_inner_boundaries_have_a_reason(scoring, audio, pauses, policy, candidates, i);
    law_inner_boundaries_have_a_reason(scoring, audio, pauses, policy, candidates, j);
    assert(eligible(policy, candidates[j]));
    let k = choose|k: int| #[trigger]
        is_choice(candidates, policy, scores, k) && end == candidates[k].sample;
    assert(is_choice(candidates, policy, scores, k));
    assert(k == i) by {
        if k < i {
            assert(candidates[k].sample < candidates[i].sample);
        } else if i < k {
            assert(candidates[i].sample < candidates[k].sample);
        }
    }
    assert(eligible(policy, candidates[i]));
    assert(scores[i] == x);
    assert(scores[j] == y);
    if j != i {
        assert(goes_before(x, candidates[i], y, candidates[j]));
    }
}

} // verus!
