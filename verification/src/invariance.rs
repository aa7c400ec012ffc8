//! What plans do not depend on.

use crate::boundary::{
    at_least_silent, clipped, cut_window, end_boundary, energy_grid, first_least, grid_point,
    has_candidate_at, has_source, is_boundaries, is_quietest_cut, lemma_boundary_parts,
    lemma_multiple_inside, moved_on, offers, pause_cut, pause_cuts, prevails, rank, settled_offers,
    start_boundary, window_energies, BoundaryCandidate, BoundaryKind,
};
use crate::first_span::{is_first_span, lemma_first_span_parts};
use crate::plan::{is_global_plan, lemma_plan_parts};
use crate::plan_laws::{
    law_a_first_span_is_deterministic, law_planning_is_deterministic, lemma_ordered_once,
    lemma_repeatable_scores, lemma_same_grid_point, lemma_same_pause_cut, repeatable,
    repeatable_scores,
};
use crate::policy::ChunkPolicy;
use crate::rolling::horizon;
use crate::scoring::{adds_sample, energizes, levels, measures, partial_sums, slides, sums, Scoring};
use crate::suffix::{is_suffix_plan, lemma_suffix_parts};
use crate::suffix_laws::law_suffix_planning_is_deterministic;
use std::ops::Range;
use vstd::prelude::*;

verus! {

/// Sample for sample, `scoring` may give the two recordings the same energies.
pub open spec fn alike<S, M: Scoring<S>>(scoring: &M, a: Seq<S>, b: Seq<S>) -> bool {
    &&& a.len() == b.len()
    &&& forall|i: int, energy: i64|
        0 <= i < a.len() ==> (#[trigger] energizes(scoring, a[i], energy) <==> energizes(
            scoring,
            b[i],
            energy,
        ))
}

proof fn lemma_alike_is_mutual<S, M: Scoring<S>>(scoring: &M, a: Seq<S>, b: Seq<S>)
    requires
        alike(scoring, a, b),
    ensures
        alike(scoring, b, a),
{
    assert forall|i: int, energy: i64| 0 <= i < b.len() implies (#[trigger] energizes(
        scoring,
        b[i],
        energy,
    ) <==> energizes(scoring, a[i], energy)) by {
        assert(energizes(scoring, a[i], energy) || !energizes(scoring, a[i], energy));
    }
}

proof fn lemma_alike_measures<S, M: Scoring<S>>(
    scoring: &M,
    a: Seq<S>,
    b: Seq<S>,
    start: int,
    end: int,
    energy: i64,
)
    requires
        alike(scoring, a, b),
        0 <= start <= end <= a.len(),
        measures(scoring, a.subrange(start, end), energy),
    ensures
        measures(scoring, b.subrange(start, end), energy),
{
    reveal(measures);
    let wa = a.subrange(start, end);
    let wb = b.subrange(start, end);
    let partial = choose|partial: Seq<i64>| #[trigger]
        partial_sums(scoring, wa, partial) && partial.last() == energy;
    assert forall|i: int| 0 <= i < wb.len() implies #[trigger] adds_sample(
        scoring,
        wb,
        partial,
        i,
    ) by {
        assert(adds_sample(scoring, wa, partial, i));
        let e = choose|e: i64| #[trigger]
            energizes(scoring, wa[i], e) && sums(scoring, partial[i], e, partial[i + 1]);
        assert(energizes(scoring, a[start + i], e));
        assert(energizes(scoring, wb[i], e));
    }
    assert(partial_sums(scoring, wb, partial));
}

proof fn lemma_alike_cut<S, M: Scoring<S>>(
    scoring: &M,
    a: Seq<S>,
    b: Seq<S>,
    start: int,
    end: int,
    energy_window: int,
    sample: int,
    rms: u32,
)
    requires
        alike(scoring, a, b),
        0 <= start < end <= a.len(),
        is_quietest_cut(scoring, a, start, end, energy_window, sample, rms),
    ensures
        is_quietest_cut(scoring, b, start, end, energy_window, sample, rms),
{
    let window = cut_window(end - start, energy_window);
    let (energies, best) = choose|energies: Seq<i64>, best: int|
        {
            &&& energies.len() == end - start - window + 1
            &&& #[trigger] window_energies(scoring, a, start, window, energies)
            &&& #[trigger] first_least(energies, best)
            &&& sample == start + best + window / 2
            &&& levels(scoring, at_least_silent(energies[best]), window as usize, rms)
        };
    lemma_alike_measures(scoring, a, b, start, start + window, energies[0]);
    assert forall|k: int| 0 < k < energies.len() implies #[trigger] moved_on(
        scoring,
        b,
        start,
        window,
        energies,
        k,
    ) by {
        assert(moved_on(scoring, a, start, window, energies, k));
        reveal(slides);
        let leaving = start + k - 1;
        let entering = start + k - 1 + window;
        assert forall|e: i64| #[trigger] energizes(scoring, a[leaving], e) implies energizes(
            scoring,
            b[leaving],
            e,
        ) by {}
        assert forall|e: i64| #[trigger] energizes(scoring, a[entering], e) implies energizes(
            scoring,
            b[entering],
            e,
        ) by {}
    }
    assert(window_energies(scoring, b, start, window, energies));
}

proof fn lemma_alike_boundaries<S, M: Scoring<S>>(
    scoring: &M,
    a: Seq<S>,
    b: Seq<S>,
    pauses: Seq<Range<usize>>,
    policy: ChunkPolicy,
    candidates: Seq<BoundaryCandidate>,
)
    requires
        alike(scoring, a, b),
        0 < a.len(),
        policy.energy_window_samples > 0,
        is_boundaries(scoring, a, pauses, policy, candidates),
    ensures
        is_boundaries(scoring, b, pauses, policy, candidates),
{
    let w = policy.energy_window_samples as int;
    let n = a.len() as int;
    let (cuts, grid) = lemma_boundary_parts(scoring, a, pauses, policy, candidates);
    assert forall|i: int| 0 <= i < cuts.len() implies pause_cut(
        scoring,
        b,
        pauses[i],
        policy,
        #[trigger] cuts[i],
    ) by {
        assert(pause_cut(scoring, a, pauses[i], policy, cuts[i]));
        let start = clipped(pauses[i].start as int, n);
        let end = clipped(pauses[i].end as int, n);
        if start < end && end - start >= policy.min_pause_samples {
            assert forall|sample: int, rms: u32| #[trigger]
                is_quietest_cut(scoring, a, start, end, w, sample, rms) implies is_quietest_cut(
                scoring,
                b,
                start,
                end,
                w,
                sample,
                rms,
            ) by {
                lemma_alike_cut(scoring, a, b, start, end, w, sample, rms);
            }
        }
    }
    assert forall|i: int| 0 <= i < grid.len() implies grid_point(
        scoring,
        b,
        w,
        (i + 1) * w,
        #[trigger] grid[i],
    ) by {
        assert(grid_point(scoring, a, w, (i + 1) * w, grid[i]));
        lemma_multiple_inside(n, w, i + 1);
        let sample = (i + 1) * w;
        assert(sample >= w) by (nonlinear_arith)
            requires
                sample == (i + 1) * w,
                0 <= i,
                0 < w,
        ;
        let start = sample - w / 2;
        let end = clipped(start + w, n);
        let (energy, rms) = choose|energy: i64, rms: u32|
            {
                &&& #[trigger] measures(scoring, a.subrange(start, end), energy)
                &&& #[trigger] levels(scoring, energy, (end - start) as usize, rms)
                &&& grid[i] == Some(
                    BoundaryCandidate {
                        sample: sample as usize,
                        kind: BoundaryKind::EnergyFallback,
                        pause_samples: 0,
                        rms,
                    },
                )
            };
        lemma_alike_measures(scoring, a, b, start, end, energy);
    }
    assert(pause_cuts(scoring, b, pauses, policy, cuts));
    assert(energy_grid(scoring, b, w, grid));
}

proof fn lemma_alike_plans<S, M: Scoring<S>>(
    scoring: &M,
    a: Seq<S>,
    b: Seq<S>,
    pauses: Seq<Range<usize>>,
    policy: ChunkPolicy,
    spans: Seq<Range<usize>>,
    span: Option<Range<usize>>,
)
    requires
        alike(scoring, a, b),
        a.len() > 0 ==> policy.valid(),
    ensures
        is_global_plan(scoring, a, pauses, policy, spans) ==> is_global_plan(
            scoring,
            b,
            pauses,
            policy,
            spans,
        ),
        is_suffix_plan(scoring, a, pauses, policy, spans) ==> is_suffix_plan(
            scoring,
            b,
            pauses,
            policy,
            spans,
        ),
        is_first_span(scoring, a, pauses, policy, span) ==> is_first_span(
            scoring,
            b,
            pauses,
            policy,
            span,
        ),
{
    let n = a.len() as int;
    if n > policy.hard_max_samples {
        if is_global_plan(scoring, a, pauses, policy, spans) {
            let (candidates, states, arrivals) = lemma_plan_parts(
                scoring,
                a,
                pauses,
                policy,
                spans,
            );
            lemma_alike_boundaries(scoring, a, b, pauses, policy, candidates);
        }
        if n < horizon(policy) && is_suffix_plan(scoring, a, pauses, policy, spans) {
            let (candidates, states, arrivals) = lemma_suffix_parts(
                scoring,
                a,
                pauses,
                policy,
                spans,
            );
            lemma_alike_boundaries(scoring, a, b, pauses, policy, candidates);
        }
        if is_first_span(scoring, a, pauses, policy, span) {
            let (candidates, scores, end) = lemma_first_span_parts(
                scoring,
                a,
                pauses,
                policy,
                span,
            );
            lemma_alike_boundaries(scoring, a, b, pauses, policy, candidates);
        }
    }
}

/// Law: a plan depends on the energies of the samples alone. Recordings whose
/// samples have equal energies may be planned in the same ways, and no others.
pub proof fn law_equal_energies_are_planned_alike<S, M: Scoring<S>>(
    scoring: &M,
    a: Seq<S>,
    b: Seq<S>,
    pauses: Seq<Range<usize>>,
    policy: ChunkPolicy,
    spans: Seq<Range<usize>>,
    span: Option<Range<usize>>,
)
    requires
        alike(scoring, a, b),
        a.len() > 0 ==> policy.valid(),
    ensures
        is_global_plan(scoring, a, pauses, policy, spans) <==> is_global_plan(
            scoring,
            b,
            pauses,
            policy,
            spans,
        ),
        is_suffix_plan(scoring, a, pauses, policy, spans) <==> is_suffix_plan(
            scoring,
            b,
            pauses,
            policy,
            spans,
        ),
        is_first_span(scoring, a, pauses, policy, span) <==> is_first_span(
            scoring,
            b,
            pauses,
            policy,
            span,
        ),
{
    lemma_alike_is_mutual(scoring, a, b);
    lemma_alike_plans(scoring, a, b, pauses, policy, spans, span);
    lemma_alike_plans(scoring, b, a, pauses, policy, spans, span);
}

/// Law: with a scoring that returns the same for the same arguments, recordings
/// whose samples have equal energies have the same plan.
pub proof fn law_equal_energies_have_one_plan<S, M: Scoring<S>>(
    scoring: &M,
    a: Seq<S>,
    b: Seq<S>,
    pauses: Seq<Range<usize>>,
    policy: ChunkPolicy,
    spans_a: Seq<Range<usize>>,
    spans_b: Seq<Range<usize>>,
)
    requires
        repeatable(scoring),
        alike(scoring, a, b),
        a.len() <= usize::MAX,
        a.len() > 0 ==> policy.valid(),
        is_global_plan(scoring, a, pauses, policy, spans_a),
        is_global_plan(scoring, b, pauses, policy, spans_b),
    ensures
        spans_a == spans_b,
{
    law_equal_energies_are_planned_alike(scoring, a, b, pauses, policy, spans_b, None);
    law_planning_is_deterministic(scoring, a, pauses, policy, spans_a, spans_b);
}

/// A pause that counts: inside the audio it is long enough.
pub open spec fn long_pause(
    audio_len: int,
    policy: ChunkPolicy,
    pause: Range<usize>,
) -> bool {
    let start = clipped(pause.start as int, audio_len);
    let end = clipped(pause.end as int, audio_len);
    start < end && end - start >= policy.min_pause_samples
}

/// The pauses that count are the same in `a` and `b`, in whatever order, however
/// often, and among whatever pauses that do not count.
pub open spec fn same_long_pauses(
    audio_len: int,
    policy: ChunkPolicy,
    a: Seq<Range<usize>>,
    b: Seq<Range<usize>>,
) -> bool {
    &&& forall|i: int|
        0 <= i < a.len() && long_pause(audio_len, policy, #[trigger] a[i]) ==> b.contains(a[i])
    &&& forall|i: int|
        0 <= i < b.len() && long_pause(audio_len, policy, #[trigger] b[i]) ==> a.contains(b[i])
}

/// No two of the pauses that count have a sample in common.
pub open spec fn disjoint_pauses(
    audio_len: int,
    policy: ChunkPolicy,
    pauses: Seq<Range<usize>>,
) -> bool {
    forall|i: int, j: int|
        0 <= i < pauses.len() && 0 <= j < pauses.len() && long_pause(
            audio_len,
            policy,
            #[trigger] pauses[i],
        ) && long_pause(audio_len, policy, #[trigger] pauses[j]) && pauses[i] != pauses[j]
            ==> pauses[i].end <= pauses[j].start || pauses[j].end <= pauses[i].start
}

/// A pause that offers a cut is one that counts, and the cut lies inside it.
proof fn lemma_cut_of_a_long_pause<S, M: Scoring<S>>(
    scoring: &M,
    audio: Seq<S>,
    pause: Range<usize>,
    policy: ChunkPolicy,
    cut: Option<BoundaryCandidate>,
)
    requires
        audio.len() <= usize::MAX,
        pause_cut(scoring, audio, pause, policy, cut),
        cut is Some,
    ensures
        long_pause(audio.len() as int, policy, pause),
        cut->0.kind == BoundaryKind::VadPause,
        pause.start <= cut->0.sample < pause.end,
{
}

/// Everything that is measured for the boundaries of a recording.
spec fn measured<S, M: Scoring<S>>(
    scoring: &M,
    audio: Seq<S>,
    pauses: Seq<Range<usize>>,
    policy: ChunkPolicy,
    cuts: Seq<Option<BoundaryCandidate>>,
    grid: Seq<Option<BoundaryCandidate>>,
    candidates: Seq<BoundaryCandidate>,
) -> bool {
    &&& 0 < audio.len() <= usize::MAX
    &&& policy.energy_window_samples > 0
    &&& pause_cuts(scoring, audio, pauses, policy, cuts)
    &&& energy_grid(scoring, audio, policy.energy_window_samples as int, grid)
    &&& settled_offers(offers(audio.len() as int, cuts, grid), candidates)
}

/// Grid points on one sample are one, and lie inside the recording.
proof fn lemma_grid_point_at<S, M: Scoring<S>>(
    scoring: &M,
    audio: Seq<S>,
    w: int,
    grid: Seq<Option<BoundaryCandidate>>,
    i: int,
)
    requires
        0 < audio.len() <= usize::MAX,
        0 < w,
        energy_grid(scoring, audio, w, grid),
        0 <= i < grid.len(),
    ensures
        grid[i] is Some,
        grid[i]->0.kind == BoundaryKind::EnergyFallback,
        grid[i]->0.sample == (i + 1) * w,
        w <= (i + 1) * w < audio.len(),
{
    assert(grid_point(scoring, audio, w, (i + 1) * w, grid[i]));
    lemma_multiple_inside(audio.len() as int, w, i + 1);
    assert((i + 1) * w >= w) by (nonlinear_arith)
        requires
            0 <= i,
            0 < w,
    ;
}

/// Whatever is offered with the pauses `p` is offered with the pauses `q`.
proof fn lemma_offered_too<S, M: Scoring<S>>(
    scoring: &M,
    audio: Seq<S>,
    policy: ChunkPolicy,
    p: Seq<Range<usize>>,
    cuts_p: Seq<Option<BoundaryCandidate>>,
    grid_p: Seq<Option<BoundaryCandidate>>,
    cp: Seq<BoundaryCandidate>,
    q: Seq<Range<usize>>,
    cuts_q: Seq<Option<BoundaryCandidate>>,
    grid_q: Seq<Option<BoundaryCandidate>>,
    cq: Seq<BoundaryCandidate>,
    k: int,
) -> (l: int)
    requires
        repeatable_scores(scoring),
        same_long_pauses(audio.len() as int, policy, p, q),
        measured(scoring, audio, p, policy, cuts_p, grid_p, cp),
        measured(scoring, audio, q, policy, cuts_q, grid_q, cq),
        0 <= k < offers(audio.len() as int, cuts_p, grid_p).len(),
        offers(audio.len() as int, cuts_p, grid_p)[k] is Some,
    ensures
        0 <= l < offers(audio.len() as int, cuts_q, grid_q).len(),
        offers(audio.len() as int, cuts_q, grid_q)[l] == offers(
            audio.len() as int,
            cuts_p,
            grid_p,
        )[k],
{
    let n = audio.len() as int;
    let w = policy.energy_window_samples as int;
    let op = offers(n, cuts_p, grid_p);
    let oq = offers(n, cuts_q, grid_q);
    if k == 0 {
        assert(op[0] == Some(start_boundary()) && oq[0] == Some(start_boundary()));
        0
    } else if k <= cuts_p.len() {
        let i = k - 1;
        assert(op[k] == cuts_p[i]);
        assert(pause_cut(scoring, audio, p[i], policy, cuts_p[i]));
        lemma_cut_of_a_long_pause(scoring, audio, p[i], policy, cuts_p[i]);
        assert(q.contains(p[i]));
        let j = choose|j: int| 0 <= j < q.len() && q[j] == p[i];
        assert(pause_cut(scoring, audio, q[j], policy, cuts_q[j]));
        lemma_same_pause_cut(scoring, audio, audio, p[i], policy, cuts_p[i], cuts_q[j]);
        assert(oq[j + 1] == cuts_q[j]);
        j + 1
    } else if k <= cuts_p.len() + grid_p.len() {
        let g = k - 1 - cuts_p.len();
        assert(op[k] == grid_p[g]);
        lemma_grid_point_at(scoring, audio, w, grid_p, g);
        assert(grid_point(scoring, audio, w, (g + 1) * w, grid_p[g]));
        assert(grid_point(scoring, audio, w, (g + 1) * w, grid_q[g]));
        lemma_same_grid_point(scoring, audio, audio, w, (g + 1) * w, grid_p[g], grid_q[g]);
        assert(oq[1 + cuts_q.len() + g] == grid_q[g]);
        1 + cuts_q.len() + g
    } else {
        assert(op[k] == Some(end_boundary(n)));
        assert(oq[oq.len() - 1] == Some(end_boundary(n)));
        oq.len() - 1
    }
}

/// Of what is offered, two of a kind on one sample are the same.
proof fn lemma_one_of_a_kind<S, M: Scoring<S>>(
    scoring: &M,
    audio: Seq<S>,
    policy: ChunkPolicy,
    pauses: Seq<Range<usize>>,
    cuts: Seq<Option<BoundaryCandidate>>,
    grid: Seq<Option<BoundaryCandidate>>,
    candidates: Seq<BoundaryCandidate>,
    k: int,
    l: int,
)
    requires
        repeatable_scores(scoring),
        disjoint_pauses(audio.len() as int, policy, pauses),
        measured(scoring, audio, pauses, policy, cuts, grid, candidates),
        0 <= k < offers(audio.len() as int, cuts, grid).len(),
        0 <= l < offers(audio.len() as int, cuts, grid).len(),
        offers(audio.len() as int, cuts, grid)[k] is Some,
        offers(audio.len() as int, cuts, grid)[l] is Some,
        ({
            let c = offers(audio.len() as int, cuts, grid)[k]->0;
            let d = offers(audio.len() as int, cuts, grid)[l]->0;
            c.sample == d.sample && c.kind == d.kind
        }),
    ensures
        offers(audio.len() as int, cuts, grid)[k] == offers(audio.len() as int, cuts, grid)[l],
{
    let n = audio.len() as int;
    let w = policy.energy_window_samples as int;
    let offered = offers(n, cuts, grid);
    assert forall|m: int| 0 <= m < offered.len() && (#[trigger] offered[m]) is Some implies {
        &&& m == 0 <==> offered[m]->0.kind == BoundaryKind::Start
        &&& 0 < m <= cuts.len() <==> offered[m]->0.kind == BoundaryKind::VadPause
        &&& m == offered.len() - 1 <==> offered[m]->0.kind == BoundaryKind::End
    } by {
        if m == 0 {
            assert(offered[m] == Some(start_boundary()));
        } else if m <= cuts.len() {
            assert(offered[m] == cuts[m - 1]);
            assert(pause_cut(scoring, audio, pauses[m - 1], policy, cuts[m - 1]));
            lemma_cut_of_a_long_pause(scoring, audio, pauses[m - 1], policy, cuts[m - 1]);
        } else if m <= cuts.len() + grid.len() {
            let g = m - 1 - cuts.len();
            assert(offered[m] == grid[g]);
            lemma_grid_point_at(scoring, audio, w, grid, g);
        } else {
            assert(offered[m] == Some(end_boundary(n)));
        }
    }
    if k != l {
        if 0 < k <= cuts.len() {
            let i = k - 1;
            let j = l - 1;
            assert(offered[k] == cuts[i] && offered[l] == cuts[j]);
            assert(pause_cut(scoring, audio, pauses[i], policy, cuts[i]));
            assert(pause_cut(scoring, audio, pauses[j], policy, cuts[j]));
            lemma_cut_of_a_long_pause(scoring, audio, pauses[i], policy, cuts[i]);
            lemma_cut_of_a_long_pause(scoring, audio, pauses[j], policy, cuts[j]);
            assert(pauses[i] == pauses[j]);
            lemma_same_pause_cut(scoring, audio, audio, pauses[i], policy, cuts[i], cuts[j]);
        } else {
            let g = k - 1 - cuts.len();
            let f = l - 1 - cuts.len();
            assert(offered[k] == grid[g] && offered[l] == grid[f]);
            lemma_grid_point_at(scoring, audio, w, grid, g);
            lemma_grid_point_at(scoring, audio, w, grid, f);
            assert(g == f) by (nonlinear_arith)
                requires
                    (g + 1) * w == (f + 1) * w,
                    0 < w,
            ;
        }
    }
}

proof fn lemma_candidate_too<S, M: Scoring<S>>(
    scoring: &M,
    audio: Seq<S>,
    policy: ChunkPolicy,
    p: Seq<Range<usize>>,
    cuts_p: Seq<Option<BoundaryCandidate>>,
    grid_p: Seq<Option<BoundaryCandidate>>,
    cp: Seq<BoundaryCandidate>,
    q: Seq<Range<usize>>,
    cuts_q: Seq<Option<BoundaryCandidate>>,
    grid_q: Seq<Option<BoundaryCandidate>>,
    cq: Seq<BoundaryCandidate>,
    c: BoundaryCandidate,
)
    requires
        repeatable_scores(scoring),
        same_long_pauses(audio.len() as int, policy, p, q),
        disjoint_pauses(audio.len() as int, policy, p),
        measured(scoring, audio, p, policy, cuts_p, grid_p, cp),
        measured(scoring, audio, q, policy, cuts_q, grid_q, cq),
        cp.contains(c),
    ensures
        cq.contains(c),
{
    let n = audio.len() as int;
    let op = offers(n, cuts_p, grid_p);
    let oq = offers(n, cuts_q, grid_q);
    let i = choose|i: int| 0 <= i < cp.len() && cp[i] == c;
    assert(has_source(op, cp[i]));
    let k = choose|k: int| #[trigger] prevails(op, k) && op[k] == Some(c);
    let l = lemma_offered_too(
        scoring,
        audio,
        policy,
        p,
        cuts_p,
        grid_p,
        cp,
        q,
        cuts_q,
        grid_q,
        cq,
        k,
    );
    assert(has_candidate_at(cq, oq[l]->0.sample));
    let j = choose|j: int| 0 <= j < cq.len() && (#[trigger] cq[j]).sample == c.sample;
    let d = cq[j];
    assert(has_source(oq, d));
    let m = choose|m: int| #[trigger] prevails(oq, m) && oq[m] == Some(d);
    let back = lemma_offered_too(
        scoring,
        audio,
        policy,
        q,
        cuts_q,
        grid_q,
        cq,
        p,
        cuts_p,
        grid_p,
        cp,
        m,
    );
    assert(op[back] is Some && op[back]->0.sample == op[k]->0.sample);
    assert(oq[l] is Some && oq[l]->0.sample == oq[m]->0.sample);
    assert(rank(c.kind) == rank(d.kind));
    lemma_one_of_a_kind(scoring, audio, policy, p, cuts_p, grid_p, cp, k, back);
}

/// The boundaries of a recording are the same with the same pauses that count.
proof fn lemma_same_boundaries_by_long_pauses<S, M: Scoring<S>>(
    scoring: &M,
    audio: Seq<S>,
    policy: ChunkPolicy,
    p: Seq<Range<usize>>,
    q: Seq<Range<usize>>,
    a: Seq<BoundaryCandidate>,
    b: Seq<BoundaryCandidate>,
)
    requires
        repeatable_scores(scoring),
        0 < audio.len() <= usize::MAX,
        policy.energy_window_samples > 0,
        same_long_pauses(audio.len() as int, policy, p, q),
        disjoint_pauses(audio.len() as int, policy, p),
        is_boundaries(scoring, audio, p, policy, a),
        is_boundaries(scoring, audio, q, policy, b),
    ensures
        a == b,
{
    let n = audio.len() as int;
    let (cuts_p, grid_p) = lemma_boundary_parts(scoring, audio, p, policy, a);
    let (cuts_q, grid_q) = lemma_boundary_parts(scoring, audio, q, policy, b);
    assert(disjoint_pauses(n, policy, q)) by {
        assert forall|i: int, j: int|
            0 <= i < q.len() && 0 <= j < q.len() && long_pause(n, policy, #[trigger] q[i])
                && long_pause(n, policy, #[trigger] q[j]) && q[i] != q[j] implies q[i].end
            <= q[j].start || q[j].end <= q[i].start by {
            let x = choose|x: int| 0 <= x < p.len() && p[x] == q[i];
            let y = choose|y: int| 0 <= y < p.len() && p[y] == q[j];
            assert(p.contains(q[i]) && p.contains(q[j]));
            assert(long_pause(n, policy, p[x]) && long_pause(n, policy, p[y]));
        }
    }
    assert forall|c: BoundaryCandidate| a.contains(c) implies b.contains(c) by {
        lemma_candidate_too(
            scoring,
            audio,
            policy,
            p,
            cuts_p,
            grid_p,
            a,
            q,
            cuts_q,
            grid_q,
            b,
            c,
        );
    }
    assert forall|c: BoundaryCandidate| b.contains(c) implies a.contains(c) by {
        lemma_candidate_too(
            scoring,
            audio,
            policy,
            q,
            cuts_q,
            grid_q,
            b,
            p,
            cuts_p,
            grid_p,
            a,
            c,
        );
    }
    lemma_ordered_once(a, b);
}

/// Law: the order of disjoint pauses does not matter, and pauses that are too
/// short are ignored. With the same pauses that count, a recording has the same
/// plan.
pub proof fn law_order_and_short_pauses_do_not_matter<S, M: Scoring<S>>(
    scoring: &M,
    audio: Seq<S>,
    policy: ChunkPolicy,
    p: Seq<Range<usize>>,
    q: Seq<Range<usize>>,
    a: Seq<Range<usize>>,
    b: Seq<Range<usize>>,
)
    requires
        repeatable(scoring),
        audio.len() <= usize::MAX,
        audio.len() > 0 ==> policy.valid(),
        disjoint_pauses(audio.len() as int, policy, p),
        same_long_pauses(audio.len() as int, policy, p, q),
        is_global_plan(scoring, audio, p, policy, a),
        is_global_plan(scoring, audio, q, policy, b),
    ensures
        a == b,
{
    lemma_repeatable_scores(scoring);
    if audio.len() > policy.hard_max_samples {
        let (ca, sa, aa) = lemma_plan_parts(scoring, audio, p, policy, a);
        let (cb, sb, ab) = lemma_plan_parts(scoring, audio, q, policy, b);
        lemma_same_boundaries_by_long_pauses(scoring, audio, policy, p, q, ca, cb);
        assert(is_boundaries(scoring, audio, p, policy, cb));
        assert(is_global_plan(scoring, audio, p, policy, b));
    }
    law_planning_is_deterministic(scoring, audio, p, policy, a, b);
}

/// Law: of the next span, and of what is left at the end of a recording, the same
/// holds.
pub proof fn law_order_and_short_pauses_do_not_matter_while_rolling<S, M: Scoring<S>>(
    scoring: &M,
    audio: Seq<S>,
    policy: ChunkPolicy,
    p: Seq<Range<usize>>,
    q: Seq<Range<usize>>,
    a: Seq<Range<usize>>,
    b: Seq<Range<usize>>,
    first_a: Option<Range<usize>>,
    first_b: Option<Range<usize>>,
)
    requires
        repeatable(scoring),
        audio.len() <= usize::MAX,
        audio.len() > 0 ==> policy.valid(),
        disjoint_pauses(audio.len() as int, policy, p),
        same_long_pauses(audio.len() as int, policy, p, q),
        is_suffix_plan(scoring, audio, p, policy, a),
        is_suffix_plan(scoring, audio, q, policy, b),
        is_first_span(scoring, audio, p, policy, first_a),
        is_first_span(scoring, audio, q, policy, first_b),
    ensures
        a == b,
        first_a == first_b,
{
    lemma_repeatable_scores(scoring);
    if audio.len() > policy.hard_max_samples {
        let (cp, scores_p, end_p) = lemma_first_span_parts(scoring, audio, p, policy, first_a);
        let (cq, scores_q, end_q) = lemma_first_span_parts(scoring, audio, q, policy, first_b);
        lemma_same_boundaries_by_long_pauses(scoring, audio, policy, p, q, cp, cq);
        assert(is_boundaries(scoring, audio, p, policy, cq));
        assert(is_first_span(scoring, audio, p, policy, first_b));
        if audio.len() < horizon(policy) {
            let (ca, sa, aa) = lemma_suffix_parts(scoring, audio, p, policy, a);
            let (cb, sb, ab) = lemma_suffix_parts(scoring, audio, q, policy, b);
            lemma_same_boundaries_by_long_pauses(scoring, audio, policy, p, q, ca, cb);
            assert(is_boundaries(scoring, audio, p, policy, cb));
            assert(is_suffix_plan(scoring, audio, p, policy, b));
        } else {
            law_order_and_short_pauses_do_not_matter(scoring, audio, policy, p, q, a, b);
        }
    }
    law_a_first_span_is_deterministic(scoring, audio, p, policy, first_a, first_b);
    if audio.len() <= policy.hard_max_samples || audio.len() < horizon(policy) {
        law_suffix_planning_is_deterministic(scoring, audio, p, policy, a, b);
    }
}

} // verus!
