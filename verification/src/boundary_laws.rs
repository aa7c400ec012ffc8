//! What boundaries mean.

use crate::boundary::{
    end_boundary, first_least, grid_point, has_candidate_at, has_source, is_boundaries,
    is_quietest_cut, law_boundaries_span_the_audio, lemma_boundary_parts, lemma_multiple_inside,
    moved_on, offers, pause_cut, prevails, rank, start_boundary, window_energies,
    BoundaryCandidate, BoundaryKind,
};
use crate::plan_laws::{lemma_repeatable_scores, lemma_same_pause_cut, repeatable};
use crate::policy::ChunkPolicy;
use crate::scoring::{levels, measures, slides, Scoring};
use std::ops::Range;
use vstd::prelude::*;

verus! {

/// The boundary on the sample that a pause is cut at is of that pause or of an
/// earlier one.
proof fn lemma_cut_prevails<S, M: Scoring<S>>(
    scoring: &M,
    audio: Seq<S>,
    pauses: Seq<Range<usize>>,
    policy: ChunkPolicy,
    candidates: Seq<BoundaryCandidate>,
    cuts: Seq<Option<BoundaryCandidate>>,
    grid: Seq<Option<BoundaryCandidate>>,
    i: int,
) -> (j: int)
    requires
        crate::boundary::pause_cuts(scoring, audio, pauses, policy, cuts),
        crate::boundary::energy_grid(
            scoring,
            audio,
            policy.energy_window_samples as int,
            grid,
        ),
        crate::boundary::settled_offers(offers(audio.len() as int, cuts, grid), candidates),
        0 < audio.len() <= usize::MAX,
        policy.energy_window_samples > 0,
        0 <= i < pauses.len(),
        cuts[i] is Some,
    ensures
        0 <= j < candidates.len(),
        candidates[j].sample == cuts[i]->0.sample,
        candidates[j].kind == BoundaryKind::VadPause,
        0 < cuts[i]->0.sample < audio.len(),
{
    let n = audio.len() as int;
    let offered = offers(n, cuts, grid);
    assert(pause_cut(scoring, audio, pauses[i], policy, cuts[i]));
    assert(offered[i + 1] == cuts[i]);
    assert(has_candidate_at(candidates, cuts[i]->0.sample));
    let j = choose|j: int|
        0 <= j < candidates.len() && (#[trigger] candidates[j]).sample == cuts[i]->0.sample;
    assert(has_source(offered, candidates[j]));
    let k = choose|k: int| #[trigger] prevails(offered, k) && offered[k] == Some(candidates[j]);
    assert(offered[i + 1] is Some && offered[i + 1]->0.sample == offered[k]->0.sample);
    assert(rank(offered[k]->0.kind) <= rank(offered[i + 1]->0.kind));
    if k == 0 {
        assert(offered[k] == Some(start_boundary()));
    } else if k <= cuts.len() {
        assert(offered[k] == cuts[k - 1]);
        assert(pause_cut(scoring, audio, pauses[k - 1], policy, cuts[k - 1]));
    } else if k <= cuts.len() + grid.len() {
        let g = k - 1 - cuts.len();
        assert(offered[k] == grid[g]);
        assert(grid_point(
            scoring,
            audio,
            policy.energy_window_samples as int,
            (g + 1) * policy.energy_window_samples as int,
            grid[g],
        ));
    } else {
        assert(offered[k] == Some(end_boundary(n)));
    }
    j
}

/// Law: every pause that is long enough, once it is clipped to the audio, is a
/// boundary: one of the boundaries stands at its quietest cut and is known as a
/// pause, wherever in the recording the pause lies, as long as the cut is not the
/// very start of the audio.
pub proof fn law_every_long_pause_is_a_boundary<S, M: Scoring<S>>(
    scoring: &M,
    audio: Seq<S>,
    pauses: Seq<Range<usize>>,
    policy: ChunkPolicy,
    candidates: Seq<BoundaryCandidate>,
    i: int,
    start: int,
    end: int,
    sample: int,
    rms: u32,
)
    requires
        repeatable(scoring),
        is_boundaries(scoring, audio, pauses, policy, candidates),
        0 < audio.len() <= usize::MAX,
        policy.energy_window_samples > 0,
        0 <= i < pauses.len(),
        start == if pauses[i].start < audio.len() {
            pauses[i].start as int
        } else {
            audio.len() as int
        },
        end == if pauses[i].end < audio.len() {
            pauses[i].end as int
        } else {
            audio.len() as int
        },
        start < end,
        policy.min_pause_samples <= end - start,
        is_quietest_cut(
            scoring,
            audio,
            start,
            end,
            policy.energy_window_samples as int,
            sample,
            rms,
        ),
        0 < sample < audio.len(),
    ensures
        exists|j: int|
            0 <= j < candidates.len() && (#[trigger] candidates[j]).sample == sample
                && candidates[j].kind == BoundaryKind::VadPause,
{
    lemma_repeatable_scores(scoring);
    let (cuts, grid) = lemma_boundary_parts(scoring, audio, pauses, policy, candidates);
    let cut = Some(
        BoundaryCandidate {
            sample: sample as usize,
            kind: BoundaryKind::VadPause,
            pause_samples: (end - start) as usize,
            rms,
        },
    );
    assert(pause_cut(scoring, audio, pauses[i], policy, cut));
    assert(pause_cut(scoring, audio, pauses[i], policy, cuts[i]));
    lemma_same_pause_cut(scoring, audio, audio, pauses[i], policy, cut, cuts[i]);
    let j = lemma_cut_prevails(
        scoring,
        audio,
        pauses,
        policy,
        candidates,
        cuts,
        grid,
        i,
    );
    assert(candidates[j].sample == sample);
}

/// Law: every pause that is long enough holds a boundary that is known as a
/// pause, whatever was measured. (A pause at the very start of the audio can be
/// cut there, at no sample inside, where it is one sample long or windows are.)
pub proof fn law_every_long_pause_holds_a_boundary<S, M: Scoring<S>>(
    scoring: &M,
    audio: Seq<S>,
    pauses: Seq<Range<usize>>,
    policy: ChunkPolicy,
    candidates: Seq<BoundaryCandidate>,
    i: int,
    end: int,
)
    requires
        is_boundaries(scoring, audio, pauses, policy, candidates),
        0 < audio.len() <= usize::MAX,
        policy.energy_window_samples > 0,
        0 <= i < pauses.len(),
        end == if pauses[i].end < audio.len() {
            pauses[i].end as int
        } else {
            audio.len() as int
        },
        pauses[i].start < end,
        policy.min_pause_samples <= end - pauses[i].start,
        0 < pauses[i].start || (2 <= end && 2 <= policy.energy_window_samples),
    ensures
        exists|j: int|
            0 <= j < candidates.len() && pauses[i].start <= (#[trigger] candidates[j]).sample < end
                && candidates[j].kind == BoundaryKind::VadPause,
{
    let (cuts, grid) = lemma_boundary_parts(scoring, audio, pauses, policy, candidates);
    let start = pauses[i].start as int;
    assert(pause_cut(scoring, audio, pauses[i], policy, cuts[i]));
    let (sample, rms) = choose|sample: int, rms: u32|
        #[trigger] is_quietest_cut(
            scoring,
            audio,
            start,
            end,
            policy.energy_window_samples as int,
            sample,
            rms,
        ) && cuts[i] == (if 0 < sample < audio.len() {
            Some(
                BoundaryCandidate {
                    sample: sample as usize,
                    kind: BoundaryKind::VadPause,
                    pause_samples: (end - start) as usize,
                    rms,
                },
            )
        } else {
            None
        });
    let window = if policy.energy_window_samples < end - start {
        policy.energy_window_samples as int
    } else {
        end - start
    };
    law_a_quiet_cut_comes_from_a_moving_window(
        scoring,
        audio,
        start,
        end,
        policy.energy_window_samples as int,
        window,
        sample,
        rms,
    );
    let j = lemma_cut_prevails(
        scoring,
        audio,
        pauses,
        policy,
        candidates,
        cuts,
        grid,
        i,
    );
    assert(start <= candidates[j].sample < end);
}

/// Law: the quietest cut of a stretch is found by moving a window over all of it,
/// sample by sample: it is the middle of the first window of least energy.
pub proof fn law_a_quiet_cut_comes_from_a_moving_window<S, M: Scoring<S>>(
    scoring: &M,
    audio: Seq<S>,
    start: int,
    end: int,
    energy_window: int,
    window: int,
    sample: int,
    rms: u32,
)
    requires
        0 <= start < end <= audio.len() <= usize::MAX,
        0 <= energy_window,
        window == if energy_window == 0 {
            1
        } else if energy_window < end - start {
            energy_window
        } else {
            end - start
        },
        is_quietest_cut(scoring, audio, start, end, energy_window, sample, rms),
    ensures
        ({
            let at = sample - start - window / 2;
            &&& 0 <= at <= end - start - window
            &&& start <= sample < end
            &&& exists|energies: Seq<i64>|
                {
                    &&& energies.len() == end - start - window + 1
                    &&& #[trigger] measures(
                        scoring,
                        audio.subrange(start, start + window),
                        energies[0],
                    )
                    &&& forall|k: int|
                        0 < k < energies.len() ==> slides(
                            scoring,
                            energies[k - 1],
                            audio[start + k - 1],
                            audio[start + k - 1 + window],
                            #[trigger] energies[k],
                        )
                    &&& forall|k: int| 0 <= k < at ==> energies[at] < #[trigger] energies[k]
                    &&& forall|k: int|
                        0 <= k < energies.len() ==> energies[at] <= #[trigger] energies[k]
                    &&& levels(
                        scoring,
                        if energies[at] < 0 {
                            0
                        } else {
                            energies[at]
                        },
                        window as usize,
                        rms,
                    )
                }
        }),
{
    let (energies, best) = lemma_cut_parts(
        scoring,
        audio,
        start,
        end,
        energy_window,
        window,
        sample,
        rms,
    );
    assert forall|k: int| 0 < k < energies.len() implies slides(
        scoring,
        energies[k - 1],
        audio[start + k - 1],
        audio[start + k - 1 + window],
        #[trigger] energies[k],
    ) by {
        assert(moved_on(scoring, audio, start, window, energies, k));
    }
    assert forall|k: int| 0 <= k < energies.len() implies energies[best]
        <= #[trigger] energies[k] by {
        if k < best {
            assert(energies[best] < energies[k]);
        }
    }
    assert(window / 2 < window) by (nonlinear_arith)
        requires
            0 < window,
    ;
    assert(measures(scoring, audio.subrange(start, start + window), energies[0]));
}

proof fn lemma_cut_parts<S, M: Scoring<S>>(
    scoring: &M,
    audio: Seq<S>,
    start: int,
    end: int,
    energy_window: int,
    window: int,
    sample: int,
    rms: u32,
) -> (parts: (Seq<i64>, int))
    requires
        0 <= start < end <= audio.len() <= usize::MAX,
        0 <= energy_window,
        window == if energy_window == 0 {
            1
        } else if energy_window < end - start {
            energy_window
        } else {
            end - start
        },
        is_quietest_cut(scoring, audio, start, end, energy_window, sample, rms),
    ensures
        parts.0.len() == end - start - window + 1,
        window_energies(scoring, audio, start, window, parts.0),
        first_least(parts.0, parts.1),
        sample == start + parts.1 + window / 2,
        levels(
            scoring,
            if parts.0[parts.1] < 0 {
                0
            } else {
                parts.0[parts.1]
            },
            window as usize,
            rms,
        ),
{
    assert(window == crate::boundary::cut_window(end - start, energy_window));
    choose|energies: Seq<i64>, best: int|
        {
            &&& energies.len() == end - start - window + 1
            &&& #[trigger] window_energies(scoring, audio, start, window, energies)
            &&& #[trigger] first_least(energies, best)
            &&& sample == start + best + window / 2
            &&& levels(
                scoring,
                crate::boundary::at_least_silent(energies[best]),
                window as usize,
                rms,
            )
        }
}

/// What `scoring` gives for a window that was moved on is what it gives for that
/// window measured afresh.
pub open spec fn moves_exactly<S, M: Scoring<S>>(scoring: &M) -> bool {
    forall|window: Seq<S>, energy: i64, entering: S, next: i64|
        window.len() > 0 && #[trigger] measures(scoring, window, energy) && #[trigger] slides(
            scoring,
            energy,
            window[0],
            entering,
            next,
        ) ==> measures(scoring, window.skip(1).push(entering), next)
}

proof fn lemma_moved_windows<S, M: Scoring<S>>(
    scoring: &M,
    audio: Seq<S>,
    start: int,
    end: int,
    window: int,
    energies: Seq<i64>,
    k: int,
)
    requires
        moves_exactly(scoring),
        0 <= start < end <= audio.len(),
        0 < window <= end - start,
        energies.len() == end - start - window + 1,
        window_energies(scoring, audio, start, window, energies),
        0 <= k < energies.len(),
    ensures
        measures(scoring, audio.subrange(start + k, start + k + window), energies[k]),
    decreases k,
{
    if k > 0 {
        lemma_moved_windows(scoring, audio, start, end, window, energies, k - 1);
        let before = audio.subrange(start + k - 1, start + k - 1 + window);
        let after = audio.subrange(start + k, start + k + window);
        assert(moved_on(scoring, audio, start, window, energies, k));
        assert(before[0] == audio[start + k - 1]);
        assert(after =~= before.skip(1).push(audio[start + k - 1 + window]));
    }
}

/// Law: where moving a window on loses nothing, the quietest cut of a stretch is
/// the middle of a window in it than which no other window is quieter, and no
/// earlier one as quiet; its loudness is that of the window.
pub proof fn law_a_quiet_cut_is_the_quietest<S, M: Scoring<S>>(
    scoring: &M,
    audio: Seq<S>,
    start: int,
    end: int,
    energy_window: int,
    window: int,
    sample: int,
    rms: u32,
)
    requires
        repeatable(scoring),
        moves_exactly(scoring),
        0 <= start < end <= audio.len() <= usize::MAX,
        0 <= energy_window,
        window == if energy_window == 0 {
            1
        } else if energy_window < end - start {
            energy_window
        } else {
            end - start
        },
        is_quietest_cut(scoring, audio, start, end, energy_window, sample, rms),
    ensures
        ({
            let from = sample - window / 2;
            &&& start <= from && from + window <= end
            &&& exists|least: i64|
                {
                    &&& #[trigger] measures(scoring, audio.subrange(from, from + window), least)
                    &&& levels(
                        scoring,
                        if least < 0 {
                            0
                        } else {
                            least
                        },
                        window as usize,
                        rms,
                    )
                    &&& forall|t: int, energy: i64|
                        start <= t && t + window <= end && #[trigger] measures(
                            scoring,
                            audio.subrange(t, t + window),
                            energy,
                        ) ==> least <= energy && (t < from ==> least < energy)
                }
        }),
{
    lemma_repeatable_scores(scoring);
    let (energies, best) = lemma_cut_parts(
        scoring,
        audio,
        start,
        end,
        energy_window,
        window,
        sample,
        rms,
    );
    let from = sample - window / 2;
    let least = energies[best];
    lemma_moved_windows(scoring, audio, start, end, window, energies, best);
    assert(measures(scoring, audio.subrange(from, from + window), least));
    assert forall|t: int, energy: i64|
        start <= t && t + window <= end && #[trigger] measures(
            scoring,
            audio.subrange(t, t + window),
            energy,
        ) implies least <= energy && (t < from ==> least < energy) by {
        lemma_moved_windows(scoring, audio, start, end, window, energies, t - start);
        assert(energy == energies[t - start]);
    }
}

/// Law: the boundaries stand at ever later samples; the first is the start of the
/// audio, the last its end, and every other one lies in between and is a cut in a
/// pause or a fallback.
pub proof fn law_boundaries_start_and_end_with_the_audio<S, M: Scoring<S>>(
    scoring: &M,
    audio: Seq<S>,
    pauses: Seq<Range<usize>>,
    policy: ChunkPolicy,
    candidates: Seq<BoundaryCandidate>,
)
    requires
        is_boundaries(scoring, audio, pauses, policy, candidates),
        0 < audio.len() <= usize::MAX,
        policy.energy_window_samples > 0,
    ensures
        candidates.len() >= 2,
        forall|i: int, j: int|
            0 <= i < j < candidates.len() ==> (#[trigger] candidates[i]).sample < (
            #[trigger] candidates[j]).sample,
        candidates[0] == (BoundaryCandidate {
            sample: 0,
            kind: BoundaryKind::Start,
            pause_samples: 0,
            rms: 0,
        }),
        candidates.last() == (BoundaryCandidate {
            sample: audio.len() as usize,
            kind: BoundaryKind::End,
            pause_samples: 0,
            rms: 0,
        }),
        forall|j: int|
            0 < j < candidates.len() - 1 ==> ((#[trigger] candidates[j]).kind
                == BoundaryKind::VadPause || candidates[j].kind == BoundaryKind::EnergyFallback),
{
    let w = policy.energy_window_samples as int;
    let n = audio.len() as int;
    law_boundaries_span_the_audio(scoring, audio, pauses, policy, candidates);
    let (cuts, grid) = lemma_boundary_parts(scoring, audio, pauses, policy, candidates);
    let offered = offers(n, cuts, grid);
    assert forall|j: int| 0 <= j < candidates.len() implies ({
        let c = #[trigger] candidates[j];
        &&& c.sample == 0 ==> c == start_boundary()
        &&& c.sample == n ==> c == end_boundary(n)
        &&& 0 < c.sample < n ==> (c.kind == BoundaryKind::VadPause || c.kind
            == BoundaryKind::EnergyFallback)
    }) by {
        assert(has_source(offered, candidates[j]));
        let k = choose|k: int| #[trigger] prevails(offered, k) && offered[k] == Some(candidates[j]);
        if 0 < k <= cuts.len() {
            assert(offered[k] == cuts[k - 1]);
            assert(pause_cut(scoring, audio, pauses[k - 1], policy, cuts[k - 1]));
        } else if cuts.len() < k <= cuts.len() + grid.len() {
            let g = k - 1 - cuts.len();
            assert(offered[k] == grid[g]);
            assert(grid_point(scoring, audio, w, (g + 1) * w, grid[g]));
            lemma_multiple_inside(n, w, g + 1);
        } else if k != 0 {
            assert(offered[k] == Some(end_boundary(n)));
        }
    }
}

/// Law: a boundary stands at every multiple of the energy window inside the
/// audio; where no pause is cut there, it is a fallback with the loudness of the
/// window around it, as far as the audio goes.
pub proof fn law_every_multiple_of_the_window_is_a_boundary<S, M: Scoring<S>>(
    scoring: &M,
    audio: Seq<S>,
    pauses: Seq<Range<usize>>,
    policy: ChunkPolicy,
    candidates: Seq<BoundaryCandidate>,
    k: int,
    start: int,
    end: int,
)
    requires
        is_boundaries(scoring, audio, pauses, policy, candidates),
        0 < audio.len() <= usize::MAX,
        policy.energy_window_samples > 0,
        0 < k,
        k * policy.energy_window_samples < audio.len(),
        start == k * policy.energy_window_samples - policy.energy_window_samples / 2,
        end == if start + policy.energy_window_samples < audio.len() {
            start + policy.energy_window_samples
        } else {
            audio.len() as int
        },
    ensures
        exists|j: int|
            {
                &&& 0 <= j < candidates.len()
                &&& (#[trigger] candidates[j]).sample == k * policy.energy_window_samples
                &&& candidates[j].kind == BoundaryKind::VadPause || {
                    &&& candidates[j].kind == BoundaryKind::EnergyFallback
                    &&& candidates[j].pause_samples == 0
                    &&& exists|energy: i64|
                        #[trigger] measures(scoring, audio.subrange(start, end), energy) && levels(
                            scoring,
                            energy,
                            (end - start) as usize,
                            candidates[j].rms,
                        )
                }
            },
{
    let w = policy.energy_window_samples as int;
    let n = audio.len() as int;
    law_boundaries_span_the_audio(scoring, audio, pauses, policy, candidates);
    law_boundaries_start_and_end_with_the_audio(scoring, audio, pauses, policy, candidates);
    let (cuts, grid) = lemma_boundary_parts(scoring, audio, pauses, policy, candidates);
    let offered = offers(n, cuts, grid);
    assert(0 < k * w) by (nonlinear_arith)
        requires
            0 < k,
            0 < w,
    ;
    assert(has_candidate_at(candidates, (k * policy.energy_window_samples) as usize));
    let j = choose|j: int|
        0 <= j < candidates.len() && (#[trigger] candidates[j]).sample == (k
            * policy.energy_window_samples) as usize;
    assert(has_source(offered, candidates[j]));
    let at = choose|at: int| #[trigger]
        prevails(offered, at) && offered[at] == Some(candidates[j]);
    if at == 0 {
        assert(offered[at] == Some(start_boundary()));
    } else if at <= cuts.len() {
        assert(offered[at] == cuts[at - 1]);
        assert(pause_cut(scoring, audio, pauses[at - 1], policy, cuts[at - 1]));
    } else if at <= cuts.len() + grid.len() {
        let g = at - 1 - cuts.len();
        assert(offered[at] == grid[g]);
        assert(grid_point(scoring, audio, w, (g + 1) * w, grid[g]));
        lemma_multiple_inside(n, w, g + 1);
        assert((g + 1) * w == k * w);
    } else {
        assert(offered[at] == Some(end_boundary(n)));
    }
    assert(candidates[j].sample == k * policy.energy_window_samples);
}

/// Law: every boundary that is known as a pause is the quietest cut of a pause
/// that is long enough, and knows its loudness and how long the pause is within
/// the audio; where two pauses are cut on one sample, it is the earlier one's.
pub proof fn law_a_pause_boundary_belongs_to_a_pause<S, M: Scoring<S>>(
    scoring: &M,
    audio: Seq<S>,
    pauses: Seq<Range<usize>>,
    policy: ChunkPolicy,
    candidates: Seq<BoundaryCandidate>,
    j: int,
)
    requires
        repeatable(scoring),
        is_boundaries(scoring, audio, pauses, policy, candidates),
        0 < audio.len() <= usize::MAX,
        policy.energy_window_samples > 0,
        0 <= j < candidates.len(),
        candidates[j].kind == BoundaryKind::VadPause,
    ensures
        exists|i: int|
            {
                &&& 0 <= i < pauses.len()
                &&& is_cut_of(scoring, audio, #[trigger] pauses[i], policy, candidates[j])
                &&& forall|h: int, other: BoundaryCandidate|
                    0 <= h < i && #[trigger] is_cut_of(
                        scoring,
                        audio,
                        pauses[h],
                        policy,
                        other,
                    ) ==> other.sample != candidates[j].sample
            },
{
    lemma_repeatable_scores(scoring);
    let w = policy.energy_window_samples as int;
    let n = audio.len() as int;
    let (cuts, grid) = lemma_boundary_parts(scoring, audio, pauses, policy, candidates);
    let offered = offers(n, cuts, grid);
    assert(has_source(offered, candidates[j]));
    let k = choose|k: int| #[trigger] prevails(offered, k) && offered[k] == Some(candidates[j]);
    if k == 0 {
        assert(offered[k] == Some(start_boundary()));
    } else if cuts.len() < k <= cuts.len() + grid.len() {
        let g = k - 1 - cuts.len();
        assert(offered[k] == grid[g]);
        assert(grid_point(scoring, audio, w, (g + 1) * w, grid[g]));
    } else if k > cuts.len() {
        assert(offered[k] == Some(end_boundary(n)));
    }
    let i = k - 1;
    assert(offered[k] == cuts[i]);
    assert(pause_cut(scoring, audio, pauses[i], policy, cuts[i]));
    assert(is_cut_of(scoring, audio, pauses[i], policy, candidates[j]));
    assert forall|h: int, other: BoundaryCandidate|
        0 <= h < i && #[trigger] is_cut_of(scoring, audio, pauses[h], policy, other) implies
        other.sample != candidates[j].sample by {
        if other.sample == candidates[j].sample {
            assert(pause_cut(scoring, audio, pauses[h], policy, cuts[h]));
            assert(pause_cut(scoring, audio, pauses[h], policy, Some(other)));
            lemma_same_pause_cut(
                scoring,
                audio,
                audio,
                pauses[h],
                policy,
                cuts[h],
                Some(other),
            );
            assert(offered[h + 1] == cuts[h]);
            assert(rank(offered[k]->0.kind) < rank(offered[h + 1]->0.kind));
        }
    }
}

/// `candidate` is the quietest cut of `pause`, which is long enough and lies
/// within the audio from its start to its own end or that of the audio.
pub open spec fn is_cut_of<S, M: Scoring<S>>(
    scoring: &M,
    audio: Seq<S>,
    pause: Range<usize>,
    policy: ChunkPolicy,
    candidate: BoundaryCandidate,
) -> bool {
    let end = if pause.end < audio.len() {
        pause.end as int
    } else {
        audio.len() as int
    };
    &&& pause.start < end
    &&& policy.min_pause_samples <= end - pause.start
    &&& candidate.kind == BoundaryKind::VadPause
    &&& candidate.pause_samples == end - pause.start
    &&& 0 < candidate.sample < audio.len()
    &&& is_quietest_cut(
        scoring,
        audio,
        pause.start as int,
        end,
        policy.energy_window_samples as int,
        candidate.sample as int,
        candidate.rms,
    )
}

/// Law: on one sample the start of the audio goes before a pause, a pause before a
/// fallback, and a fallback before the end.
pub proof fn law_which_boundary_goes_first()
    ensures
        rank(BoundaryKind::Start) == 0,
        rank(BoundaryKind::VadPause) == 1,
        rank(BoundaryKind::EnergyFallback) == 2,
        rank(BoundaryKind::End) == 3,
{
}

} // verus!
