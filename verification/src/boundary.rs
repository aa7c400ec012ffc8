//! Where a recording may be cut.

use crate::policy::ChunkPolicy;
use crate::scoring::{level, levels, measures, rms, slide, slides, squared_energy_sum, Scoring};
use std::ops::Range;
use vstd::prelude::*;

verus! {

/// Why a recording may be cut at a sample.
#[derive(Clone, Copy, Debug, PartialEq, Eq, Structural)]
pub enum BoundaryKind {
    Start,
    VadPause,
    EnergyFallback,
    End,
}

/// A sample that a span may start or end at.
#[derive(Clone, Copy, Debug, PartialEq, Eq, Structural)]
pub struct BoundaryCandidate {
    pub sample: usize,
    pub kind: BoundaryKind,
    /// Length of the pause that the cut lies in, if it lies in one.
    pub pause_samples: usize,
    /// Loudness around the cut, as `scoring::level` gave it.
    pub rms: u32,
}

/// Which of two candidates on one sample stays: the one of lower rank.
pub open spec fn rank(kind: BoundaryKind) -> u8 {
    match kind {
        BoundaryKind::Start => 0,
        BoundaryKind::VadPause => 1,
        BoundaryKind::EnergyFallback => 2,
        BoundaryKind::End => 3,
    }
}

/// The rank of a kind of boundary; of two candidates on one sample the one of
/// lower rank stays.
pub fn boundary_rank(kind: BoundaryKind) -> (r: u8)
    ensures
        r == rank(kind),
{
    match kind {
        BoundaryKind::Start => 0,
        BoundaryKind::VadPause => 1,
        BoundaryKind::EnergyFallback => 2,
        BoundaryKind::End => 3,
    }
}

/// The length of the windows that are compared inside a stretch of `len` samples.
pub open spec fn cut_window(len: int, energy_window: int) -> int {
    if energy_window > len {
        len
    } else if energy_window < 1 {
        1
    } else {
        energy_window
    }
}

/// `energies` are what `scoring` gave for the windows of `window` samples from
/// `start` on, each moved on from the one before it.
pub open spec fn window_energies<S, M: Scoring<S>>(
    scoring: &M,
    audio: Seq<S>,
    start: int,
    window: int,
    energies: Seq<i64>,
) -> bool {
    &&& measures(scoring, audio.subrange(start, start + window), energies[0])
    &&& forall|k: int|
        0 < k < energies.len() ==> #[trigger] moved_on(scoring, audio, start, window, energies, k)
}

/// Entry `k` of `energies` is what `scoring` gave for moving on from the entry
/// before it.
pub open spec fn moved_on<S, M: Scoring<S>>(
    scoring: &M,
    audio: Seq<S>,
    start: int,
    window: int,
    energies: Seq<i64>,
    k: int,
) -> bool {
    slides(
        scoring,
        energies[k - 1],
        audio[start + k - 1],
        audio[start + k - 1 + window],
        energies[k],
    )
}

/// `at` is the first position of the least of `values`.
pub open spec fn first_least(values: Seq<i64>, at: int) -> bool {
    &&& 0 <= at < values.len()
    &&& forall|i: int| 0 <= i < at ==> values[at] < #[trigger] values[i]
    &&& forall|i: int| at <= i < values.len() ==> values[at] <= #[trigger] values[i]
}

/// `sample` is the middle of the first of the quietest windows inside
/// `start..end`, and `rms` its loudness.
pub open spec fn is_quietest_cut<S, M: Scoring<S>>(
    scoring: &M,
    audio: Seq<S>,
    start: int,
    end: int,
    energy_window: int,
    sample: int,
    rms: u32,
) -> bool {
    let window = cut_window(end - start, energy_window);
    exists|energies: Seq<i64>, best: int|
        {
            &&& energies.len() == end - start - window + 1
            &&& #[trigger] window_energies(scoring, audio, start, window, energies)
            &&& #[trigger] first_least(energies, best)
            &&& sample == start + best + window / 2
            &&& levels(scoring, at_least_silent(energies[best]), window as usize, rms)
        }
}

/// `energy`, or none where it lies below zero: moving a window on can take off
/// more than it has added.
pub open spec fn at_least_silent(energy: i64) -> i64 {
    if energy < 0 {
        0
    } else {
        energy
    }
}

/// Finds the quietest place to cut inside `search`: the middle of the first
/// window of least energy, and its loudness.
pub fn quietest_cut<S: Copy, M: Scoring<S>>(
    audio: &[S],
    search: Range<usize>,
    energy_window_samples: usize,
    scoring: &M,
) -> (cut: (usize, u32))
    requires
        search.start < search.end <= audio.len(),
    ensures
        is_quietest_cut(
            scoring,
            audio@,
            search.start as int,
            search.end as int,
            energy_window_samples as int,
            cut.0 as int,
            cut.1,
        ),
        search.start <= cut.0 < search.end,
{
    let search_len: usize = search.end - search.start;
    let window_samples: usize = if energy_window_samples > search_len {
        search_len
    } else if energy_window_samples < 1 {
        1
    } else {
        energy_window_samples
    };
    let last_start: usize = search.end - window_samples;
    let mut window_start: usize = search.start;
    let mut energy_sum: i64 = squared_energy_sum(
        &audio[window_start..window_start + window_samples],
        scoring,
    );
    let mut best_start: usize = window_start;
    let mut best_energy: i64 = energy_sum;
    let ghost mut energies: Seq<i64> = seq![energy_sum];

    while window_start < last_start
        invariant
            search.start <= best_start <= window_start <= last_start,
            last_start + window_samples == search.end <= audio.len(),
            0 < window_samples,
            energies.len() == window_start - search.start + 1,
            energies.last() == energy_sum,
            window_energies(
                scoring,
                audio@,
                search.start as int,
                window_samples as int,
                energies,
            ),
            first_least(energies, best_start - search.start),
            energies[best_start - search.start] == best_energy,
        decreases last_start - window_start,
    {
        energy_sum =
        slide(energy_sum, audio[window_start], audio[window_start + window_samples], scoring);
        window_start = window_start + 1;
        proof {
            let before = energies;
            let start = search.start as int;
            let window = window_samples as int;
            energies = energies.push(energy_sum);
            assert forall|k: int| 0 < k < energies.len() implies #[trigger] moved_on(
                scoring,
                audio@,
                start,
                window,
                energies,
                k,
            ) by {
                if k < before.len() {
                    assert(moved_on(scoring, audio@, start, window, before, k));
                }
            }
        }
        if energy_sum < best_energy {
            best_energy = energy_sum;
            best_start = window_start;
        }
    }
    let audible_energy: i64 = if best_energy < 0 {
        0
    } else {
        best_energy
    };
    let rms: u32 = level(audible_energy, window_samples, scoring);
    proof {
        let window = cut_window(search_len as int, energy_window_samples as int);
        let best = best_start - search.start;
        assert(window_energies(scoring, audio@, search.start as int, window, energies));
        assert(first_least(energies, best));
        assert(levels(scoring, at_least_silent(energies[best]), window as usize, rms));
    }
    (best_start + window_samples / 2, rms)
}

/// What a pause offers as a boundary: nothing if it is too short once it is
/// clipped to the audio, else a cut at its quietest place.
pub open spec fn pause_cut<S, M: Scoring<S>>(
    scoring: &M,
    audio: Seq<S>,
    pause: Range<usize>,
    policy: ChunkPolicy,
    cut: Option<BoundaryCandidate>,
) -> bool {
    let start = clipped(pause.start as int, audio.len() as int);
    let end = clipped(pause.end as int, audio.len() as int);
    if start >= end || end - start < policy.min_pause_samples {
        cut is None
    } else {
        exists|sample: int, rms: u32|
            #[trigger] is_quietest_cut(
                scoring,
                audio,
                start,
                end,
                policy.energy_window_samples as int,
                sample,
                rms,
            ) && cut == (if 0 < sample < audio.len() {
                Some(
                    BoundaryCandidate {
                        sample: sample as usize,
                        kind: BoundaryKind::VadPause,
                        pause_samples: (end - start) as usize,
                        rms,
                    },
                )
            } else {
                None
            })
    }
}

/// `sample`, or the end of the audio where that comes first.
pub open spec fn clipped(sample: int, audio_len: int) -> int {
    if sample < audio_len {
        sample
    } else {
        audio_len
    }
}

/// `cuts` are what `pauses` offer as boundaries, one entry per pause.
pub open spec fn pause_cuts<S, M: Scoring<S>>(
    scoring: &M,
    audio: Seq<S>,
    pauses: Seq<Range<usize>>,
    policy: ChunkPolicy,
    cuts: Seq<Option<BoundaryCandidate>>,
) -> bool {
    &&& cuts.len() == pauses.len()
    &&& forall|i: int|
        0 <= i < cuts.len() ==> pause_cut(scoring, audio, pauses[i], policy, #[trigger] cuts[i])
}

/// `candidate` is a fallback boundary at `sample`, with the loudness of the
/// window around it.
pub open spec fn grid_point<S, M: Scoring<S>>(
    scoring: &M,
    audio: Seq<S>,
    energy_window: int,
    sample: int,
    candidate: Option<BoundaryCandidate>,
) -> bool {
    let start = sample - energy_window / 2;
    let end = clipped(start + energy_window, audio.len() as int);
    exists|energy: i64, rms: u32|
        {
            &&& #[trigger] measures(scoring, audio.subrange(start, end), energy)
            &&& #[trigger] levels(scoring, energy, (end - start) as usize, rms)
            &&& candidate == Some(
                BoundaryCandidate {
                    sample: sample as usize,
                    kind: BoundaryKind::EnergyFallback,
                    pause_samples: 0,
                    rms,
                },
            )
        }
}

/// `grid` holds a fallback boundary at each multiple of the energy window
/// inside the audio.
pub open spec fn energy_grid<S, M: Scoring<S>>(
    scoring: &M,
    audio: Seq<S>,
    energy_window: int,
    grid: Seq<Option<BoundaryCandidate>>,
) -> bool {
    &&& grid.len() == (audio.len() - 1) / energy_window
    &&& forall|i: int|
        0 <= i < grid.len() ==> grid_point(
            scoring,
            audio,
            energy_window,
            (i + 1) * energy_window,
            #[trigger] grid[i],
        )
}

/// The start of a recording as a boundary.
pub open spec fn start_boundary() -> BoundaryCandidate {
    BoundaryCandidate { sample: 0, kind: BoundaryKind::Start, pause_samples: 0, rms: 0 }
}

/// The end of a recording of `audio_len` samples as a boundary.
pub open spec fn end_boundary(audio_len: int) -> BoundaryCandidate {
    BoundaryCandidate {
        sample: audio_len as usize,
        kind: BoundaryKind::End,
        pause_samples: 0,
        rms: 0,
    }
}

/// All that is offered as a boundary, in the order in which it is considered.
pub open spec fn offers(
    audio_len: int,
    cuts: Seq<Option<BoundaryCandidate>>,
    grid: Seq<Option<BoundaryCandidate>>,
) -> Seq<Option<BoundaryCandidate>> {
    seq![Some(start_boundary())] + cuts + grid + seq![Some(end_boundary(audio_len))]
}

/// Of all that is offered on one sample, `offered[k]` is of the lowest rank, and
/// the first of that rank.
pub open spec fn prevails(offered: Seq<Option<BoundaryCandidate>>, k: int) -> bool {
    &&& 0 <= k < offered.len()
    &&& offered[k] is Some
    &&& forall|i: int|
        0 <= i < offered.len() && (#[trigger] offered[i]) is Some && offered[i]->0.sample
            == offered[k]->0.sample ==> {
            &&& rank(offered[k]->0.kind) <= rank(offered[i]->0.kind)
            &&& i < k ==> rank(offered[k]->0.kind) < rank(offered[i]->0.kind)
        }
}

/// The candidates stand at ever later samples.
pub open spec fn ordered(candidates: Seq<BoundaryCandidate>) -> bool {
    forall|i: int, j: int|
        0 <= i < j < candidates.len() ==> (#[trigger] candidates[i]).sample < (
        #[trigger] candidates[j]).sample
}

/// `candidates` hold, by sample, the offer that prevails on each sample.
pub open spec fn settled_offers(
    offered: Seq<Option<BoundaryCandidate>>,
    candidates: Seq<BoundaryCandidate>,
) -> bool {
    &&& ordered(candidates)
    &&& forall|j: int|
        0 <= j < candidates.len() ==> has_source(offered, #[trigger] candidates[j])
    &&& forall|k: int|
        0 <= k < offered.len() && (#[trigger] offered[k]) is Some ==> has_candidate_at(
            candidates,
            offered[k]->0.sample,
        )
}

/// `candidate` is an offer that prevails on its sample.
pub open spec fn has_source(
    offered: Seq<Option<BoundaryCandidate>>,
    candidate: BoundaryCandidate,
) -> bool {
    exists|k: int| #[trigger] prevails(offered, k) && offered[k] == Some(candidate)
}

/// One of `candidates` stands at `sample`.
pub open spec fn has_candidate_at(candidates: Seq<BoundaryCandidate>, sample: usize) -> bool {
    exists|j: int| 0 <= j < candidates.len() && (#[trigger] candidates[j]).sample == sample
}

/// `candidates` are the boundaries of a recording, in order: its start and its
/// end, a cut in each pause that is long enough, and the fallback grid; of two
/// on one sample the pause stays, and the earlier of two pauses.
pub open spec fn is_boundaries<S, M: Scoring<S>>(
    scoring: &M,
    audio: Seq<S>,
    pauses: Seq<Range<usize>>,
    policy: ChunkPolicy,
    candidates: Seq<BoundaryCandidate>,
) -> bool {
    exists|cuts: Seq<Option<BoundaryCandidate>>, grid: Seq<Option<BoundaryCandidate>>|
        {
            &&& #[trigger] pause_cuts(scoring, audio, pauses, policy, cuts)
            &&& #[trigger] energy_grid(scoring, audio, policy.energy_window_samples as int, grid)
            &&& settled_offers(offers(audio.len() as int, cuts, grid), candidates)
        }
}

/// The number of candidates that stand before `sample`.
fn position_of(candidates: &Vec<BoundaryCandidate>, sample: usize) -> (position: usize)
    requires
        ordered(candidates@),
    ensures
        position <= candidates.len(),
        forall|i: int| 0 <= i < position ==> (#[trigger] candidates@[i]).sample < sample,
        forall|i: int|
            position <= i < candidates.len() ==> (#[trigger] candidates@[i]).sample >= sample,
{
    let mut low: usize = 0;
    let mut high: usize = candidates.len();
    while low < high
        invariant
            ordered(candidates@),
            low <= high <= candidates.len(),
            forall|i: int| 0 <= i < low ==> (#[trigger] candidates@[i]).sample < sample,
            forall|i: int|
                high <= i < candidates.len() ==> (#[trigger] candidates@[i]).sample >= sample,
        decreases high - low,
    {
        let middle: usize = low + (high - low) / 2;
        if candidates[middle].sample < sample {
            low = middle + 1;
        } else {
            high = middle;
        }
    }
    low
}

/// Takes one more offer into account.
fn offer(
    candidates: &mut Vec<BoundaryCandidate>,
    candidate: BoundaryCandidate,
    Ghost(offered): Ghost<Seq<Option<BoundaryCandidate>>>,
)
    requires
        settled_offers(offered, old(candidates)@),
    ensures
        settled_offers(offered.push(Some(candidate)), final(candidates)@),
{
    let position: usize = position_of(candidates, candidate.sample);
    let ghost before = candidates@;
    let ghost after = offered.push(Some(candidate));
    let ghost n = offered.len() as int;
    if position < candidates.len() && candidates[position].sample == candidate.sample {
        let ghost source = choose|k: int|
            #[trigger] prevails(offered, k) && offered[k] == Some(before[position as int]);
        proof {
            assert(has_source(offered, before[position as int]));
        }
        if boundary_rank(candidate.kind) < boundary_rank(candidates[position].kind) {
            candidates.set(position, candidate);
            proof {
                assert(prevails(after, n)) by {
                    assert forall|i: int|
                        0 <= i < after.len() && (#[trigger] after[i]) is Some && after[i]->0.sample
                            == after[n]->0.sample implies {
                        &&& rank(after[n]->0.kind) <= rank(after[i]->0.kind)
                        &&& i < n ==> rank(after[n]->0.kind) < rank(after[i]->0.kind)
                    } by {
                        if i < n {
                            assert(offered[i] == after[i]);
                        }
                    }
                }
                assert(has_source(after, candidate));
            }
        } else {
            proof {
                assert(prevails(after, source)) by {
                    assert forall|i: int|
                        0 <= i < after.len() && (#[trigger] after[i]) is Some && after[i]->0.sample
                            == after[source]->0.sample implies {
                        &&& rank(after[source]->0.kind) <= rank(after[i]->0.kind)
                        &&& i < source ==> rank(after[source]->0.kind) < rank(after[i]->0.kind)
                    } by {
                        if i < n {
                            assert(offered[i] == after[i]);
                        }
                    }
                }
                assert(has_source(after, before[position as int]));
            }
        }
        proof {
            assert forall|j: int| 0 <= j < candidates@.len() implies has_source(
                after,
                #[trigger] candidates@[j],
            ) by {
                if j != position {
                    assert(candidates@[j] == before[j]);
                    lemma_other_source(offered, candidate, before[j]);
                }
            }
            assert forall|k: int| 0 <= k < after.len() && (#[trigger] after[k]) is Some implies
                has_candidate_at(candidates@, after[k]->0.sample) by {
                if k < n {
                    assert(offered[k] == after[k]);
                    let j = choose|j: int|
                        0 <= j < before.len() && (#[trigger] before[j]).sample
                            == after[k]->0.sample;
                    assert(candidates@[j].sample == after[k]->0.sample);
                } else {
                    assert(candidates@[position as int].sample == candidate.sample);
                }
            }
        }
    } else {
        candidates.insert(position, candidate);
        proof {
            assert(candidates@[position as int] == candidate);
            assert(prevails(after, n)) by {
                assert forall|i: int|
                    0 <= i < after.len() && (#[trigger] after[i]) is Some && after[i]->0.sample
                        == after[n]->0.sample implies i == n by {
                    if i < n {
                        assert(offered[i] == after[i]);
                        assert(has_candidate_at(before, candidate.sample));
                    }
                }
            }
            assert(has_source(after, candidate));
            assert forall|j: int| 0 <= j < candidates@.len() implies has_source(
                after,
                #[trigger] candidates@[j],
            ) by {
                if j < position {
                    assert(candidates@[j] == before[j]);
                    lemma_other_source(offered, candidate, before[j]);
                } else if j > position {
                    assert(candidates@[j] == before[j - 1]);
                    lemma_other_source(offered, candidate, before[j - 1]);
                }
            }
            assert forall|k: int| 0 <= k < after.len() && (#[trigger] after[k]) is Some implies
                has_candidate_at(candidates@, after[k]->0.sample) by {
                if k < n {
                    assert(offered[k] == after[k]);
                    let j = choose|j: int|
                        0 <= j < before.len() && (#[trigger] before[j]).sample
                            == after[k]->0.sample;
                    if j < position {
                        assert(candidates@[j] == before[j]);
                    } else {
                        assert(candidates@[j + 1] == before[j]);
                    }
                }
            }
        }
    }
}

/// An offer on another sample leaves the source of a candidate in place.
proof fn lemma_other_source(
    offered: Seq<Option<BoundaryCandidate>>,
    added: BoundaryCandidate,
    candidate: BoundaryCandidate,
)
    requires
        has_source(offered, candidate),
        candidate.sample != added.sample,
    ensures
        has_source(offered.push(Some(added)), candidate),
{
    let after = offered.push(Some(added));
    let k = choose|k: int| #[trigger] prevails(offered, k) && offered[k] == Some(candidate);
    assert(prevails(after, k)) by {
        assert forall|i: int|
            0 <= i < after.len() && (#[trigger] after[i]) is Some && after[i]->0.sample
                == after[k]->0.sample implies {
            &&& rank(after[k]->0.kind) <= rank(after[i]->0.kind)
            &&& i < k ==> rank(after[k]->0.kind) < rank(after[i]->0.kind)
        } by {
            assert(i < offered.len());
            assert(offered[i] == after[i]);
        }
    }
}

/// An empty offer changes nothing.
proof fn lemma_no_offer(
    offered: Seq<Option<BoundaryCandidate>>,
    candidates: Seq<BoundaryCandidate>,
)
    requires
        settled_offers(offered, candidates),
    ensures
        settled_offers(offered.push(None), candidates),
{
    let after = offered.push(None);
    assert forall|j: int| 0 <= j < candidates.len() implies has_source(
        after,
        #[trigger] candidates[j],
    ) by {
        let k = choose|k: int|
            #[trigger] prevails(offered, k) && offered[k] == Some(candidates[j]);
        assert(has_source(offered, candidates[j]));
        assert(prevails(after, k)) by {
            assert forall|i: int|
                0 <= i < after.len() && (#[trigger] after[i]) is Some && after[i]->0.sample
                    == after[k]->0.sample implies {
                &&& rank(after[k]->0.kind) <= rank(after[i]->0.kind)
                &&& i < k ==> rank(after[k]->0.kind) < rank(after[i]->0.kind)
            } by {
                assert(offered[i] == after[i]);
            }
        }
    }
    assert forall|k: int| 0 <= k < after.len() && (#[trigger] after[k]) is Some implies
        has_candidate_at(candidates, after[k]->0.sample) by {
        assert(offered[k] == after[k]);
    }
}

/// Lists the boundaries of a recording in order.
pub fn boundary_candidates<S: Copy, M: Scoring<S>>(
    audio: &[S],
    pauses: &[Range<usize>],
    policy: ChunkPolicy,
    scoring: &M,
) -> (candidates: Vec<BoundaryCandidate>)
    requires
        audio.len() > 0,
        policy.energy_window_samples > 0,
    ensures
        is_boundaries(scoring, audio@, pauses@, policy, candidates@),
{
    let audio_len: usize = audio.len();
    let window: usize = policy.energy_window_samples;
    let mut candidates: Vec<BoundaryCandidate> = Vec::new();
    let ghost mut offered: Seq<Option<BoundaryCandidate>> = seq![];
    let start = BoundaryCandidate {
        sample: 0,
        kind: BoundaryKind::Start,
        pause_samples: 0,
        rms: 0,
    };
    offer(&mut candidates, start, Ghost(offered));
    proof {
        offered = offered.push(Some(start));
    }
    let ghost mut cuts: Seq<Option<BoundaryCandidate>> = seq![];
    assert(offered =~= seq![Some(start_boundary())] + cuts);

    let mut index: usize = 0;
    while index < pauses.len()
        invariant
            index <= pauses.len(),
            audio_len == audio.len(),
            audio_len > 0,
            window == policy.energy_window_samples,
            cuts.len() == index,
            forall|i: int|
                0 <= i < index ==> pause_cut(
                    scoring,
                    audio@,
                    pauses@[i],
                    policy,
                    #[trigger] cuts[i],
                ),
            offered == seq![Some(start_boundary())] + cuts,
            settled_offers(offered, candidates@),
        decreases pauses.len() - index,
    {
        let from: usize = if pauses[index].start < audio_len {
            pauses[index].start
        } else {
            audio_len
        };
        let to: usize = if pauses[index].end < audio_len {
            pauses[index].end
        } else {
            audio_len
        };
        let ghost mut cut: Option<BoundaryCandidate> = None;
        if from < to && to - from >= policy.min_pause_samples {
            let (sample, rms) = quietest_cut(audio, from..to, window, scoring);
            if sample > 0 && sample < audio_len {
                let candidate = BoundaryCandidate {
                    sample,
                    kind: BoundaryKind::VadPause,
                    pause_samples: to - from,
                    rms,
                };
                offer(&mut candidates, candidate, Ghost(offered));
                proof {
                    cut = Some(candidate);
                }
            } else {
                proof {
                    lemma_no_offer(offered, candidates@);
                }
            }
        } else {
            proof {
                lemma_no_offer(offered, candidates@);
            }
        }
        proof {
            assert(pause_cut(scoring, audio@, pauses@[index as int], policy, cut));
            assert(offered.push(cut) =~= seq![Some(start_boundary())] + cuts.push(cut));
            cuts = cuts.push(cut);
            offered = offered.push(cut);
        }
        index = index + 1;
    }

    let ghost mut grid: Seq<Option<BoundaryCandidate>> = seq![];
    assert(offered =~= seq![Some(start_boundary())] + cuts + grid);
    let ghost w = window as int;
    let ghost n = audio_len as int;
    let mut sample: usize = window;
    proof {
        assert((0 + 1) * w == w) by (nonlinear_arith);
    }
    while sample < audio_len
        invariant_except_break
            sample == (grid.len() + 1) * w,
        invariant
            audio_len == audio.len(),
            n == audio_len,
            w == window,
            0 < window,
            grid.len() * w < n,
            forall|i: int|
                0 <= i < grid.len() ==> grid_point(
                    scoring,
                    audio@,
                    w,
                    (i + 1) * w,
                    #[trigger] grid[i],
                ),
            offered == seq![Some(start_boundary())] + cuts + grid,
            settled_offers(offered, candidates@),
        ensures
            audio_len <= (grid.len() + 1) * w,
        decreases audio_len - sample,
    {
        let ghost k = grid.len() as int;
        proof {
            assert((k + 1) * w >= w) by (nonlinear_arith)
                requires
                    k >= 0,
                    w > 0,
            ;
            assert((k + 1 + 1) * w == (k + 1) * w + w) by (nonlinear_arith);
        }
        let window_start: usize = sample - window / 2;
        let window_end: usize = if audio_len - window_start > window {
            window_start + window
        } else {
            audio_len
        };
        let rms: u32 = rms(audio, window_start..window_end, scoring);
        let candidate = BoundaryCandidate {
            sample,
            kind: BoundaryKind::EnergyFallback,
            pause_samples: 0,
            rms,
        };
        offer(&mut candidates, candidate, Ghost(offered));
        proof {
            let at = sample as int;
            assert(window_start == at - w / 2);
            assert(window_end == clipped(at - w / 2 + w, n));
            assert(grid_point(scoring, audio@, w, at, Some(candidate)));
            assert(offered.push(Some(candidate)) =~= seq![Some(start_boundary())] + cuts
                + grid.push(Some(candidate)));
            grid = grid.push(Some(candidate));
            offered = offered.push(Some(candidate));
        }
        if audio_len - sample <= window {
            break;
        }
        sample = sample + window;
    }
    proof {
        let k = grid.len() as int;
        assert((n - 1) / w == k) by (nonlinear_arith)
            requires
                w > 0,
                k * w < n <= (k + 1) * w,
        ;
        assert(energy_grid(scoring, audio@, w, grid));
    }

    let end = BoundaryCandidate {
        sample: audio_len,
        kind: BoundaryKind::End,
        pause_samples: 0,
        rms: 0,
    };
    offer(&mut candidates, end, Ghost(offered));
    proof {
        assert(offered.push(Some(end)) =~= offers(n, cuts, grid));
        assert(pause_cuts(scoring, audio@, pauses@, policy, cuts));
    }
    candidates
}

/// What boundaries are settled from: a cut per pause, and the fallback grid.
pub proof fn lemma_boundary_parts<S, M: Scoring<S>>(
    scoring: &M,
    audio: Seq<S>,
    pauses: Seq<Range<usize>>,
    policy: ChunkPolicy,
    candidates: Seq<BoundaryCandidate>,
) -> (parts: (Seq<Option<BoundaryCandidate>>, Seq<Option<BoundaryCandidate>>))
    requires
        is_boundaries(scoring, audio, pauses, policy, candidates),
    ensures
        pause_cuts(scoring, audio, pauses, policy, parts.0),
        energy_grid(scoring, audio, policy.energy_window_samples as int, parts.1),
        settled_offers(offers(audio.len() as int, parts.0, parts.1), candidates),
{
    choose|cuts: Seq<Option<BoundaryCandidate>>, grid: Seq<Option<BoundaryCandidate>>|
        {
            &&& #[trigger] pause_cuts(scoring, audio, pauses, policy, cuts)
            &&& #[trigger] energy_grid(scoring, audio, policy.energy_window_samples as int, grid)
            &&& settled_offers(offers(audio.len() as int, cuts, grid), candidates)
        }
}

/// Law: the boundaries of a recording run from its first sample to its end, and
/// no multiple of the energy window is left out, whatever was measured.
pub proof fn law_boundaries_span_the_audio<S, M: Scoring<S>>(
    scoring: &M,
    audio: Seq<S>,
    pauses: Seq<Range<usize>>,
    policy: ChunkPolicy,
    candidates: Seq<BoundaryCandidate>,
)
    requires
        is_boundaries(scoring, audio, pauses, policy, candidates),
        0 < audio.len() <= usize::MAX,
        policy.energy_window_samples > 0,
    ensures
        ordered(candidates),
        candidates.len() >= 2,
        candidates[0].sample == 0,
        candidates.last().sample == audio.len(),
        forall|k: int|
            0 < k && #[trigger] (k * policy.energy_window_samples) < audio.len()
                ==> has_candidate_at(candidates, (k * policy.energy_window_samples) as usize),
{
    let w = policy.energy_window_samples as int;
    let n = audio.len() as int;
    let (cuts, grid) = lemma_boundary_parts(scoring, audio, pauses, policy, candidates);
    let offered = offers(n, cuts, grid);
    assert(offered[0] == Some(start_boundary()));
    assert(offered[offered.len() - 1] == Some(end_boundary(n)));
    assert(has_candidate_at(candidates, 0));
    assert(has_candidate_at(candidates, n as usize));
    assert forall|i: int| 0 <= i < offered.len() && (#[trigger] offered[i]) is Some implies
        offered[i]->0.sample <= n by {
        if 0 < i <= cuts.len() {
            assert(offered[i] == cuts[i - 1]);
            assert(pause_cut(scoring, audio, pauses[i - 1], policy, cuts[i - 1]));
        } else if cuts.len() < i <= cuts.len() + grid.len() {
            let g = i - 1 - cuts.len();
            assert(offered[i] == grid[g]);
            assert(grid_point(scoring, audio, w, (g + 1) * w, grid[g]));
            lemma_multiple_inside(n, w, g + 1);
        }
    }
    assert forall|j: int| 0 <= j < candidates.len() implies (#[trigger] candidates[j]).sample
        <= n by {
        assert(has_source(offered, candidates[j]));
    }
    assert forall|k: int|
        0 < k && #[trigger] (k * policy.energy_window_samples) < audio.len() implies has_candidate_at(
        candidates,
        (k * policy.energy_window_samples) as usize,
    ) by {
        assert(k <= (n - 1) / w) by (nonlinear_arith)
            requires
                0 < w,
                k * w < n,
        ;
        let at = cuts.len() + k;
        assert(offered[at] == grid[k - 1]);
        assert(grid_point(scoring, audio, w, (k - 1 + 1) * w, grid[k - 1]));
    }
}

/// `candidate` is a cut in a pause of the recording that is long enough to count,
/// and knows how long the pause is.
pub open spec fn cuts_a_long_pause(
    audio_len: int,
    pauses: Seq<Range<usize>>,
    policy: ChunkPolicy,
    candidate: BoundaryCandidate,
) -> bool {
    exists|i: int|
        {
            &&& 0 <= i < pauses.len()
            &&& (#[trigger] pauses[i]).start <= candidate.sample < clipped(
                pauses[i].end as int,
                audio_len,
            )
            &&& candidate.pause_samples == clipped(pauses[i].end as int, audio_len)
                - pauses[i].start
            &&& policy.min_pause_samples <= candidate.pause_samples
        }
}

/// Law: every boundary inside a recording is a cut in a pause that is long
/// enough, or a multiple of the energy window.
pub proof fn law_inner_boundaries_have_a_reason<S, M: Scoring<S>>(
    scoring: &M,
    audio: Seq<S>,
    pauses: Seq<Range<usize>>,
    policy: ChunkPolicy,
    candidates: Seq<BoundaryCandidate>,
    j: int,
)
    requires
        is_boundaries(scoring, audio, pauses, policy, candidates),
        0 < audio.len() <= usize::MAX,
        policy.energy_window_samples > 0,
        0 <= j < candidates.len(),
    ensures
        match candidates[j].kind {
            BoundaryKind::Start => candidates[j].sample == 0,
            BoundaryKind::End => candidates[j].sample == audio.len(),
            BoundaryKind::VadPause => 0 < candidates[j].sample < audio.len() && cuts_a_long_pause(
                audio.len() as int,
                pauses,
                policy,
                candidates[j],
            ),
            BoundaryKind::EnergyFallback => 0 < candidates[j].sample < audio.len()
                && candidates[j].sample as int % policy.energy_window_samples as int == 0,
        },
{
    let w = policy.energy_window_samples as int;
    let n = audio.len() as int;
    let (cuts, grid) = lemma_boundary_parts(scoring, audio, pauses, policy, candidates);
    let offered = offers(n, cuts, grid);
    assert(has_source(offered, candidates[j]));
    let k = choose|k: int| #[trigger] prevails(offered, k) && offered[k] == Some(candidates[j]);
    if 0 < k <= cuts.len() {
        assert(offered[k] == cuts[k - 1]);
        assert(pause_cut(scoring, audio, pauses[k - 1], policy, cuts[k - 1]));
        assert(cuts_a_long_pause(n, pauses, policy, candidates[j])) by {
            assert(pauses[k - 1].start <= candidates[j].sample);
        }
    } else if cuts.len() < k <= cuts.len() + grid.len() {
        let g = k - 1 - cuts.len();
        assert(offered[k] == grid[g]);
        assert(grid_point(scoring, audio, w, (g + 1) * w, grid[g]));
        lemma_multiple_inside(n, w, g + 1);
        assert(((g + 1) * w) % w == 0) by (nonlinear_arith)
            requires
                0 < w,
        ;
    }
}

pub proof fn lemma_multiple_inside(n: int, w: int, k: int)
    requires
        0 < w,
        0 < n,
        0 < k <= (n - 1) / w,
    ensures
        0 < k * w < n,
{
    assert(0 < k * w < n) by (nonlinear_arith)
        requires
            0 < w,
            0 < n,
            0 < k <= (n - 1) / w,
    ;
}

} // verus!
