//! What boundaries and spans are judged by.
//!
//! Loudness and cost are fractional numbers. Here they are integers that order
//! the same way, and the arithmetic on them is what an implementation of
//! `Scoring` supplies. Which numbers are put together, and how, is said here.

use crate::boundary::{BoundaryCandidate, BoundaryKind};
use crate::policy::ChunkPolicy;
use std::ops::Range;
use vstd::prelude::*;

verus! {

/// The cost that no plan has: positive infinity.
pub const INFINITE_COST: i64 = 0x7FF0_0000_0000_0000;

/// A cost that is a number, neither infinite nor undefined. Undefined costs lie
/// beyond the infinite ones on both sides.
pub open spec fn finite_cost(cost: i64) -> bool {
    -INFINITE_COST - 1 < cost < INFINITE_COST
}

/// By how much a span falls short of the soft minimum.
#[derive(Clone, Copy, Debug, PartialEq, Eq, Structural)]
pub struct Shortfall {
    pub missing_samples: usize,
    pub soft_min_samples: usize,
    /// The span ends the recording.
    pub is_final: bool,
}

/// What cutting at the end of a span is judged by.
#[derive(Clone, Copy, Debug, PartialEq, Eq, Structural)]
pub enum CutTerms {
    /// The recording itself starts or ends here.
    Free,
    /// A cut in a pause, with its loudness and its length against the minimum.
    Pause { rms: u32, min_pause_samples: usize, pause_samples: usize },
    /// A cut where no pause is known, with its loudness.
    Energy { rms: u32 },
}

/// Everything that the cost of one span is computed from.
#[derive(Clone, Copy, Debug, PartialEq, Eq, Structural)]
pub struct EdgeTerms {
    pub span_samples: usize,
    pub preferred_samples: usize,
    pub shortfall: Option<Shortfall>,
    pub cut: CutTerms,
}

// The weights are a quality-first starting point. They can be tuned without
// changing anything else.

/// What every span costs, whatever its length.
pub const CHUNK_CALL_COST: usize = 2;

/// What the square of the deviation from the preferred length costs.
pub const LENGTH_COST_WEIGHT: usize = 2;

/// What the square of the shortfall costs.
pub const SHORT_SPAN_COST_WEIGHT: usize = 20;

/// What the square of the shortfall costs on top at the end of a recording.
pub const FINAL_SHORT_SPAN_EXTRA_WEIGHT: usize = 30;

/// What a cut costs where no pause is known.
pub const ENERGY_BOUNDARY_BASE_COST: usize = 6;

/// What loudness costs where no pause is known.
pub const ENERGY_RMS_COST_WEIGHT: usize = 2;

/// What loudness costs in a pause.
pub const VAD_RMS_COST_WEIGHT: usize = 2;

/// The shortest pause costs the reciprocal of this, a longer one less.
pub const VAD_DURATION_COST_DIVISOR: usize = 2;

/// Arithmetic on fractional numbers.
///
/// A number is an `i64` that orders as the fractional number that it stands for
/// does, zero as `0`; a loudness is a `u32`, silence `0`, that is only handed
/// through. Nothing is presumed of an implementation: what is said of a plan
/// refers to the values that these methods returned.
pub trait Scoring<S> {
    /// The energy of one sample.
    fn sample_energy(&self, sample: S) -> i64;

    /// The number of `samples`.
    fn count(&self, samples: usize) -> i64;

    /// The sum of two numbers.
    fn plus(&self, a: i64, b: i64) -> i64;

    /// The first number without the second.
    fn minus(&self, a: i64, b: i64) -> i64;

    /// The product of two numbers.
    fn times(&self, a: i64, b: i64) -> i64;

    /// The first number divided by the second.
    fn over(&self, a: i64, b: i64) -> i64;

    /// The loudness of a window of mean energy `mean`: its square root.
    fn root(&self, mean: i64) -> u32;

    /// The number that a loudness is.
    fn loudness(&self, rms: u32) -> i64;
}

/// `scoring` may return `energy` for the sample `sample`.
pub open spec fn energizes<S, M: Scoring<S>>(scoring: &M, sample: S, energy: i64) -> bool {
    call_ensures(M::sample_energy, (scoring, sample), energy)
}

/// `scoring` may return `number` for a count of `samples`.
pub open spec fn counts<S, M: Scoring<S>>(scoring: &M, samples: usize, number: i64) -> bool {
    call_ensures(M::count, (scoring, samples), number)
}

/// `scoring` may return `sum` for `a` and `b`.
pub open spec fn sums<S, M: Scoring<S>>(scoring: &M, a: i64, b: i64, sum: i64) -> bool {
    call_ensures(M::plus, (scoring, a, b), sum)
}

/// `scoring` may return `difference` for `a` without `b`.
pub open spec fn subtracts<S, M: Scoring<S>>(
    scoring: &M,
    a: i64,
    b: i64,
    difference: i64,
) -> bool {
    call_ensures(M::minus, (scoring, a, b), difference)
}

/// `scoring` may return `product` for `a` and `b`.
pub open spec fn multiplies<S, M: Scoring<S>>(scoring: &M, a: i64, b: i64, product: i64) -> bool {
    call_ensures(M::times, (scoring, a, b), product)
}

/// `scoring` may return `quotient` for `a` divided by `b`.
pub open spec fn divides<S, M: Scoring<S>>(scoring: &M, a: i64, b: i64, quotient: i64) -> bool {
    call_ensures(M::over, (scoring, a, b), quotient)
}

/// `scoring` may return the loudness `rms` for the mean energy `mean`.
pub open spec fn roots<S, M: Scoring<S>>(scoring: &M, mean: i64, rms: u32) -> bool {
    call_ensures(M::root, (scoring, mean), rms)
}

/// `scoring` may return `number` for the loudness `rms`.
pub open spec fn sounds<S, M: Scoring<S>>(scoring: &M, rms: u32, number: i64) -> bool {
    call_ensures(M::loudness, (scoring, rms), number)
}

/// Entry `i + 1` of `partial` is entry `i` with the energy of sample `i`.
pub open spec fn adds_sample<S, M: Scoring<S>>(
    scoring: &M,
    window: Seq<S>,
    partial: Seq<i64>,
    i: int,
) -> bool {
    exists|energy: i64| #[trigger]
        energizes(scoring, window[i], energy) && sums(scoring, partial[i], energy, partial[i + 1])
}

/// `partial` are the energies of ever longer beginnings of `window`, from none of
/// it on.
pub open spec fn partial_sums<S, M: Scoring<S>>(
    scoring: &M,
    window: Seq<S>,
    partial: Seq<i64>,
) -> bool {
    &&& partial.len() == window.len() + 1
    &&& partial[0] == 0
    &&& forall|i: int|
        0 <= i < window.len() ==> #[trigger] adds_sample(scoring, window, partial, i)
}

/// `energy` is the sum of the energies of all samples in `window`.
#[verifier::opaque]
pub open spec fn measures<S, M: Scoring<S>>(scoring: &M, window: Seq<S>, energy: i64) -> bool {
    exists|partial: Seq<i64>| #[trigger]
        partial_sums(scoring, window, partial) && partial.last() == energy
}

/// `next` is the energy of a window of energy `energy` once it has moved by one
/// sample, past `leaving` and onto `entering`.
#[verifier::opaque]
pub open spec fn slides<S, M: Scoring<S>>(
    scoring: &M,
    energy: i64,
    leaving: S,
    entering: S,
    next: i64,
) -> bool {
    exists|gone: i64, rest: i64, come: i64|
        {
            &&& #[trigger] energizes(scoring, leaving, gone)
            &&& #[trigger] subtracts(scoring, energy, gone, rest)
            &&& #[trigger] energizes(scoring, entering, come)
            &&& sums(scoring, rest, come, next)
        }
}

/// `rms` is the root of the mean of `energy` over `window_samples`.
#[verifier::opaque]
pub open spec fn levels<S, M: Scoring<S>>(
    scoring: &M,
    energy: i64,
    window_samples: usize,
    rms: u32,
) -> bool {
    exists|length: i64, mean: i64|
        {
            &&& #[trigger] counts(scoring, window_samples, length)
            &&& #[trigger] divides(scoring, energy, length, mean)
            &&& roots(scoring, mean, rms)
        }
}

/// `quotient` is `a` divided by `b`.
pub open spec fn is_ratio<S, M: Scoring<S>>(
    scoring: &M,
    a: usize,
    b: usize,
    quotient: i64,
) -> bool {
    exists|x: i64, y: i64| #[trigger]
        counts(scoring, a, x) && #[trigger] counts(scoring, b, y) && divides(
            scoring,
            x,
            y,
            quotient,
        )
}

/// `product` is `weight` times `number`.
pub open spec fn weighted<S, M: Scoring<S>>(
    scoring: &M,
    weight: usize,
    number: i64,
    product: i64,
) -> bool {
    exists|w: i64| #[trigger]
        counts(scoring, weight, w) && multiplies(scoring, w, number, product)
}

/// `product` is `weight` times the square of `number`.
pub open spec fn weighted_square<S, M: Scoring<S>>(
    scoring: &M,
    weight: usize,
    number: i64,
    product: i64,
) -> bool {
    exists|once: i64| #[trigger]
        weighted(scoring, weight, number, once) && multiplies(scoring, once, number, product)
}

/// `part` is by what part of `preferred` a span of `span` samples deviates from
/// it.
pub open spec fn deviates<S, M: Scoring<S>>(
    scoring: &M,
    span: usize,
    preferred: usize,
    part: i64,
) -> bool {
    exists|s: i64, p: i64, difference: i64|
        {
            &&& #[trigger] counts(scoring, span, s)
            &&& #[trigger] counts(scoring, preferred, p)
            &&& #[trigger] subtracts(scoring, s, p, difference)
            &&& divides(scoring, difference, p, part)
        }
}

/// `cost` is the cost of a call with the square of the deviation from the
/// preferred length.
pub open spec fn length_costs<S, M: Scoring<S>>(scoring: &M, edge: EdgeTerms, cost: i64) -> bool {
    exists|part: i64, square: i64, call: i64|
        {
            &&& #[trigger] deviates(scoring, edge.span_samples, edge.preferred_samples, part)
            &&& #[trigger] weighted_square(scoring, LENGTH_COST_WEIGHT, part, square)
            &&& #[trigger] counts(scoring, CHUNK_CALL_COST, call)
            &&& sums(scoring, call, square, cost)
        }
}

/// `cost` is `base` with the square of the shortfall `part`, weighted.
pub open spec fn adds_shortfall<S, M: Scoring<S>>(
    scoring: &M,
    base: i64,
    weight: usize,
    part: i64,
    cost: i64,
) -> bool {
    exists|square: i64| #[trigger]
        weighted_square(scoring, weight, part, square) && sums(scoring, base, square, cost)
}

/// `cost` is `base` with what a span that is too short costs on top.
pub open spec fn shortfall_costs<S, M: Scoring<S>>(
    scoring: &M,
    shortfall: Option<Shortfall>,
    base: i64,
    cost: i64,
) -> bool {
    match shortfall {
        None => cost == base,
        Some(short) => exists|part: i64, first: i64|
            {
                &&& #[trigger] is_ratio(
                    scoring,
                    short.missing_samples,
                    short.soft_min_samples,
                    part,
                )
                &&& #[trigger] adds_shortfall(scoring, base, SHORT_SPAN_COST_WEIGHT, part, first)
                &&& if short.is_final {
                    adds_shortfall(scoring, first, FINAL_SHORT_SPAN_EXTRA_WEIGHT, part, cost)
                } else {
                    cost == first
                }
            },
    }
}

/// `cost` is what cutting in a pause costs: its loudness, and its length against
/// the shortest that counts.
pub open spec fn pause_costs<S, M: Scoring<S>>(
    scoring: &M,
    rms: u32,
    min_pause_samples: usize,
    pause_samples: usize,
    cost: i64,
) -> bool {
    exists|level: i64, loud: i64, length: i64, weight: i64, short: i64|
        {
            &&& #[trigger] sounds(scoring, rms, level)
            &&& #[trigger] weighted(scoring, VAD_RMS_COST_WEIGHT, level, loud)
            &&& #[trigger] is_ratio(scoring, min_pause_samples, pause_samples, length)
            &&& #[trigger] is_ratio(scoring, 1, VAD_DURATION_COST_DIVISOR, weight)
            &&& #[trigger] multiplies(scoring, weight, length, short)
            &&& sums(scoring, loud, short, cost)
        }
}

/// `cost` is what cutting costs where no pause is known.
pub open spec fn energy_costs<S, M: Scoring<S>>(scoring: &M, rms: u32, cost: i64) -> bool {
    exists|level: i64, loud: i64, base: i64|
        {
            &&& #[trigger] sounds(scoring, rms, level)
            &&& #[trigger] weighted(scoring, ENERGY_RMS_COST_WEIGHT, level, loud)
            &&& #[trigger] counts(scoring, ENERGY_BOUNDARY_BASE_COST, base)
            &&& sums(scoring, base, loud, cost)
        }
}

/// `cost` is what cutting at the end of a span costs.
pub open spec fn cut_costs<S, M: Scoring<S>>(scoring: &M, cut: CutTerms, cost: i64) -> bool {
    match cut {
        CutTerms::Free => cost == 0,
        CutTerms::Pause { rms, min_pause_samples, pause_samples } => pause_costs(
            scoring,
            rms,
            min_pause_samples,
            pause_samples,
            cost,
        ),
        CutTerms::Energy { rms } => energy_costs(scoring, rms, cost),
    }
}

/// `cost` is the cost of a span: of its length, of what it falls short by, and of
/// the cut at its end.
#[verifier::opaque]
pub open spec fn costs<S, M: Scoring<S>>(scoring: &M, edge: EdgeTerms, cost: i64) -> bool {
    exists|length: i64, span: i64, cut: i64|
        {
            &&& #[trigger] length_costs(scoring, edge, length)
            &&& #[trigger] shortfall_costs(scoring, edge.shortfall, length, span)
            &&& #[trigger] cut_costs(scoring, edge.cut, cut)
            &&& sums(scoring, span, cut, cost)
        }
}

/// `scoring` may give a plan of cost `total` the cost `sum` when a span with
/// the terms `edge` is put behind it.
pub open spec fn extends<S, M: Scoring<S>>(
    scoring: &M,
    total: i64,
    edge: EdgeTerms,
    sum: i64,
) -> bool {
    exists|cost: i64| #[trigger] costs(scoring, edge, cost) && sums(scoring, total, cost, sum)
}

/// The terms of a span of `span_samples` samples that ends at `boundary`.
pub open spec fn terms_of(
    span_samples: usize,
    boundary: BoundaryCandidate,
    is_final: bool,
    policy: ChunkPolicy,
) -> EdgeTerms {
    EdgeTerms {
        span_samples,
        preferred_samples: policy.preferred_samples,
        shortfall: if span_samples < policy.soft_min_samples {
            Some(
                Shortfall {
                    missing_samples: (policy.soft_min_samples - span_samples) as usize,
                    soft_min_samples: policy.soft_min_samples,
                    is_final,
                },
            )
        } else {
            None
        },
        cut: match boundary.kind {
            BoundaryKind::VadPause => CutTerms::Pause {
                rms: boundary.rms,
                min_pause_samples: policy.min_pause_samples,
                pause_samples: if boundary.pause_samples == 0 {
                    1
                } else {
                    boundary.pause_samples
                },
            },
            BoundaryKind::EnergyFallback => CutTerms::Energy { rms: boundary.rms },
            BoundaryKind::Start | BoundaryKind::End => CutTerms::Free,
        },
    }
}

/// Collects what the cost of a span of `span_samples` samples is computed from:
/// its length against the preferred one, by how much it is too short, and what
/// it ends at.
pub fn edge_terms(
    span_samples: usize,
    ending_boundary: &BoundaryCandidate,
    is_final: bool,
    policy: ChunkPolicy,
) -> (terms: EdgeTerms)
    ensures
        terms == terms_of(span_samples, *ending_boundary, is_final, policy),
        terms.span_samples == span_samples,
        terms.preferred_samples == policy.preferred_samples,
        terms.shortfall is Some <==> span_samples < policy.soft_min_samples,
        terms.shortfall matches Some(short) ==> {
            &&& short.missing_samples == policy.soft_min_samples - span_samples
            &&& short.soft_min_samples == policy.soft_min_samples
            &&& short.is_final == is_final
        },
        ending_boundary.kind == BoundaryKind::VadPause && ending_boundary.pause_samples > 0
            ==> terms.cut == (CutTerms::Pause {
            rms: ending_boundary.rms,
            min_pause_samples: policy.min_pause_samples,
            pause_samples: ending_boundary.pause_samples,
        }),
        ending_boundary.kind == BoundaryKind::VadPause && ending_boundary.pause_samples == 0
            ==> terms.cut == (CutTerms::Pause {
            rms: ending_boundary.rms,
            min_pause_samples: policy.min_pause_samples,
            pause_samples: 1,
        }),
        ending_boundary.kind == BoundaryKind::EnergyFallback ==> terms.cut == (CutTerms::Energy {
            rms: ending_boundary.rms,
        }),
        ending_boundary.kind == BoundaryKind::Start || ending_boundary.kind == BoundaryKind::End
            ==> terms.cut == CutTerms::Free,
{
    let shortfall: Option<Shortfall> = if span_samples < policy.soft_min_samples {
        Some(
            Shortfall {
                missing_samples: policy.soft_min_samples - span_samples,
                soft_min_samples: policy.soft_min_samples,
                is_final,
            },
        )
    } else {
        None
    };
    let cut: CutTerms = match ending_boundary.kind {
        BoundaryKind::VadPause => CutTerms::Pause {
            rms: ending_boundary.rms,
            min_pause_samples: policy.min_pause_samples,
            pause_samples: if ending_boundary.pause_samples == 0 {
                1
            } else {
                ending_boundary.pause_samples
            },
        },
        BoundaryKind::EnergyFallback => CutTerms::Energy { rms: ending_boundary.rms },
        BoundaryKind::Start | BoundaryKind::End => CutTerms::Free,
    };
    EdgeTerms { span_samples, preferred_samples: policy.preferred_samples, shortfall, cut }
}

/// The sum of the energies of all samples in a window.
pub fn squared_energy_sum<S: Copy, M: Scoring<S>>(audio: &[S], scoring: &M) -> (energy: i64)
    ensures
        measures(scoring, audio@, energy),
{
    let mut energy: i64 = 0;
    let ghost mut partial: Seq<i64> = seq![0];
    let mut index: usize = 0;
    while index < audio.len()
        invariant
            index <= audio.len(),
            partial.len() == index + 1,
            partial[0] == 0,
            partial[index as int] == energy,
            forall|i: int| 0 <= i < index ==> #[trigger] adds_sample(scoring, audio@, partial, i),
        decreases audio.len() - index,
    {
        let sample: i64 = scoring.sample_energy(audio[index]);
        let sum: i64 = scoring.plus(energy, sample);
        proof {
            let before = partial;
            partial = partial.push(sum);
            assert(energizes(scoring, audio@[index as int], sample));
            assert forall|i: int| 0 <= i < index + 1 implies #[trigger] adds_sample(
                scoring,
                audio@,
                partial,
                i,
            ) by {
                if i < index {
                    assert(adds_sample(scoring, audio@, before, i));
                }
            }
        }
        energy = sum;
        index = index + 1;
    }
    proof {
        reveal(measures);
        assert(partial_sums(scoring, audio@, partial));
    }
    energy
}

/// The energy of a window once it has moved by one sample.
pub fn slide<S: Copy, M: Scoring<S>>(
    energy: i64,
    leaving: S,
    entering: S,
    scoring: &M,
) -> (next: i64)
    ensures
        slides(scoring, energy, leaving, entering, next),
{
    let gone: i64 = scoring.sample_energy(leaving);
    let rest: i64 = scoring.minus(energy, gone);
    let come: i64 = scoring.sample_energy(entering);
    let next: i64 = scoring.plus(rest, come);
    proof {
        reveal(slides);
        assert(energizes(scoring, leaving, gone));
        assert(subtracts(scoring, energy, gone, rest));
        assert(energizes(scoring, entering, come));
    }
    next
}

/// The loudness of a window of `window_samples` samples.
pub fn level<S, M: Scoring<S>>(energy: i64, window_samples: usize, scoring: &M) -> (rms: u32)
    ensures
        levels(scoring, energy, window_samples, rms),
{
    let length: i64 = scoring.count(window_samples);
    let mean: i64 = scoring.over(energy, length);
    let rms: u32 = scoring.root(mean);
    proof {
        reveal(levels);
        assert(counts(scoring, window_samples, length));
        assert(divides(scoring, energy, length, mean));
    }
    rms
}

/// The loudness of a range of the audio, none where it is empty.
pub fn rms<S: Copy, M: Scoring<S>>(audio: &[S], range: Range<usize>, scoring: &M) -> (rms: u32)
    requires
        range.start < range.end ==> range.end <= audio.len(),
    ensures
        range.start >= range.end ==> rms == 0,
        range.start < range.end ==> exists|energy: i64| #[trigger]
            measures(
                scoring,
                audio@.subrange(range.start as int, range.end as int),
                energy,
            ) && levels(scoring, energy, (range.end - range.start) as usize, rms),
{
    if range.start >= range.end {
        return 0;
    }
    let energy: i64 = squared_energy_sum(&audio[range.start..range.end], scoring);
    level(energy, range.end - range.start, scoring)
}

fn ratio<S, M: Scoring<S>>(a: usize, b: usize, scoring: &M) -> (quotient: i64)
    ensures
        is_ratio(scoring, a, b, quotient),
{
    let x: i64 = scoring.count(a);
    let y: i64 = scoring.count(b);
    let quotient: i64 = scoring.over(x, y);
    assert(counts(scoring, a, x) && counts(scoring, b, y));
    quotient
}

fn weigh<S, M: Scoring<S>>(weight: usize, number: i64, scoring: &M) -> (product: i64)
    ensures
        weighted(scoring, weight, number, product),
{
    let w: i64 = scoring.count(weight);
    let product: i64 = scoring.times(w, number);
    assert(counts(scoring, weight, w));
    product
}

fn weigh_square<S, M: Scoring<S>>(weight: usize, number: i64, scoring: &M) -> (product: i64)
    ensures
        weighted_square(scoring, weight, number, product),
{
    let once: i64 = weigh(weight, number, scoring);
    let product: i64 = scoring.times(once, number);
    assert(weighted(scoring, weight, number, once));
    product
}

fn length_cost<S, M: Scoring<S>>(edge: EdgeTerms, scoring: &M) -> (cost: i64)
    ensures
        length_costs(scoring, edge, cost),
{
    let preferred: i64 = scoring.count(edge.preferred_samples);
    let span: i64 = scoring.count(edge.span_samples);
    let difference: i64 = scoring.minus(span, preferred);
    let part: i64 = scoring.over(difference, preferred);
    proof {
        assert(counts(scoring, edge.span_samples, span));
        assert(counts(scoring, edge.preferred_samples, preferred));
        assert(subtracts(scoring, span, preferred, difference));
        assert(deviates(scoring, edge.span_samples, edge.preferred_samples, part));
    }
    let square: i64 = weigh_square(LENGTH_COST_WEIGHT, part, scoring);
    let call: i64 = scoring.count(CHUNK_CALL_COST);
    assert(counts(scoring, CHUNK_CALL_COST, call));
    scoring.plus(call, square)
}

fn add_shortfall<S, M: Scoring<S>>(
    base: i64,
    weight: usize,
    part: i64,
    scoring: &M,
) -> (cost: i64)
    ensures
        adds_shortfall(scoring, base, weight, part, cost),
{
    let square: i64 = weigh_square(weight, part, scoring);
    scoring.plus(base, square)
}

fn shortfall_cost<S, M: Scoring<S>>(
    shortfall: Option<Shortfall>,
    base: i64,
    scoring: &M,
) -> (cost: i64)
    ensures
        shortfall_costs(scoring, shortfall, base, cost),
{
    match shortfall {
        None => base,
        Some(short) => {
            let part: i64 = ratio(short.missing_samples, short.soft_min_samples, scoring);
            let first: i64 = add_shortfall(base, SHORT_SPAN_COST_WEIGHT, part, scoring);
            if short.is_final {
                add_shortfall(first, FINAL_SHORT_SPAN_EXTRA_WEIGHT, part, scoring)
            } else {
                first
            }
        },
    }
}

fn cut_cost<S, M: Scoring<S>>(cut: CutTerms, scoring: &M) -> (cost: i64)
    ensures
        cut_costs(scoring, cut, cost),
{
    match cut {
        CutTerms::Free => 0,
        CutTerms::Pause { rms, min_pause_samples, pause_samples } => {
            let length: i64 = ratio(min_pause_samples, pause_samples, scoring);
            let level: i64 = scoring.loudness(rms);
            assert(sounds(scoring, rms, level));
            let loud: i64 = weigh(VAD_RMS_COST_WEIGHT, level, scoring);
            let weight: i64 = ratio(1, VAD_DURATION_COST_DIVISOR, scoring);
            let short: i64 = scoring.times(weight, length);
            assert(multiplies(scoring, weight, length, short));
            scoring.plus(loud, short)
        },
        CutTerms::Energy { rms } => {
            let level: i64 = scoring.loudness(rms);
            assert(sounds(scoring, rms, level));
            let loud: i64 = weigh(ENERGY_RMS_COST_WEIGHT, level, scoring);
            let base: i64 = scoring.count(ENERGY_BOUNDARY_BASE_COST);
            assert(counts(scoring, ENERGY_BOUNDARY_BASE_COST, base));
            scoring.plus(base, loud)
        },
    }
}

/// The cost of a span of `span_samples` samples that ends at `ending_boundary`.
pub fn edge_cost<S, M: Scoring<S>>(
    span_samples: usize,
    ending_boundary: &BoundaryCandidate,
    is_final: bool,
    policy: ChunkPolicy,
    scoring: &M,
) -> (cost: i64)
    ensures
        costs(scoring, terms_of(span_samples, *ending_boundary, is_final, policy), cost),
{
    let edge: EdgeTerms = edge_terms(span_samples, ending_boundary, is_final, policy);
    let length: i64 = length_cost(edge, scoring);
    let span: i64 = shortfall_cost(edge.shortfall, length, scoring);
    let cut: i64 = cut_cost(edge.cut, scoring);
    let cost: i64 = scoring.plus(span, cut);
    proof {
        reveal(costs);
    }
    cost
}

} // verus!
