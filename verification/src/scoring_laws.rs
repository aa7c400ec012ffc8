//! What scores mean.

use crate::boundary::{BoundaryCandidate, BoundaryKind};
use crate::plan_laws::repeatable;
use crate::policy::ChunkPolicy;
use crate::scoring::{
    adds_sample, adds_shortfall, costs, counts, cut_costs, deviates, divides, energizes,
    energy_costs, finite_cost, is_ratio, length_costs, levels, measures, multiplies, partial_sums, pause_costs,
    roots, shortfall_costs, slides, sounds, subtracts, sums, terms_of, weighted, weighted_square,
    Scoring, INFINITE_COST,
};
use vstd::prelude::*;

verus! {

/// Law: the energy of a window is that of its samples, each counted once: none
/// for an empty window, and one sample more adds its own energy.
pub proof fn law_each_sample_adds_its_energy<S, M: Scoring<S>>(
    scoring: &M,
    window: Seq<S>,
    sample: S,
    energy: i64,
)
    ensures
        measures(scoring, Seq::<S>::empty(), energy) <==> energy == 0,
        measures(scoring, window.push(sample), energy) <==> exists|before: i64, own: i64|
            {
                &&& #[trigger] measures(scoring, window, before)
                &&& #[trigger] energizes(scoring, sample, own)
                &&& sums(scoring, before, own, energy)
            },
{
    reveal(measures);
    let none = Seq::<S>::empty();
    if measures(scoring, none, energy) {
        let partial = choose|partial: Seq<i64>| #[trigger]
            partial_sums(scoring, none, partial) && partial.last() == energy;
    }
    if energy == 0 {
        assert(partial_sums(scoring, none, seq![0i64]));
        assert(seq![0i64].last() == 0);
    }
    let more = window.push(sample);
    if measures(scoring, more, energy) {
        let partial = choose|partial: Seq<i64>| #[trigger]
            partial_sums(scoring, more, partial) && partial.last() == energy;
        let head = partial.drop_last();
        let n = window.len() as int;
        assert forall|i: int| 0 <= i < n implies #[trigger] adds_sample(
            scoring,
            window,
            head,
            i,
        ) by {
            assert(adds_sample(scoring, more, partial, i));
            assert(more[i] == window[i] && head[i] == partial[i] && head[i + 1] == partial[i + 1]);
        }
        assert(partial_sums(scoring, window, head));
        assert(measures(scoring, window, partial[n]));
        assert(adds_sample(scoring, more, partial, n));
        let own = choose|own: i64| #[trigger]
            energizes(scoring, more[n], own) && sums(scoring, partial[n], own, partial[n + 1]);
        assert(energizes(scoring, sample, own));
    }
    if exists|before: i64, own: i64|
        {
            &&& #[trigger] measures(scoring, window, before)
            &&& #[trigger] energizes(scoring, sample, own)
            &&& sums(scoring, before, own, energy)
        } {
        let (before, own) = choose|before: i64, own: i64|
            {
                &&& #[trigger] measures(scoring, window, before)
                &&& #[trigger] energizes(scoring, sample, own)
                &&& sums(scoring, before, own, energy)
            };
        let head = choose|partial: Seq<i64>| #[trigger]
            partial_sums(scoring, window, partial) && partial.last() == before;
        let partial = head.push(energy);
        assert forall|i: int| 0 <= i < more.len() implies #[trigger] adds_sample(
            scoring,
            more,
            partial,
            i,
        ) by {
            if i < window.len() {
                assert(adds_sample(scoring, window, head, i));
                assert(more[i] == window[i]);
            } else {
                assert(energizes(scoring, more[i], own));
            }
        }
        assert(partial_sums(scoring, more, partial));
    }
}

/// Law: a window that moves on by a sample loses the energy of the sample that it
/// leaves and gains that of the one that it enters.
pub proof fn law_a_moving_window_trades_one_sample<S, M: Scoring<S>>(
    scoring: &M,
    energy: i64,
    leaving: S,
    entering: S,
    next: i64,
)
    requires
        slides(scoring, energy, leaving, entering, next),
    ensures
        exists|gone: i64, rest: i64, come: i64|
            {
                &&& #[trigger] energizes(scoring, leaving, gone)
                &&& #[trigger] subtracts(scoring, energy, gone, rest)
                &&& #[trigger] energizes(scoring, entering, come)
                &&& sums(scoring, rest, come, next)
            },
{
    reveal(slides);
}

/// Law: the loudness of a window is the root of its mean energy, whatever its
/// length.
pub proof fn law_loudness_is_a_root_mean<S, M: Scoring<S>>(
    scoring: &M,
    energy: i64,
    window_samples: usize,
    rms: u32,
)
    requires
        levels(scoring, energy, window_samples, rms),
    ensures
        exists|length: i64, mean: i64|
            {
                &&& #[trigger] counts(scoring, window_samples, length)
                &&& #[trigger] divides(scoring, energy, length, mean)
                &&& roots(scoring, mean, rms)
            },
{
    reveal(levels);
}

/// `product` is `weight` times the square of `number`.
pub open spec fn times_square<S, M: Scoring<S>>(
    scoring: &M,
    weight: usize,
    number: i64,
    product: i64,
) -> bool {
    exists|w: i64, once: i64|
        {
            &&& #[trigger] counts(scoring, weight, w)
            &&& #[trigger] multiplies(scoring, w, number, once)
            &&& multiplies(scoring, once, number, product)
        }
}

/// `quotient` is the ratio of two numbers of samples.
pub open spec fn quotient_of<S, M: Scoring<S>>(
    scoring: &M,
    a: usize,
    b: usize,
    quotient: i64,
) -> bool {
    exists|x: i64, y: i64|
        {
            &&& #[trigger] counts(scoring, a, x)
            &&& #[trigger] counts(scoring, b, y)
            &&& divides(scoring, x, y, quotient)
        }
}

/// `cost` is two, and twice the square of how far `span` is from `preferred`, as a
/// part of `preferred`.
pub open spec fn costs_for_length<S, M: Scoring<S>>(
    scoring: &M,
    span: usize,
    preferred: usize,
    cost: i64,
) -> bool {
    exists|s: i64, p: i64, distance: i64, part: i64, square: i64, two: i64|
        {
            &&& #[trigger] counts(scoring, span, s)
            &&& #[trigger] counts(scoring, preferred, p)
            &&& #[trigger] subtracts(scoring, s, p, distance)
            &&& #[trigger] divides(scoring, distance, p, part)
            &&& #[trigger] times_square(scoring, 2, part, square)
            &&& #[trigger] counts(scoring, 2, two)
            &&& sums(scoring, two, square, cost)
        }
}

/// `cost` is `base` with twenty times, and then, at the end of a recording, thirty
/// times the square of what `span` lacks of `soft_min`, as a part of it.
pub open spec fn costs_for_shortness<S, M: Scoring<S>>(
    scoring: &M,
    span: usize,
    soft_min: usize,
    is_final: bool,
    base: i64,
    cost: i64,
) -> bool {
    exists|part: i64, square: i64, first: i64|
        {
            &&& #[trigger] quotient_of(scoring, (soft_min - span) as usize, soft_min, part)
            &&& #[trigger] times_square(scoring, 20, part, square)
            &&& #[trigger] sums(scoring, base, square, first)
            &&& if is_final {
                exists|extra: i64| #[trigger]
                    times_square(scoring, 30, part, extra) && sums(scoring, first, extra, cost)
            } else {
                cost == first
            }
        }
}

/// `cost` is twice the loudness `rms`, and half of the shortest length that counts
/// over the length of the pause.
pub open spec fn costs_in_a_pause<S, M: Scoring<S>>(
    scoring: &M,
    rms: u32,
    min_pause: usize,
    pause: usize,
    cost: i64,
) -> bool {
    exists|level: i64, two: i64, loud: i64, ratio: i64, half: i64, short: i64|
        {
            &&& #[trigger] sounds(scoring, rms, level)
            &&& #[trigger] counts(scoring, 2, two)
            &&& #[trigger] multiplies(scoring, two, level, loud)
            &&& #[trigger] quotient_of(scoring, min_pause, pause, ratio)
            &&& #[trigger] quotient_of(scoring, 1, 2, half)
            &&& #[trigger] multiplies(scoring, half, ratio, short)
            &&& sums(scoring, loud, short, cost)
        }
}

/// `cost` is six, and twice the loudness `rms`.
pub open spec fn costs_without_a_pause<S, M: Scoring<S>>(
    scoring: &M,
    rms: u32,
    cost: i64,
) -> bool {
    exists|level: i64, two: i64, loud: i64, six: i64|
        {
            &&& #[trigger] sounds(scoring, rms, level)
            &&& #[trigger] counts(scoring, 2, two)
            &&& #[trigger] multiplies(scoring, two, level, loud)
            &&& #[trigger] counts(scoring, 6, six)
            &&& sums(scoring, six, loud, cost)
        }
}

proof fn lemma_times_square<S, M: Scoring<S>>(
    scoring: &M,
    weight: usize,
    number: i64,
    product: i64,
)
    requires
        weighted_square(scoring, weight, number, product),
    ensures
        times_square(scoring, weight, number, product),
{
    let once = choose|once: i64| #[trigger]
        weighted(scoring, weight, number, once) && multiplies(scoring, once, number, product);
    let w = choose|w: i64| #[trigger]
        counts(scoring, weight, w) && multiplies(scoring, w, number, once);
    assert(counts(scoring, weight, w) && multiplies(scoring, w, number, once));
}

proof fn lemma_length_cost<S, M: Scoring<S>>(
    scoring: &M,
    edge: crate::scoring::EdgeTerms,
    cost: i64,
)
    requires
        length_costs(scoring, edge, cost),
    ensures
        costs_for_length(scoring, edge.span_samples, edge.preferred_samples, cost),
{
    let (part, square, call) = choose|part: i64, square: i64, call: i64|
        {
            &&& #[trigger] deviates(scoring, edge.span_samples, edge.preferred_samples, part)
            &&& #[trigger] weighted_square(
                scoring,
                crate::scoring::LENGTH_COST_WEIGHT,
                part,
                square,
            )
            &&& #[trigger] counts(scoring, crate::scoring::CHUNK_CALL_COST, call)
            &&& sums(scoring, call, square, cost)
        };
    lemma_times_square(scoring, 2, part, square);
    let (s, p, distance) = choose|s: i64, p: i64, difference: i64|
        {
            &&& #[trigger] counts(scoring, edge.span_samples, s)
            &&& #[trigger] counts(scoring, edge.preferred_samples, p)
            &&& #[trigger] subtracts(scoring, s, p, difference)
            &&& divides(scoring, difference, p, part)
        };
    assert(counts(scoring, 2, call));
    assert(divides(scoring, distance, p, part));
}

proof fn lemma_shortness_cost<S, M: Scoring<S>>(
    scoring: &M,
    span: usize,
    soft_min: usize,
    is_final: bool,
    base: i64,
    cost: i64,
)
    requires
        span < soft_min,
        shortfall_costs(
            scoring,
            Some(
                crate::scoring::Shortfall {
                    missing_samples: (soft_min - span) as usize,
                    soft_min_samples: soft_min,
                    is_final,
                },
            ),
            base,
            cost,
        ),
    ensures
        costs_for_shortness(scoring, span, soft_min, is_final, base, cost),
{
    let missing = (soft_min - span) as usize;
    let (part, first) = choose|part: i64, first: i64|
        {
            &&& #[trigger] is_ratio(scoring, missing, soft_min, part)
            &&& #[trigger] adds_shortfall(scoring, base, 20, part, first)
            &&& if is_final {
                adds_shortfall(scoring, first, 30, part, cost)
            } else {
                cost == first
            }
        };
    assert(quotient_of(scoring, missing, soft_min, part));
    let square = choose|square: i64| #[trigger]
        weighted_square(scoring, 20, part, square) && sums(scoring, base, square, first);
    lemma_times_square(scoring, 20, part, square);
    assert(sums(scoring, base, square, first));
    if is_final {
        let extra = choose|extra: i64| #[trigger]
            weighted_square(scoring, 30, part, extra) && sums(scoring, first, extra, cost);
        lemma_times_square(scoring, 30, part, extra);
    }
}

proof fn lemma_pause_cost<S, M: Scoring<S>>(
    scoring: &M,
    rms: u32,
    min_pause: usize,
    pause: usize,
    cost: i64,
)
    requires
        pause_costs(scoring, rms, min_pause, pause, cost),
    ensures
        costs_in_a_pause(scoring, rms, min_pause, pause, cost),
{
    let (level, loud, length, weight, short) = choose|
        level: i64,
        loud: i64,
        length: i64,
        weight: i64,
        short: i64,
    |
        {
            &&& #[trigger] sounds(scoring, rms, level)
            &&& #[trigger] weighted(scoring, 2, level, loud)
            &&& #[trigger] is_ratio(scoring, min_pause, pause, length)
            &&& #[trigger] is_ratio(scoring, 1, 2, weight)
            &&& #[trigger] multiplies(scoring, weight, length, short)
            &&& sums(scoring, loud, short, cost)
        };
    let two = choose|w: i64| #[trigger]
        counts(scoring, 2, w) && multiplies(scoring, w, level, loud);
    assert(counts(scoring, 2, two) && multiplies(scoring, two, level, loud));
    assert(quotient_of(scoring, min_pause, pause, length));
    assert(quotient_of(scoring, 1, 2, weight));
}

proof fn lemma_energy_cost<S, M: Scoring<S>>(scoring: &M, rms: u32, cost: i64)
    requires
        energy_costs(scoring, rms, cost),
    ensures
        costs_without_a_pause(scoring, rms, cost),
{
    let (level, loud, base) = choose|level: i64, loud: i64, base: i64|
        {
            &&& #[trigger] sounds(scoring, rms, level)
            &&& #[trigger] weighted(scoring, 2, level, loud)
            &&& #[trigger] counts(scoring, 6, base)
            &&& sums(scoring, base, loud, cost)
        };
    let two = choose|w: i64| #[trigger]
        counts(scoring, 2, w) && multiplies(scoring, w, level, loud);
    assert(counts(scoring, 2, two) && multiplies(scoring, two, level, loud));
}

/// Law: a span costs what its length costs, what it lacks of the soft minimum
/// costs on top, and what the boundary that it ends at costs: its loudness, and
/// with a pause the pause's own length, or else a price for having none. The start
/// and the end of a recording are free.
pub proof fn law_what_a_span_costs<S, M: Scoring<S>>(
    scoring: &M,
    span_samples: usize,
    boundary: BoundaryCandidate,
    is_final: bool,
    policy: ChunkPolicy,
    cost: i64,
)
    requires
        costs(scoring, terms_of(span_samples, boundary, is_final, policy), cost),
    ensures
        exists|length: i64, span: i64, cut: i64|
            {
                &&& #[trigger] costs_for_length(
                    scoring,
                    span_samples,
                    policy.preferred_samples,
                    length,
                )
                &&& #[trigger] sums(scoring, span, cut, cost)
                &&& if span_samples < policy.soft_min_samples {
                    costs_for_shortness(
                        scoring,
                        span_samples,
                        policy.soft_min_samples,
                        is_final,
                        length,
                        span,
                    )
                } else {
                    span == length
                }
                &&& match boundary.kind {
                    BoundaryKind::VadPause => costs_in_a_pause(
                        scoring,
                        boundary.rms,
                        policy.min_pause_samples,
                        if boundary.pause_samples == 0 {
                            1
                        } else {
                            boundary.pause_samples
                        },
                        cut,
                    ),
                    BoundaryKind::EnergyFallback => costs_without_a_pause(
                        scoring,
                        boundary.rms,
                        cut,
                    ),
                    BoundaryKind::Start | BoundaryKind::End => cut == 0,
                }
            },
{
    reveal(costs);
    let edge = terms_of(span_samples, boundary, is_final, policy);
    let (length, span, cut) = choose|length: i64, span: i64, cut: i64|
        {
            &&& #[trigger] length_costs(scoring, edge, length)
            &&& #[trigger] shortfall_costs(scoring, edge.shortfall, length, span)
            &&& #[trigger] cut_costs(scoring, edge.cut, cut)
            &&& sums(scoring, span, cut, cost)
        };
    lemma_length_cost(scoring, edge, length);
    if span_samples < policy.soft_min_samples {
        lemma_shortness_cost(
            scoring,
            span_samples,
            policy.soft_min_samples,
            is_final,
            length,
            span,
        );
    }
    match boundary.kind {
        BoundaryKind::VadPause => {
            let pause: usize = if boundary.pause_samples == 0 {
                1
            } else {
                boundary.pause_samples
            };
            lemma_pause_cost(
                scoring,
                boundary.rms,
                policy.min_pause_samples,
                pause,
                cut,
            );
        },
        BoundaryKind::EnergyFallback => {
            lemma_energy_cost(scoring, boundary.rms, cut);
        },
        _ => {},
    }
    assert(sums(scoring, span, cut, cost));
}

/// `scoring` is repeatable and keeps the order of numbers: more samples count for
/// more, a larger summand or factor leads to no less, a larger divisor to no more.
pub open spec fn monotone<S, M: Scoring<S>>(scoring: &M) -> bool {
    &&& repeatable(scoring)
    &&& forall|m: usize, n: usize, a: i64, b: i64|
        m <= n && #[trigger] counts(scoring, m, a) && #[trigger] counts(scoring, n, b) ==> 0 <= a
            <= b
    &&& forall|n: usize, a: i64| n > 0 && #[trigger] counts(scoring, n, a) ==> 0 < a
    &&& forall|x: i64, y: i64, z: i64, a: i64, b: i64|
        y <= z && #[trigger] sums(scoring, x, y, a) && #[trigger] sums(scoring, x, z, b) ==> a <= b
    &&& forall|x: i64, y: i64, z: i64, a: i64, b: i64|
        y <= z && #[trigger] sums(scoring, y, x, a) && #[trigger] sums(scoring, z, x, b) ==> a <= b
    &&& forall|x: i64, y: i64, z: i64, a: i64, b: i64|
        0 <= x && y <= z && #[trigger] multiplies(scoring, x, y, a) && #[trigger] multiplies(
            scoring,
            x,
            z,
            b,
        ) ==> a <= b
    &&& forall|x: i64, y: i64, z: i64, a: i64, b: i64|
        0 <= x && 0 < y <= z && #[trigger] divides(scoring, x, y, a) && #[trigger] divides(
            scoring,
            x,
            z,
            b,
        ) ==> b <= a
    &&& forall|x: i64, y: i64, a: i64|
        0 <= x && 0 < y && #[trigger] divides(scoring, x, y, a) ==> 0 <= a
}

/// Beyond that, `scoring` tells apart what is different.
pub open spec fn strictly_monotone<S, M: Scoring<S>>(scoring: &M) -> bool {
    &&& monotone(scoring)
    &&& forall|m: usize, n: usize, a: i64, b: i64|
        m < n && #[trigger] counts(scoring, m, a) && #[trigger] counts(scoring, n, b) ==> a < b
    &&& forall|x: i64, y: i64, z: i64, a: i64, b: i64|
        y < z && #[trigger] sums(scoring, x, y, a) && #[trigger] sums(scoring, x, z, b) ==> a < b
    &&& forall|x: i64, y: i64, z: i64, a: i64, b: i64|
        0 < x && y < z && #[trigger] multiplies(scoring, x, y, a) && #[trigger] multiplies(
            scoring,
            x,
            z,
            b,
        ) ==> a < b
    &&& forall|x: i64, y: i64, z: i64, a: i64, b: i64|
        0 < x && 0 < y < z && #[trigger] divides(scoring, x, y, a) && #[trigger] divides(
            scoring,
            x,
            z,
            b,
        ) ==> b < a
    &&& forall|x: i64, y: i64, a: i64|
        0 < x && 0 < y && #[trigger] divides(scoring, x, y, a) ==> 0 < a
}

proof fn lemma_pause_costs_compare<S, M: Scoring<S>>(
    scoring: &M,
    rms: u32,
    min_pause: usize,
    short: usize,
    long: usize,
    a: i64,
    b: i64,
)
    requires
        monotone(scoring),
        0 < short <= long,
        costs_in_a_pause(scoring, rms, min_pause, short, a),
        costs_in_a_pause(scoring, rms, min_pause, long, b),
    ensures
        b <= a,
        strictly_monotone(scoring) && short < long && 0 < min_pause ==> b < a,
{
    let (la, ta, loud_a, ra, ha, sa) = choose|
        level: i64,
        two: i64,
        loud: i64,
        ratio: i64,
        half: i64,
        s: i64,
    |
        {
            &&& #[trigger] sounds(scoring, rms, level)
            &&& #[trigger] counts(scoring, 2, two)
            &&& #[trigger] multiplies(scoring, two, level, loud)
            &&& #[trigger] quotient_of(scoring, min_pause, short, ratio)
            &&& #[trigger] quotient_of(scoring, 1, 2, half)
            &&& #[trigger] multiplies(scoring, half, ratio, s)
            &&& sums(scoring, loud, s, a)
        };
    let (lb, tb, loud_b, rb, hb, sb) = choose|
        level: i64,
        two: i64,
        loud: i64,
        ratio: i64,
        half: i64,
        s: i64,
    |
        {
            &&& #[trigger] sounds(scoring, rms, level)
            &&& #[trigger] counts(scoring, 2, two)
            &&& #[trigger] multiplies(scoring, two, level, loud)
            &&& #[trigger] quotient_of(scoring, min_pause, long, ratio)
            &&& #[trigger] quotient_of(scoring, 1, 2, half)
            &&& #[trigger] multiplies(scoring, half, ratio, s)
            &&& sums(scoring, loud, s, b)
        };
    assert(loud_a == loud_b);
    let (xa, ya) = choose|x: i64, y: i64|
        {
            &&& #[trigger] counts(scoring, min_pause, x)
            &&& #[trigger] counts(scoring, short, y)
            &&& divides(scoring, x, y, ra)
        };
    let (xb, yb) = choose|x: i64, y: i64|
        {
            &&& #[trigger] counts(scoring, min_pause, x)
            &&& #[trigger] counts(scoring, long, y)
            &&& divides(scoring, x, y, rb)
        };
    assert(xa == xb);
    assert(0 <= xa && 0 < ya <= yb);
    assert(rb <= ra);
    let (one, two) = choose|x: i64, y: i64|
        {
            &&& #[trigger] counts(scoring, 1, x)
            &&& #[trigger] counts(scoring, 2, y)
            &&& divides(scoring, x, y, ha)
        };
    let (one_b, two_b) = choose|x: i64, y: i64|
        {
            &&& #[trigger] counts(scoring, 1, x)
            &&& #[trigger] counts(scoring, 2, y)
            &&& divides(scoring, x, y, hb)
        };
    assert(one == one_b && two == two_b && ha == hb);
    assert(0 <= ha);
    assert(sb <= sa);
    if strictly_monotone(scoring) && short < long && 0 < min_pause {
        assert(0 < xa && ya < yb);
        assert(rb < ra);
        assert(0 < ha);
        assert(sb < sa);
    }
}

proof fn lemma_same_length_cost<S, M: Scoring<S>>(
    scoring: &M,
    span: usize,
    preferred: usize,
    a: i64,
    b: i64,
)
    requires
        repeatable(scoring),
        costs_for_length(scoring, span, preferred, a),
        costs_for_length(scoring, span, preferred, b),
    ensures
        a == b,
{
}

proof fn lemma_same_shortness_cost<S, M: Scoring<S>>(
    scoring: &M,
    span: usize,
    soft_min: usize,
    is_final: bool,
    base: i64,
    a: i64,
    b: i64,
)
    requires
        repeatable(scoring),
        costs_for_shortness(scoring, span, soft_min, is_final, base, a),
        costs_for_shortness(scoring, span, soft_min, is_final, base, b),
    ensures
        a == b,
{
}

/// What a span costs before its cut, and the cut.
proof fn lemma_cost_parts<S, M: Scoring<S>>(
    scoring: &M,
    span_samples: usize,
    boundary: BoundaryCandidate,
    is_final: bool,
    policy: ChunkPolicy,
    cost: i64,
) -> (parts: (i64, i64, i64))
    requires
        costs(scoring, terms_of(span_samples, boundary, is_final, policy), cost),
    ensures
        costs_for_length(scoring, span_samples, policy.preferred_samples, parts.0),
        span_samples < policy.soft_min_samples ==> costs_for_shortness(
            scoring,
            span_samples,
            policy.soft_min_samples,
            is_final,
            parts.0,
            parts.1,
        ),
        span_samples >= policy.soft_min_samples ==> parts.1 == parts.0,
        boundary.kind == BoundaryKind::VadPause && boundary.pause_samples > 0 ==> costs_in_a_pause(
            scoring,
            boundary.rms,
            policy.min_pause_samples,
            boundary.pause_samples,
            parts.2,
        ),
        boundary.kind == BoundaryKind::EnergyFallback ==> costs_without_a_pause(
            scoring,
            boundary.rms,
            parts.2,
        ),
        sums(scoring, parts.1, parts.2, cost),
{
    law_what_a_span_costs(scoring, span_samples, boundary, is_final, policy, cost);
    let (length, span, cut) = choose|length: i64, span: i64, cut: i64|
        {
            &&& #[trigger] costs_for_length(
                scoring,
                span_samples,
                policy.preferred_samples,
                length,
            )
            &&& #[trigger] sums(scoring, span, cut, cost)
            &&& if span_samples < policy.soft_min_samples {
                costs_for_shortness(
                    scoring,
                    span_samples,
                    policy.soft_min_samples,
                    is_final,
                    length,
                    span,
                )
            } else {
                span == length
            }
            &&& match boundary.kind {
                BoundaryKind::VadPause => costs_in_a_pause(
                    scoring,
                    boundary.rms,
                    policy.min_pause_samples,
                    if boundary.pause_samples == 0 {
                        1
                    } else {
                        boundary.pause_samples
                    },
                    cut,
                ),
                BoundaryKind::EnergyFallback => costs_without_a_pause(scoring, boundary.rms, cut),
                BoundaryKind::Start | BoundaryKind::End => cut == 0,
            }
        };
    (length, span, cut)
}

/// Law: of two spans that differ only in the pauses that they end in, and of two
/// pauses that differ only in their length, the longer pause never costs more, and
/// it costs less where the scoring tells different numbers apart.
pub proof fn law_a_longer_pause_costs_no_more<S, M: Scoring<S>>(
    scoring: &M,
    span_samples: usize,
    short: BoundaryCandidate,
    long: BoundaryCandidate,
    is_final: bool,
    policy: ChunkPolicy,
    cost_short: i64,
    cost_long: i64,
)
    requires
        monotone(scoring),
        short.kind == BoundaryKind::VadPause,
        long.kind == BoundaryKind::VadPause,
        short.rms == long.rms,
        0 < short.pause_samples <= long.pause_samples,
        costs(scoring, terms_of(span_samples, short, is_final, policy), cost_short),
        costs(scoring, terms_of(span_samples, long, is_final, policy), cost_long),
    ensures
        cost_long <= cost_short,
        strictly_monotone(scoring) && short.pause_samples < long.pause_samples && 0
            < policy.min_pause_samples ==> cost_long < cost_short,
{
    let (la, sa, ca) = lemma_cost_parts(
        scoring,
        span_samples,
        short,
        is_final,
        policy,
        cost_short,
    );
    let (lb, sb, cb) = lemma_cost_parts(
        scoring,
        span_samples,
        long,
        is_final,
        policy,
        cost_long,
    );
    lemma_same_length_cost(scoring, span_samples, policy.preferred_samples, la, lb);
    if span_samples < policy.soft_min_samples {
        lemma_same_shortness_cost(
            scoring,
            span_samples,
            policy.soft_min_samples,
            is_final,
            la,
            sa,
            sb,
        );
    }
    lemma_pause_costs_compare(
        scoring,
        short.rms,
        policy.min_pause_samples,
        short.pause_samples,
        long.pause_samples,
        ca,
        cb,
    );
}

/// Law: of two spans that differ only in the loudness at their end, where no pause
/// is known, the quieter one never costs more, and it costs less where the scoring
/// tells different numbers apart.
pub proof fn law_a_quieter_cut_costs_no_more<S, M: Scoring<S>>(
    scoring: &M,
    span_samples: usize,
    quiet: BoundaryCandidate,
    loud: BoundaryCandidate,
    quiet_level: i64,
    loud_level: i64,
    is_final: bool,
    policy: ChunkPolicy,
    cost_quiet: i64,
    cost_loud: i64,
)
    requires
        monotone(scoring),
        quiet.kind == BoundaryKind::EnergyFallback,
        loud.kind == BoundaryKind::EnergyFallback,
        sounds(scoring, quiet.rms, quiet_level),
        sounds(scoring, loud.rms, loud_level),
        quiet_level <= loud_level,
        costs(scoring, terms_of(span_samples, quiet, is_final, policy), cost_quiet),
        costs(scoring, terms_of(span_samples, loud, is_final, policy), cost_loud),
    ensures
        cost_quiet <= cost_loud,
        strictly_monotone(scoring) && quiet_level < loud_level ==> cost_quiet < cost_loud,
{
    let (la, sa, ca) = lemma_cost_parts(
        scoring,
        span_samples,
        quiet,
        is_final,
        policy,
        cost_quiet,
    );
    let (lb, sb, cb) = lemma_cost_parts(
        scoring,
        span_samples,
        loud,
        is_final,
        policy,
        cost_loud,
    );
    lemma_same_length_cost(scoring, span_samples, policy.preferred_samples, la, lb);
    if span_samples < policy.soft_min_samples {
        lemma_same_shortness_cost(
            scoring,
            span_samples,
            policy.soft_min_samples,
            is_final,
            la,
            sa,
            sb,
        );
    }
    let (va, ta, wa, xa) = choose|level: i64, two: i64, w: i64, six: i64|
        {
            &&& #[trigger] sounds(scoring, quiet.rms, level)
            &&& #[trigger] counts(scoring, 2, two)
            &&& #[trigger] multiplies(scoring, two, level, w)
            &&& #[trigger] counts(scoring, 6, six)
            &&& sums(scoring, six, w, ca)
        };
    let (vb, tb, wb, xb) = choose|level: i64, two: i64, w: i64, six: i64|
        {
            &&& #[trigger] sounds(scoring, loud.rms, level)
            &&& #[trigger] counts(scoring, 2, two)
            &&& #[trigger] multiplies(scoring, two, level, w)
            &&& #[trigger] counts(scoring, 6, six)
            &&& sums(scoring, six, w, cb)
        };
    assert(va == quiet_level && vb == loud_level);
    assert(0 < ta);
    assert(wa <= wb);
    assert(ca <= cb);
}

/// Law: a cost is a number just where it lies between the infinities, as the bits
/// of a 64-bit floating-point number order them.
pub proof fn law_which_costs_are_numbers(cost: i64)
    ensures
        finite_cost(cost) <==> -0x7FF0_0000_0000_0000 <= cost < 0x7FF0_0000_0000_0000,
        INFINITE_COST == 0x7FF0_0000_0000_0000,
        finite_cost(0),
{
}

/// `scoring` keeps the order of numbers and treats them as numbers are treated:
/// what is above zero stays so, a part is no more than the whole, and the order of
/// summands does not matter.
pub open spec fn well_behaved<S, M: Scoring<S>>(scoring: &M) -> bool {
    &&& monotone(scoring)
    &&& forall|x: i64, y: i64, a: i64|
        0 <= x && 0 <= y && #[trigger] multiplies(scoring, x, y, a) ==> 0 <= a
    &&& forall|v: i64, w: i64, x: i64, y: i64, a: i64, b: i64|
        0 <= v <= w && 0 <= x <= y && #[trigger] multiplies(scoring, v, x, a)
            && #[trigger] multiplies(scoring, w, y, b) ==> a <= b
    &&& forall|x: i64, y: i64, a: i64|
        0 <= y && #[trigger] sums(scoring, x, y, a) ==> x <= a
    &&& forall|x: i64, y: i64, z: i64, a: i64, b: i64|
        y <= z && #[trigger] sums(scoring, x, y, a) && #[trigger] sums(scoring, z, x, b) ==> a <= b
    &&& forall|x: i64, y: i64, a: i64|
        y <= x && #[trigger] subtracts(scoring, x, y, a) ==> 0 <= a
    &&& forall|x: i64, y: i64, z: i64, a: i64, b: i64|
        x <= y && #[trigger] subtracts(scoring, x, z, a) && #[trigger] subtracts(
            scoring,
            y,
            z,
            b,
        ) ==> a <= b
    &&& forall|x: i64, y: i64, z: i64, a: i64, b: i64|
        x <= y && 0 < z && #[trigger] divides(scoring, x, z, a) && #[trigger] divides(
            scoring,
            y,
            z,
            b,
        ) ==> a <= b
    &&& forall|one: i64, x: i64, y: i64, a: i64|
        0 <= x <= y && 0 < y && #[trigger] counts(scoring, 1, one) && #[trigger] divides(
            scoring,
            x,
            y,
            a,
        ) ==> a <= one
    &&& forall|one: i64, x: i64, y: i64, a: i64|
        0 <= x <= one && 0 <= y <= one && #[trigger] counts(scoring, 1, one)
            && #[trigger] multiplies(scoring, x, y, a) ==> a <= one
}

proof fn lemma_square_is_no_less_than_nothing<S, M: Scoring<S>>(
    scoring: &M,
    weight: usize,
    number: i64,
    product: i64,
)
    requires
        well_behaved(scoring),
        0 <= number,
        times_square(scoring, weight, number, product),
    ensures
        0 <= product,
{
    let (w, once) = choose|w: i64, once: i64|
        {
            &&& #[trigger] counts(scoring, weight, w)
            &&& #[trigger] multiplies(scoring, w, number, once)
            &&& multiplies(scoring, once, number, product)
        };
    assert(0 <= w);
    assert(0 <= once);
}

proof fn lemma_part_is_no_less_than_nothing<S, M: Scoring<S>>(
    scoring: &M,
    a: usize,
    b: usize,
    quotient: i64,
)
    requires
        monotone(scoring),
        0 < b,
        quotient_of(scoring, a, b, quotient),
    ensures
        0 <= quotient,
{
    let (x, y) = choose|x: i64, y: i64|
        {
            &&& #[trigger] counts(scoring, a, x)
            &&& #[trigger] counts(scoring, b, y)
            &&& divides(scoring, x, y, quotient)
        };
    assert(0 <= x && 0 < y);
}

/// Law: a span below the soft minimum never costs less at the end of a recording
/// than elsewhere; one that reaches it costs the same.
pub proof fn law_a_short_last_span_costs_no_less<S, M: Scoring<S>>(
    scoring: &M,
    span_samples: usize,
    boundary: BoundaryCandidate,
    policy: ChunkPolicy,
    cost_last: i64,
    cost_other: i64,
)
    requires
        well_behaved(scoring),
        costs(scoring, terms_of(span_samples, boundary, true, policy), cost_last),
        costs(scoring, terms_of(span_samples, boundary, false, policy), cost_other),
    ensures
        cost_other <= cost_last,
        span_samples >= policy.soft_min_samples ==> cost_other == cost_last,
{
    crate::plan_laws::lemma_repeatable_scores(scoring);
    if span_samples >= policy.soft_min_samples {
        assert(terms_of(span_samples, boundary, true, policy) == terms_of(
            span_samples,
            boundary,
            false,
            policy,
        ));
    } else {
        let (la, sa, ca) = lemma_cost_parts(
            scoring,
            span_samples,
            boundary,
            true,
            policy,
            cost_last,
        );
        let (lb, sb, cb) = lemma_cost_parts(
            scoring,
            span_samples,
            boundary,
            false,
            policy,
            cost_other,
        );
        lemma_same_length_cost(scoring, span_samples, policy.preferred_samples, la, lb);
        lemma_short_last_span(scoring, span_samples, policy.soft_min_samples, la, sa, sb);
        lemma_same_cut_cost(
            scoring,
            span_samples,
            boundary,
            policy,
            cost_last,
            cost_other,
            sa,
            sb,
        );
    }
}

proof fn lemma_short_last_span<S, M: Scoring<S>>(
    scoring: &M,
    span: usize,
    soft_min: usize,
    base: i64,
    last: i64,
    other: i64,
)
    requires
        well_behaved(scoring),
        span < soft_min,
        costs_for_shortness(scoring, span, soft_min, true, base, last),
        costs_for_shortness(scoring, span, soft_min, false, base, other),
    ensures
        other <= last,
{
    let missing = (soft_min - span) as usize;
    let (part, square, first) = choose|part: i64, square: i64, first: i64|
        {
            &&& #[trigger] quotient_of(scoring, missing, soft_min, part)
            &&& #[trigger] times_square(scoring, 20, part, square)
            &&& #[trigger] sums(scoring, base, square, first)
            &&& exists|extra: i64| #[trigger]
                times_square(scoring, 30, part, extra) && sums(scoring, first, extra, last)
        };
    let extra = choose|extra: i64| #[trigger]
        times_square(scoring, 30, part, extra) && sums(scoring, first, extra, last);
    lemma_part_is_no_less_than_nothing(scoring, missing, soft_min, part);
    lemma_square_is_no_less_than_nothing(scoring, 30, part, extra);
    assert(costs_for_shortness(scoring, span, soft_min, false, base, first)) by {
        assert(quotient_of(scoring, missing, soft_min, part));
        assert(times_square(scoring, 20, part, square));
        assert(sums(scoring, base, square, first));
    }
    lemma_same_shortness_cost(scoring, span, soft_min, false, base, first, other);
}

/// Where only the end of the recording differs, the cut costs the same.
proof fn lemma_same_cut_cost<S, M: Scoring<S>>(
    scoring: &M,
    span_samples: usize,
    boundary: BoundaryCandidate,
    policy: ChunkPolicy,
    cost_last: i64,
    cost_other: i64,
    span_last: i64,
    span_other: i64,
)
    requires
        well_behaved(scoring),
        span_samples < policy.soft_min_samples,
        costs(scoring, terms_of(span_samples, boundary, true, policy), cost_last),
        costs(scoring, terms_of(span_samples, boundary, false, policy), cost_other),
        exists|length: i64| #[trigger]
            costs_for_length(scoring, span_samples, policy.preferred_samples, length)
                && costs_for_shortness(
                scoring,
                span_samples,
                policy.soft_min_samples,
                true,
                length,
                span_last,
            ),
        exists|length: i64| #[trigger]
            costs_for_length(scoring, span_samples, policy.preferred_samples, length)
                && costs_for_shortness(
                scoring,
                span_samples,
                policy.soft_min_samples,
                false,
                length,
                span_other,
            ),
        span_other <= span_last,
    ensures
        cost_other <= cost_last,
{
    reveal(costs);
    let last = terms_of(span_samples, boundary, true, policy);
    let other = terms_of(span_samples, boundary, false, policy);
    assert(last.cut == other.cut);
    let (la, sa, ca) = choose|length: i64, span: i64, cut: i64|
        {
            &&& #[trigger] length_costs(scoring, last, length)
            &&& #[trigger] shortfall_costs(scoring, last.shortfall, length, span)
            &&& #[trigger] cut_costs(scoring, last.cut, cut)
            &&& sums(scoring, span, cut, cost_last)
        };
    let (lb, sb, cb) = choose|length: i64, span: i64, cut: i64|
        {
            &&& #[trigger] length_costs(scoring, other, length)
            &&& #[trigger] shortfall_costs(scoring, other.shortfall, length, span)
            &&& #[trigger] cut_costs(scoring, other.cut, cut)
            &&& sums(scoring, span, cut, cost_other)
        };
    assert(ca == cb);
    lemma_length_cost(scoring, last, la);
    lemma_length_cost(scoring, other, lb);
    lemma_shortness_cost(scoring, span_samples, policy.soft_min_samples, true, la, sa);
    lemma_shortness_cost(scoring, span_samples, policy.soft_min_samples, false, lb, sb);
    let xa = choose|length: i64| #[trigger]
        costs_for_length(scoring, span_samples, policy.preferred_samples, length)
            && costs_for_shortness(
            scoring,
            span_samples,
            policy.soft_min_samples,
            true,
            length,
            span_last,
        );
    let xb = choose|length: i64| #[trigger]
        costs_for_length(scoring, span_samples, policy.preferred_samples, length)
            && costs_for_shortness(
            scoring,
            span_samples,
            policy.soft_min_samples,
            false,
            length,
            span_other,
        );
    lemma_same_length_cost(scoring, span_samples, policy.preferred_samples, la, xa);
    lemma_same_length_cost(scoring, span_samples, policy.preferred_samples, lb, xb);
    lemma_same_shortness_cost(
        scoring,
        span_samples,
        policy.soft_min_samples,
        true,
        la,
        sa,
        span_last,
    );
    lemma_same_shortness_cost(
        scoring,
        span_samples,
        policy.soft_min_samples,
        false,
        lb,
        sb,
        span_other,
    );
}

/// Law: a cut in a pause that is long enough never costs more than one where no
/// pause is known, as loud, on a span of the same length.
pub proof fn law_a_pause_costs_no_more_than_a_fallback<S, M: Scoring<S>>(
    scoring: &M,
    span_samples: usize,
    pause: BoundaryCandidate,
    fallback: BoundaryCandidate,
    is_final: bool,
    policy: ChunkPolicy,
    cost_pause: i64,
    cost_fallback: i64,
    one: i64,
)
    requires
        well_behaved(scoring),
        counts(scoring, 1, one),
        pause.kind == BoundaryKind::VadPause,
        fallback.kind == BoundaryKind::EnergyFallback,
        pause.rms == fallback.rms,
        0 < pause.pause_samples,
        policy.min_pause_samples <= pause.pause_samples,
        costs(scoring, terms_of(span_samples, pause, is_final, policy), cost_pause),
        costs(scoring, terms_of(span_samples, fallback, is_final, policy), cost_fallback),
    ensures
        cost_pause <= cost_fallback,
{
    let (la, sa, ca) = lemma_cost_parts(
        scoring,
        span_samples,
        pause,
        is_final,
        policy,
        cost_pause,
    );
    let (lb, sb, cb) = lemma_cost_parts(
        scoring,
        span_samples,
        fallback,
        is_final,
        policy,
        cost_fallback,
    );
    lemma_same_length_cost(scoring, span_samples, policy.preferred_samples, la, lb);
    if span_samples < policy.soft_min_samples {
        lemma_same_shortness_cost(
            scoring,
            span_samples,
            policy.soft_min_samples,
            is_final,
            la,
            sa,
            sb,
        );
    }
    lemma_pause_against_fallback(
        scoring,
        pause.rms,
        policy.min_pause_samples,
        pause.pause_samples,
        one,
        ca,
        cb,
    );
}

proof fn lemma_pause_against_fallback<S, M: Scoring<S>>(
    scoring: &M,
    rms: u32,
    min_pause: usize,
    pause: usize,
    one: i64,
    a: i64,
    b: i64,
)
    requires
        well_behaved(scoring),
        counts(scoring, 1, one),
        0 < pause,
        min_pause <= pause,
        costs_in_a_pause(scoring, rms, min_pause, pause, a),
        costs_without_a_pause(scoring, rms, b),
    ensures
        a <= b,
{
    let (level, two, loud, ratio, half, short) = choose|
        level: i64,
        two: i64,
        loud: i64,
        ratio: i64,
        half: i64,
        short: i64,
    |
        {
            &&& #[trigger] sounds(scoring, rms, level)
            &&& #[trigger] counts(scoring, 2, two)
            &&& #[trigger] multiplies(scoring, two, level, loud)
            &&& #[trigger] quotient_of(scoring, min_pause, pause, ratio)
            &&& #[trigger] quotient_of(scoring, 1, 2, half)
            &&& #[trigger] multiplies(scoring, half, ratio, short)
            &&& sums(scoring, loud, short, a)
        };
    let (level_b, two_b, loud_b, six) = choose|level: i64, two: i64, loud: i64, six: i64|
        {
            &&& #[trigger] sounds(scoring, rms, level)
            &&& #[trigger] counts(scoring, 2, two)
            &&& #[trigger] multiplies(scoring, two, level, loud)
            &&& #[trigger] counts(scoring, 6, six)
            &&& sums(scoring, six, loud, b)
        };
    assert(loud == loud_b);
    lemma_part_is_no_less_than_nothing(scoring, min_pause, pause, ratio);
    lemma_part_is_no_less_than_nothing(scoring, 1, 2, half);
    lemma_part_is_at_most_the_whole(scoring, min_pause, pause, one, ratio);
    lemma_part_is_at_most_the_whole(scoring, 1, 2, one, half);
    assert(short <= one);
    assert(one <= six);
}

proof fn lemma_part_is_at_most_the_whole<S, M: Scoring<S>>(
    scoring: &M,
    a: usize,
    b: usize,
    one: i64,
    quotient: i64,
)
    requires
        well_behaved(scoring),
        counts(scoring, 1, one),
        a <= b,
        0 < b,
        quotient_of(scoring, a, b, quotient),
    ensures
        quotient <= one,
{
    let (x, y) = choose|x: i64, y: i64|
        {
            &&& #[trigger] counts(scoring, a, x)
            &&& #[trigger] counts(scoring, b, y)
            &&& divides(scoring, x, y, quotient)
        };
    assert(0 <= x <= y && 0 < y);
}

proof fn lemma_longer_span<S, M: Scoring<S>>(
    scoring: &M,
    short: usize,
    long: usize,
    preferred: usize,
    a: i64,
    b: i64,
)
    requires
        well_behaved(scoring),
        0 < preferred <= short <= long,
        costs_for_length(scoring, short, preferred, a),
        costs_for_length(scoring, long, preferred, b),
    ensures
        a <= b,
{
    let (sa, pa, da, ra, qa, ta) = choose|
        s: i64,
        p: i64,
        distance: i64,
        part: i64,
        square: i64,
        two: i64,
    |
        {
            &&& #[trigger] counts(scoring, short, s)
            &&& #[trigger] counts(scoring, preferred, p)
            &&& #[trigger] subtracts(scoring, s, p, distance)
            &&& #[trigger] divides(scoring, distance, p, part)
            &&& #[trigger] times_square(scoring, 2, part, square)
            &&& #[trigger] counts(scoring, 2, two)
            &&& sums(scoring, two, square, a)
        };
    let (sb, pb, db, rb, qb, tb) = choose|
        s: i64,
        p: i64,
        distance: i64,
        part: i64,
        square: i64,
        two: i64,
    |
        {
            &&& #[trigger] counts(scoring, long, s)
            &&& #[trigger] counts(scoring, preferred, p)
            &&& #[trigger] subtracts(scoring, s, p, distance)
            &&& #[trigger] divides(scoring, distance, p, part)
            &&& #[trigger] times_square(scoring, 2, part, square)
            &&& #[trigger] counts(scoring, 2, two)
            &&& sums(scoring, two, square, b)
        };
    assert(pa == pb && 0 < pa <= sa <= sb && ta == tb);
    assert(0 <= da <= db);
    assert(0 <= ra <= rb);
    let (wa, oa) = choose|w: i64, once: i64|
        {
            &&& #[trigger] counts(scoring, 2, w)
            &&& #[trigger] multiplies(scoring, w, ra, once)
            &&& multiplies(scoring, once, ra, qa)
        };
    let (wb, ob) = choose|w: i64, once: i64|
        {
            &&& #[trigger] counts(scoring, 2, w)
            &&& #[trigger] multiplies(scoring, w, rb, once)
            &&& multiplies(scoring, once, rb, qb)
        };
    assert(0 <= wa == wb);
    assert(0 <= oa <= ob);
    assert(qa <= qb);
}

/// Law: from the preferred length on, a longer span never costs less, where both
/// end at the same boundary and keep the soft minimum.
pub proof fn law_a_longer_span_costs_no_less<S, M: Scoring<S>>(
    scoring: &M,
    short: usize,
    long: usize,
    boundary: BoundaryCandidate,
    is_final: bool,
    policy: ChunkPolicy,
    cost_short: i64,
    cost_long: i64,
)
    requires
        well_behaved(scoring),
        0 < policy.preferred_samples <= short <= long,
        policy.soft_min_samples <= short,
        costs(scoring, terms_of(short, boundary, is_final, policy), cost_short),
        costs(scoring, terms_of(long, boundary, is_final, policy), cost_long),
    ensures
        cost_short <= cost_long,
{
    reveal(costs);
    let a = terms_of(short, boundary, is_final, policy);
    let b = terms_of(long, boundary, is_final, policy);
    assert(a.cut == b.cut);
    let (la, sa, ca) = choose|length: i64, span: i64, cut: i64|
        {
            &&& #[trigger] length_costs(scoring, a, length)
            &&& #[trigger] shortfall_costs(scoring, a.shortfall, length, span)
            &&& #[trigger] cut_costs(scoring, a.cut, cut)
            &&& sums(scoring, span, cut, cost_short)
        };
    let (lb, sb, cb) = choose|length: i64, span: i64, cut: i64|
        {
            &&& #[trigger] length_costs(scoring, b, length)
            &&& #[trigger] shortfall_costs(scoring, b.shortfall, length, span)
            &&& #[trigger] cut_costs(scoring, b.cut, cut)
            &&& sums(scoring, span, cut, cost_long)
        };
    assert(ca == cb);
    lemma_length_cost(scoring, a, la);
    lemma_length_cost(scoring, b, lb);
    lemma_longer_span(scoring, short, long, policy.preferred_samples, la, lb);
}

} // verus!
