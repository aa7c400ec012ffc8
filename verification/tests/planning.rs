use cohere_long_form::boundary::{
    boundary_candidates, boundary_rank, quietest_cut, BoundaryCandidate, BoundaryKind,
};
use cohere_long_form::first_span::plan_first_span;
use cohere_long_form::plan::plan_spans;
use cohere_long_form::policy::{ChunkPolicy, SAMPLE_RATE};
use cohere_long_form::scoring::{
    edge_cost, edge_terms, level, rms, slide, squared_energy_sum, CutTerms, EdgeTerms, Scoring,
    Shortfall, INFINITE_COST,
};
use cohere_long_form::span::{fixed_maximum_spans, spans_have_full_coverage};
use std::ops::Range;

/// Scores audio of `f32` samples.
struct Loudness;

/// An integer that orders as `value` does.
fn key(value: f64) -> i64 {
    let bits = value.to_bits() as i64;
    if bits < 0 {
        bits ^ i64::MAX
    } else {
        bits
    }
}

/// The number that `key` stands for.
fn value(key: i64) -> f64 {
    f64::from_bits(if key < 0 { key ^ i64::MAX } else { key } as u64)
}

impl Scoring<f32> for Loudness {
    fn sample_energy(&self, sample: f32) -> i64 {
        let normalized = if sample.is_finite() {
            sample.clamp(-1.0, 1.0) as f64
        } else {
            1.0
        };
        key(normalized * normalized)
    }

    fn count(&self, samples: usize) -> i64 {
        key(samples as f64)
    }

    fn plus(&self, a: i64, b: i64) -> i64 {
        key(value(a) + value(b))
    }

    fn minus(&self, a: i64, b: i64) -> i64 {
        key(value(a) - value(b))
    }

    fn times(&self, a: i64, b: i64) -> i64 {
        key(value(a) * value(b))
    }

    fn over(&self, a: i64, b: i64) -> i64 {
        key(value(a) / value(b))
    }

    fn root(&self, mean: i64) -> u32 {
        (value(mean).sqrt() as f32).to_bits()
    }

    fn loudness(&self, rms: u32) -> i64 {
        key(f32::from_bits(rms) as f64)
    }
}

fn samples(seconds: usize) -> Vec<f32> {
    vec![0.5; seconds * SAMPLE_RATE]
}

fn default_spans(audio: &[f32], pauses: &[Range<usize>]) -> Vec<Range<usize>> {
    plan_spans(audio, pauses, ChunkPolicy::default(), &Loudness)
}

fn first_span(audio: &[f32], pauses: &[Range<usize>]) -> Option<Range<usize>> {
    plan_first_span(audio, pauses, ChunkPolicy::default(), &Loudness)
}

fn assert_full_coverage(spans: &[Range<usize>], audio_len: usize) {
    assert!(spans_have_full_coverage(
        spans,
        audio_len,
        ChunkPolicy::default().hard_max_samples
    ));
}

/// One sample stands for one second.
fn second_policy() -> ChunkPolicy {
    ChunkPolicy {
        hard_max_samples: 35,
        preferred_samples: 30,
        soft_min_samples: 15,
        min_pause_samples: 2,
        energy_window_samples: 1,
    }
}

fn small_policy() -> ChunkPolicy {
    ChunkPolicy {
        hard_max_samples: 5,
        preferred_samples: 4,
        soft_min_samples: 2,
        min_pause_samples: 1,
        energy_window_samples: 1,
    }
}

#[test]
fn empty_input_has_no_spans() {
    assert!(default_spans(&[], &[]).is_empty());
}

#[test]
fn short_and_exact_maximum_inputs_remain_single_spans() {
    let short = samples(20);
    assert_eq!(default_spans(&short, &[]), vec![0..short.len()]);

    let exact = samples(35);
    assert_eq!(default_spans(&exact, &[]), vec![0..exact.len()]);
}

#[test]
fn uses_a_real_pause_near_the_preferred_duration() {
    let mut audio = samples(60);
    let pause = 29 * SAMPLE_RATE + SAMPLE_RATE / 2..30 * SAMPLE_RATE + SAMPLE_RATE / 2;
    audio[pause.clone()].fill(0.0);

    let spans = default_spans(&audio, std::slice::from_ref(&pause));

    assert_eq!(spans.len(), 2);
    assert!(pause.contains(&spans[0].end));
    assert_full_coverage(&spans, audio.len());
}

#[test]
fn prefers_a_longer_pause_over_a_shorter_later_pause() {
    let mut audio = samples(55);
    let long_pause = 26 * SAMPLE_RATE + SAMPLE_RATE / 2..27 * SAMPLE_RATE + SAMPLE_RATE / 2;
    let short_pause = 30 * SAMPLE_RATE..30 * SAMPLE_RATE + SAMPLE_RATE / 5;
    audio[long_pause.clone()].fill(0.0);
    audio[short_pause.clone()].fill(0.0);

    let spans = default_spans(&audio, &[short_pause, long_pause.clone()]);

    assert_eq!(spans.len(), 2);
    assert!(long_pause.contains(&spans[0].end));
}

#[test]
fn global_plan_avoids_a_greedy_short_final_tail() {
    let mut audio = samples(36);
    let late_pause = 34 * SAMPLE_RATE..35 * SAMPLE_RATE;
    audio[late_pause.clone()].fill(0.0);

    let spans = default_spans(&audio, &[late_pause]);

    assert_eq!(spans.len(), 2);
    assert!(spans
        .iter()
        .all(|span| span.end - span.start >= 15 * SAMPLE_RATE));
    assert_full_coverage(&spans, audio.len());
}

#[test]
fn rolling_first_span_is_independent_of_the_artificial_window_end() {
    let mut short_window = samples(50);
    let pause = 29 * SAMPLE_RATE..31 * SAMPLE_RATE;
    short_window[pause.clone()].fill(0.0);
    let mut long_window = short_window.clone();
    long_window.extend(samples(15));

    let short = first_span(&short_window, std::slice::from_ref(&pause));
    let long = first_span(&long_window, &[pause]);

    assert_eq!(short, long);
    assert!((29 * SAMPLE_RATE..31 * SAMPLE_RATE).contains(&short.unwrap().end));
}

#[test]
fn rolling_first_span_uses_a_preferred_energy_fallback_in_continuous_speech() {
    let audio = samples(50);

    let span = first_span(&audio, &[]).unwrap();

    assert!((29 * SAMPLE_RATE..=31 * SAMPLE_RATE).contains(&span.end));
    assert!(span.len() <= ChunkPolicy::default().hard_max_samples);
}

#[test]
fn rolling_first_span_never_commits_before_the_soft_minimum() {
    let mut audio = samples(50);
    let early_pause = 7 * SAMPLE_RATE..9 * SAMPLE_RATE;
    audio[early_pause.clone()].fill(0.0);

    let span = first_span(&audio, std::slice::from_ref(&early_pause)).unwrap();

    assert!(span.len() >= ChunkPolicy::default().soft_min_samples);
    assert!(!early_pause.contains(&span.end));
}

#[test]
fn continuous_speech_uses_energy_fallback_with_full_coverage() {
    let audio = samples(75);
    let spans = default_spans(&audio, &[]);

    assert!(spans.len() >= 3);
    assert_full_coverage(&spans, audio.len());
}

#[test]
fn quiet_background_noise_can_be_an_energy_only_boundary() {
    let mut audio = samples(60);
    let quiet = 29 * SAMPLE_RATE + SAMPLE_RATE / 2..30 * SAMPLE_RATE + SAMPLE_RATE / 2;
    audio[quiet].fill(0.01);

    let spans = default_spans(&audio, &[]);

    assert_eq!(spans.len(), 2);
    assert!((29 * SAMPLE_RATE..=31 * SAMPLE_RATE).contains(&spans[0].end));
}

#[test]
fn ignores_short_pauses_and_uses_unusually_long_pauses() {
    let mut audio = samples(60);
    let short = 20 * SAMPLE_RATE..20 * SAMPLE_RATE + SAMPLE_RATE / 10;
    let long = 28 * SAMPLE_RATE..32 * SAMPLE_RATE;
    audio[short.clone()].fill(0.0);
    audio[long.clone()].fill(0.0);

    let spans = default_spans(&audio, &[short.clone(), long.clone()]);

    assert!(long.contains(&spans[0].end));
    assert!(!short.contains(&spans[0].end));
}

#[test]
fn constant_audio_has_deterministic_tie_breaking() {
    let audio = samples(80);
    let first = default_spans(&audio, &[]);
    let second = default_spans(&audio, &[]);

    assert_eq!(first, second);
}

#[test]
fn non_finite_samples_do_not_break_planning() {
    let mut audio = samples(72);
    audio[30 * SAMPLE_RATE] = f32::NAN;
    audio[60 * SAMPLE_RATE] = f32::INFINITY;

    let spans = default_spans(&audio, &[]);

    assert_full_coverage(&spans, audio.len());
}

#[test]
fn the_default_policy_is_in_samples_at_16_khz() {
    let policy = ChunkPolicy::default();
    assert_eq!(SAMPLE_RATE, 16_000);
    assert_eq!(policy.hard_max_samples, 560_000);
    assert_eq!(policy.preferred_samples, 480_000);
    assert_eq!(policy.soft_min_samples, 240_000);
    assert_eq!(policy.min_pause_samples, 3_200);
    assert_eq!(policy.energy_window_samples, 1_600);
}

#[test]
fn keys_order_as_the_numbers_do() {
    let numbers = [
        f64::NEG_INFINITY,
        -2.5,
        -1.0,
        -0.0,
        0.0,
        1e-300,
        1.0,
        2.5,
        f64::MAX,
        f64::INFINITY,
    ];
    for pair in numbers.windows(2) {
        assert!(key(pair[0]) < key(pair[1]));
    }
    for number in numbers {
        assert_eq!(value(key(number)).to_bits(), number.to_bits());
    }
    assert_eq!(key(0.0), 0);
    assert_eq!(key(f64::INFINITY), INFINITE_COST);
}

#[test]
fn fixed_spans_are_full_but_for_the_last() {
    assert!(fixed_maximum_spans(0, 4).is_empty());
    assert_eq!(fixed_maximum_spans(4, 4), vec![0..4]);
    assert_eq!(fixed_maximum_spans(10, 4), vec![0..4, 4..8, 8..10]);
    assert_eq!(
        fixed_maximum_spans(usize::MAX, usize::MAX - 1),
        vec![0..usize::MAX - 1, usize::MAX - 1..usize::MAX]
    );
}

#[test]
fn coverage_finds_every_defect() {
    assert!(spans_have_full_coverage(&[], 0, 4));
    assert!(!spans_have_full_coverage(&[0..1], 0, 4));
    assert!(!spans_have_full_coverage(&[], 3, 4));
    assert!(spans_have_full_coverage(&[0..4, 4..6], 6, 4));
    // Starts late, ends early, leaves a gap, overlaps, is too long, is empty.
    assert!(!spans_have_full_coverage(&[1..4, 4..6], 6, 4));
    assert!(!spans_have_full_coverage(&[0..4, 4..5], 6, 4));
    assert!(!spans_have_full_coverage(&[0..3, 4..6], 6, 4));
    assert!(!spans_have_full_coverage(&[0..4, 3..6], 6, 4));
    assert!(!spans_have_full_coverage(&[0..5, 5..6], 6, 4));
    assert!(!spans_have_full_coverage(&[0..4, 4..4, 4..6], 6, 4));
}

#[test]
fn every_sample_is_in_one_span_and_the_pieces_rebuild_the_audio() {
    let audio: Vec<f32> = (0..137).map(|i| (i % 10) as f32 / 10.0).collect();
    let spans = plan_spans(&audio, &[], second_policy(), &Loudness);
    for sample in 0..audio.len() {
        assert_eq!(spans.iter().filter(|span| span.contains(&sample)).count(), 1);
    }
    let rebuilt: Vec<f32> = spans
        .iter()
        .flat_map(|span| audio[span.clone()].to_vec())
        .collect();
    assert_eq!(rebuilt, audio);
}

#[test]
fn ranks_put_pauses_before_fallbacks() {
    assert_eq!(boundary_rank(BoundaryKind::Start), 0);
    assert_eq!(boundary_rank(BoundaryKind::VadPause), 1);
    assert_eq!(boundary_rank(BoundaryKind::EnergyFallback), 2);
    assert_eq!(boundary_rank(BoundaryKind::End), 3);
}

#[test]
fn the_quietest_window_is_cut_in_its_middle() {
    let audio = [1.0f32, 1.0, 0.5, 0.0, 0.0, 0.0, 0.0, 1.0];
    // The first of the quietest windows of two samples is 3..5.
    assert_eq!(quietest_cut(&audio, 1..8, 2, &Loudness), (4, 0.0f32.to_bits()));
    // A window of four samples fits once without energy.
    assert_eq!(quietest_cut(&audio, 0..8, 4, &Loudness), (5, 0.0f32.to_bits()));
    // The window is never longer than what is searched.
    assert_eq!(
        quietest_cut(&audio, 2..4, 100, &Loudness),
        (3, (0.125f64.sqrt() as f32).to_bits())
    );
    // Nor is it ever empty.
    assert_eq!(quietest_cut(&audio, 1..4, 0, &Loudness), (3, 0.0f32.to_bits()));
}

#[test]
fn energy_that_sinks_below_zero_counts_as_silence() {
    struct Sinking;
    impl Scoring<f32> for Sinking {
        fn sample_energy(&self, _: f32) -> i64 {
            5
        }
        fn count(&self, samples: usize) -> i64 {
            samples as i64
        }
        fn plus(&self, a: i64, b: i64) -> i64 {
            a + b
        }
        fn minus(&self, a: i64, _: i64) -> i64 {
            a - 9
        }
        fn times(&self, _: i64, _: i64) -> i64 {
            0
        }
        fn over(&self, a: i64, _: i64) -> i64 {
            a
        }
        fn root(&self, mean: i64) -> u32 {
            mean as u32
        }
        fn loudness(&self, _: u32) -> i64 {
            0
        }
    }
    assert_eq!(quietest_cut(&[0.5; 4], 0..4, 1, &Sinking), (3, 0));
    assert_eq!(quietest_cut(&[0.5; 4], 0..2, 1, &Sinking), (1, 1));
}

fn sketch(candidates: &[BoundaryCandidate]) -> Vec<(usize, BoundaryKind, usize)> {
    candidates
        .iter()
        .map(|candidate| (candidate.sample, candidate.kind, candidate.pause_samples))
        .collect()
}

#[test]
fn boundaries_run_from_start_to_end_and_each_has_a_reason() {
    let mut audio = vec![0.5f32; 20];
    audio[6..9].fill(0.0);
    let policy = ChunkPolicy {
        hard_max_samples: 12,
        preferred_samples: 10,
        soft_min_samples: 5,
        min_pause_samples: 2,
        energy_window_samples: 4,
    };
    // Too short; a good pause; one that is clipped by the end; one behind it; one
    // that runs backwards.
    let backwards = Range { start: 9, end: 3 };
    let pauses = [2..3, 6..9, 17..30, 25..40, backwards];
    let candidates = boundary_candidates(&audio, &pauses, policy, &Loudness);
    assert_eq!(
        sketch(&candidates),
        vec![
            (0, BoundaryKind::Start, 0),
            (4, BoundaryKind::EnergyFallback, 0),
            (7, BoundaryKind::VadPause, 3),
            (8, BoundaryKind::EnergyFallback, 0),
            (12, BoundaryKind::EnergyFallback, 0),
            (16, BoundaryKind::EnergyFallback, 0),
            (18, BoundaryKind::VadPause, 3),
            (20, BoundaryKind::End, 0),
        ]
    );
    assert_eq!(candidates[2].rms, 0.0f32.to_bits());
    assert_eq!(candidates[6].rms, 0.5f32.to_bits());
    // The window around 8 is 6..10: three silent samples and one of 0.5.
    assert_eq!(candidates[3].rms, 0.25f32.to_bits());
    assert_eq!(candidates[1].rms, 0.5f32.to_bits());
}

#[test]
fn of_two_boundaries_on_one_sample_the_first_pause_stays() {
    let audio = vec![0.5f32; 20];
    let policy = ChunkPolicy {
        hard_max_samples: 12,
        preferred_samples: 10,
        soft_min_samples: 5,
        min_pause_samples: 2,
        energy_window_samples: 4,
    };
    // Both pauses are cut at 8, where the grid has a point too.
    let candidates = boundary_candidates(&audio, &[6..11, 6..10], policy, &Loudness);
    assert_eq!(
        sketch(&candidates),
        vec![
            (0, BoundaryKind::Start, 0),
            (4, BoundaryKind::EnergyFallback, 0),
            (8, BoundaryKind::VadPause, 5),
            (12, BoundaryKind::EnergyFallback, 0),
            (16, BoundaryKind::EnergyFallback, 0),
            (20, BoundaryKind::End, 0),
        ]
    );
}

#[test]
fn a_cut_at_the_very_start_is_no_boundary() {
    let mut audio = vec![0.5f32; 6];
    audio[0..2].fill(0.0);
    let candidates = boundary_candidates(&audio, &[0..2], small_policy(), &Loudness);
    assert!(candidates
        .iter()
        .all(|candidate| candidate.kind != BoundaryKind::VadPause));
    assert_eq!(candidates.len(), 7);
}

#[test]
fn terms_hold_what_a_span_is_judged_by() {
    let policy = second_policy();
    let pause = BoundaryCandidate {
        sample: 20,
        kind: BoundaryKind::VadPause,
        pause_samples: 3,
        rms: 7,
    };
    assert_eq!(
        edge_terms(20, &pause, false, policy),
        EdgeTerms {
            span_samples: 20,
            preferred_samples: 30,
            shortfall: None,
            cut: CutTerms::Pause {
                rms: 7,
                min_pause_samples: 2,
                pause_samples: 3
            },
        }
    );
    let fallback = BoundaryCandidate {
        kind: BoundaryKind::EnergyFallback,
        ..pause
    };
    assert_eq!(
        edge_terms(11, &fallback, false, policy),
        EdgeTerms {
            span_samples: 11,
            preferred_samples: 30,
            shortfall: Some(Shortfall {
                missing_samples: 4,
                soft_min_samples: 15,
                is_final: false
            }),
            cut: CutTerms::Energy { rms: 7 },
        }
    );
    let end = BoundaryCandidate {
        kind: BoundaryKind::End,
        ..pause
    };
    let terms = edge_terms(14, &end, true, policy);
    assert_eq!(terms.cut, CutTerms::Free);
    assert!(terms.shortfall.unwrap().is_final);
    // A pause of no length counts as one sample.
    let instant = BoundaryCandidate {
        pause_samples: 0,
        ..pause
    };
    assert_eq!(
        edge_terms(20, &instant, false, policy).cut,
        CutTerms::Pause {
            rms: 7,
            min_pause_samples: 2,
            pause_samples: 1
        }
    );
    // 2 + 2 (1/3)^2 + 2 * 0.5 + 0.5 * 2 / 3
    let scored = BoundaryCandidate {
        rms: 0.5f32.to_bits(),
        ..pause
    };
    let cost = value(edge_cost(20, &scored, false, policy, &Loudness));
    assert!((cost - (2.0 + 2.0 / 9.0 + 1.0 + 1.0 / 3.0)).abs() < 1e-12);
}

/// What a span costs, written out.
fn written_cost(
    span_samples: usize,
    boundary: &BoundaryCandidate,
    is_final: bool,
    policy: ChunkPolicy,
) -> f64 {
    let preferred = policy.preferred_samples as f64;
    let length_deviation = (span_samples as f64 - preferred) / preferred;
    let mut cost = 2.0 + 2.0 * length_deviation * length_deviation;
    if span_samples < policy.soft_min_samples {
        let shortfall =
            (policy.soft_min_samples - span_samples) as f64 / policy.soft_min_samples as f64;
        cost += 20.0 * shortfall * shortfall;
        if is_final {
            cost += 30.0 * shortfall * shortfall;
        }
    }
    let rms = f32::from_bits(boundary.rms) as f64;
    cost + match boundary.kind {
        BoundaryKind::VadPause => {
            let pause_samples = boundary.pause_samples.max(1) as f64;
            2.0 * rms + 0.5 * (policy.min_pause_samples as f64 / pause_samples)
        }
        BoundaryKind::EnergyFallback => 6.0 + 2.0 * rms,
        BoundaryKind::Start | BoundaryKind::End => 0.0,
    }
}

#[test]
fn a_span_costs_what_its_terms_add_up_to() {
    let kinds = [
        BoundaryKind::Start,
        BoundaryKind::VadPause,
        BoundaryKind::EnergyFallback,
        BoundaryKind::End,
    ];
    for policy in [ChunkPolicy::default(), second_policy(), small_policy()] {
        for step in 1..20usize {
            let span_samples = 1 + policy.hard_max_samples * step / 20;
            for kind in kinds {
                for is_final in [false, true] {
                    let boundary = BoundaryCandidate {
                        sample: span_samples,
                        kind,
                        pause_samples: step * step - 1,
                        rms: (step as f32 / 23.0).to_bits(),
                    };
                    let cost = edge_cost(span_samples, &boundary, is_final, policy, &Loudness);
                    let written = written_cost(span_samples, &boundary, is_final, policy);
                    assert_eq!(value(cost).to_bits(), written.to_bits());
                }
            }
        }
    }
}

#[test]
fn energy_and_loudness_of_a_window() {
    let audio = [0.5f32, -1.5, f32::NAN, 0.25, f32::NEG_INFINITY];
    // Out of range and undefined samples count as the loudest.
    assert_eq!(value(squared_energy_sum(&audio, &Loudness)), 3.3125);
    assert_eq!(squared_energy_sum::<f32, Loudness>(&[], &Loudness), 0);
    assert_eq!(value(slide(key(2.0), 0.5, -1.0, &Loudness)), 2.75);
    assert_eq!(f32::from_bits(level(key(1.0), 4, &Loudness)), 0.5);
    assert_eq!(f32::from_bits(rms(&audio, 0..1, &Loudness)), 0.5);
    assert_eq!(rms(&audio, 0..4, &Loudness), (0.578125f64.sqrt() as f32).to_bits());
    assert_eq!(rms(&audio, 3..3, &Loudness), 0);
    let backwards = Range { start: 9, end: 2 };
    assert_eq!(rms(&audio, backwards, &Loudness), 0);
}

/// The cost of the spans in order, as a plan adds it up.
fn total_cost(candidates: &[BoundaryCandidate], ends: &[usize], policy: ChunkPolicy) -> i64 {
    let mut total = 0;
    let mut start = 0;
    for &index in ends {
        let end = candidates[index];
        let is_final = index == candidates.len() - 1;
        let edge = edge_cost(end.sample - start, &end, is_final, policy, &Loudness);
        total = Loudness.plus(total, edge);
        start = end.sample;
    }
    total
}

#[test]
fn no_way_to_cut_is_cheaper_than_the_plan() {
    let policy = small_policy();
    let audio = [
        0.5f32, 0.9, 0.1, 0.0, 0.7, 0.7, 0.2, 0.9, 0.0, 0.0, 0.3, 0.8, 0.6,
    ];
    let pauses = [3..4, 8..10];
    let candidates = boundary_candidates(&audio, &pauses, policy, &Loudness);
    let inner = candidates.len() - 2;
    let mut least = i64::MAX;
    for choice in 0..1usize << inner {
        let mut ends: Vec<usize> = (0..inner)
            .filter(|bit| choice >> bit & 1 == 1)
            .map(|bit| bit + 1)
            .collect();
        ends.push(candidates.len() - 1);
        let mut start = 0;
        let allowed = ends.iter().all(|&index| {
            let span = candidates[index].sample - start;
            start = candidates[index].sample;
            span <= policy.hard_max_samples
        });
        if allowed {
            least = least.min(total_cost(&candidates, &ends, policy));
        }
    }
    let spans = plan_spans(&audio, &pauses, policy, &Loudness);
    let ends: Vec<usize> = spans
        .iter()
        .map(|span| {
            candidates
                .iter()
                .position(|candidate| candidate.sample == span.end)
                .unwrap()
        })
        .collect();
    assert_eq!(total_cost(&candidates, &ends, policy), least);
    assert!(spans_have_full_coverage(&spans, audio.len(), 5));
}

#[test]
fn a_plan_falls_back_to_full_spans_where_boundaries_are_too_far_apart() {
    let policy = ChunkPolicy {
        hard_max_samples: 3,
        preferred_samples: 3,
        soft_min_samples: 1,
        min_pause_samples: 1,
        energy_window_samples: 5,
    };
    let spans = plan_spans(&[0.5; 10], &[], policy, &Loudness);
    assert_eq!(spans, vec![0..3, 3..6, 6..9, 9..10]);
}

#[test]
fn the_grid_connects_a_recording_wherever_it_is_no_wider_than_a_span() {
    let policy = ChunkPolicy {
        hard_max_samples: 3,
        preferred_samples: 3,
        soft_min_samples: 1,
        min_pause_samples: 1,
        energy_window_samples: 2,
    };
    // Boundaries at even samples alone: blind cuts would end at 3.
    let spans = plan_spans(&[0.5; 10], &[], policy, &Loudness);
    assert_eq!(spans, vec![0..2, 2..4, 4..6, 6..8, 8..10]);
}

#[test]
fn a_plan_falls_back_to_full_spans_where_costs_are_no_numbers() {
    struct Priceless;
    impl Scoring<f32> for Priceless {
        fn sample_energy(&self, _: f32) -> i64 {
            0
        }
        fn count(&self, _: usize) -> i64 {
            0
        }
        fn plus(&self, _: i64, _: i64) -> i64 {
            INFINITE_COST
        }
        fn minus(&self, _: i64, _: i64) -> i64 {
            0
        }
        fn times(&self, _: i64, _: i64) -> i64 {
            0
        }
        fn over(&self, _: i64, _: i64) -> i64 {
            0
        }
        fn root(&self, _: i64) -> u32 {
            0
        }
        fn loudness(&self, _: u32) -> i64 {
            0
        }
    }
    let spans = plan_spans(&[0.5; 12], &[], small_policy(), &Priceless);
    assert_eq!(spans, vec![0..5, 5..10, 10..12]);
}

#[test]
fn of_equal_plans_the_one_with_fewer_spans_and_earlier_cuts_stays() {
    struct Indifferent;
    impl Scoring<f32> for Indifferent {
        fn sample_energy(&self, _: f32) -> i64 {
            0
        }
        fn count(&self, _: usize) -> i64 {
            0
        }
        fn plus(&self, _: i64, _: i64) -> i64 {
            0
        }
        fn minus(&self, _: i64, _: i64) -> i64 {
            0
        }
        fn times(&self, _: i64, _: i64) -> i64 {
            0
        }
        fn over(&self, _: i64, _: i64) -> i64 {
            0
        }
        fn root(&self, _: i64) -> u32 {
            0
        }
        fn loudness(&self, _: u32) -> i64 {
            0
        }
    }
    let spans = plan_spans(&[0.5; 12], &[], small_policy(), &Indifferent);
    // Three spans are the fewest; each starts as early as it can.
    assert_eq!(spans, vec![0..2, 2..7, 7..12]);
    // A first span ends at the lowest rank, then at the earliest sample.
    let first = plan_first_span(&[0.5; 12], &[3..4], small_policy(), &Indifferent);
    assert_eq!(first, Some(0..3));
    let fallback = plan_first_span(&[0.5; 12], &[], small_policy(), &Indifferent);
    assert_eq!(fallback, Some(0..2));
}

#[test]
fn a_first_span_is_all_there_is_where_that_is_allowed() {
    assert_eq!(first_span(&[], &[]), None);
    let audio = vec![0.5f32; 560_000];
    assert_eq!(first_span(&audio, &[]), Some(0..560_000));
}

#[test]
fn a_first_span_ends_at_the_maximum_where_no_boundary_is_eligible() {
    let policy = ChunkPolicy {
        hard_max_samples: 7,
        preferred_samples: 6,
        soft_min_samples: 6,
        min_pause_samples: 1,
        energy_window_samples: 5,
    };
    let span = plan_first_span(&[0.5; 12], &[2..3], policy, &Loudness);
    assert_eq!(span, Some(0..7));
}

#[test]
fn first_spans_are_repeatable_and_keep_the_limits() {
    let policy = second_policy();
    for seed in 0..40usize {
        let audio: Vec<f32> = (0..50 + seed)
            .map(|i| ((i * 7 + seed * 13) % 11) as f32 / 11.0)
            .collect();
        let pauses = [seed..seed + 3, seed + 10..seed + 14];
        let first = plan_first_span(&audio, &pauses, policy, &Loudness);
        let again = plan_first_span(&audio, &pauses, policy, &Loudness);
        assert_eq!(first, again);
        let span = first.unwrap();
        assert_eq!(span.start, 0);
        assert!((15..=35).contains(&span.end));
    }
}

#[test]
fn a_pause_that_the_window_end_clips_can_change_a_first_span() {
    let mut audio = vec![0.5f32; 60];
    audio[42] = 0.0;
    let policy = second_policy();
    let pauses = std::slice::from_ref(&(34..44));
    let long = plan_first_span(&audio, pauses, policy, &Loudness);
    let short = plan_first_span(&audio[..40], pauses, policy, &Loudness);
    // The whole pause is cut at its quietest sample, which is out of reach; what
    // the short window shows of it is cut where it starts.
    assert_eq!(short, Some(0..34));
    assert_eq!(long, Some(0..30));
}

#[test]
fn two_spans_suffice_for_steady_audio_below_the_horizon() {
    let policy = second_policy();
    for seconds in 36..50 {
        let spans = plan_spans(&vec![0.5; seconds], &[], policy, &Loudness);
        assert_eq!(spans.len(), 2);
    }
}

#[test]
fn three_spans_are_planned_where_pauses_make_them_cheaper_than_two() {
    let mut audio = vec![0.5f32; 49];
    audio[13..16].fill(0.0);
    audio[36..39].fill(0.0);
    let spans = plan_spans(&audio, &[13..16, 36..39], second_policy(), &Loudness);
    assert_eq!(spans, vec![0..13, 13..36, 36..49]);
}

#[test]
fn the_order_of_pauses_does_not_matter_and_short_ones_are_ignored() {
    let mut audio = vec![0.5f32; 100];
    audio[20..24].fill(0.0);
    audio[31..34].fill(0.1);
    audio[60..66].fill(0.0);
    let policy = second_policy();
    let pauses = [20..24, 31..34, 60..66];
    let backwards = Range { start: 50, end: 40 };
    let others = [
        vec![60..66, 20..24, 31..34],
        vec![5..6, 31..34, 28..29, 20..24, backwards, 60..66, 99..150, 200..300],
        vec![31..34, 31..34, 60..66, 20..24],
    ];
    let plan = plan_spans(&audio, &pauses, policy, &Loudness);
    let first = plan_first_span(&audio, &pauses, policy, &Loudness);
    for other in others {
        assert_eq!(plan_spans(&audio, &other, policy, &Loudness), plan);
        assert_eq!(plan_first_span(&audio, &other, policy, &Loudness), first);
    }
}

#[test]
fn samples_of_equal_energy_are_planned_alike() {
    let a: Vec<f32> = (0..120)
        .map(|i| ((i * 7 + i * i) % 13) as f32 / 6.0)
        .collect();
    let b: Vec<f32> = a
        .iter()
        .enumerate()
        .map(|(i, &sample)| match (sample >= 1.0, i % 4) {
            (true, 0) => f32::NAN,
            (true, 1) => f32::NEG_INFINITY,
            (true, _) => 17.5,
            (false, 0) => -sample,
            (false, _) => sample,
        })
        .collect();
    assert!(a.iter().any(|&sample| sample >= 1.0));
    let pauses = [25..30, 50..54, 80..90];
    let policy = second_policy();
    assert_eq!(
        plan_spans(&a, &pauses, policy, &Loudness),
        plan_spans(&b, &pauses, policy, &Loudness)
    );
    assert_eq!(
        plan_first_span(&a, &pauses, policy, &Loudness),
        plan_first_span(&b, &pauses, policy, &Loudness)
    );
}
