use cohere_long_form::boundary::boundary_candidates;
use cohere_long_form::first_span::plan_first_span;
use cohere_long_form::plan::plan_spans;
use cohere_long_form::policy::ChunkPolicy;
use cohere_long_form::rolling::{plan_rolling_replay_spans, RollingChunkCoordinator};
use cohere_long_form::scoring::{edge_cost, Scoring};
use std::ops::Range;

/// Scores audio of `f32` samples.
struct Loudness;

/// An integer that orders as `value` does.
fn key(value: f64) -> i64 {
    let bits = value.to_bits() as i64;
    if bits < 0 {
        bits ^ i64::MAX
    } else {
        bits
    }
}

/// The number that `key` stands for.
fn value(key: i64) -> f64 {
    f64::from_bits(if key < 0 { key ^ i64::MAX } else { key } as u64)
}

impl Scoring<f32> for Loudness {
    fn sample_energy(&self, sample: f32) -> i64 {
        let normalized = if sample.is_finite() {
            sample.clamp(-1.0, 1.0) as f64
        } else {
            1.0
        };
        key(normalized * normalized)
    }

    fn count(&self, samples: usize) -> i64 {
        key(samples as f64)
    }

    fn plus(&self, a: i64, b: i64) -> i64 {
        key(value(a) + value(b))
    }

    fn minus(&self, a: i64, b: i64) -> i64 {
        key(value(a) - value(b))
    }

    fn times(&self, a: i64, b: i64) -> i64 {
        key(value(a) * value(b))
    }

    fn over(&self, a: i64, b: i64) -> i64 {
        key(value(a) / value(b))
    }

    fn root(&self, mean: i64) -> u32 {
        (value(mean).sqrt() as f32).to_bits()
    }

    fn loudness(&self, rms: u32) -> i64 {
        key(f32::from_bits(rms) as f64)
    }
}

fn policy() -> ChunkPolicy {
    // One sample represents one second in these pure range-policy tests.
    ChunkPolicy {
        hard_max_samples: 35,
        preferred_samples: 30,
        soft_min_samples: 15,
        min_pause_samples: 2,
        energy_window_samples: 1,
    }
}

fn audio(seconds: usize) -> Vec<f32> {
    vec![0.5; seconds]
}

fn zero_runs(samples: &[f32]) -> Vec<Range<usize>> {
    let mut pauses = Vec::new();
    let mut start = None;
    for (index, sample) in samples.iter().enumerate() {
        if *sample == 0.0 {
            start.get_or_insert(index);
        } else if let Some(pause_start) = start.take() {
            pauses.push(pause_start..index);
        }
    }
    if let Some(pause_start) = start {
        pauses.push(pause_start..samples.len());
    }
    pauses
}

fn simulate(samples: &[f32], feed_samples: usize) -> (Vec<Range<usize>>, usize) {
    simulate_with(samples, feed_samples, zero_runs)
}

fn simulate_with<F>(
    samples: &[f32],
    feed_samples: usize,
    mut detect_pauses: F,
) -> (Vec<Range<usize>>, usize)
where
    F: FnMut(&[f32]) -> Vec<Range<usize>>,
{
    let mut coordinator = RollingChunkCoordinator::new(policy());
    let mut spans = Vec::new();

    for feed in samples.chunks(feed_samples.max(1)) {
        coordinator.push(feed);
        while let Some(window) = coordinator.planning_window() {
            let pauses = detect_pauses(window);
            let span = coordinator.next_ready_span(&pauses, &Loudness).unwrap();
            spans.push(coordinator.commit(span));
        }
    }

    let suffix_samples = coordinator.uncommitted_samples();
    let final_pauses = if suffix_samples > policy().hard_max_samples {
        detect_pauses(coordinator.uncommitted_audio())
    } else {
        Vec::new()
    };
    spans.extend(
        coordinator
            .final_spans(&final_pauses, &Loudness)
            .iter()
            .map(|span| coordinator.absolute_range(span)),
    );

    (spans, suffix_samples)
}

fn assert_invariants(spans: &[Range<usize>], audio_len: usize) {
    if audio_len == 0 {
        assert!(spans.is_empty());
        return;
    }

    assert_eq!(spans.first().unwrap().start, 0);
    assert_eq!(spans.last().unwrap().end, audio_len);
    for (index, span) in spans.iter().enumerate() {
        assert!(span.start < span.end);
        assert!(span.len() <= policy().hard_max_samples);
        if index > 0 {
            assert_eq!(spans[index - 1].end, span.start);
        }
    }
}

#[test]
fn empty_audio_has_no_spans() {
    let (spans, suffix) = simulate(&[], 7);
    assert!(spans.is_empty());
    assert_eq!(suffix, 0);
}

#[test]
fn short_and_exact_hard_maximum_audio_finalize_once() {
    for seconds in [20, 35] {
        let (spans, suffix) = simulate(&audio(seconds), 7);
        assert_eq!(spans, vec![0..seconds]);
        assert_eq!(suffix, seconds);
    }
}

#[test]
fn suffix_between_hard_maximum_and_horizon_uses_two_calls() {
    let (spans, suffix) = simulate(&audio(49), 8);
    assert_eq!(spans.len(), 2);
    assert_eq!(suffix, 49);
    assert_invariants(&spans, 49);
}

#[test]
fn exact_horizon_commits_in_background() {
    let horizon = policy().hard_max_samples + policy().soft_min_samples;
    let (spans, suffix) = simulate(&audio(horizon), horizon);
    assert_eq!(spans.len(), 2);
    assert!(suffix < horizon);
    assert_invariants(&spans, horizon);
}

#[test]
fn long_recording_leaves_less_than_one_horizon() {
    let samples = audio(10 * 60);
    let (spans, suffix) = simulate(&samples, 3);

    assert!(spans.len() > 10);
    assert!(suffix < policy().hard_max_samples + policy().soft_min_samples);
    assert_invariants(&spans, samples.len());
}

#[test]
fn rolling_plan_uses_a_good_pause_near_the_preferred_boundary() {
    let mut samples = audio(80);
    samples[29..32].fill(0.0);

    let (spans, _) = simulate(&samples, 5);

    assert!((29..32).contains(&spans[0].end));
    assert_invariants(&spans, samples.len());
}

#[test]
fn continuous_speech_uses_energy_fallback() {
    let samples = audio(140);
    let (spans, suffix) = simulate(&samples, 4);

    assert!(spans.len() >= 4);
    assert!(suffix < policy().hard_max_samples + policy().soft_min_samples);
    assert_invariants(&spans, samples.len());
}

#[test]
fn rolling_plan_uses_one_of_the_available_pause_competitors() {
    let mut samples = audio(80);
    samples[26..30].fill(0.0);
    samples[32..34].fill(0.0);

    let (spans, _) = simulate(&samples, 6);

    assert!((26..30).contains(&spans[0].end) || (32..34).contains(&spans[0].end));
    assert_invariants(&spans, samples.len());
}

#[test]
fn constant_audio_and_ties_are_deterministic() {
    let samples = audio(180);
    let first = simulate(&samples, 11);
    let second = simulate(&samples, 11);
    assert_eq!(first, second);
}

#[test]
fn non_finite_samples_preserve_range_invariants() {
    let mut samples = audio(130);
    samples[30] = f32::NAN;
    samples[90] = f32::INFINITY;

    let (spans, suffix) = simulate(&samples, 9);

    assert!(suffix < policy().hard_max_samples + policy().soft_min_samples);
    assert_invariants(&spans, samples.len());
}

#[test]
fn final_suffix_can_require_one_or_two_calls() {
    let (one_call, _) = simulate(&audio(34), 10);
    assert_eq!(one_call.len(), 1);

    let (two_calls, _) = simulate(&audio(49), 10);
    assert_eq!(two_calls.len(), 2);
}

#[test]
fn feed_granularity_does_not_change_ranges() {
    let mut samples = audio(240);
    samples[28..31].fill(0.0);
    samples[87..90].fill(0.0);
    samples[145..148].fill(0.0);

    let sample_at_a_time = simulate(&samples, 1);
    let queued_frames = simulate(&samples, 73);

    assert_eq!(sample_at_a_time, queued_frames);
    assert_invariants(&sample_at_a_time.0, samples.len());
}

#[test]
fn complete_replay_matches_incremental_rolling_planning() {
    let mut samples = audio(240);
    samples[28..31].fill(0.0);
    samples[87..90].fill(0.0);
    samples[145..148].fill(0.0);

    let (incremental, _) = simulate(&samples, 13);
    let replay = plan_rolling_replay_spans(
        &samples,
        policy(),
        |window: &[f32]| Ok::<_, ()>(zero_runs(window)),
        &Loudness,
    );

    assert_eq!(replay, incremental);
    assert_invariants(&replay, samples.len());
}

#[test]
fn complete_replay_analyzes_exact_retained_windows_after_feeding_all_audio() {
    let samples: Vec<_> = (0..180).map(|sample| sample as f32).collect();
    let mut analyzed = Vec::new();

    let spans = plan_rolling_replay_spans(
        &samples,
        policy(),
        |window: &[f32]| {
            analyzed.push((window.len(), window[0]));
            Ok::<_, ()>(Vec::new())
        },
        &Loudness,
    );

    let horizon = policy().hard_max_samples + policy().soft_min_samples;
    let rolling_windows: Vec<_> = analyzed.iter().filter(|(len, _)| *len == horizon).collect();
    assert!(!rolling_windows.is_empty());
    for (index, (_, first_sample)) in rolling_windows.iter().enumerate() {
        assert_eq!(*first_sample, spans[index].start as f32);
    }
    assert_invariants(&spans, samples.len());
}

#[test]
fn complete_replay_uses_sticky_energy_fallback_after_analysis_error() {
    let samples = audio(180);
    let mut analysis_calls = 0;

    let fallback = plan_rolling_replay_spans(
        &samples,
        policy(),
        |_: &[f32]| {
            analysis_calls += 1;
            Err::<Vec<Range<usize>>, _>("offline analysis failed")
        },
        &Loudness,
    );
    let energy_only = plan_rolling_replay_spans(
        &samples,
        policy(),
        |_: &[f32]| Ok::<_, ()>(Vec::new()),
        &Loudness,
    );

    assert_eq!(analysis_calls, 1);
    assert_eq!(fallback, energy_only);
    assert_invariants(&fallback, samples.len());
}

#[test]
fn a_coordinator_keeps_every_sample_that_is_not_committed() {
    let samples: Vec<f32> = (0..120).map(|i| i as f32).collect();
    let mut coordinator = RollingChunkCoordinator::new(policy());
    assert_eq!(coordinator.rolling_horizon_samples(), 50);
    coordinator.push(&samples[..49]);
    assert!(coordinator.planning_window().is_none());
    assert!(coordinator.next_ready_span(&[], &Loudness).is_none());
    coordinator.push(&samples[49..]);
    assert_eq!(coordinator.planning_window().unwrap(), &samples[..50]);
    assert_eq!(coordinator.high_water_samples(), 120);

    assert_eq!(coordinator.commit(0..20), 0..20);
    assert_eq!(coordinator.commit(0..15), 20..35);
    assert_eq!(coordinator.uncommitted_audio(), &samples[35..]);
    assert_eq!(coordinator.uncommitted_samples(), 85);
    assert_eq!(coordinator.absolute_range(&(1..4)), 36..39);

    // The most that was held at one time stays known.
    coordinator.push(&samples[..10]);
    assert_eq!(coordinator.high_water_samples(), 120);
    assert_eq!(coordinator.policy().preferred_samples, 30);
}

#[test]
fn a_horizon_never_overflows() {
    let endless = ChunkPolicy {
        hard_max_samples: usize::MAX,
        soft_min_samples: 9,
        ..policy()
    };
    let coordinator = RollingChunkCoordinator::<f32>::new(endless);
    assert_eq!(coordinator.rolling_horizon_samples(), usize::MAX);
    assert!(coordinator.planning_window().is_none());
}

#[test]
fn a_coordinator_plans_as_the_planners_do() {
    let mut samples = audio(60);
    samples[28..31].fill(0.0);
    let pauses = std::slice::from_ref(&(28..31));
    let mut coordinator = RollingChunkCoordinator::new(policy());
    coordinator.push(&samples);
    assert_eq!(
        coordinator.next_ready_span(pauses, &Loudness),
        plan_first_span(&samples[..50], pauses, policy(), &Loudness)
    );
    assert_eq!(
        coordinator.final_spans(pauses, &Loudness),
        plan_spans(&samples, pauses, policy(), &Loudness)
    );
}

#[test]
fn more_audio_keeps_the_committed_spans() {
    let mut samples = audio(240);
    samples[28..31].fill(0.0);
    samples[87..90].fill(0.0);
    let replay = |length: usize| {
        plan_rolling_replay_spans(
            &samples[..length],
            policy(),
            |window: &[f32]| Ok::<_, ()>(zero_runs(window)),
            &Loudness,
        )
    };
    let whole = replay(240);
    for length in [60, 100, 150, 200] {
        let part = replay(length);
        let early = part.iter().filter(|span| span.start + 50 <= length).count();
        assert!(early > 0);
        assert_eq!(part[..early], whole[..early]);
        for span in &part[..early] {
            assert!((15..=35).contains(&span.len()));
        }
    }
}

#[test]
fn a_late_failure_leaves_the_earlier_spans_as_they_are() {
    let mut samples = audio(200);
    samples[20..24].fill(0.0);
    samples[50..54].fill(0.0);
    let mut calls = 0;
    let spans = plan_rolling_replay_spans(
        &samples,
        policy(),
        |window: &[f32]| {
            calls += 1;
            if calls == 1 {
                Ok(zero_runs(window))
            } else {
                Err("lost")
            }
        },
        &Loudness,
    );
    assert_eq!(calls, 2);
    assert_eq!(spans[0], 0..20);
    // From the failure on, cuts are made by energy alone.
    let rest = plan_rolling_replay_spans(
        &samples[20..],
        policy(),
        |_: &[f32]| Ok::<_, ()>(Vec::new()),
        &Loudness,
    );
    let shifted: Vec<Range<usize>> = rest
        .iter()
        .map(|span| span.start + 20..span.end + 20)
        .collect();
    assert_eq!(spans[1..], shifted[..]);
}

#[test]
fn a_rest_below_the_horizon_takes_two_spans_at_most() {
    // Three spans would cost less on this audio.
    let mut samples = audio(49);
    samples[13..16].fill(0.0);
    samples[36..39].fill(0.0);
    let pauses = [13..16, 36..39];
    assert_eq!(
        plan_spans(&samples, &pauses, policy(), &Loudness),
        vec![0..13, 13..36, 36..49]
    );
    let mut coordinator = RollingChunkCoordinator::new(policy());
    coordinator.push(&samples);
    let spans = coordinator.final_spans(&pauses, &Loudness);
    assert_eq!(spans.len(), 2);
    assert_invariants(&spans, 49);
    // The cut is the cheapest of all single ones: silence as near to the
    // preferred length as both spans allow.
    assert_eq!(spans, vec![0..15, 15..49]);

    let replay = plan_rolling_replay_spans(
        &samples,
        policy(),
        |window: &[f32]| Ok::<_, ()>(zero_runs(window)),
        &Loudness,
    );
    assert_eq!(replay, spans);
}

#[test]
fn the_cut_into_two_is_the_cheapest_one() {
    for seed in 0..60usize {
        let length = 36 + seed % 14;
        let samples: Vec<f32> = (0..length)
            .map(|i| ((i * 7 + seed * 13 + i * i) % 11) as f32 / 11.0)
            .collect();
        let first = 3 + seed % 10;
        let second = length - 12 + seed % 6;
        let pauses = [first..first + 3, second..second + 3];
        let mut coordinator = RollingChunkCoordinator::new(policy());
        coordinator.push(&samples);
        let spans = coordinator.final_spans(&pauses, &Loudness);
        assert_eq!(spans.len(), 2);
        assert_invariants(&spans, length);
        let best = plan_spans(&samples, &pauses, policy(), &Loudness);
        if best.len() == 2 {
            assert_eq!(spans, best);
        }
        let candidates = boundary_candidates(&samples, &pauses, policy(), &Loudness);
        let end = candidates[candidates.len() - 1];
        let least = candidates
            .iter()
            .filter(|cut| cut.sample > 0 && cut.sample <= 35 && length - cut.sample <= 35)
            .filter(|cut| cut.sample < length)
            .map(|cut| {
                let first = Loudness.plus(
                    0,
                    edge_cost(cut.sample, cut, false, policy(), &Loudness),
                );
                let rest = length - cut.sample;
                let second = edge_cost(rest, &end, true, policy(), &Loudness);
                (Loudness.plus(first, second), cut.sample)
            })
            .min()
            .unwrap();
        assert_eq!(spans[0].end, least.1);
    }
}

#[test]
fn a_rest_is_cut_at_the_maximum_where_no_single_boundary_does_it() {
    let wide = ChunkPolicy {
        hard_max_samples: 7,
        preferred_samples: 6,
        soft_min_samples: 5,
        min_pause_samples: 1,
        energy_window_samples: 3,
    };
    let mut coordinator = RollingChunkCoordinator::new(wide);
    coordinator.push(&[0.5; 11]);
    // Of the boundaries at 3, 6 and 9, only the middle one leaves two short spans.
    let spans = coordinator.final_spans(&[], &Loudness);
    assert_eq!(spans, vec![0..6, 6..11]);
    let gap = ChunkPolicy {
        energy_window_samples: 9,
        ..wide
    };
    let mut coordinator = RollingChunkCoordinator::new(gap);
    coordinator.push(&[0.5; 11]);
    // Cuts at 3, 8 and 9 alone: none leaves two spans that are short enough.
    assert_eq!(
        plan_spans(&[0.5; 11], &[3..4, 8..9], gap, &Loudness),
        vec![0..3, 3..8, 8..11]
    );
    assert_eq!(
        coordinator.final_spans(&[3..4, 8..9], &Loudness),
        vec![0..7, 7..11]
    );
}

#[test]
fn audio_beyond_the_horizon_does_not_change_the_next_span() {
    let mut coordinator = RollingChunkCoordinator::new(policy());
    coordinator.push(&audio(50));
    let pauses = [18..22, 33..40];
    let before = coordinator.next_ready_span(&pauses, &Loudness);
    assert!(before.is_some());
    for more in [vec![0.0; 1], vec![1.0; 30], vec![f32::NAN; 7]] {
        coordinator.push(&more);
        assert_eq!(coordinator.next_ready_span(&pauses, &Loudness), before);
    }
}

#[test]
fn a_replay_analyses_the_planning_windows_alone() {
    let samples: Vec<f32> = (0..180).map(|sample| sample as f32).collect();
    let mut analyzed = Vec::new();
    let spans = plan_rolling_replay_spans(
        &samples,
        policy(),
        |window: &[f32]| {
            analyzed.push((window.len(), window[0]));
            Ok::<_, ()>(Vec::new())
        },
        &Loudness,
    );
    assert_eq!(
        spans,
        vec![0..30, 30..60, 60..90, 90..120, 120..150, 150..180]
    );
    // The rest of thirty samples is not analysed.
    assert_eq!(
        analyzed,
        vec![(50, 0.0), (50, 30.0), (50, 60.0), (50, 90.0), (50, 120.0)]
    );
}
