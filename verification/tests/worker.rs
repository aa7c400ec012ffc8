use cohere_long_form::policy::ChunkPolicy;
use cohere_long_form::rolling::{plan_rolling_replay_spans, RollingChunkCoordinator};
use cohere_long_form::scoring::Scoring;
use cohere_long_form::worker::{
    Phase, RecordingWorkerReply, RollingOutcome, RollingWorker, WorkerAction,
};
use std::cell::{Cell, RefCell};
use std::ops::Range;
use std::sync::atomic::{AtomicBool, Ordering};

/// Scores audio of `f32` samples.
struct Loudness;

/// An integer that orders as `value` does.
fn key(value: f64) -> i64 {
    let bits = value.to_bits() as i64;
    if bits < 0 {
        bits ^ i64::MAX
    } else {
        bits
    }
}

/// The number that `key` stands for.
fn value(key: i64) -> f64 {
    f64::from_bits(if key < 0 { key ^ i64::MAX } else { key } as u64)
}

impl Scoring<f32> for Loudness {
    fn sample_energy(&self, sample: f32) -> i64 {
        let normalized = if sample.is_finite() {
            sample.clamp(-1.0, 1.0) as f64
        } else {
            1.0
        };
        key(normalized * normalized)
    }

    fn count(&self, samples: usize) -> i64 {
        key(samples as f64)
    }

    fn plus(&self, a: i64, b: i64) -> i64 {
        key(value(a) + value(b))
    }

    fn minus(&self, a: i64, b: i64) -> i64 {
        key(value(a) - value(b))
    }

    fn times(&self, a: i64, b: i64) -> i64 {
        key(value(a) * value(b))
    }

    fn over(&self, a: i64, b: i64) -> i64 {
        key(value(a) / value(b))
    }

    fn root(&self, mean: i64) -> u32 {
        (value(mean).sqrt() as f32).to_bits()
    }

    fn loudness(&self, rms: u32) -> i64 {
        key(f32::from_bits(rms) as f64)
    }
}

type Pauses = Result<Vec<Range<usize>>, String>;
type Transcript = Result<(String, Option<String>), String>;

fn languages(codes: &[&str]) -> Vec<String> {
    codes.iter().map(|code| (*code).to_string()).collect()
}

fn rolling_test_policy() -> ChunkPolicy {
    ChunkPolicy {
        hard_max_samples: 35,
        preferred_samples: 30,
        soft_min_samples: 15,
        min_pause_samples: 2,
        energy_window_samples: 1,
    }
}

/// Does what the worker asks for until it waits for a command or replies.
fn drive<P, R, C>(
    worker: &mut RollingWorker<f32>,
    mut action: WorkerAction,
    is_cancelled: &C,
    analyze_pauses: &mut P,
    run_chunk: &mut R,
) -> Option<RollingOutcome>
where
    P: FnMut(&[f32]) -> Pauses,
    R: FnMut(&[f32], Range<usize>, usize) -> Transcript,
    C: Fn() -> bool,
{
    loop {
        action = match action {
            WorkerAction::Receive => return None,
            WorkerAction::PollCancel => worker.cancel_polled(is_cancelled(), &Loudness),
            WorkerAction::AnalyzePauses(range) => {
                let found = analyze_pauses(&worker.uncommitted_audio()[range]).ok();
                worker.pauses_found(found, &Loudness)
            }
            WorkerAction::RunChunk {
                local,
                absolute,
                call_number,
            } => {
                let result = run_chunk(&worker.uncommitted_audio()[local], absolute, call_number);
                worker.chunk_finished(result)
            }
            WorkerAction::Reply(outcome) => return Some(outcome),
        };
    }
}

fn run_fake_rolling<P, R, C>(
    feeds: &[Vec<f32>],
    is_cancelled: C,
    mut analyze_pauses: P,
    mut run_chunk: R,
) -> RecordingWorkerReply<Option<String>>
where
    P: FnMut(&[f32]) -> Pauses,
    R: FnMut(&[f32], Range<usize>, usize) -> Transcript,
    C: Fn() -> bool,
{
    let mut worker = RollingWorker::new(rolling_test_policy());
    for feed in feeds {
        let action = worker.feed(feed);
        let replied = drive(
            &mut worker,
            action,
            &is_cancelled,
            &mut analyze_pauses,
            &mut run_chunk,
        );
        assert!(replied.is_none());
    }
    let action = worker.finalize();
    drive(
        &mut worker,
        action,
        &is_cancelled,
        &mut analyze_pauses,
        &mut run_chunk,
    )
    .expect("fake worker should finalize")
    .into_reply(|language| language, languages(&["en"]))
}

#[test]
fn rolling_inference_runs_before_finalize_is_sent() {
    let mut worker = RollingWorker::new(rolling_test_policy());
    let mut ranges = Vec::new();
    let action = worker.feed(&vec![0.5; 50]);
    let replied = drive(
        &mut worker,
        action,
        &|| false,
        &mut |_: &[f32]| Ok(Vec::new()),
        &mut |_: &[f32], range, _| {
            ranges.push(range);
            Ok(("speech".to_string(), None))
        },
    );
    assert!(replied.is_none());
    let first = ranges.first().cloned();

    let action = worker.finalize();
    let result = drive(
        &mut worker,
        action,
        &|| false,
        &mut |_: &[f32]| Ok(Vec::new()),
        &mut |_: &[f32], range, _| {
            ranges.push(range);
            Ok(("speech".to_string(), None))
        },
    )
    .unwrap()
    .into_reply(|language| language, languages(&["en"]));
    assert_eq!(first.unwrap().start, 0);
    assert!(matches!(result, RecordingWorkerReply::Completed(_)));
}

#[test]
fn rolling_vad_failure_uses_energy_for_remaining_chunks() {
    let analyses = Cell::new(0);
    let calls = Cell::new(0);
    let reply = run_fake_rolling(
        &[vec![0.5; 180]],
        || false,
        |_| {
            analyses.set(analyses.get() + 1);
            Err("VAD unavailable".to_string())
        },
        |_, _, _| {
            calls.set(calls.get() + 1);
            Ok(("speech".to_string(), None))
        },
    );
    assert!(matches!(reply, RecordingWorkerReply::Completed(_)));
    assert_eq!(analyses.get(), 1);
    assert!(calls.get() > 2);
}

#[test]
fn short_rolling_audio_runs_once_only_at_finalize() {
    let analyzed = Cell::new(0);
    let calls = Cell::new(0);
    let reply = run_fake_rolling(
        &[vec![0.5; 35]],
        || false,
        |_| {
            analyzed.set(analyzed.get() + 1);
            Ok(Vec::new())
        },
        |audio, range, call_number| {
            calls.set(calls.get() + 1);
            assert_eq!(call_number, 1);
            assert_eq!(range, 0..35);
            assert_eq!(audio.len(), 35);
            Ok(("short result".to_string(), Some("en".to_string())))
        },
    );

    let RecordingWorkerReply::Completed(finalized) = reply else {
        panic!("short rolling audio should complete");
    };
    assert_eq!(calls.get(), 1);
    assert_eq!(analyzed.get(), 0, "short audio should not initialize VAD");
    assert_eq!(finalized.text, "short result");
    assert!(finalized.empty_is_complete);
}

#[test]
fn long_rolling_audio_has_exact_ordered_coverage_and_two_or_fewer_final_calls() {
    let audio = vec![0.5; 180];
    let visited = RefCell::new(Vec::new());
    let reply = run_fake_rolling(
        std::slice::from_ref(&audio),
        || false,
        |_| Ok(Vec::new()),
        |chunk, range, call_number| {
            assert_eq!(chunk, &audio[range.clone()]);
            visited.borrow_mut().push(range);
            Ok((format!("chunk-{call_number}"), None))
        },
    );

    let RecordingWorkerReply::Completed(finalized) = reply else {
        panic!("long rolling audio should complete");
    };
    let visited = visited.into_inner();
    assert!(visited.len() > 2);
    assert_eq!(visited.first().unwrap().start, 0);
    assert_eq!(visited.last().unwrap().end, audio.len());
    for (index, range) in visited.iter().enumerate() {
        assert!(!range.is_empty());
        assert!(range.len() <= rolling_test_policy().hard_max_samples);
        if index > 0 {
            assert_eq!(visited[index - 1].end, range.start);
        }
    }

    let mut simulation = RollingChunkCoordinator::new(rolling_test_policy());
    simulation.push(&audio);
    let mut background_calls = 0;
    while simulation.planning_window().is_some() {
        let span = simulation.next_ready_span(&[], &Loudness).unwrap();
        simulation.commit(span);
        background_calls += 1;
    }
    let final_calls = visited.len() - background_calls;
    assert!(background_calls > 0);
    assert!(final_calls <= 2);
    assert_eq!(
        finalized.text,
        (1..=visited.len())
            .map(|index| format!("chunk-{index}"))
            .collect::<Vec<_>>()
            .join(" ")
    );
}

#[test]
fn rolling_merge_omits_empty_chunks_after_all_calls_complete() {
    let reply = run_fake_rolling(
        &[vec![0.5; 80]],
        || false,
        |_| Ok(Vec::new()),
        |_, _, call_number| {
            let text = if call_number == 1 {
                "  first  ".to_string()
            } else {
                String::new()
            };
            Ok((text, None))
        },
    );

    let RecordingWorkerReply::Completed(finalized) = reply else {
        panic!("empty chunks are successful model results");
    };
    assert_eq!(finalized.text, "first");
}

#[test]
fn rolling_middle_error_is_sticky_and_stops_later_calls() {
    let calls = Cell::new(0);
    let reply = run_fake_rolling(
        &[vec![0.5; 180], vec![0.5; 40]],
        || false,
        |_| Ok(Vec::new()),
        |_, _, call_number| {
            calls.set(calls.get() + 1);
            if call_number == 2 {
                return Err("simulated middle failure".to_string());
            }
            Ok((format!("chunk-{call_number}"), None))
        },
    );

    let RecordingWorkerReply::Failed(message) = reply else {
        panic!("a real chunk error must fail the whole transcription");
    };
    assert!(message.contains("simulated middle failure"));
    assert_eq!(calls.get(), 2);
}

#[test]
fn rolling_cancellation_stops_before_the_next_model_call() {
    let cancelled = AtomicBool::new(false);
    let calls = Cell::new(0);
    let reply = run_fake_rolling(
        &[vec![0.5; 180]],
        || cancelled.load(Ordering::Acquire),
        |_| Ok(Vec::new()),
        |_, _, call_number| {
            calls.set(calls.get() + 1);
            cancelled.store(true, Ordering::Release);
            Ok((format!("chunk-{call_number}"), None))
        },
    );

    assert!(matches!(reply, RecordingWorkerReply::Failed(_)));
    assert_eq!(calls.get(), 1);
}

fn zero_runs(samples: &[f32]) -> Pauses {
    let mut pauses = Vec::new();
    let mut start = None;
    for (index, sample) in samples.iter().enumerate() {
        if *sample == 0.0 {
            start.get_or_insert(index);
        } else if let Some(pause_start) = start.take() {
            pauses.push(pause_start..index);
        }
    }
    if let Some(pause_start) = start {
        pauses.push(pause_start..samples.len());
    }
    Ok(pauses)
}

#[test]
fn a_running_recording_is_cut_as_a_replay_cuts_it() {
    let mut audio = vec![0.5f32; 230];
    audio[28..31].fill(0.0);
    audio[87..90].fill(0.0);
    audio[205..209].fill(0.0);
    let replay = plan_rolling_replay_spans(&audio, rolling_test_policy(), zero_runs, &Loudness);
    for size in [1, 13, 50, 230] {
        let feeds: Vec<Vec<f32>> = audio.chunks(size).map(|feed| feed.to_vec()).collect();
        let visited = RefCell::new(Vec::new());
        let reply = run_fake_rolling(&feeds, || false, zero_runs, |_, range, _| {
            visited.borrow_mut().push(range);
            Ok((String::new(), None))
        });
        assert!(matches!(reply, RecordingWorkerReply::Completed(_)));
        assert_eq!(visited.into_inner(), replay);
    }
}

#[test]
fn a_recording_without_audio_completes_with_an_empty_text() {
    let reply = run_fake_rolling(
        &[],
        || false,
        |_| panic!("nothing to analyze"),
        |_, _, _| panic!("nothing to run"),
    );
    let RecordingWorkerReply::Completed(finalized) = reply else {
        panic!("silence is a complete result");
    };
    assert_eq!(finalized.text, "");
    assert!(finalized.empty_is_complete);
    assert_eq!(finalized.supported_languages, languages(&["en"]));
    assert_eq!(finalized.output_language, None);
}

#[test]
fn the_first_language_of_a_recording_is_handed_on() {
    let reply = run_fake_rolling(
        &[vec![0.5; 120]],
        || false,
        |_| Ok(Vec::new()),
        |_, _, call_number| {
            let language = if call_number == 1 {
                None
            } else {
                Some(format!("language {call_number}"))
            };
            Ok(("text".to_string(), language))
        },
    );
    let RecordingWorkerReply::Completed(finalized) = reply else {
        panic!("every call succeeded");
    };
    assert_eq!(finalized.output_language.as_deref(), Some("language 2"));
}

#[test]
fn a_failed_analysis_at_the_end_is_planned_by_energy() {
    let visited = RefCell::new(Vec::new());
    let reply = run_fake_rolling(
        &[vec![0.5; 45]],
        || false,
        |audio| {
            assert_eq!(audio.len(), 45);
            Err("VAD unavailable".to_string())
        },
        |_, range, _| {
            visited.borrow_mut().push(range);
            Ok((String::new(), None))
        },
    );
    assert!(matches!(reply, RecordingWorkerReply::Completed(_)));
    let energy_only = plan_rolling_replay_spans(
        &[0.5; 45],
        rolling_test_policy(),
        |_: &[f32]| -> Pauses { Ok(Vec::new()) },
        &Loudness,
    );
    assert_eq!(visited.into_inner(), energy_only);
}

#[test]
fn a_failed_last_chunk_is_the_reply() {
    let reply = run_fake_rolling(
        &[vec![0.5; 20]],
        || false,
        |_| Ok(Vec::new()),
        |_, _, _| Err("last one lost".to_string()),
    );
    let RecordingWorkerReply::Failed(message) = reply else {
        panic!("the only chunk failed");
    };
    assert_eq!(message, "last one lost");
}

#[test]
fn a_cancellation_outweighs_a_failure() {
    let calls = Cell::new(0);
    let reply = run_fake_rolling(
        &[vec![0.5; 60]],
        || calls.get() > 0,
        |_| Ok(Vec::new()),
        |_, _, _| {
            calls.set(calls.get() + 1);
            Err("failed first".to_string())
        },
    );
    let RecordingWorkerReply::Failed(message) = reply else {
        panic!("nothing was transcribed");
    };
    assert_eq!(message, "Cohere rolling transcription was cancelled");
}

#[test]
fn a_cancellation_at_the_end_is_seen_between_the_last_chunks() {
    let calls = Cell::new(0);
    let reply = run_fake_rolling(
        &[vec![0.5; 45]],
        || calls.get() == 1,
        |_| Ok(Vec::new()),
        |_, _, _| {
            calls.set(calls.get() + 1);
            Ok(("text".to_string(), None))
        },
    );
    assert!(matches!(reply, RecordingWorkerReply::Failed(_)));
    assert_eq!(calls.get(), 1);
}

#[test]
fn stopped_work_counts_audio_but_takes_none() {
    let mut worker = RollingWorker::new(rolling_test_policy());
    assert_eq!(worker.phase(), Phase::Receiving);
    assert!(matches!(worker.feed(&[0.5; 49]), WorkerAction::Receive));
    assert!(matches!(worker.feed(&[0.5; 1]), WorkerAction::PollCancel));
    assert_eq!(worker.phase(), Phase::PollingBackground);
    let WorkerAction::AnalyzePauses(window) = worker.cancel_polled(false, &Loudness) else {
        panic!("the window is analyzed first");
    };
    assert_eq!(window, 0..50);
    let WorkerAction::RunChunk {
        local,
        absolute,
        call_number,
    } = worker.pauses_found(Some(Vec::new()), &Loudness)
    else {
        panic!("a span is run next");
    };
    assert_eq!(local, 0..30);
    assert_eq!(absolute, 0..30);
    assert_eq!(call_number, 1);
    assert_eq!(worker.phase(), Phase::RunningBackground { end: 30 });

    let failed = worker.chunk_finished(Err("broken".to_string()));
    assert!(matches!(failed, WorkerAction::Receive));
    assert!(matches!(worker.feed(&[0.5; 100]), WorkerAction::Receive));
    assert_eq!(worker.received_samples(), 150);
    assert_eq!(worker.uncommitted_audio().len(), 50);
    assert_eq!(worker.background_calls(), 0);

    assert!(matches!(worker.finalize(), WorkerAction::PollCancel));
    let WorkerAction::Reply(RollingOutcome::Failed(message)) =
        worker.cancel_polled(false, &Loudness)
    else {
        panic!("the failure is the reply");
    };
    assert_eq!(message, "broken");
    assert_eq!(worker.phase(), Phase::Done);
}

#[test]
fn committed_audio_is_let_go_and_the_rest_is_less_than_a_horizon() {
    let mut worker = RollingWorker::new(rolling_test_policy());
    let audio: Vec<f32> = (0..137).map(|i| 0.5 + (i % 3) as f32 / 10.0).collect();
    let mut last = 0;
    let action = worker.feed(&audio);
    let replied = drive(
        &mut worker,
        action,
        &|| false,
        &mut |_: &[f32]| Ok(Vec::new()),
        &mut |chunk: &[f32], range, _| {
            assert_eq!(chunk, &audio[range.clone()]);
            last = range.end;
            Ok((String::new(), None))
        },
    );
    assert!(replied.is_none());
    assert_eq!(worker.background_calls(), 3);
    assert_eq!(worker.uncommitted_audio(), &audio[last..]);
    assert!(worker.uncommitted_audio().len() < 50);
    assert_eq!(worker.high_water_samples(), 137);
}

/// The calls of the model, and the reply, for a recording in feeds of `size`.
fn calls_and_reply(
    audio: &[f32],
    size: usize,
    failing_call: usize,
) -> (Vec<(Vec<f32>, Range<usize>, usize)>, String) {
    let feeds: Vec<Vec<f32>> = audio.chunks(size).map(|feed| feed.to_vec()).collect();
    let calls = RefCell::new(Vec::new());
    let reply = run_fake_rolling(&feeds, || false, zero_runs, |samples, range, number| {
        calls
            .borrow_mut()
            .push((samples.to_vec(), range.clone(), number));
        if number == failing_call {
            Err(format!("call {number} on {range:?} failed"))
        } else {
            Ok((format!(" text {number} "), Some(format!("language {number}"))))
        }
    });
    let said = match reply {
        RecordingWorkerReply::Completed(finalized) => {
            format!("{} in {:?}", finalized.text, finalized.output_language)
        }
        RecordingWorkerReply::Failed(message) => message,
    };
    (calls.into_inner(), said)
}

#[test]
fn workers_on_the_same_audio_make_the_same_calls_and_give_equal_replies() {
    let mut audio: Vec<f32> = (0..230).map(|i| 0.4 + (i % 5) as f32 / 10.0).collect();
    audio[28..31].fill(0.0);
    audio[87..90].fill(0.0);
    audio[205..209].fill(0.0);
    let (all, _) = calls_and_reply(&audio, 230, usize::MAX);
    for failing_call in 1..=all.len() + 1 {
        let whole = calls_and_reply(&audio, 230, failing_call);
        assert_eq!(whole.0.len(), failing_call.min(all.len()));
        for size in [1, 7, 64, 131] {
            assert_eq!(calls_and_reply(&audio, size, failing_call), whole);
        }
    }
}

#[test]
fn a_rest_with_two_early_pauses_takes_two_calls() {
    let mut audio = vec![0.5f32; 49];
    audio[13..16].fill(0.0);
    audio[36..39].fill(0.0);
    let (calls, said) = calls_and_reply(&audio, 49, usize::MAX);
    assert_eq!(calls.len(), 2);
    assert_eq!(said, "text 1 text 2 in Some(\"language 1\")");
}
