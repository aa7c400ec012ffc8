use cohere_long_form::long_form::{
    combine_transcripts, plan_long_form_spans, recording_worker_path_available,
    should_use_long_form_chunking, transcribe_cohere_chunks, RecordingWorkerIntent,
};
use cohere_long_form::pauses::{coalesce_pauses, detect_pause_intervals, PauseError};
use cohere_long_form::plan::plan_spans;
use cohere_long_form::policy::{ChunkPolicy, SAMPLE_RATE};
use cohere_long_form::rolling::plan_rolling_replay_spans;
use cohere_long_form::scoring::Scoring;
use cohere_long_form::sequence::{run_chunk_sequence, ChunkSequenceError};
use cohere_long_form::text::{
    append_decimal, cancelled_before_chunk, chunk_failed, is_white_space, merge_english_chunks,
    rolling_call_failed, rolling_cancelled, trim,
};
use std::cell::{Cell, RefCell};
use std::ops::Range;

/// Scores audio of `f32` samples.
struct Loudness;

/// An integer that orders as `value` does.
fn key(value: f64) -> i64 {
    let bits = value.to_bits() as i64;
    if bits < 0 {
        bits ^ i64::MAX
    } else {
        bits
    }
}

/// The number that `key` stands for.
fn value(key: i64) -> f64 {
    f64::from_bits(if key < 0 { key ^ i64::MAX } else { key } as u64)
}

impl Scoring<f32> for Loudness {
    fn sample_energy(&self, sample: f32) -> i64 {
        let normalized = if sample.is_finite() {
            sample.clamp(-1.0, 1.0) as f64
        } else {
            1.0
        };
        key(normalized * normalized)
    }

    fn count(&self, samples: usize) -> i64 {
        key(samples as f64)
    }

    fn plus(&self, a: i64, b: i64) -> i64 {
        key(value(a) + value(b))
    }

    fn minus(&self, a: i64, b: i64) -> i64 {
        key(value(a) - value(b))
    }

    fn times(&self, a: i64, b: i64) -> i64 {
        key(value(a) * value(b))
    }

    fn over(&self, a: i64, b: i64) -> i64 {
        key(value(a) / value(b))
    }

    fn root(&self, mean: i64) -> u32 {
        (value(mean).sqrt() as f32).to_bits()
    }

    fn loudness(&self, rms: u32) -> i64 {
        key(f32::from_bits(rms) as f64)
    }
}

#[test]
fn long_form_chunking_is_only_for_long_cohere_asr_audio() {
    let policy = ChunkPolicy::default();

    assert!(!should_use_long_form_chunking(
        "cohere_asr",
        policy.hard_max_samples,
    ));
    assert!(should_use_long_form_chunking(
        "cohere_asr",
        policy.hard_max_samples + 1,
    ));
    for architecture in ["whisper", "parakeet", "moonshine", "cohere", "qwen3_asr"] {
        assert!(!should_use_long_form_chunking(
            architecture,
            policy.hard_max_samples + 1,
        ));
    }
}

#[test]
fn recording_worker_intent_runtime_gates_cohere_by_architecture() {
    assert!(recording_worker_path_available(
        RecordingWorkerIntent::CohereRollingBatch,
        Some("cohere_asr"),
        false,
    ));
    for architecture in [
        None,
        Some("whisper"),
        Some("cohere"),
        Some("parakeet"),
        Some("qwen3_asr"),
    ] {
        assert!(!recording_worker_path_available(
            RecordingWorkerIntent::CohereRollingBatch,
            architecture,
            false,
        ));
    }
    assert!(recording_worker_path_available(
        RecordingWorkerIntent::NativeStream,
        Some("parakeet"),
        true,
    ));
    assert!(!recording_worker_path_available(
        RecordingWorkerIntent::NativeStream,
        Some("cohere_asr"),
        false,
    ));
}

#[test]
fn chunk_sequence_runs_in_order_and_stops_on_error() {
    let spans = vec![0..10, 10..20, 20..30];
    let visited = Cell::new(0);

    let error = run_chunk_sequence(
        &spans,
        &|_| false,
        |span: &Range<usize>, index, _| -> Result<usize, String> {
            visited.set(visited.get() + 1);
            if index == 1 {
                return Err("middle chunk failed".to_string());
            }
            Ok(span.len())
        },
    )
    .unwrap_err();

    assert_eq!(error.message(), "middle chunk failed");
    assert_eq!(visited.get(), 2);
}

#[test]
fn chunk_sequence_returns_every_successful_result_in_order() {
    let spans = vec![0..10, 10..25, 25..30];

    let results = run_chunk_sequence(
        &spans,
        &|_| false,
        |span: &Range<usize>, index, total| -> Result<(usize, Range<usize>), String> {
            assert_eq!(total, 3);
            Ok((index, span.clone()))
        },
    )
    .unwrap();

    assert_eq!(results, vec![(0, 0..10), (1, 10..25), (2, 25..30)]);
}

#[test]
fn chunk_sequence_observes_cancellation_between_calls() {
    let spans = vec![0..10, 10..20, 20..30];
    let completed = Cell::new(0);

    let error = run_chunk_sequence(
        &spans,
        &|_| completed.get() == 1,
        |_: &Range<usize>, _, _| -> Result<(), String> {
            completed.set(completed.get() + 1);
            Ok(())
        },
    )
    .unwrap_err();

    assert_eq!(completed.get(), 1);
    assert!(error.message().contains("before chunk 2"));
}

#[test]
fn a_cancellation_is_asked_for_before_every_chunk_but_the_first() {
    let spans = vec![0..10, 10..20, 20..30, 30..40];
    let asked = RefCell::new(Vec::new());
    let results = run_chunk_sequence(
        &spans,
        &|index| {
            asked.borrow_mut().push(index);
            false
        },
        |_: &Range<usize>, index, _| -> Result<usize, String> { Ok(index) },
    )
    .unwrap();
    assert_eq!(results, vec![0, 1, 2, 3]);
    assert_eq!(asked.into_inner(), vec![1, 2, 3]);

    let runs = Cell::new(0);
    let error = run_chunk_sequence(
        &spans,
        &|index| index == 3,
        |_: &Range<usize>, _, _| -> Result<(), String> {
            runs.set(runs.get() + 1);
            Ok(())
        },
    )
    .unwrap_err();
    assert_eq!(runs.get(), 3);
    assert_eq!(error.message(), "Transcription cancelled before chunk 4");

    let none: Vec<u8> = run_chunk_sequence(
        &[],
        &|_| panic!("nothing to ask for"),
        |_: &Range<usize>, _, _| -> Result<u8, String> { Ok(0) },
    )
    .unwrap();
    assert!(none.is_empty());
}

#[test]
fn the_first_chunk_runs_even_where_it_is_cancelled() {
    let span = 0..10;
    let results = run_chunk_sequence(
        std::slice::from_ref(&span),
        &|_| true,
        |_: &Range<usize>, _, _| -> Result<u8, String> { Ok(7) },
    )
    .unwrap();
    assert_eq!(results, vec![7]);
    let error: ChunkSequenceError<String> = ChunkSequenceError::Cancelled { chunk: 12 };
    assert_eq!(error.message(), "Transcription cancelled before chunk 12");
}

#[test]
fn merging_trims_and_omits_empty_chunks() {
    assert_eq!(
        merge_english_chunks(&[
            "  first chunk  ".to_string(),
            String::new(),
            "   ".to_string(),
            "second chunk\n".to_string(),
        ]),
        "first chunk second chunk"
    );
}

struct ScriptedVad {
    script: Vec<bool>,
    cursor: usize,
    frame_samples: usize,
}

impl ScriptedVad {
    fn is_voice(&mut self, frame: &[f32]) -> Result<bool, String> {
        assert_eq!(frame.len(), self.frame_samples);
        let is_speech = self.script[self.cursor];
        self.cursor += 1;
        Ok(is_speech)
    }

    fn reset(&mut self) {
        self.cursor = 0;
    }
}

#[test]
fn vad_analysis_coalesces_noise_without_changing_audio() {
    let frame_samples = 4;
    let audio: Vec<_> = (0..24).map(|sample| sample as f32).collect();
    let original = audio.clone();
    let vad = RefCell::new(ScriptedVad {
        script: vec![true, false, false, true, false, false],
        cursor: 0,
        frame_samples,
    });

    let pauses = detect_pause_intervals(
        &audio,
        frame_samples,
        0.0,
        || vad.borrow_mut().reset(),
        |frame: &[f32]| vad.borrow_mut().is_voice(frame),
    )
    .unwrap();

    assert_eq!(pauses, vec![4..12, 16..24]);
    assert_eq!(audio, original);
}

#[test]
fn the_last_frame_is_filled_up_with_silence() {
    let audio = [1.0f32, 2.0, 3.0, 4.0, 5.0];
    let frames = RefCell::new(vec![vec![9.0]]);
    let pauses = detect_pause_intervals(
        &audio,
        2,
        0.0,
        || frames.borrow_mut().clear(),
        |frame: &[f32]| -> Result<bool, String> {
            frames.borrow_mut().push(frame.to_vec());
            Ok(frame[0] == 3.0)
        },
    )
    .unwrap();
    assert_eq!(
        frames.into_inner(),
        vec![vec![1.0, 2.0], vec![3.0, 4.0], vec![5.0, 0.0]]
    );
    assert_eq!(pauses, vec![0..2, 4..5]);
}

#[test]
fn analysis_reports_empty_frames_and_what_the_detector_says() {
    let asked = Cell::new(0);
    let ask = |_: &[f32]| -> Result<bool, String> {
        asked.set(asked.get() + 1);
        if asked.get() == 2 {
            Err("no device".to_string())
        } else {
            Ok(true)
        }
    };
    let resets = Cell::new(0);
    let reset = || resets.set(resets.get() + 1);
    let silence = detect_pause_intervals(&[], 0, 0.0, reset, ask).unwrap();
    assert!(silence.is_empty());
    let silence = detect_pause_intervals(&[], 4, 0.0, reset, ask).unwrap();
    assert!(silence.is_empty());
    let empty_frame = detect_pause_intervals(&[0.5], 0, 0.0, reset, ask).unwrap_err();
    assert!(matches!(empty_frame, PauseError::EmptyFrame));
    assert_eq!(empty_frame.message(), "VAD frame size must be non-zero");
    assert_eq!(asked.get(), 0);
    assert_eq!(resets.get(), 0);
    let failed = detect_pause_intervals(&[0.5; 9], 3, 0.0, reset, ask).unwrap_err();
    assert_eq!(failed.message(), "no device");
    assert_eq!(asked.get(), 2);
    assert_eq!(resets.get(), 1);
}

#[test]
fn votes_decide_the_pauses() {
    let frames = 6;
    for pattern in 0..1usize << frames {
        let votes: Vec<bool> = (0..frames).map(|bit| pattern >> bit & 1 == 1).collect();
        let audio_len = 17;
        let pauses = coalesce_pauses(&votes, 3, audio_len);
        for sample in 0..audio_len {
            let held = pauses.iter().any(|pause| pause.contains(&sample));
            assert_eq!(held, !votes[sample / 3]);
        }
        for pair in pauses.windows(2) {
            assert!(pair[0].end < pair[1].start);
        }
    }
    assert!(coalesce_pauses(&[], 3, 0).is_empty());
}

#[test]
fn white_space_is_what_trimming_takes() {
    for code in 0..=0x10FFFFu32 {
        if let Some(c) = char::from_u32(code) {
            assert_eq!(is_white_space(c), c.is_whitespace(), "{code:x}");
        }
    }
    for text in [
        "",
        " ",
        "\t\u{3000}\u{a0}x y\u{2003}\n",
        "plain",
        "\u{200b}kept\u{200b}",
        "  ä ö  ",
        "\r\n\u{85}",
    ] {
        assert_eq!(trim(text), text.trim());
    }
}

#[test]
fn blank_chunks_do_not_show() {
    let with_blanks = [" a", "", "\n", "b c ", "\u{2003}", "d"];
    let without = ["a", "b c", "d"];
    let merge = |texts: &[&str]| {
        let owned: Vec<String> = texts.iter().map(|text| text.to_string()).collect();
        merge_english_chunks(&owned)
    };
    assert_eq!(merge(&with_blanks), "a b c d");
    assert_eq!(merge(&with_blanks), merge(&without));
    assert_eq!(merge(&[]), "");
    assert_eq!(merge(&["  ", "\t"]), "");
}

#[test]
fn messages_name_the_chunk() {
    assert_eq!(
        cancelled_before_chunk(2),
        "Transcription cancelled before chunk 2"
    );
    assert_eq!(
        chunk_failed(3, 10, "out of memory"),
        "transcribe-cpp transcription failed on chunk 3/10: out of memory"
    );
    assert_eq!(
        rolling_call_failed(7, &(480_000..960_000), "device lost"),
        "Cohere rolling transcription failed on call 7 for samples 480000..960000: device lost"
    );
    assert_eq!(
        rolling_cancelled(),
        "Cohere rolling transcription was cancelled"
    );
    for number in [0, 9, 10, 105, usize::MAX] {
        let mut text = "n=".to_string();
        append_decimal(&mut text, number);
        assert_eq!(text, format!("n={number}"));
    }
}

#[test]
fn the_first_language_that_the_model_names_stays() {
    let transcript = |text: &str, language: Option<&str>| {
        (text.to_string(), language.map(|code| code.to_string()))
    };
    let transcripts = || {
        vec![
            transcript(" one", None),
            transcript("two ", Some("en")),
            transcript("", Some("de")),
        ]
    };
    let mut language = None;
    assert_eq!(combine_transcripts(transcripts(), &mut language), "one two");
    assert_eq!(language.as_deref(), Some("en"));

    let mut known = Some("fr".to_string());
    combine_transcripts(transcripts(), &mut known);
    assert_eq!(known.as_deref(), Some("fr"));

    let mut unknown = None;
    assert_eq!(combine_transcripts(Vec::new(), &mut unknown), "");
    assert_eq!(unknown, None);
}

fn minute() -> Vec<f32> {
    let mut audio = vec![0.5f32; 60 * SAMPLE_RATE];
    audio[29 * SAMPLE_RATE..30 * SAMPLE_RATE].fill(0.0);
    audio
}

fn silent_second(_: &[f32]) -> Result<Vec<Range<usize>>, String> {
    Ok(vec![29 * SAMPLE_RATE..30 * SAMPLE_RATE])
}

#[test]
fn a_complete_recording_is_transcribed_span_by_span() {
    let audio = minute();
    let expected = plan_spans(
        &audio,
        &silent_second(&audio).unwrap(),
        ChunkPolicy::default(),
        &Loudness,
    );
    let visited = RefCell::new(Vec::new());
    let mut announced = Vec::new();
    let mut language = None;
    let text = transcribe_cohere_chunks(
        &audio,
        false,
        silent_second,
        |spans: &[Range<usize>]| announced = spans.to_vec(),
        &|_| false,
        |span: &Range<usize>, index, total| -> Result<(String, Option<String>), String> {
            visited.borrow_mut().push(span.clone());
            Ok((format!(" part {}/{} ", index + 1, total), Some(format!("l{index}"))))
        },
        &Loudness,
        &mut language,
    )
    .unwrap();
    assert_eq!(text, "part 1/2 part 2/2");
    assert_eq!(language.as_deref(), Some("l0"));
    assert_eq!(visited.into_inner(), expected);
    assert_eq!(announced, expected);
}

#[test]
fn a_failed_or_cancelled_chunk_leaves_no_partial_transcript() {
    let audio = minute();
    let mut language = None;
    let failed = transcribe_cohere_chunks(
        &audio,
        false,
        silent_second,
        |_: &[Range<usize>]| {},
        &|_| false,
        |_: &Range<usize>, index, total| -> Result<(String, Option<String>), String> {
            if index == 1 {
                Err(chunk_failed(index + 1, total, "gone"))
            } else {
                Ok(("part".to_string(), Some("en".to_string())))
            }
        },
        &Loudness,
        &mut language,
    )
    .unwrap_err();
    assert_eq!(
        failed.message(),
        "transcribe-cpp transcription failed on chunk 2/2: gone"
    );
    assert_eq!(language, None);

    let cancelled = transcribe_cohere_chunks(
        &audio,
        false,
        silent_second,
        |_: &[Range<usize>]| {},
        &|_| true,
        |_: &Range<usize>, _, _| -> Result<(String, Option<String>), String> {
            Ok(("part".to_string(), None))
        },
        &Loudness,
        &mut language,
    )
    .unwrap_err();
    assert_eq!(
        cancelled.message(),
        "Transcription cancelled before chunk 2"
    );
}

#[test]
fn a_complete_recording_is_planned_by_energy_where_the_analysis_fails() {
    let audio = minute();
    let policy = ChunkPolicy::default();
    let fails = |_: &[f32]| -> Result<Vec<Range<usize>>, String> { Err("no model".to_string()) };
    assert_eq!(
        plan_long_form_spans(&audio, policy, false, fails, &Loudness),
        plan_spans(&audio, &[], policy, &Loudness)
    );
    assert_eq!(
        plan_long_form_spans(&audio, policy, true, silent_second, &Loudness),
        plan_rolling_replay_spans(&audio, policy, silent_second, &Loudness)
    );
}
