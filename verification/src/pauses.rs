//! Finding the pauses in a recording.

use std::ops::Range;
use vstd::prelude::*;

verus! {

/// Why the pauses in a recording could not be found.
#[derive(Debug)]
pub enum PauseError<E> {
    /// The detector takes frames of no samples.
    EmptyFrame,
    /// The detector failed.
    Detector(E),
}

impl PauseError<String> {
    /// What is said of the error.
    pub fn message(&self) -> (message: String)
        ensures
            match self {
                PauseError::EmptyFrame => message@ == "VAD frame size must be non-zero"@,
                PauseError::Detector(error) => message@ == error@,
            },
    {
        match self {
            PauseError::EmptyFrame => "VAD frame size must be non-zero".to_owned(),
            PauseError::Detector(error) => error.clone(),
        }
    }
}

/// The number of frames of `frame_samples` that `audio_len` samples fill, the
/// last of them perhaps in part.
pub open spec fn frame_count(audio_len: int, frame_samples: int) -> int {
    (audio_len + frame_samples - 1) / frame_samples
}

/// Frame `i` of `audio`, filled up with `silence` behind the end.
pub open spec fn frame_at<S>(audio: Seq<S>, frame_samples: int, silence: S, i: int) -> Seq<S> {
    Seq::new(
        frame_samples as nat,
        |t: int|
            if i * frame_samples + t < audio.len() {
                audio[i * frame_samples + t]
            } else {
                silence
            },
    )
}

/// `is_voice` may return `result` for the frame `frame`.
pub open spec fn hears<S, E, F: FnMut(&[S]) -> Result<bool, E>>(
    is_voice: F,
    frame: Seq<S>,
    result: Result<bool, E>,
) -> bool {
    exists|slice: &[S]|
        slice@ == frame && #[trigger] call_ensures(is_voice, (slice,), result)
}

/// `votes` are what `is_voice` may return for the first frames of `audio`.
pub open spec fn votes_of<S, E, F: FnMut(&[S]) -> Result<bool, E>>(
    is_voice: F,
    audio: Seq<S>,
    frame_samples: int,
    silence: S,
    votes: Seq<bool>,
) -> bool {
    forall|i: int|
        0 <= i < votes.len() ==> hears(
            is_voice,
            frame_at(audio, frame_samples, silence, i),
            Ok(#[trigger] votes[i]),
        )
}

/// The vote on the frame that holds the sample `t`.
pub open spec fn vote_at(votes: Seq<bool>, frame_samples: int, t: int) -> bool {
    votes[t / frame_samples]
}

/// One of `pauses` holds the sample `t`.
pub open spec fn in_pause(pauses: Seq<Range<usize>>, t: int) -> bool {
    exists|i: int| 0 <= i < pauses.len() && (#[trigger] pauses[i]).start <= t < pauses[i].end
}

/// Pause `i` starts behind the end of the one before it.
pub open spec fn apart(pauses: Seq<Range<usize>>, i: int) -> bool {
    pauses[i - 1].end < pauses[i].start
}

/// `pauses` are the stretches of frames without voice: in order, none of them
/// empty, no two of them touching, and a sample is in one of them just when its
/// frame was voted to be without voice.
pub open spec fn is_pause_list(
    votes: Seq<bool>,
    frame_samples: int,
    audio_len: int,
    pauses: Seq<Range<usize>>,
) -> bool {
    &&& forall|i: int|
        0 <= i < pauses.len() ==> (#[trigger] pauses[i]).start < pauses[i].end <= audio_len
    &&& forall|i: int| 0 < i < pauses.len() ==> #[trigger] apart(pauses, i)
    &&& forall|t: int|
        0 <= t < audio_len ==> (#[trigger] in_pause(pauses, t) <==> !vote_at(
            votes,
            frame_samples,
            t,
        ))
}

proof fn lemma_frame_of(f: int, k: int, t: int)
    requires
        0 < f,
        k * f <= t < (k + 1) * f,
    ensures
        t / f == k,
{
    assert(t / f == k) by (nonlinear_arith)
        requires
            0 < f,
            k * f <= t < (k + 1) * f,
    ;
}

/// The sample `t` is in one of `pauses`, or in the pause that is open since
/// `start`, just when its frame was voted to be without voice.
spec fn accounted(
    votes: Seq<bool>,
    frame_samples: int,
    pauses: Seq<Range<usize>>,
    open: bool,
    start: int,
    t: int,
) -> bool {
    (in_pause(pauses, t) || (open && start <= t)) <==> !vote_at(votes, frame_samples, t)
}

/// Joins frames without voice, one vote per frame, into pauses.
pub fn coalesce_pauses(
    votes: &[bool],
    frame_samples: usize,
    audio_len: usize,
) -> (pauses: Vec<Range<usize>>)
    requires
        frame_samples > 0,
        votes.len() == frame_count(audio_len as int, frame_samples as int),
    ensures
        is_pause_list(votes@, frame_samples as int, audio_len as int, pauses@),
{
    let ghost f = frame_samples as int;
    let ghost n = audio_len as int;
    let mut pauses: Vec<Range<usize>> = Vec::new();
    let mut open: bool = false;
    let mut pause_start: usize = 0;
    let mut offset: usize = 0;
    let mut index: usize = 0;
    proof {
        assert(0 * f == 0) by (nonlinear_arith);
        assert(n == 0 ==> (n + f - 1) / f == 0) by (nonlinear_arith)
            requires
                f > 0,
        ;
        assert(n > 0 ==> (n + f - 1) / f >= 1) by (nonlinear_arith)
            requires
                f > 0,
        ;
    }
    while index < votes.len()
        invariant
            f == frame_samples,
            n == audio_len,
            f > 0,
            votes.len() == frame_count(n, f),
            index <= votes.len(),
            index < votes.len() ==> offset == index * f && offset < n,
            index == votes.len() ==> offset == n,
            offset <= n,
            open ==> pause_start < offset,
            open ==> (pauses.len() > 0 ==> pauses@.last().end < pause_start),
            !open && index < votes.len() && pauses.len() > 0 ==> pauses@.last().end < offset,
            forall|i: int|
                0 <= i < pauses.len() ==> (#[trigger] pauses@[i]).start < pauses@[i].end <= n,
            forall|i: int| 0 < i < pauses.len() ==> #[trigger] apart(pauses@, i),
            forall|t: int|
                0 <= t < offset ==> #[trigger] accounted(
                    votes@,
                    f,
                    pauses@,
                    open,
                    pause_start as int,
                    t,
                ),
        decreases votes.len() - index,
    {
        let ghost k = index as int;
        let ghost before = pauses@;
        let ghost opened = open;
        let ghost start0 = pause_start as int;
        let ghost offset0 = offset as int;
        proof {
            assert((k + 1) * f == k * f + f) by (nonlinear_arith);
            lemma_last_frame(n, f, k);
        }
        if votes[index] {
            if open {
                pauses.push(pause_start..offset);
                open = false;
                proof {
                    assert forall|i: int| 0 < i < pauses@.len() implies #[trigger] apart(
                        pauses@,
                        i,
                    ) by {
                        if i < before.len() {
                            assert(apart(before, i));
                        }
                    }
                }
            }
        } else if !open {
            open = true;
            pause_start = offset;
        }
        if audio_len - offset > frame_samples {
            offset = offset + frame_samples;
        } else {
            offset = audio_len;
        }
        index = index + 1;
        proof {
            assert forall|t: int| 0 <= t < offset implies #[trigger] accounted(
                votes@,
                f,
                pauses@,
                open,
                pause_start as int,
                t,
            ) by {
                if t < offset0 {
                    let was = in_pause(before, t);
                    assert(accounted(votes@, f, before, opened, start0, t));
                    if pauses@.len() > before.len() {
                        assert(pauses@[before.len() as int] == (Range {
                            start: start0 as usize,
                            end: offset0 as usize,
                        }));
                        if was {
                            let i = choose|i: int|
                                0 <= i < before.len() && (#[trigger] before[i]).start <= t
                                    < before[i].end;
                            assert(pauses@[i] == before[i]);
                        }
                        if in_pause(pauses@, t) {
                            let i = choose|i: int|
                                0 <= i < pauses@.len() && (#[trigger] pauses@[i]).start <= t
                                    < pauses@[i].end;
                            if i < before.len() {
                                assert(before[i] == pauses@[i]);
                            }
                        }
                    } else {
                        assert(pauses@ == before);
                    }
                } else {
                    lemma_frame_of(f, k, t);
                    if in_pause(pauses@, t) {
                        let i = choose|i: int|
                            0 <= i < pauses@.len() && (#[trigger] pauses@[i]).start <= t
                                < pauses@[i].end;
                        lemma_ends_grow(pauses@, i, pauses@.len() - 1);
                    }
                }
            }
        }
    }
    if !open {
        proof {
            assert forall|t: int| 0 <= t < n implies (#[trigger] in_pause(pauses@, t)
                <==> !vote_at(votes@, f, t)) by {
                assert(accounted(votes@, f, pauses@, false, pause_start as int, t));
            }
        }
    } else {
        let ghost before = pauses@;
        pauses.push(pause_start..audio_len);
        proof {
            assert forall|i: int| 0 < i < pauses@.len() implies #[trigger] apart(pauses@, i) by {
                if i < before.len() {
                    assert(apart(before, i));
                }
            }
            assert forall|t: int| 0 <= t < n implies (#[trigger] in_pause(pauses@, t)
                <==> !vote_at(votes@, f, t)) by {
                assert(accounted(votes@, f, before, true, pause_start as int, t));
                assert(pauses@[before.len() as int] == (Range {
                    start: pause_start,
                    end: audio_len,
                }));
                if in_pause(before, t) {
                    let i = choose|i: int|
                        0 <= i < before.len() && (#[trigger] before[i]).start <= t < before[i].end;
                    assert(pauses@[i] == before[i]);
                }
                if in_pause(pauses@, t) {
                    let i = choose|i: int|
                        0 <= i < pauses@.len() && (#[trigger] pauses@[i]).start <= t
                            < pauses@[i].end;
                    if i < before.len() {
                        assert(before[i] == pauses@[i]);
                    }
                }
            }
        }
    }
    pauses
}

/// Frame `k` starts inside the audio, and reaches the end just when it is the last.
proof fn lemma_last_frame(n: int, f: int, k: int)
    requires
        0 < f,
        0 <= k < frame_count(n, f),
    ensures
        k * f < n,
        k + 1 < frame_count(n, f) ==> (k + 1) * f < n,
        k + 1 == frame_count(n, f) ==> n <= (k + 1) * f,
{
    let c = (n + f - 1) / f;
    assert(k * f < n) by (nonlinear_arith)
        requires
            0 < f,
            0 <= k < c,
            c == (n + f - 1) / f,
    ;
    if k + 1 < c {
        assert((k + 1) * f < n) by (nonlinear_arith)
            requires
                0 < f,
                0 <= k,
                k + 1 < c,
                c == (n + f - 1) / f,
        ;
    } else {
        assert(n <= (k + 1) * f) by (nonlinear_arith)
            requires
                0 < f,
                k + 1 == c,
                c == (n + f - 1) / f,
        ;
    }
}

/// Later pauses end later.
proof fn lemma_ends_grow(pauses: Seq<Range<usize>>, i: int, j: int)
    requires
        forall|i: int| 0 <= i < pauses.len() ==> (#[trigger] pauses[i]).start < pauses[i].end,
        forall|i: int| 0 < i < pauses.len() ==> #[trigger] apart(pauses, i),
        0 <= i <= j < pauses.len(),
    ensures
        pauses[i].end <= pauses[j].end,
    decreases j - i,
{
    if i < j {
        lemma_ends_grow(pauses, i, j - 1);
        assert(apart(pauses, j));
        assert(pauses[j].start < pauses[j].end);
    }
}

/// `is_voice` can be called on each frame of `audio` once it was reset and has
/// answered for all frames before.
pub open spec fn can_hear_in_order<
    S,
    E,
    Z: FnOnce(),
    F: FnMut(&[S]) -> Result<bool, E>,
>(
    audio: Seq<S>,
    frame_samples: int,
    silence: S,
    reset: Z,
    is_voice: F,
) -> bool {
    forall|slice: &[S], votes: Seq<bool>|
        #[trigger] votes_of(is_voice, audio, frame_samples, silence, votes) && votes.len()
            < frame_count(audio.len() as int, frame_samples) && slice@ == frame_at(
            audio,
            frame_samples,
            silence,
            votes.len() as int,
        ) && call_ensures(reset, (), ()) ==> #[trigger] call_requires(is_voice, (slice,))
}

/// Resets a voice detector, asks it for every frame of a recording, and returns
/// the stretches without voice. The last frame is filled up with `silence`. The
/// audio itself is only read. The detector is neither reset nor asked where there
/// is no audio or a frame has no samples, and not asked again once it has failed.
pub fn detect_pause_intervals<
    S: Copy,
    E,
    Z: FnOnce(),
    F: FnMut(&[S]) -> Result<bool, E>,
>(
    audio: &[S],
    frame_samples: usize,
    silence: S,
    reset: Z,
    is_voice: F,
) -> (result: Result<Vec<Range<usize>>, PauseError<E>>)
    requires
        audio.len() > 0 && frame_samples > 0 ==> call_requires(reset, ()),
        audio.len() > 0 && frame_samples > 0 ==> can_hear_in_order(
            audio@,
            frame_samples as int,
            silence,
            reset,
            is_voice,
        ),
    ensures
        audio.len() > 0 && frame_samples > 0 ==> call_ensures(reset, (), ()),
        audio.len() == 0 ==> (result matches Ok(pauses) && pauses@.len() == 0),
        (result matches Err(PauseError::EmptyFrame)) <==> audio.len() > 0 && frame_samples == 0,
        audio.len() > 0 ==> (result matches Ok(pauses) ==> exists|votes: Seq<bool>|
            {
                &&& votes.len() == frame_count(audio.len() as int, frame_samples as int)
                &&& #[trigger] votes_of(is_voice, audio@, frame_samples as int, silence, votes)
                &&& is_pause_list(votes, frame_samples as int, audio.len() as int, pauses@)
            }),
        result matches Err(PauseError::Detector(error)) ==> exists|votes: Seq<bool>|
            {
                &&& votes.len() < frame_count(audio.len() as int, frame_samples as int)
                &&& #[trigger] votes_of(is_voice, audio@, frame_samples as int, silence, votes)
                &&& hears(
                    is_voice,
                    frame_at(audio@, frame_samples as int, silence, votes.len() as int),
                    Err(error),
                )
            },
{
    if audio.len() == 0 {
        return Ok(Vec::new());
    }
    if frame_samples == 0 {
        return Err(PauseError::EmptyFrame);
    }
    reset();
    let mut ask: F = is_voice;
    let ghost f = frame_samples as int;
    let ghost n = audio.len() as int;
    let audio_len: usize = audio.len();
    let mut votes: Vec<bool> = Vec::new();
    let mut offset: usize = 0;
    proof {
        assert(0 * f == 0) by (nonlinear_arith);
        assert((n + f - 1) / f >= 1) by (nonlinear_arith)
            requires
                n > 0,
                f > 0,
        ;
    }
    while offset < audio_len
        invariant
            audio_len == audio.len(),
            n == audio_len,
            f == frame_samples,
            f > 0,
            ask == is_voice,
            call_ensures(reset, (), ()),
            can_hear_in_order(audio@, f, silence, reset, is_voice),
            offset <= n,
            votes.len() <= frame_count(n, f),
            votes.len() < frame_count(n, f) ==> offset == votes.len() * f && offset < n,
            votes.len() == frame_count(n, f) ==> offset == n,
            votes_of(is_voice, audio@, f, silence, votes@),
        decreases audio_len - offset,
    {
        let ghost k = votes.len() as int;
        proof {
            assert((k + 1) * f == k * f + f) by (nonlinear_arith);
            lemma_last_frame(n, f, k);
        }
        let ghost frame = frame_at(audio@, f, silence, k);
        let result: Result<bool, E> = if audio_len - offset >= frame_samples {
            let slice: &[S] = &audio[offset..offset + frame_samples];
            assert(slice@ =~= frame);
            let r = ask(slice);
            assert(hears(is_voice, frame, r));
            r
        } else {
            let mut padded: Vec<S> = Vec::new();
            while padded.len() < frame_samples
                invariant
                    audio_len == audio.len(),
                    padded.len() <= frame_samples,
                    offset < audio_len,
                    audio_len - offset < frame_samples,
                    forall|t: int|
                        0 <= t < padded.len() ==> #[trigger] padded@[t] == (if offset + t
                            < audio_len {
                            audio@[offset + t]
                        } else {
                            silence
                        }),
                decreases frame_samples - padded.len(),
            {
                let at: usize = padded.len();
                if at < audio_len - offset {
                    padded.push(audio[offset + at]);
                } else {
                    padded.push(silence);
                }
            }
            assert(padded@ =~= frame);
            let slice: &[S] = padded.as_slice();
            let r = ask(slice);
            assert(hears(is_voice, frame, r));
            r
        };
        match result {
            Ok(voice) => {
                votes.push(voice);
            },
            Err(error) => {
                return Err(PauseError::Detector(error));
            },
        }
        if audio_len - offset > frame_samples {
            offset = offset + frame_samples;
        } else {
            offset = audio_len;
        }
    }
    Ok(coalesce_pauses(votes.as_slice(), frame_samples, audio_len))
}

/// A later pause starts behind the end of an earlier one.
proof fn lemma_pauses_apart(
    votes: Seq<bool>,
    frame_samples: int,
    audio_len: int,
    pauses: Seq<Range<usize>>,
    i: int,
    j: int,
)
    requires
        is_pause_list(votes, frame_samples, audio_len, pauses),
        0 <= i < j < pauses.len(),
    ensures
        pauses[i].end < pauses[j].start,
    decreases j - i,
{
    assert(apart(pauses, j));
    if i < j - 1 {
        lemma_pauses_apart(votes, frame_samples, audio_len, pauses, i, j - 1);
        assert(pauses[j - 1].start < pauses[j - 1].end);
    }
}

/// Where two pause lists agree on the first `i` pauses, and `a` goes on, so does
/// `b`, and it does so no later.
proof fn lemma_goes_on_too(
    votes: Seq<bool>,
    frame_samples: int,
    audio_len: int,
    a: Seq<Range<usize>>,
    b: Seq<Range<usize>>,
    i: int,
)
    requires
        is_pause_list(votes, frame_samples, audio_len, a),
        is_pause_list(votes, frame_samples, audio_len, b),
        0 <= i < a.len(),
        i <= b.len(),
        a.take(i) == b.take(i),
    ensures
        i < b.len(),
        b[i].start <= a[i].start,
{
    let t = a[i].start as int;
    assert(a[i].start < a[i].end <= audio_len);
    assert(in_pause(a, t));
    assert(in_pause(b, t));
    let j = choose|j: int| 0 <= j < b.len() && (#[trigger] b[j]).start <= t < b[j].end;
    if j < i {
        assert(a[j] == a.take(i)[j] && b[j] == b.take(i)[j]);
        lemma_pauses_apart(votes, frame_samples, audio_len, a, j, i);
    } else if i < j {
        lemma_pauses_apart(votes, frame_samples, audio_len, b, i, j);
        assert(b[i].start < b[i].end);
    }
}

/// Where pause `i` of two pause lists starts on the same sample, it ends no later
/// in `b`.
proof fn lemma_ends_no_later(
    votes: Seq<bool>,
    frame_samples: int,
    audio_len: int,
    a: Seq<Range<usize>>,
    b: Seq<Range<usize>>,
    i: int,
)
    requires
        is_pause_list(votes, frame_samples, audio_len, a),
        is_pause_list(votes, frame_samples, audio_len, b),
        0 <= i < a.len(),
        i < b.len(),
        a[i].start == b[i].start,
    ensures
        b[i].end <= a[i].end,
{
    let t = a[i].end as int;
    assert(a[i].start < a[i].end);
    assert(b[i].start < b[i].end <= audio_len);
    if t < b[i].end {
        assert(in_pause(b, t));
        assert(in_pause(a, t));
        let k = choose|k: int| 0 <= k < a.len() && (#[trigger] a[k]).start <= t < a[k].end;
        if k < i {
            lemma_pauses_apart(votes, frame_samples, audio_len, a, k, i);
        } else if i < k {
            lemma_pauses_apart(votes, frame_samples, audio_len, a, i, k);
        }
    }
}

proof fn lemma_same_pauses(
    votes: Seq<bool>,
    frame_samples: int,
    audio_len: int,
    a: Seq<Range<usize>>,
    b: Seq<Range<usize>>,
    i: int,
)
    requires
        is_pause_list(votes, frame_samples, audio_len, a),
        is_pause_list(votes, frame_samples, audio_len, b),
        0 <= i <= a.len(),
        i <= b.len(),
        a.take(i) == b.take(i),
    ensures
        a == b,
    decreases a.len() - i,
{
    if i < a.len() {
        lemma_goes_on_too(votes, frame_samples, audio_len, a, b, i);
        lemma_goes_on_too(votes, frame_samples, audio_len, b, a, i);
        lemma_ends_no_later(votes, frame_samples, audio_len, a, b, i);
        lemma_ends_no_later(votes, frame_samples, audio_len, b, a, i);
        assert(a.take(i + 1) =~= a.take(i).push(a[i]));
        assert(b.take(i + 1) =~= b.take(i).push(b[i]));
        assert(a[i] == b[i]);
        lemma_same_pauses(votes, frame_samples, audio_len, a, b, i + 1);
    } else {
        if i < b.len() {
            lemma_goes_on_too(votes, frame_samples, audio_len, b, a, i);
        }
        assert(a.take(i) =~= a);
        assert(b.take(i) =~= b);
    }
}

/// Law: the votes on the frames decide the pauses. There is only one way to join
/// frames without voice.
pub proof fn law_votes_decide_the_pauses(
    votes: Seq<bool>,
    frame_samples: int,
    audio_len: int,
    a: Seq<Range<usize>>,
    b: Seq<Range<usize>>,
)
    requires
        is_pause_list(votes, frame_samples, audio_len, a),
        is_pause_list(votes, frame_samples, audio_len, b),
    ensures
        a == b,
{
    assert(a.take(0) =~= b.take(0));
    lemma_same_pauses(votes, frame_samples, audio_len, a, b, 0);
}

/// Law: every sample is in a frame that the detector was asked about, in its place,
/// with silence behind the end of the audio, and a sample is in a pause just where
/// the detector has heard no voice in its frame. The pauses lie within the audio,
/// in order and apart.
pub proof fn law_what_pauses_come_from<S, E, F: FnMut(&[S]) -> Result<bool, E>>(
    is_voice: F,
    audio: Seq<S>,
    frame_samples: int,
    silence: S,
    votes: Seq<bool>,
    pauses: Seq<Range<usize>>,
    t: int,
)
    requires
        0 < frame_samples,
        votes.len() == frame_count(audio.len() as int, frame_samples),
        votes_of(is_voice, audio, frame_samples, silence, votes),
        is_pause_list(votes, frame_samples, audio.len() as int, pauses),
        0 <= t < audio.len(),
    ensures
        ({
            let k = t / frame_samples;
            let start = k * frame_samples;
            &&& start <= t < start + frame_samples
            &&& 0 <= k < votes.len()
            &&& exists|slice: &[S]|
                {
                    &&& #[trigger] call_ensures(is_voice, (slice,), Ok::<bool, E>(votes[k]))
                    &&& slice@.len() == frame_samples
                    &&& forall|u: int|
                        0 <= u < frame_samples ==> #[trigger] slice@[u] == (if start + u
                            < audio.len() {
                            audio[start + u]
                        } else {
                            silence
                        })
                }
            &&& votes[k] ==> forall|i: int|
                0 <= i < pauses.len() ==> !((#[trigger] pauses[i]).start <= t < pauses[i].end)
            &&& !votes[k] ==> exists|i: int|
                0 <= i < pauses.len() && (#[trigger] pauses[i]).start <= t < pauses[i].end
        }),
        forall|i: int|
            0 <= i < pauses.len() ==> (#[trigger] pauses[i]).start < pauses[i].end <= audio.len(),
        forall|i: int, j: int|
            0 <= i < j < pauses.len() ==> (#[trigger] pauses[i]).end < (
            #[trigger] pauses[j]).start,
{
    let n = audio.len() as int;
    let f = frame_samples;
    let k = t / f;
    assert(k * f <= t < k * f + f && 0 <= k && k < (n + f - 1) / f) by (nonlinear_arith)
        requires
            0 < f,
            0 <= t < n,
            k == t / f,
    ;
    assert(hears(is_voice, frame_at(audio, f, silence, k), Ok(votes[k])));
    let slice = choose|slice: &[S]|
        slice@ == frame_at(audio, f, silence, k) && #[trigger] call_ensures(
            is_voice,
            (slice,),
            Ok::<bool, E>(votes[k]),
        );
    assert(call_ensures(is_voice, (slice,), Ok::<bool, E>(votes[k])));
    assert(in_pause(pauses, t) <==> !vote_at(votes, f, t));
    assert forall|i: int, j: int| 0 <= i < j < pauses.len() implies (#[trigger] pauses[i]).end < (
    #[trigger] pauses[j]).start by {
        lemma_pauses_apart(votes, f, n, pauses, i, j);
    }
}

/// Law: there are as many frames as it takes to hold all samples, and no more.
pub proof fn law_how_many_frames_there_are(audio_len: int, frame_samples: int)
    requires
        0 <= audio_len,
        0 < frame_samples,
    ensures
        ({
            let count = frame_count(audio_len, frame_samples);
            &&& audio_len <= count * frame_samples
            &&& count > 0 ==> (count - 1) * frame_samples < audio_len
            &&& 0 <= count
        }),
{
    let count = frame_count(audio_len, frame_samples);
    assert(audio_len <= count * frame_samples && 0 <= count && (count - 1) * frame_samples
        < audio_len) by (nonlinear_arith)
        requires
            0 <= audio_len,
            0 < frame_samples,
            count == (audio_len + frame_samples - 1) / frame_samples,
    ;
}

/// Law: what a detector says of a frame is what it returned for those samples of
/// the audio, with silence behind its end.
pub proof fn law_what_a_detector_hears<S, E, F: FnMut(&[S]) -> Result<bool, E>>(
    is_voice: F,
    audio: Seq<S>,
    frame_samples: int,
    silence: S,
    k: int,
    result: Result<bool, E>,
)
    requires
        0 < frame_samples,
        0 <= k,
        hears(is_voice, frame_at(audio, frame_samples, silence, k), result),
    ensures
        exists|slice: &[S]|
            {
                &&& #[trigger] call_ensures(is_voice, (slice,), result)
                &&& slice@.len() == frame_samples
                &&& forall|u: int|
                    0 <= u < frame_samples ==> #[trigger] slice@[u] == (if k * frame_samples + u
                        < audio.len() {
                        audio[k * frame_samples + u]
                    } else {
                        silence
                    })
            },
{
    let frame = frame_at(audio, frame_samples, silence, k);
    let slice = choose|slice: &[S]|
        slice@ == frame && #[trigger] call_ensures(is_voice, (slice,), result);
    assert(call_ensures(is_voice, (slice,), result));
}

} // verus!
