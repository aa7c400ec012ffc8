//! Committing spans while a recording is still running.

use crate::first_span::{is_first_span, plan_first_span};
use crate::policy::ChunkPolicy;
use crate::scoring::Scoring;
use crate::span::{chained, full_coverage, joined};
use crate::suffix::{is_suffix_plan, plan_suffix_spans};
use std::ops::Range;
use vstd::prelude::*;

verus! {

/// How many samples must be at hand before a span is committed early: a span of
/// the hard maximum, and enough behind it for another.
pub open spec fn horizon(policy: ChunkPolicy) -> int {
    let sum = policy.hard_max_samples + policy.soft_min_samples;
    if sum > usize::MAX {
        usize::MAX as int
    } else {
        sum
    }
}

/// What a coordinator holds.
#[verifier::ext_equal]
pub struct CoordinatorView<S> {
    /// The samples that no committed span holds, in order.
    pub uncommitted: Seq<S>,
    /// The number of samples in committed spans.
    pub absolute_start: int,
    /// The most samples that were uncommitted at one time.
    pub high_water: int,
    pub policy: ChunkPolicy,
}

impl<S> CoordinatorView<S> {
    /// Every sample has a position that fits, and the high-water mark is one.
    pub open spec fn wf(self) -> bool {
        &&& 0 <= self.absolute_start
        &&& self.absolute_start + self.uncommitted.len() <= usize::MAX
        &&& self.uncommitted.len() <= self.high_water <= usize::MAX
        &&& self.policy.soft_min_samples <= self.policy.hard_max_samples
    }

    /// With `samples` behind what is uncommitted.
    pub open spec fn pushed(self, samples: Seq<S>) -> Self {
        let uncommitted = self.uncommitted + samples;
        CoordinatorView {
            uncommitted,
            high_water: if uncommitted.len() > self.high_water {
                uncommitted.len() as int
            } else {
                self.high_water
            },
            ..self
        }
    }

    /// With the first `end` uncommitted samples committed.
    pub open spec fn committed(self, end: int) -> Self {
        CoordinatorView {
            uncommitted: self.uncommitted.skip(end),
            absolute_start: self.absolute_start + end,
            ..self
        }
    }

    /// What is uncommitted is what of `fed` is not in committed spans.
    pub open spec fn holds_rest_of(self, fed: Seq<S>) -> bool {
        &&& 0 <= self.absolute_start <= fed.len()
        &&& self.uncommitted == fed.skip(self.absolute_start)
    }
}

/// Holds the samples of a running recording that no committed span holds yet,
/// and decides on the spans. It drops no sample.
pub struct RollingChunkCoordinator<S> {
    uncommitted: Vec<S>,
    absolute_start: usize,
    high_water_samples: usize,
    policy: ChunkPolicy,
}

impl<S> View for RollingChunkCoordinator<S> {
    type V = CoordinatorView<S>;

    closed spec fn view(&self) -> CoordinatorView<S> {
        CoordinatorView {
            uncommitted: self.uncommitted@,
            absolute_start: self.absolute_start as int,
            high_water: self.high_water_samples as int,
            policy: self.policy,
        }
    }
}

impl<S: Copy> RollingChunkCoordinator<S> {
    /// A coordinator that no sample was fed to.
    pub fn new(policy: ChunkPolicy) -> (coordinator: Self)
        requires
            policy.soft_min_samples <= policy.hard_max_samples,
        ensures
            coordinator@ == (CoordinatorView {
                uncommitted: Seq::<S>::empty(),
                absolute_start: 0,
                high_water: 0,
                policy,
            }),
            coordinator@.wf(),
    {
        RollingChunkCoordinator {
            uncommitted: Vec::new(),
            absolute_start: 0,
            high_water_samples: 0,
            policy,
        }
    }

    /// Takes more samples of the recording.
    pub fn push(&mut self, samples: &[S])
        requires
            old(self)@.wf(),
            old(self)@.absolute_start + old(self)@.uncommitted.len() + samples.len() <= usize::MAX,
        ensures
            final(self)@ == old(self)@.pushed(samples@),
            final(self)@.wf(),
    {
        let ghost before = self@;
        let mut index: usize = 0;
        while index < samples.len()
            invariant
                index <= samples.len(),
                before.wf(),
                before.absolute_start + before.uncommitted.len() + samples.len() <= usize::MAX,
                self@ == (CoordinatorView {
                    uncommitted: before.uncommitted + samples@.take(index as int),
                    ..before
                }),
            decreases samples.len() - index,
        {
            self.uncommitted.push(samples[index]);
            index = index + 1;
            assert(self@.uncommitted =~= before.uncommitted + samples@.take(index as int));
        }
        assert(samples@.take(samples.len() as int) =~= samples@);
        if self.uncommitted.len() > self.high_water_samples {
            self.high_water_samples = self.uncommitted.len();
        }
    }

    /// The samples that the next span is chosen from, once there are enough.
    pub fn planning_window(&self) -> (window: Option<&[S]>)
        ensures
            match window {
                Some(w) => {
                    &&& self@.uncommitted.len() >= horizon(self@.policy)
                    &&& w@ == self@.uncommitted.take(horizon(self@.policy))
                },
                None => self@.uncommitted.len() < horizon(self@.policy),
            },
    {
        let horizon_samples: usize = self.rolling_horizon_samples();
        if self.uncommitted.len() >= horizon_samples {
            Some(&self.uncommitted.as_slice()[0..horizon_samples])
        } else {
            None
        }
    }

    /// Chooses a span from the planning window without taking the window's end
    /// for the end of the recording. What lies behind the span stays for later.
    pub fn next_ready_span<M: Scoring<S>>(
        &self,
        pauses: &[Range<usize>],
        scoring: &M,
    ) -> (span: Option<Range<usize>>)
        requires
            self@.wf(),
            self@.uncommitted.len() >= horizon(self@.policy) > 0 ==> self@.policy.valid(),
        ensures
            is_ready_span(scoring, self@, pauses@, span),
            self@.uncommitted.len() >= horizon(self@.policy) > 0 ==> {
                &&& span is Some
                &&& span->0.start == 0
                &&& 0 < span->0.end <= self@.uncommitted.len()
                &&& self@.policy.soft_min_samples <= span->0.end <= self@.policy.hard_max_samples
            },
    {
        match self.planning_window() {
            Some(window) => plan_first_span(window, pauses, self.policy, scoring),
            None => None,
        }
    }

    /// Commits `span`, a prefix of what is uncommitted, and returns its position
    /// in the recording.
    pub fn commit(&mut self, span: Range<usize>) -> (absolute: Range<usize>)
        requires
            old(self)@.wf(),
            span.start == 0,
            0 < span.end <= old(self)@.uncommitted.len(),
        ensures
            final(self)@ == old(self)@.committed(span.end as int),
            final(self)@.wf(),
            absolute.start == old(self)@.absolute_start,
            absolute.end == old(self)@.absolute_start + span.end,
    {
        let absolute: Range<usize> = self.absolute_start..self.absolute_start + span.end;
        let rest: Vec<S> = self.uncommitted.split_off(span.end);
        self.uncommitted = rest;
        self.absolute_start = absolute.end;
        assert(self@.uncommitted =~= old(self)@.uncommitted.skip(span.end as int));
        absolute
    }

    /// Plans all that is uncommitted as the end of the recording, below the
    /// horizon in two spans at most. The spans count from the first uncommitted
    /// sample.
    pub fn final_spans<M: Scoring<S>>(
        &self,
        pauses: &[Range<usize>],
        scoring: &M,
    ) -> (spans: Vec<Range<usize>>)
        requires
            self@.uncommitted.len() > 0 ==> self@.policy.valid(),
        ensures
            is_suffix_plan(scoring, self@.uncommitted, pauses@, self@.policy, spans@),
            full_coverage(
                spans@,
                self@.uncommitted.len(),
                self@.policy.hard_max_samples as nat,
            ),
            self@.uncommitted.len() < horizon(self@.policy) ==> spans@.len() <= 2,
    {
        plan_suffix_spans(self.uncommitted.as_slice(), pauses, self.policy, scoring)
    }

    /// The position in the recording of a range of uncommitted samples.
    pub fn absolute_range(&self, local: &Range<usize>) -> (absolute: Range<usize>)
        requires
            self@.absolute_start + local.start <= usize::MAX,
            self@.absolute_start + local.end <= usize::MAX,
        ensures
            absolute.start == self@.absolute_start + local.start,
            absolute.end == self@.absolute_start + local.end,
    {
        self.absolute_start + local.start..self.absolute_start + local.end
    }

    /// The samples that no committed span holds.
    pub fn uncommitted_audio(&self) -> (audio: &[S])
        ensures
            audio@ == self@.uncommitted,
    {
        self.uncommitted.as_slice()
    }

    /// The number of samples that no committed span holds.
    pub fn uncommitted_samples(&self) -> (count: usize)
        ensures
            count == self@.uncommitted.len(),
    {
        self.uncommitted.len()
    }

    /// The most samples that were uncommitted at one time.
    pub fn high_water_samples(&self) -> (count: usize)
        ensures
            count == self@.high_water,
    {
        self.high_water_samples
    }

    /// The limits that spans are chosen by.
    pub fn policy(&self) -> (policy: ChunkPolicy)
        ensures
            policy == self@.policy,
    {
        self.policy
    }

    /// How many samples must be at hand before a span is committed early.
    pub fn rolling_horizon_samples(&self) -> (count: usize)
        ensures
            count == horizon(self@.policy),
    {
        self.policy.hard_max_samples.saturating_add(self.policy.soft_min_samples)
    }
}

/// `span` is the next span to commit: none below the horizon, else one that is
/// chosen from the window up to it.
pub open spec fn is_ready_span<S, M: Scoring<S>>(
    scoring: &M,
    state: CoordinatorView<S>,
    pauses: Seq<Range<usize>>,
    span: Option<Range<usize>>,
) -> bool {
    if state.uncommitted.len() < horizon(state.policy) {
        span is None
    } else {
        is_first_span(
            scoring,
            state.uncommitted.take(horizon(state.policy)),
            pauses,
            state.policy,
            span,
        )
    }
}

/// Law: feeding and committing drop no sample and repeat none. What is
/// uncommitted stays the rest of what was fed, and a committed span holds the
/// samples at its position in the recording.
pub proof fn law_the_coordinator_preserves_samples<S>(
    state: CoordinatorView<S>,
    fed: Seq<S>,
    samples: Seq<S>,
    end: int,
)
    requires
        state.holds_rest_of(fed),
        0 <= end <= state.uncommitted.len(),
    ensures
        state.pushed(samples).holds_rest_of(fed + samples),
        state.committed(end).holds_rest_of(fed),
        state.uncommitted.take(end) == fed.subrange(
            state.absolute_start,
            state.absolute_start + end,
        ),
{
    assert(state.pushed(samples).uncommitted =~= (fed + samples).skip(state.absolute_start));
    assert(state.committed(end).uncommitted =~= fed.skip(state.absolute_start + end));
    assert(state.uncommitted.take(end) =~= fed.subrange(
        state.absolute_start,
        state.absolute_start + end,
    ));
}

/// `analyze` may return `found` for `window`: the pauses in it, or `None` where
/// it fails.
pub open spec fn analysis<S, E, F: FnMut(&[S]) -> Result<Vec<Range<usize>>, E>>(
    analyze: F,
    window: Seq<S>,
    found: Option<Seq<Range<usize>>>,
) -> bool {
    exists|slice: &[S], result: Result<Vec<Range<usize>>, E>|
        {
            &&& slice@ == window
            &&& #[trigger] call_ensures(analyze, (slice,), result)
            &&& found == match result {
                Ok(pauses) => Some(pauses@),
                Err(_) => None,
            }
        }
}

/// `pauses` is what is known of the pauses in `window`: what `analyze` found, or
/// nothing once it has failed. `failed` and `failed_after` say whether it had
/// failed before, and whether it has now.
pub open spec fn known_pauses<S, E, F: FnMut(&[S]) -> Result<Vec<Range<usize>>, E>>(
    analyze: F,
    window: Seq<S>,
    failed: bool,
    pauses: Seq<Range<usize>>,
    failed_after: bool,
) -> bool {
    if failed {
        pauses.len() == 0 && failed_after
    } else {
        exists|found: Option<Seq<Range<usize>>>|
            {
                &&& #[trigger] analysis(analyze, window, found)
                &&& failed_after == (found is None)
                &&& pauses == found.unwrap_or(Seq::empty())
            }
    }
}

/// A span of `end` samples may be committed next, where `rest` is uncommitted.
pub open spec fn rolling_step<
    S,
    E,
    M: Scoring<S>,
    F: FnMut(&[S]) -> Result<Vec<Range<usize>>, E>,
>(
    scoring: &M,
    analyze: F,
    policy: ChunkPolicy,
    rest: Seq<S>,
    failed: bool,
    end: int,
    failed_after: bool,
) -> bool {
    &&& rest.len() >= horizon(policy)
    &&& exists|pauses: Seq<Range<usize>>|
        {
            &&& #[trigger] known_pauses(
                analyze,
                rest.take(horizon(policy)),
                failed,
                pauses,
                failed_after,
            )
            &&& is_first_span(
                scoring,
                rest.take(horizon(policy)),
                pauses,
                policy,
                Some(Range { start: 0usize, end: end as usize }),
            )
        }
}

/// Where a chain of spans ends.
pub open spec fn end_of(spans: Seq<Range<usize>>) -> int {
    if spans.len() == 0 {
        0
    } else {
        spans.last().end as int
    }
}

/// Span `i` is one that may be committed when the ones before it are.
pub open spec fn rolling_step_at<
    S,
    E,
    M: Scoring<S>,
    F: FnMut(&[S]) -> Result<Vec<Range<usize>>, E>,
>(
    scoring: &M,
    analyze: F,
    policy: ChunkPolicy,
    audio: Seq<S>,
    spans: Seq<Range<usize>>,
    failures: Seq<bool>,
    i: int,
) -> bool {
    &&& spans[i].start < spans[i].end <= audio.len()
    &&& rolling_step(
        scoring,
        analyze,
        policy,
        audio.skip(spans[i].start as int),
        failures[i],
        spans[i].end - spans[i].start,
        failures[i + 1],
    )
}

/// `spans` are committed one after the other from the start of `audio`, and
/// `failures` says after each whether the analysis has failed by then.
pub open spec fn rolled<S, E, M: Scoring<S>, F: FnMut(&[S]) -> Result<Vec<Range<usize>>, E>>(
    scoring: &M,
    analyze: F,
    policy: ChunkPolicy,
    audio: Seq<S>,
    spans: Seq<Range<usize>>,
    failures: Seq<bool>,
) -> bool {
    &&& failures.len() == spans.len() + 1
    &&& !failures[0]
    &&& spans.len() > 0 ==> spans[0].start == 0
    &&& chained(spans)
    &&& forall|i: int|
        0 <= i < spans.len() ==> #[trigger] rolling_step_at(
            scoring,
            analyze,
            policy,
            audio,
            spans,
            failures,
            i,
        )
}

/// What is left behind `spans` is too little for another early commit.
pub open spec fn exhausted<S>(
    policy: ChunkPolicy,
    audio: Seq<S>,
    spans: Seq<Range<usize>>,
) -> bool {
    audio.len() - end_of(spans) < horizon(policy)
}

/// `spans` moved on by `by` samples.
pub open spec fn shifted(spans: Seq<Range<usize>>, by: int) -> Seq<Range<usize>> {
    Seq::new(
        spans.len(),
        |i: int|
            Range { start: (by + spans[i].start) as usize, end: (by + spans[i].end) as usize },
    )
}

/// `pauses` is what the end of a recording is planned with: what `analyze` finds
/// in it, or nothing where one span is enough or the analysis fails or has
/// failed before.
pub open spec fn tail_pauses<S, E, F: FnMut(&[S]) -> Result<Vec<Range<usize>>, E>>(
    analyze: F,
    policy: ChunkPolicy,
    rest: Seq<S>,
    failed: bool,
    pauses: Seq<Range<usize>>,
) -> bool {
    if failed || rest.len() <= policy.hard_max_samples {
        pauses.len() == 0
    } else {
        exists|found: Option<Seq<Range<usize>>>| #[trigger]
            analysis(analyze, rest, found) && pauses == found.unwrap_or(Seq::empty())
    }
}

/// `tail` is a plan for `rest` as the end of a recording.
pub open spec fn is_tail_plan<
    S,
    E,
    M: Scoring<S>,
    F: FnMut(&[S]) -> Result<Vec<Range<usize>>, E>,
>(
    scoring: &M,
    analyze: F,
    policy: ChunkPolicy,
    rest: Seq<S>,
    failed: bool,
    tail: Seq<Range<usize>>,
) -> bool {
    exists|pauses: Seq<Range<usize>>|
        {
            &&& #[trigger] tail_pauses(analyze, policy, rest, failed, pauses)
            &&& is_suffix_plan(scoring, rest, pauses, policy, tail)
        }
}

/// `spans` are a rolling plan for `audio`: spans committed early as far as there
/// is enough audio behind them, the first `early` of them, then a plan for the rest.
pub open spec fn is_rolling_plan_with<
    S,
    E,
    M: Scoring<S>,
    F: FnMut(&[S]) -> Result<Vec<Range<usize>>, E>,
>(
    scoring: &M,
    analyze: F,
    policy: ChunkPolicy,
    audio: Seq<S>,
    spans: Seq<Range<usize>>,
    early: Seq<Range<usize>>,
    failures: Seq<bool>,
    tail: Seq<Range<usize>>,
) -> bool {
    &&& rolled(scoring, analyze, policy, audio, early, failures)
    &&& exhausted(policy, audio, early)
    &&& is_tail_plan(
        scoring,
        analyze,
        policy,
        audio.skip(end_of(early)),
        failures.last(),
        tail,
    )
    &&& spans == early + shifted(tail, end_of(early))
}

/// `spans` are a rolling plan for `audio`: spans committed early as far as there
/// is enough audio behind them, then a plan for the rest.
pub open spec fn is_rolling_plan<
    S,
    E,
    M: Scoring<S>,
    F: FnMut(&[S]) -> Result<Vec<Range<usize>>, E>,
>(
    scoring: &M,
    analyze: F,
    policy: ChunkPolicy,
    audio: Seq<S>,
    spans: Seq<Range<usize>>,
) -> bool {
    exists|early: Seq<Range<usize>>, failures: Seq<bool>, tail: Seq<Range<usize>>|
        #[trigger] is_rolling_plan_with(
            scoring,
            analyze,
            policy,
            audio,
            spans,
            early,
            failures,
            tail,
        )
}

/// Early spans and a plan for the rest have full coverage together.
proof fn lemma_rolling_coverage(
    early: Seq<Range<usize>>,
    tail: Seq<Range<usize>>,
    audio_len: nat,
    hard_max: nat,
)
    requires
        audio_len <= usize::MAX,
        0 <= end_of(early) <= audio_len,
        early.len() > 0 ==> early[0].start == 0,
        chained(early),
        forall|i: int|
            0 <= i < early.len() ==> (#[trigger] early[i]).start < early[i].end && early[i].end
                - early[i].start <= hard_max,
        full_coverage(tail, (audio_len - end_of(early)) as nat, hard_max),
    ensures
        full_coverage(early + shifted(tail, end_of(early)), audio_len, hard_max),
{
    let by = end_of(early);
    let moved = shifted(tail, by);
    let spans = early + moved;
    if audio_len > 0 {
        assert forall|i: int| 0 <= i < tail.len() implies (#[trigger] tail[i]).end <= audio_len
            - by by {
            lemma_ends_inside(tail, (audio_len - by) as nat, hard_max, i);
        }
        assert forall|i: int| 0 <= i < spans.len() implies (#[trigger] spans[i]).start
            < spans[i].end && spans[i].end - spans[i].start <= hard_max by {
            if i < early.len() {
                assert(spans[i] == early[i]);
            } else {
                let t = tail[i - early.len()];
                assert(t.start < t.end);
            }
        }
        assert forall|i: int| 0 < i < spans.len() implies #[trigger] joined(spans, i) by {
            if i < early.len() {
                assert(joined(early, i));
            } else if i > early.len() {
                assert(joined(tail, i - early.len()));
                assert(tail[i - early.len() - 1].end <= audio_len - by);
                assert(tail[i - early.len()].start < tail[i - early.len()].end);
            } else {
                assert(tail[0].start == 0);
                assert(spans[i - 1] == early.last());
            }
        }
        if tail.len() == 0 {
            assert(spans =~= early);
            assert(early.len() > 0);
        } else {
            assert(spans.last() == moved.last());
            assert(tail[0].start == 0);
        }
    }
}

/// A span of a full coverage ends inside it.
pub proof fn lemma_ends_inside(
    spans: Seq<Range<usize>>,
    audio_len: nat,
    hard_max: nat,
    i: int,
)
    requires
        full_coverage(spans, audio_len, hard_max),
        0 <= i < spans.len(),
    ensures
        spans[i].end <= audio_len,
    decreases spans.len() - i,
{
    if i < spans.len() - 1 {
        lemma_ends_inside(spans, audio_len, hard_max, i + 1);
        assert(joined(spans, i + 1));
        assert(spans[i + 1].start < spans[i + 1].end);
    }
}

/// `window` is what pauses are looked for in where `rest` is uncommitted: the
/// planning window where there is enough for one, else the rest where it takes
/// more than one span.
pub open spec fn asks_about<S>(policy: ChunkPolicy, rest: Seq<S>, window: Seq<S>) -> bool {
    if rest.len() >= horizon(policy) {
        window == rest.take(horizon(policy))
    } else {
        rest.len() > policy.hard_max_samples && window == rest
    }
}

/// `analyze` can be called on what pauses are looked for in behind any spans
/// committed early, as long as it has not failed.
pub open spec fn can_analyze_while_rolling<
    S,
    E,
    M: Scoring<S>,
    F: FnMut(&[S]) -> Result<Vec<Range<usize>>, E>,
>(
    scoring: &M,
    analyze: F,
    policy: ChunkPolicy,
    audio: Seq<S>,
) -> bool {
    forall|slice: &[S], spans: Seq<Range<usize>>, failures: Seq<bool>|
        #[trigger] rolled(scoring, analyze, policy, audio, spans, failures) && !failures.last()
            && asks_about(policy, audio.skip(end_of(spans)), slice@) ==> #[trigger] call_requires(
            analyze,
            (slice,),
        )
}

/// Plans a complete recording the way a running one is planned: spans are
/// committed from a window that moves on, and the rest is planned as the end.
/// Once the analysis has failed, it is not asked again, and a rest that one span
/// may hold is not analysed.
pub fn plan_rolling_replay_spans<
    S: Copy,
    E,
    M: Scoring<S>,
    F: FnMut(&[S]) -> Result<Vec<Range<usize>>, E>,
>(
    audio: &[S],
    policy: ChunkPolicy,
    analyze_pauses: F,
    scoring: &M,
) -> (spans: Vec<Range<usize>>)
    requires
        policy.soft_min_samples <= policy.hard_max_samples,
        policy.hard_max_samples > 0,
        audio.len() > 0 ==> policy.valid(),
        can_analyze_while_rolling(scoring, analyze_pauses, policy, audio@),
    ensures
        is_rolling_plan(scoring, analyze_pauses, policy, audio@, spans@),
        full_coverage(spans@, audio.len() as nat, policy.hard_max_samples as nat),
{
    let mut analyze: F = analyze_pauses;
    let mut coordinator: RollingChunkCoordinator<S> = RollingChunkCoordinator::new(policy);
    let mut spans: Vec<Range<usize>> = Vec::new();
    let mut analysis_failed: bool = false;
    coordinator.push(audio);
    let ghost mut failures: Seq<bool> = seq![false];
    assert(coordinator@.uncommitted =~= audio@.skip(0));

    while coordinator.uncommitted_samples() >= coordinator.rolling_horizon_samples()
        invariant
            policy.hard_max_samples > 0,
            audio.len() > 0 ==> policy.valid(),
            analyze == analyze_pauses,
            can_analyze_while_rolling(scoring, analyze, policy, audio@),
            coordinator@.wf(),
            coordinator@.policy == policy,
            coordinator@.holds_rest_of(audio@),
            coordinator@.absolute_start == end_of(spans@),
            rolled(scoring, analyze, policy, audio@, spans@, failures),
            failures.last() == analysis_failed,
            forall|i: int|
                0 <= i < spans.len() ==> (#[trigger] spans@[i]).start < spans@[i].end
                    && spans@[i].end - spans@[i].start <= policy.hard_max_samples,
        decreases coordinator@.uncommitted.len(),
    {
        let ghost rest = coordinator@.uncommitted;
        let ghost window_samples = rest.take(horizon(policy));
        let ghost failed_before = analysis_failed;
        let ghost spans0 = spans@;
        let ghost failures0 = failures;
        assert(rest.len() > 0);
        let mut pauses: Vec<Range<usize>> = Vec::new();
        if !analysis_failed {
            if let Some(window) = coordinator.planning_window() {
                let result = analyze(window);
                match result {
                    Ok(found) => {
                        pauses = found;
                        assert(analysis(analyze, window_samples, Some(pauses@)));
                    },
                    Err(_) => {
                        analysis_failed = true;
                        assert(analysis(analyze, window_samples, None));
                    },
                }
            }
        }
        assert(known_pauses(
            analyze,
            window_samples,
            failed_before,
            pauses@,
            analysis_failed,
        ));
        if let Some(local_span) = coordinator.next_ready_span(pauses.as_slice(), scoring) {
            let ghost end = local_span.end as int;
            proof {
                law_the_coordinator_preserves_samples(coordinator@, audio@, Seq::empty(), end);
                assert(rolling_step(
                    scoring,
                    analyze,
                    policy,
                    rest,
                    failed_before,
                    end,
                    analysis_failed,
                ));
            }
            let committed: Range<usize> = coordinator.commit(local_span);
            spans.push(committed);
            proof {
                failures = failures.push(analysis_failed);
                lemma_rolled_one_more(
                    scoring,
                    analyze,
                    policy,
                    audio@,
                    spans0,
                    failures0,
                    end,
                    analysis_failed,
                );
                assert(spans@ =~= spans0.push(
                    Range { start: end_of(spans0) as usize, end: (end_of(spans0) + end) as usize },
                ));
            }
        }
    }

    let ghost early = spans@;
    let ghost rest = coordinator@.uncommitted;
    let mut final_pauses: Vec<Range<usize>> = Vec::new();
    if coordinator.uncommitted_samples() > policy.hard_max_samples && !analysis_failed {
        match analyze(coordinator.uncommitted_audio()) {
            Ok(found) => {
                final_pauses = found;
                assert(analysis(analyze, rest, Some(final_pauses@)));
            },
            Err(_) => {
                assert(analysis(analyze, rest, None));
            },
        }
    }
    assert(tail_pauses(analyze, policy, rest, analysis_failed, final_pauses@));
    let tail: Vec<Range<usize>> = coordinator.final_spans(final_pauses.as_slice(), scoring);
    let mut index: usize = 0;
    while index < tail.len()
        invariant
            index <= tail.len(),
            coordinator@.wf(),
            coordinator@.absolute_start == end_of(early),
            full_coverage(
                tail@,
                coordinator@.uncommitted.len(),
                policy.hard_max_samples as nat,
            ),
            spans@ == early + shifted(tail@, end_of(early)).take(index as int),
        decreases tail.len() - index,
    {
        proof {
            lemma_ends_inside(
                tail@,
                coordinator@.uncommitted.len(),
                policy.hard_max_samples as nat,
                index as int,
            );
            assert(tail@[index as int].start < tail@[index as int].end);
        }
        spans.push(coordinator.absolute_range(&tail[index]));
        index = index + 1;
        proof {
            assert(spans@ =~= early + shifted(tail@, end_of(early)).take(index as int));
        }
    }
    proof {
        assert(shifted(tail@, end_of(early)).take(tail.len() as int) =~= shifted(
            tail@,
            end_of(early),
        ));
        lemma_rolling_coverage(
            early,
            tail@,
            audio@.len(),
            policy.hard_max_samples as nat,
        );
        assert(is_rolling_plan_with(
            scoring,
            analyze,
            policy,
            audio@,
            spans@,
            early,
            failures,
            tail@,
        ));
    }
    spans
}

pub proof fn lemma_rolled_one_more<
    S,
    E,
    M: Scoring<S>,
    F: FnMut(&[S]) -> Result<Vec<Range<usize>>, E>,
>(
    scoring: &M,
    analyze: F,
    policy: ChunkPolicy,
    audio: Seq<S>,
    spans: Seq<Range<usize>>,
    failures: Seq<bool>,
    end: int,
    failed_after: bool,
)
    requires
        audio.len() <= usize::MAX,
        rolled(scoring, analyze, policy, audio, spans, failures),
        0 <= end_of(spans),
        0 < end <= audio.len() - end_of(spans),
        rolling_step(
            scoring,
            analyze,
            policy,
            audio.skip(end_of(spans)),
            failures.last(),
            end,
            failed_after,
        ),
    ensures
        rolled(
            scoring,
            analyze,
            policy,
            audio,
            spans.push(
                Range { start: end_of(spans) as usize, end: (end_of(spans) + end) as usize },
            ),
            failures.push(failed_after),
        ),
{
    let next = Range { start: end_of(spans) as usize, end: (end_of(spans) + end) as usize };
    let spans2 = spans.push(next);
    let failures2 = failures.push(failed_after);
    assert forall|i: int| 0 < i < spans2.len() implies #[trigger] joined(spans2, i) by {
        if i < spans.len() {
            assert(joined(spans, i));
        }
    }
    assert forall|i: int| 0 <= i < spans2.len() implies #[trigger] rolling_step_at(
        scoring,
        analyze,
        policy,
        audio,
        spans2,
        failures2,
        i,
    ) by {
        if i < spans.len() {
            assert(rolling_step_at(scoring, analyze, policy, audio, spans, failures, i));
            assert(failures2[i] == failures[i]);
            assert(failures2[i + 1] == failures[i + 1]);
        } else {
            assert(failures2[i] == failures.last());
        }
    }
}

} // verus!
