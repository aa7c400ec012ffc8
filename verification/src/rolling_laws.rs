//! What holds of rolling plans as a whole.

use crate::first_span::{is_first_span, law_a_first_span_keeps_the_limits};
use crate::plan_laws::{law_a_first_span_is_deterministic, repeatable};
use crate::policy::ChunkPolicy;
use crate::rolling::{
    analysis, end_of, exhausted, horizon, is_ready_span, is_rolling_plan, is_rolling_plan_with,
    is_tail_plan, known_pauses, rolled, rolling_step, rolling_step_at, shifted, tail_pauses,
    CoordinatorView,
};
use crate::scoring::Scoring;
use crate::span::joined;
use crate::suffix::{is_suffix_plan, law_a_suffix_plan_covers_the_rest};
use crate::suffix_laws::law_suffix_planning_is_deterministic;
use std::ops::Range;
use vstd::prelude::*;

verus! {

/// `analyze` returns the same for the same window.
pub open spec fn repeatable_analysis<S, E, F: FnMut(&[S]) -> Result<Vec<Range<usize>>, E>>(
    analyze: F,
) -> bool {
    forall|window: Seq<S>, a: Option<Seq<Range<usize>>>, b: Option<Seq<Range<usize>>>|
        #[trigger] analysis(analyze, window, a) && #[trigger] analysis(analyze, window, b) ==> a
            == b
}

/// `analyze` fails, or finds no pause.
pub open spec fn finds_nothing<S, E, F: FnMut(&[S]) -> Result<Vec<Range<usize>>, E>>(
    analyze: F,
) -> bool {
    forall|window: Seq<S>, found: Option<Seq<Range<usize>>>| #[trigger]
        analysis(analyze, window, found) ==> (found matches Some(pauses) ==> pauses.len() == 0)
}

/// Law: whether and where spans are committed does not change when more audio
/// comes in.
pub proof fn law_more_audio_keeps_committed_spans<
    S,
    E,
    M: Scoring<S>,
    F: FnMut(&[S]) -> Result<Vec<Range<usize>>, E>,
>(
    scoring: &M,
    analyze: F,
    policy: ChunkPolicy,
    audio: Seq<S>,
    more: Seq<S>,
    spans: Seq<Range<usize>>,
    failures: Seq<bool>,
)
    requires
        rolled(scoring, analyze, policy, audio, spans, failures),
    ensures
        rolled(scoring, analyze, policy, audio + more, spans, failures),
{
    let all = audio + more;
    assert forall|i: int| 0 <= i < spans.len() implies #[trigger] rolling_step_at(
        scoring,
        analyze,
        policy,
        all,
        spans,
        failures,
        i,
    ) by {
        assert(rolling_step_at(scoring, analyze, policy, audio, spans, failures, i));
        let start = spans[i].start as int;
        assert(audio.skip(start).take(horizon(policy)) =~= all.skip(start).take(horizon(policy)));
    }
}

/// All of `feeds`, one behind the other.
pub open spec fn concatenated<S>(feeds: Seq<Seq<S>>) -> Seq<S>
    decreases feeds.len(),
{
    if feeds.len() == 0 {
        seq![]
    } else {
        concatenated(feeds.drop_last()) + feeds.last()
    }
}

/// `spans` are committed while `feeds` come in one by one, after each as many as
/// there is enough audio for; the first `k` of them before the last feed.
pub open spec fn last_feed_rolled<
    S,
    E,
    M: Scoring<S>,
    F: FnMut(&[S]) -> Result<Vec<Range<usize>>, E>,
>(
    scoring: &M,
    analyze: F,
    policy: ChunkPolicy,
    audio: Seq<S>,
    spans: Seq<Range<usize>>,
    failures: Seq<bool>,
    k: int,
) -> bool {
    &&& 0 <= k <= spans.len()
    &&& failures.len() == spans.len() + 1
    &&& k < spans.len() ==> spans[k].start == end_of(spans.take(k))
    &&& forall|i: int| k < i < spans.len() ==> #[trigger] joined(spans, i)
    &&& forall|i: int|
        k <= i < spans.len() ==> #[trigger] rolling_step_at(
            scoring,
            analyze,
            policy,
            audio,
            spans,
            failures,
            i,
        )
    &&& exhausted(policy, audio, spans)
}

/// `spans` are committed while `feeds` come in one by one, after each as many as
/// there is enough audio for.
pub open spec fn fed_in_parts<
    S,
    E,
    M: Scoring<S>,
    F: FnMut(&[S]) -> Result<Vec<Range<usize>>, E>,
>(
    scoring: &M,
    analyze: F,
    policy: ChunkPolicy,
    feeds: Seq<Seq<S>>,
    spans: Seq<Range<usize>>,
    failures: Seq<bool>,
) -> bool
    decreases feeds.len(),
{
    if feeds.len() == 0 {
        spans.len() == 0 && failures == seq![false]
    } else {
        exists|k: int|
            {
                &&& #[trigger] last_feed_rolled(
                    scoring,
                    analyze,
                    policy,
                    concatenated(feeds),
                    spans,
                    failures,
                    k,
                )
                &&& fed_in_parts(
                    scoring,
                    analyze,
                    policy,
                    feeds.drop_last(),
                    spans.take(k),
                    failures.take(k + 1),
                )
            }
    }
}

/// Law: feeding a recording in parts commits spans that feeding it at once may
/// commit, and in the end leaves too little for another.
pub proof fn law_parts_roll_like_the_whole<
    S,
    E,
    M: Scoring<S>,
    F: FnMut(&[S]) -> Result<Vec<Range<usize>>, E>,
>(
    scoring: &M,
    analyze: F,
    policy: ChunkPolicy,
    feeds: Seq<Seq<S>>,
    spans: Seq<Range<usize>>,
    failures: Seq<bool>,
)
    requires
        horizon(policy) > 0,
        fed_in_parts(scoring, analyze, policy, feeds, spans, failures),
    ensures
        rolled(scoring, analyze, policy, concatenated(feeds), spans, failures),
        exhausted(policy, concatenated(feeds), spans),
    decreases feeds.len(),
{
    if feeds.len() > 0 {
        let audio = concatenated(feeds);
        let k = choose|k: int|
            {
                &&& #[trigger] last_feed_rolled(
                    scoring,
                    analyze,
                    policy,
                    audio,
                    spans,
                    failures,
                    k,
                )
                &&& fed_in_parts(
                    scoring,
                    analyze,
                    policy,
                    feeds.drop_last(),
                    spans.take(k),
                    failures.take(k + 1),
                )
            };
        let spans0 = spans.take(k);
        let failures0 = failures.take(k + 1);
        law_parts_roll_like_the_whole(
            scoring,
            analyze,
            policy,
            feeds.drop_last(),
            spans0,
            failures0,
        );
        law_more_audio_keeps_committed_spans(
            scoring,
            analyze,
            policy,
            concatenated(feeds.drop_last()),
            feeds.last(),
            spans0,
            failures0,
        );
        assert(failures[0] == failures0[0]);
        if k > 0 {
            assert(spans[0] == spans0[0]);
        }
        assert forall|i: int| 0 < i < spans.len() implies #[trigger] joined(spans, i) by {
            if i < k {
                assert(joined(spans0, i));
            } else if i == k {
                assert(spans0.last() == spans[k - 1]);
            }
        }
        assert forall|i: int| 0 <= i < spans.len() implies #[trigger] rolling_step_at(
            scoring,
            analyze,
            policy,
            audio,
            spans,
            failures,
            i,
        ) by {
            if i < k {
                assert(rolling_step_at(
                    scoring,
                    analyze,
                    policy,
                    audio,
                    spans0,
                    failures0,
                    i,
                ));
                assert(failures0[i] == failures[i]);
                assert(failures0[i + 1] == failures[i + 1]);
                assert(spans0[i] == spans[i]);
            }
        }
    }
}

proof fn lemma_same_step<S, E, M: Scoring<S>, F: FnMut(&[S]) -> Result<Vec<Range<usize>>, E>>(
    scoring: &M,
    analyze: F,
    policy: ChunkPolicy,
    rest: Seq<S>,
    failed: bool,
    end_a: int,
    failed_a: bool,
    end_b: int,
    failed_b: bool,
)
    requires
        repeatable(scoring),
        repeatable_analysis(analyze),
        rest.len() <= usize::MAX,
        rest.len() > 0 ==> policy.valid(),
        0 <= end_a <= usize::MAX,
        0 <= end_b <= usize::MAX,
        rolling_step(scoring, analyze, policy, rest, failed, end_a, failed_a),
        rolling_step(scoring, analyze, policy, rest, failed, end_b, failed_b),
    ensures
        end_a == end_b,
        failed_a == failed_b,
{
    let window = rest.take(horizon(policy));
    let pa = choose|pauses: Seq<Range<usize>>|
        {
            &&& #[trigger] known_pauses(analyze, window, failed, pauses, failed_a)
            &&& is_first_span(
                scoring,
                window,
                pauses,
                policy,
                Some(Range { start: 0usize, end: end_a as usize }),
            )
        };
    let pb = choose|pauses: Seq<Range<usize>>|
        {
            &&& #[trigger] known_pauses(analyze, window, failed, pauses, failed_b)
            &&& is_first_span(
                scoring,
                window,
                pauses,
                policy,
                Some(Range { start: 0usize, end: end_b as usize }),
            )
        };
    assert(pa =~= pb);
    law_a_first_span_is_deterministic(
        scoring,
        window,
        pa,
        policy,
        Some(Range { start: 0usize, end: end_a as usize }),
        Some(Range { start: 0usize, end: end_b as usize }),
    );
}

proof fn lemma_same_prefix<S, E, M: Scoring<S>, F: FnMut(&[S]) -> Result<Vec<Range<usize>>, E>>(
    scoring: &M,
    analyze: F,
    policy: ChunkPolicy,
    audio: Seq<S>,
    spans_a: Seq<Range<usize>>,
    failures_a: Seq<bool>,
    spans_b: Seq<Range<usize>>,
    failures_b: Seq<bool>,
    n: int,
)
    requires
        repeatable(scoring),
        repeatable_analysis(analyze),
        audio.len() <= usize::MAX,
        audio.len() > 0 ==> policy.valid(),
        rolled(scoring, analyze, policy, audio, spans_a, failures_a),
        rolled(scoring, analyze, policy, audio, spans_b, failures_b),
        0 <= n <= spans_a.len(),
        n <= spans_b.len(),
    ensures
        forall|i: int| 0 <= i < n ==> #[trigger] spans_a[i] == spans_b[i],
        forall|i: int| 0 <= i <= n ==> #[trigger] failures_a[i] == failures_b[i],
    decreases n,
{
    if n > 0 {
        lemma_same_prefix(
            scoring,
            analyze,
            policy,
            audio,
            spans_a,
            failures_a,
            spans_b,
            failures_b,
            n - 1,
        );
        let i = n - 1;
        assert(rolling_step_at(scoring, analyze, policy, audio, spans_a, failures_a, i));
        assert(rolling_step_at(scoring, analyze, policy, audio, spans_b, failures_b, i));
        if i > 0 {
            assert(joined(spans_a, i));
            assert(joined(spans_b, i));
            assert(spans_a[i - 1] == spans_b[i - 1]);
        }
        assert(spans_a[i].start == spans_b[i].start);
        assert(failures_a[i] == failures_b[i]);
        lemma_same_step(
            scoring,
            analyze,
            policy,
            audio.skip(spans_a[i].start as int),
            failures_a[i],
            spans_a[i].end - spans_a[i].start,
            failures_a[i + 1],
            spans_b[i].end - spans_b[i].start,
            failures_b[i + 1],
        );
        assert(spans_a[i].end == spans_b[i].end);
    }
}

/// No run goes on where another has too little left.
proof fn lemma_exhausted_is_longest<
    S,
    E,
    M: Scoring<S>,
    F: FnMut(&[S]) -> Result<Vec<Range<usize>>, E>,
>(
    scoring: &M,
    analyze: F,
    policy: ChunkPolicy,
    audio: Seq<S>,
    spans_a: Seq<Range<usize>>,
    spans_b: Seq<Range<usize>>,
    failures_b: Seq<bool>,
)
    requires
        audio.len() <= usize::MAX,
        exhausted(policy, audio, spans_a),
        rolled(scoring, analyze, policy, audio, spans_b, failures_b),
        forall|i: int|
            0 <= i < spans_a.len() && i < spans_b.len() ==> #[trigger] spans_a[i] == spans_b[i],
    ensures
        spans_b.len() <= spans_a.len(),
{
    let n = spans_a.len() as int;
    if n < spans_b.len() {
        assert(rolling_step_at(scoring, analyze, policy, audio, spans_b, failures_b, n));
        if n > 0 {
            assert(joined(spans_b, n));
            assert(spans_a[n - 1] == spans_b[n - 1]);
        }
        assert(spans_b[n].start == end_of(spans_a));
    }
}

/// Law: with scoring and analysis that return the same for the same arguments,
/// the committed spans depend on the recording alone.
pub proof fn law_rolling_is_deterministic<
    S,
    E,
    M: Scoring<S>,
    F: FnMut(&[S]) -> Result<Vec<Range<usize>>, E>,
>(
    scoring: &M,
    analyze: F,
    policy: ChunkPolicy,
    audio: Seq<S>,
    spans_a: Seq<Range<usize>>,
    failures_a: Seq<bool>,
    spans_b: Seq<Range<usize>>,
    failures_b: Seq<bool>,
)
    requires
        repeatable(scoring),
        repeatable_analysis(analyze),
        audio.len() <= usize::MAX,
        audio.len() > 0 ==> policy.valid(),
        rolled(scoring, analyze, policy, audio, spans_a, failures_a),
        exhausted(policy, audio, spans_a),
        rolled(scoring, analyze, policy, audio, spans_b, failures_b),
        exhausted(policy, audio, spans_b),
    ensures
        spans_a == spans_b,
        failures_a == failures_b,
{
    let n = if spans_a.len() < spans_b.len() {
        spans_a.len() as int
    } else {
        spans_b.len() as int
    };
    lemma_same_prefix(
        scoring,
        analyze,
        policy,
        audio,
        spans_a,
        failures_a,
        spans_b,
        failures_b,
        n,
    );
    lemma_exhausted_is_longest(
        scoring,
        analyze,
        policy,
        audio,
        spans_a,
        spans_b,
        failures_b,
    );
    lemma_exhausted_is_longest(
        scoring,
        analyze,
        policy,
        audio,
        spans_b,
        spans_a,
        failures_a,
    );
    assert(spans_a =~= spans_b);
    assert(failures_a =~= failures_b);
}

/// Law: how a recording is divided into feeds does not change the committed spans.
pub proof fn law_feed_granularity_does_not_matter<
    S,
    E,
    M: Scoring<S>,
    F: FnMut(&[S]) -> Result<Vec<Range<usize>>, E>,
>(
    scoring: &M,
    analyze: F,
    policy: ChunkPolicy,
    feeds_a: Seq<Seq<S>>,
    spans_a: Seq<Range<usize>>,
    failures_a: Seq<bool>,
    feeds_b: Seq<Seq<S>>,
    spans_b: Seq<Range<usize>>,
    failures_b: Seq<bool>,
)
    requires
        repeatable(scoring),
        repeatable_analysis(analyze),
        policy.valid(),
        concatenated(feeds_a) == concatenated(feeds_b),
        concatenated(feeds_a).len() <= usize::MAX,
        fed_in_parts(scoring, analyze, policy, feeds_a, spans_a, failures_a),
        fed_in_parts(scoring, analyze, policy, feeds_b, spans_b, failures_b),
    ensures
        spans_a == spans_b,
        failures_a == failures_b,
{
    law_parts_roll_like_the_whole(scoring, analyze, policy, feeds_a, spans_a, failures_a);
    law_parts_roll_like_the_whole(scoring, analyze, policy, feeds_b, spans_b, failures_b);
    law_rolling_is_deterministic(
        scoring,
        analyze,
        policy,
        concatenated(feeds_a),
        spans_a,
        failures_a,
        spans_b,
        failures_b,
    );
}

proof fn lemma_same_tail<S, E, M: Scoring<S>, F: FnMut(&[S]) -> Result<Vec<Range<usize>>, E>>(
    scoring: &M,
    analyze: F,
    policy: ChunkPolicy,
    rest: Seq<S>,
    failed: bool,
    a: Seq<Range<usize>>,
    b: Seq<Range<usize>>,
)
    requires
        repeatable(scoring),
        repeatable_analysis(analyze),
        rest.len() <= usize::MAX,
        rest.len() > 0 ==> policy.valid(),
        is_tail_plan(scoring, analyze, policy, rest, failed, a),
        is_tail_plan(scoring, analyze, policy, rest, failed, b),
    ensures
        a == b,
{
    let pa = choose|pauses: Seq<Range<usize>>|
        {
            &&& #[trigger] tail_pauses(analyze, policy, rest, failed, pauses)
            &&& is_suffix_plan(scoring, rest, pauses, policy, a)
        };
    let pb = choose|pauses: Seq<Range<usize>>|
        {
            &&& #[trigger] tail_pauses(analyze, policy, rest, failed, pauses)
            &&& is_suffix_plan(scoring, rest, pauses, policy, b)
        };
    assert(pa =~= pb);
    law_suffix_planning_is_deterministic(scoring, rest, pa, policy, a, b);
}

/// Law: planning a complete recording the rolling way gives the spans that
/// feeding it in parts, and planning what is left at the end, gives.
pub proof fn law_replay_matches_incremental_planning<
    S,
    E,
    M: Scoring<S>,
    F: FnMut(&[S]) -> Result<Vec<Range<usize>>, E>,
>(
    scoring: &M,
    analyze: F,
    policy: ChunkPolicy,
    audio: Seq<S>,
    replayed: Seq<Range<usize>>,
    feeds: Seq<Seq<S>>,
    spans: Seq<Range<usize>>,
    failures: Seq<bool>,
    tail: Seq<Range<usize>>,
)
    requires
        repeatable(scoring),
        repeatable_analysis(analyze),
        policy.valid(),
        audio.len() <= usize::MAX,
        is_rolling_plan(scoring, analyze, policy, audio, replayed),
        concatenated(feeds) == audio,
        fed_in_parts(scoring, analyze, policy, feeds, spans, failures),
        is_tail_plan(
            scoring,
            analyze,
            policy,
            audio.skip(end_of(spans)),
            failures.last(),
            tail,
        ),
    ensures
        replayed == spans + shifted(tail, end_of(spans)),
{
    let (early, failures_r, tail_r) = choose|
        early: Seq<Range<usize>>,
        failures: Seq<bool>,
        tail: Seq<Range<usize>>,
    |
        #[trigger] is_rolling_plan_with(
            scoring,
            analyze,
            policy,
            audio,
            replayed,
            early,
            failures,
            tail,
        );
    law_parts_roll_like_the_whole(scoring, analyze, policy, feeds, spans, failures);
    law_rolling_is_deterministic(
        scoring,
        analyze,
        policy,
        audio,
        early,
        failures_r,
        spans,
        failures,
    );
    lemma_end_is_inside(scoring, analyze, policy, audio, spans, failures);
    lemma_same_tail(
        scoring,
        analyze,
        policy,
        audio.skip(end_of(spans)),
        failures.last(),
        tail_r,
        tail,
    );
}

proof fn lemma_end_is_inside<S, E, M: Scoring<S>, F: FnMut(&[S]) -> Result<Vec<Range<usize>>, E>>(
    scoring: &M,
    analyze: F,
    policy: ChunkPolicy,
    audio: Seq<S>,
    spans: Seq<Range<usize>>,
    failures: Seq<bool>,
)
    requires
        rolled(scoring, analyze, policy, audio, spans, failures),
    ensures
        0 <= end_of(spans) <= audio.len(),
{
    if spans.len() > 0 {
        assert(rolling_step_at(
            scoring,
            analyze,
            policy,
            audio,
            spans,
            failures,
            spans.len() - 1,
        ));
    }
}

/// Law: planning in parts and planning the whole lead to the same plans, whatever
/// scoring and analysis return: what either may come to, the other may come to.
pub proof fn law_parts_may_be_planned_as_the_whole<
    S,
    E,
    M: Scoring<S>,
    F: FnMut(&[S]) -> Result<Vec<Range<usize>>, E>,
>(
    scoring: &M,
    analyze: F,
    policy: ChunkPolicy,
    feeds: Seq<Seq<S>>,
    planned: Seq<Range<usize>>,
)
    requires
        policy.valid(),
        concatenated(feeds).len() <= usize::MAX,
    ensures
        is_rolling_plan(scoring, analyze, policy, concatenated(feeds), planned)
            <==> is_incremental_plan(scoring, analyze, policy, feeds, planned),
{
    let audio = concatenated(feeds);
    if is_rolling_plan(scoring, analyze, policy, audio, planned) {
        let (early, failures, tail) = choose|
            early: Seq<Range<usize>>,
            failures: Seq<bool>,
            tail: Seq<Range<usize>>,
        |
            #[trigger] is_rolling_plan_with(
                scoring,
                analyze,
                policy,
                audio,
                planned,
                early,
                failures,
                tail,
            );
        lemma_whole_rolls_in_parts(scoring, analyze, policy, feeds, early, failures);
        assert(is_incremental_plan_with(
            scoring,
            analyze,
            policy,
            feeds,
            planned,
            early,
            failures,
            tail,
        ));
    }
    if is_incremental_plan(scoring, analyze, policy, feeds, planned) {
        let (early, failures, tail) = choose|
            early: Seq<Range<usize>>,
            failures: Seq<bool>,
            tail: Seq<Range<usize>>,
        |
            #[trigger] is_incremental_plan_with(
                scoring,
                analyze,
                policy,
                feeds,
                planned,
                early,
                failures,
                tail,
            );
        law_parts_roll_like_the_whole(scoring, analyze, policy, feeds, early, failures);
        assert(is_rolling_plan_with(
            scoring,
            analyze,
            policy,
            audio,
            planned,
            early,
            failures,
            tail,
        ));
    }
}

/// `planned` are the spans `spans`, committed while `feeds` come in, and the plan
/// `tail` for what is left behind them.
pub open spec fn is_incremental_plan_with<
    S,
    E,
    M: Scoring<S>,
    F: FnMut(&[S]) -> Result<Vec<Range<usize>>, E>,
>(
    scoring: &M,
    analyze: F,
    policy: ChunkPolicy,
    feeds: Seq<Seq<S>>,
    planned: Seq<Range<usize>>,
    spans: Seq<Range<usize>>,
    failures: Seq<bool>,
    tail: Seq<Range<usize>>,
) -> bool {
    &&& fed_in_parts(scoring, analyze, policy, feeds, spans, failures)
    &&& is_tail_plan(
        scoring,
        analyze,
        policy,
        concatenated(feeds).skip(end_of(spans)),
        failures.last(),
        tail,
    )
    &&& planned == spans + shifted(tail, end_of(spans))
}

/// `planned` are spans committed while `feeds` come in, and a plan for what is
/// left behind them.
pub open spec fn is_incremental_plan<
    S,
    E,
    M: Scoring<S>,
    F: FnMut(&[S]) -> Result<Vec<Range<usize>>, E>,
>(
    scoring: &M,
    analyze: F,
    policy: ChunkPolicy,
    feeds: Seq<Seq<S>>,
    planned: Seq<Range<usize>>,
) -> bool {
    exists|spans: Seq<Range<usize>>, failures: Seq<bool>, tail: Seq<Range<usize>>|
        #[trigger] is_incremental_plan_with(
            scoring,
            analyze,
            policy,
            feeds,
            planned,
            spans,
            failures,
            tail,
        )
}

/// The number of spans that are committed before more audio than `audio_len` has
/// come in.
spec fn committed_within(
    policy: ChunkPolicy,
    audio_len: int,
    spans: Seq<Range<usize>>,
    from: int,
) -> int
    decreases spans.len() - from,
{
    if from < spans.len() && audio_len - end_of(spans.take(from)) >= horizon(policy) {
        committed_within(policy, audio_len, spans, from + 1)
    } else {
        from
    }
}

proof fn lemma_committed_within(
    policy: ChunkPolicy,
    audio_len: int,
    spans: Seq<Range<usize>>,
    from: int,
)
    requires
        0 <= from <= spans.len(),
    ensures
        ({
            let k = committed_within(policy, audio_len, spans, from);
            &&& from <= k <= spans.len()
            &&& forall|i: int|
                from <= i < k ==> audio_len - end_of(#[trigger] spans.take(i)) >= horizon(policy)
            &&& k < spans.len() ==> audio_len - end_of(spans.take(k)) < horizon(policy)
        }),
    decreases spans.len() - from,
{
    if from < spans.len() && audio_len - end_of(spans.take(from)) >= horizon(policy) {
        lemma_committed_within(policy, audio_len, spans, from + 1);
    }
}

/// Spans that may be committed of the whole may be committed as it comes in.
proof fn lemma_whole_rolls_in_parts<
    S,
    E,
    M: Scoring<S>,
    F: FnMut(&[S]) -> Result<Vec<Range<usize>>, E>,
>(
    scoring: &M,
    analyze: F,
    policy: ChunkPolicy,
    feeds: Seq<Seq<S>>,
    spans: Seq<Range<usize>>,
    failures: Seq<bool>,
)
    requires
        policy.valid(),
        concatenated(feeds).len() <= usize::MAX,
        rolled(scoring, analyze, policy, concatenated(feeds), spans, failures),
        exhausted(policy, concatenated(feeds), spans),
    ensures
        fed_in_parts(scoring, analyze, policy, feeds, spans, failures),
    decreases feeds.len(),
{
    let audio = concatenated(feeds);
    if feeds.len() == 0 {
        if spans.len() > 0 {
            assert(rolling_step_at(scoring, analyze, policy, audio, spans, failures, 0));
        }
        assert(failures =~= seq![false]);
    } else {
        let prior = concatenated(feeds.drop_last());
        let n = prior.len() as int;
        let k = committed_within(policy, n, spans, 0);
        lemma_committed_within(policy, n, spans, 0);
        let spans0 = spans.take(k);
        let failures0 = failures.take(k + 1);
        assert forall|i: int| 0 <= i < k implies #[trigger] rolling_step_at(
            scoring,
            analyze,
            policy,
            prior,
            spans0,
            failures0,
            i,
        ) by {
            assert(rolling_step_at(scoring, analyze, policy, audio, spans, failures, i));
            law_early_spans_keep_both_limits(
                scoring,
                analyze,
                policy,
                audio,
                spans,
                failures,
                i,
            );
            if i > 0 {
                assert(joined(spans, i));
                assert(spans.take(i).last() == spans[i - 1]);
            }
            assert(end_of(spans.take(i)) == spans[i].start);
            let start = spans[i].start as int;
            assert(prior.skip(start).take(horizon(policy)) =~= audio.skip(start).take(
                horizon(policy),
            ));
            assert(failures0[i] == failures[i] && failures0[i + 1] == failures[i + 1]);
        }
        assert forall|i: int| 0 < i < spans0.len() implies #[trigger] joined(spans0, i) by {
            assert(joined(spans, i));
        }
        assert(rolled(scoring, analyze, policy, prior, spans0, failures0));
        assert(exhausted(policy, prior, spans0)) by {
            if k == spans.len() {
                assert(spans0 =~= spans);
            }
        }
        lemma_whole_rolls_in_parts(
            scoring,
            analyze,
            policy,
            feeds.drop_last(),
            spans0,
            failures0,
        );
        if k < spans.len() && k > 0 {
            assert(joined(spans, k));
            assert(spans0.last() == spans[k - 1]);
        }
        assert(last_feed_rolled(scoring, analyze, policy, audio, spans, failures, k));
    }
}

/// Law: with scoring and analysis that return the same for the same arguments, a
/// recording has one rolling plan.
pub proof fn law_a_recording_has_one_rolling_plan<
    S,
    E,
    M: Scoring<S>,
    F: FnMut(&[S]) -> Result<Vec<Range<usize>>, E>,
>(
    scoring: &M,
    analyze: F,
    policy: ChunkPolicy,
    audio: Seq<S>,
    a: Seq<Range<usize>>,
    b: Seq<Range<usize>>,
)
    requires
        repeatable(scoring),
        repeatable_analysis(analyze),
        audio.len() <= usize::MAX,
        audio.len() > 0 ==> policy.valid(),
        is_rolling_plan(scoring, analyze, policy, audio, a),
        is_rolling_plan(scoring, analyze, policy, audio, b),
    ensures
        a == b,
{
    lemma_complete_is_longest(scoring, analyze, policy, audio, a, b);
    lemma_complete_is_longest(scoring, analyze, policy, audio, b, a);
    assert forall|i: int| 0 <= i < a.len() implies a[i] == b[i] by {
        lemma_courses_agree(scoring, analyze, policy, audio, a, b, i);
    }
    assert(a =~= b);
}

/// `course` are the first spans of a rolling plan for `audio`: the spans `early`
/// and the first `k` of the plan `tail` for the rest.
pub open spec fn goes_into_the_tail<
    S,
    E,
    M: Scoring<S>,
    F: FnMut(&[S]) -> Result<Vec<Range<usize>>, E>,
>(
    scoring: &M,
    analyze: F,
    policy: ChunkPolicy,
    audio: Seq<S>,
    course: Seq<Range<usize>>,
    early: Seq<Range<usize>>,
    failures: Seq<bool>,
    tail: Seq<Range<usize>>,
    k: int,
) -> bool {
    &&& rolled(scoring, analyze, policy, audio, early, failures)
    &&& exhausted(policy, audio, early)
    &&& is_tail_plan(
        scoring,
        analyze,
        policy,
        audio.skip(end_of(early)),
        failures.last(),
        tail,
    )
    &&& 0 <= k <= tail.len()
    &&& course == early + shifted(tail, end_of(early)).take(k)
}

/// `course` are the first spans of a rolling plan for `audio`.
pub open spec fn is_course<
    S,
    E,
    M: Scoring<S>,
    F: FnMut(&[S]) -> Result<Vec<Range<usize>>, E>,
>(
    scoring: &M,
    analyze: F,
    policy: ChunkPolicy,
    audio: Seq<S>,
    course: Seq<Range<usize>>,
) -> bool {
    ||| exists|failures: Seq<bool>| #[trigger]
        rolled(scoring, analyze, policy, audio, course, failures)
    ||| exists|
        early: Seq<Range<usize>>,
        failures: Seq<bool>,
        tail: Seq<Range<usize>>,
        k: int,
    |
        #[trigger] goes_into_the_tail(
            scoring,
            analyze,
            policy,
            audio,
            course,
            early,
            failures,
            tail,
            k,
        )
}

/// Early spans agree with the early spans of a plan that goes into the tail, and
/// are no more than those.
proof fn lemma_early_courses_agree<
    S,
    E,
    M: Scoring<S>,
    F: FnMut(&[S]) -> Result<Vec<Range<usize>>, E>,
>(
    scoring: &M,
    analyze: F,
    policy: ChunkPolicy,
    audio: Seq<S>,
    a: Seq<Range<usize>>,
    failures_a: Seq<bool>,
    early: Seq<Range<usize>>,
    failures: Seq<bool>,
)
    requires
        repeatable(scoring),
        repeatable_analysis(analyze),
        audio.len() <= usize::MAX,
        audio.len() > 0 ==> policy.valid(),
        rolled(scoring, analyze, policy, audio, a, failures_a),
        rolled(scoring, analyze, policy, audio, early, failures),
        exhausted(policy, audio, early),
    ensures
        a.len() <= early.len(),
        forall|i: int| 0 <= i < a.len() ==> #[trigger] a[i] == early[i],
{
    let n = if a.len() < early.len() {
        a.len() as int
    } else {
        early.len() as int
    };
    lemma_same_prefix(
        scoring,
        analyze,
        policy,
        audio,
        a,
        failures_a,
        early,
        failures,
        n,
    );
    lemma_exhausted_is_longest(scoring, analyze, policy, audio, early, a, failures_a);
}

/// Two courses through one recording are the same as far as both go.
pub proof fn lemma_courses_agree<
    S,
    E,
    M: Scoring<S>,
    F: FnMut(&[S]) -> Result<Vec<Range<usize>>, E>,
>(
    scoring: &M,
    analyze: F,
    policy: ChunkPolicy,
    audio: Seq<S>,
    a: Seq<Range<usize>>,
    b: Seq<Range<usize>>,
    i: int,
)
    requires
        repeatable(scoring),
        repeatable_analysis(analyze),
        audio.len() <= usize::MAX,
        audio.len() > 0 ==> policy.valid(),
        is_course(scoring, analyze, policy, audio, a) || is_rolling_plan(
            scoring,
            analyze,
            policy,
            audio,
            a,
        ),
        is_course(scoring, analyze, policy, audio, b) || is_rolling_plan(
            scoring,
            analyze,
            policy,
            audio,
            b,
        ),
        0 <= i < a.len(),
        i < b.len(),
    ensures
        a[i] == b[i],
{
    lemma_plan_is_a_course(scoring, analyze, policy, audio, a);
    lemma_plan_is_a_course(scoring, analyze, policy, audio, b);
    if exists|failures: Seq<bool>| #[trigger]
        rolled(scoring, analyze, policy, audio, a, failures) {
        let fa = choose|failures: Seq<bool>| #[trigger]
            rolled(scoring, analyze, policy, audio, a, failures);
        if exists|failures: Seq<bool>| #[trigger]
            rolled(scoring, analyze, policy, audio, b, failures) {
            let fb = choose|failures: Seq<bool>| #[trigger]
                rolled(scoring, analyze, policy, audio, b, failures);
            let n = if a.len() < b.len() {
                a.len() as int
            } else {
                b.len() as int
            };
            lemma_same_prefix(scoring, analyze, policy, audio, a, fa, b, fb, n);
        } else {
            let (early, failures, _tail, _k) = lemma_tail_parts(
                scoring,
                analyze,
                policy,
                audio,
                b,
            );
            lemma_early_courses_agree(
                scoring,
                analyze,
                policy,
                audio,
                a,
                fa,
                early,
                failures,
            );
        }
    } else {
        let (early_a, failures_a, tail_a, _ka) = lemma_tail_parts(
            scoring,
            analyze,
            policy,
            audio,
            a,
        );
        if exists|failures: Seq<bool>| #[trigger]
            rolled(scoring, analyze, policy, audio, b, failures) {
            let fb = choose|failures: Seq<bool>| #[trigger]
                rolled(scoring, analyze, policy, audio, b, failures);
            lemma_early_courses_agree(
                scoring,
                analyze,
                policy,
                audio,
                b,
                fb,
                early_a,
                failures_a,
            );
        } else {
            let (early_b, failures_b, tail_b, _kb) = lemma_tail_parts(
                scoring,
                analyze,
                policy,
                audio,
                b,
            );
            law_rolling_is_deterministic(
                scoring,
                analyze,
                policy,
                audio,
                early_a,
                failures_a,
                early_b,
                failures_b,
            );
            lemma_end_is_inside(scoring, analyze, policy, audio, early_a, failures_a);
            lemma_same_tail(
                scoring,
                analyze,
                policy,
                audio.skip(end_of(early_a)),
                failures_a.last(),
                tail_a,
                tail_b,
            );
        }
    }
}

proof fn lemma_tail_parts<
    S,
    E,
    M: Scoring<S>,
    F: FnMut(&[S]) -> Result<Vec<Range<usize>>, E>,
>(
    scoring: &M,
    analyze: F,
    policy: ChunkPolicy,
    audio: Seq<S>,
    course: Seq<Range<usize>>,
) -> (parts: (Seq<Range<usize>>, Seq<bool>, Seq<Range<usize>>, int))
    requires
        is_course(scoring, analyze, policy, audio, course),
        !(exists|failures: Seq<bool>| #[trigger]
            rolled(scoring, analyze, policy, audio, course, failures)),
    ensures
        goes_into_the_tail(
            scoring,
            analyze,
            policy,
            audio,
            course,
            parts.0,
            parts.1,
            parts.2,
            parts.3,
        ),
{
    choose|early: Seq<Range<usize>>, failures: Seq<bool>, tail: Seq<Range<usize>>, k: int|
        #[trigger] goes_into_the_tail(
            scoring,
            analyze,
            policy,
            audio,
            course,
            early,
            failures,
            tail,
            k,
        )
}

/// A complete rolling plan is a course.
proof fn lemma_plan_is_a_course<
    S,
    E,
    M: Scoring<S>,
    F: FnMut(&[S]) -> Result<Vec<Range<usize>>, E>,
>(
    scoring: &M,
    analyze: F,
    policy: ChunkPolicy,
    audio: Seq<S>,
    plan: Seq<Range<usize>>,
)
    ensures
        is_rolling_plan(scoring, analyze, policy, audio, plan) ==> is_course(
            scoring,
            analyze,
            policy,
            audio,
            plan,
        ),
{
    if is_rolling_plan(scoring, analyze, policy, audio, plan) {
        let (early, failures, tail) = choose|
            early: Seq<Range<usize>>,
            failures: Seq<bool>,
            tail: Seq<Range<usize>>,
        |
            #[trigger] is_rolling_plan_with(
                scoring,
                analyze,
                policy,
                audio,
                plan,
                early,
                failures,
                tail,
            );
        let all = shifted(tail, end_of(early));
        assert(all.take(tail.len() as int) =~= all);
        assert(goes_into_the_tail(
            scoring,
            analyze,
            policy,
            audio,
            plan,
            early,
            failures,
            tail,
            tail.len() as int,
        ));
    }
}

/// No course goes on where a complete plan has ended.
pub proof fn lemma_complete_is_longest<
    S,
    E,
    M: Scoring<S>,
    F: FnMut(&[S]) -> Result<Vec<Range<usize>>, E>,
>(
    scoring: &M,
    analyze: F,
    policy: ChunkPolicy,
    audio: Seq<S>,
    complete: Seq<Range<usize>>,
    course: Seq<Range<usize>>,
)
    requires
        repeatable(scoring),
        repeatable_analysis(analyze),
        audio.len() <= usize::MAX,
        audio.len() > 0 ==> policy.valid(),
        is_rolling_plan(scoring, analyze, policy, audio, complete),
        is_course(scoring, analyze, policy, audio, course) || is_rolling_plan(
            scoring,
            analyze,
            policy,
            audio,
            course,
        ),
    ensures
        course.len() <= complete.len(),
{
    let (early, failures, tail) = choose|
        early: Seq<Range<usize>>,
        failures: Seq<bool>,
        tail: Seq<Range<usize>>,
    |
        #[trigger] is_rolling_plan_with(
            scoring,
            analyze,
            policy,
            audio,
            complete,
            early,
            failures,
            tail,
        );
    lemma_plan_is_a_course(scoring, analyze, policy, audio, course);
    if exists|failures: Seq<bool>| #[trigger]
        rolled(scoring, analyze, policy, audio, course, failures) {
        let fc = choose|failures: Seq<bool>| #[trigger]
            rolled(scoring, analyze, policy, audio, course, failures);
        lemma_early_courses_agree(scoring, analyze, policy, audio, course, fc, early, failures);
    } else {
        let (early_c, failures_c, tail_c, _k) = lemma_tail_parts(
            scoring,
            analyze,
            policy,
            audio,
            course,
        );
        law_rolling_is_deterministic(
            scoring,
            analyze,
            policy,
            audio,
            early,
            failures,
            early_c,
            failures_c,
        );
        lemma_end_is_inside(scoring, analyze, policy, audio, early, failures);
        lemma_same_tail(
            scoring,
            analyze,
            policy,
            audio.skip(end_of(early)),
            failures.last(),
            tail,
            tail_c,
        );
    }
}

/// Law: audio beyond the horizon has no influence on the next span. More of it
/// leaves the window as it is, and so each span that may be chosen from it.
pub proof fn law_audio_beyond_the_horizon_does_not_matter<S, M: Scoring<S>>(
    scoring: &M,
    state: CoordinatorView<S>,
    samples: Seq<S>,
    pauses: Seq<Range<usize>>,
    span: Option<Range<usize>>,
)
    requires
        state.uncommitted.len() >= horizon(state.policy),
    ensures
        state.pushed(samples).uncommitted.take(horizon(state.policy)) == state.uncommitted.take(
            horizon(state.policy),
        ),
        is_ready_span(scoring, state.pushed(samples), pauses, span) <==> is_ready_span(
            scoring,
            state,
            pauses,
            span,
        ),
{
    assert(state.pushed(samples).uncommitted.take(horizon(state.policy))
        =~= state.uncommitted.take(horizon(state.policy)));
}

/// Law: with a scoring that returns the same for the same arguments, the next span
/// is the same whatever has come in beyond the horizon.
pub proof fn law_the_next_span_is_the_same_with_more_audio<S, M: Scoring<S>>(
    scoring: &M,
    state: CoordinatorView<S>,
    samples: Seq<S>,
    pauses: Seq<Range<usize>>,
    before: Option<Range<usize>>,
    after: Option<Range<usize>>,
)
    requires
        repeatable(scoring),
        state.policy.valid(),
        state.uncommitted.len() >= horizon(state.policy),
        is_ready_span(scoring, state, pauses, before),
        is_ready_span(scoring, state.pushed(samples), pauses, after),
    ensures
        before == after,
{
    law_audio_beyond_the_horizon_does_not_matter(scoring, state, samples, pauses, after);
    law_a_first_span_is_deterministic(
        scoring,
        state.uncommitted.take(horizon(state.policy)),
        pauses,
        state.policy,
        before,
        after,
    );
}

/// Law: a rolling plan has two spans at most behind those committed early.
pub proof fn law_a_rolling_plan_ends_in_two_spans_at_most<
    S,
    E,
    M: Scoring<S>,
    F: FnMut(&[S]) -> Result<Vec<Range<usize>>, E>,
>(
    scoring: &M,
    analyze: F,
    policy: ChunkPolicy,
    audio: Seq<S>,
    spans: Seq<Range<usize>>,
    early: Seq<Range<usize>>,
    failures: Seq<bool>,
    tail: Seq<Range<usize>>,
)
    requires
        policy.valid(),
        audio.len() <= usize::MAX,
        is_rolling_plan_with(
            scoring,
            analyze,
            policy,
            audio,
            spans,
            early,
            failures,
            tail,
        ),
    ensures
        tail.len() <= 2,
        spans.len() <= early.len() + 2,
{
    lemma_end_is_inside(scoring, analyze, policy, audio, early, failures);
    let rest = audio.skip(end_of(early));
    let pauses = choose|pauses: Seq<Range<usize>>|
        {
            &&& #[trigger] tail_pauses(analyze, policy, rest, failures.last(), pauses)
            &&& is_suffix_plan(scoring, rest, pauses, policy, tail)
        };
    law_a_suffix_plan_covers_the_rest(scoring, rest, pauses, policy, tail);
}

/// Law: spans committed early keep both limits; none is below the soft minimum
/// or above the hard maximum.
pub proof fn law_early_spans_keep_both_limits<
    S,
    E,
    M: Scoring<S>,
    F: FnMut(&[S]) -> Result<Vec<Range<usize>>, E>,
>(
    scoring: &M,
    analyze: F,
    policy: ChunkPolicy,
    audio: Seq<S>,
    spans: Seq<Range<usize>>,
    failures: Seq<bool>,
    i: int,
)
    requires
        policy.valid(),
        audio.len() <= usize::MAX,
        rolled(scoring, analyze, policy, audio, spans, failures),
        0 <= i < spans.len(),
    ensures
        policy.soft_min_samples <= spans[i].end - spans[i].start <= policy.hard_max_samples,
{
    assert(rolling_step_at(scoring, analyze, policy, audio, spans, failures, i));
    let rest = audio.skip(spans[i].start as int);
    let window = rest.take(horizon(policy));
    let end = (spans[i].end - spans[i].start) as usize;
    let pauses = choose|pauses: Seq<Range<usize>>|
        {
            &&& #[trigger] known_pauses(analyze, window, failures[i], pauses, failures[i + 1])
            &&& is_first_span(
                scoring,
                window,
                pauses,
                policy,
                Some(Range { start: 0usize, end }),
            )
        };
    law_a_first_span_keeps_the_limits(
        scoring,
        window,
        pauses,
        policy,
        Some(Range { start: 0usize, end }),
    );
}

/// Law: a failed analysis is not asked again. Once it has failed it stays
/// failed, and every span from there on is chosen without pauses.
pub proof fn law_a_failed_analysis_stays_failed<
    S,
    E,
    M: Scoring<S>,
    F: FnMut(&[S]) -> Result<Vec<Range<usize>>, E>,
>(
    scoring: &M,
    analyze: F,
    policy: ChunkPolicy,
    audio: Seq<S>,
    spans: Seq<Range<usize>>,
    failures: Seq<bool>,
    i: int,
    j: int,
)
    requires
        rolled(scoring, analyze, policy, audio, spans, failures),
        0 <= i <= j < failures.len(),
        failures[i],
    ensures
        failures[j],
        j < spans.len() ==> is_first_span(
            scoring,
            audio.skip(spans[j].start as int).take(horizon(policy)),
            Seq::empty(),
            policy,
            Some(Range { start: 0usize, end: (spans[j].end - spans[j].start) as usize }),
        ),
    decreases j - i,
{
    if i < j {
        law_a_failed_analysis_stays_failed(
            scoring,
            analyze,
            policy,
            audio,
            spans,
            failures,
            i,
            j - 1,
        );
        assert(rolling_step_at(scoring, analyze, policy, audio, spans, failures, j - 1));
        assert(failures[j - 1 + 1]);
    }
    if j < spans.len() {
        assert(rolling_step_at(scoring, analyze, policy, audio, spans, failures, j));
        let window = audio.skip(spans[j].start as int).take(horizon(policy));
        let pauses = choose|pauses: Seq<Range<usize>>|
            {
                &&& #[trigger] known_pauses(analyze, window, failures[j], pauses, failures[j + 1])
                &&& is_first_span(
                    scoring,
                    window,
                    pauses,
                    policy,
                    Some(Range { start: 0usize, end: (spans[j].end - spans[j].start) as usize }),
                )
            };
        assert(pauses =~= Seq::empty());
    }
}

/// Without pauses to go by, a step is chosen by energy alone.
proof fn lemma_step_by_energy<S, E, M: Scoring<S>, F: FnMut(&[S]) -> Result<Vec<Range<usize>>, E>>(
    scoring: &M,
    analyze: F,
    policy: ChunkPolicy,
    rest: Seq<S>,
    failed: bool,
    end: int,
    failed_after: bool,
)
    requires
        finds_nothing(analyze),
        rolling_step(scoring, analyze, policy, rest, failed, end, failed_after),
    ensures
        is_first_span(
            scoring,
            rest.take(horizon(policy)),
            Seq::empty(),
            policy,
            Some(Range { start: 0usize, end: end as usize }),
        ),
{
    let window = rest.take(horizon(policy));
    let pauses = choose|pauses: Seq<Range<usize>>|
        {
            &&& #[trigger] known_pauses(analyze, window, failed, pauses, failed_after)
            &&& is_first_span(
                scoring,
                window,
                pauses,
                policy,
                Some(Range { start: 0usize, end: end as usize }),
            )
        };
    assert(pauses =~= Seq::empty());
}

proof fn lemma_same_prefix_by_energy<
    S,
    E,
    G,
    M: Scoring<S>,
    F: FnMut(&[S]) -> Result<Vec<Range<usize>>, E>,
    H: FnMut(&[S]) -> Result<Vec<Range<usize>>, G>,
>(
    scoring: &M,
    analyze_a: F,
    analyze_b: H,
    policy: ChunkPolicy,
    audio: Seq<S>,
    spans_a: Seq<Range<usize>>,
    failures_a: Seq<bool>,
    spans_b: Seq<Range<usize>>,
    failures_b: Seq<bool>,
    n: int,
)
    requires
        repeatable(scoring),
        finds_nothing(analyze_a),
        finds_nothing(analyze_b),
        audio.len() <= usize::MAX,
        audio.len() > 0 ==> policy.valid(),
        rolled(scoring, analyze_a, policy, audio, spans_a, failures_a),
        rolled(scoring, analyze_b, policy, audio, spans_b, failures_b),
        0 <= n <= spans_a.len(),
        n <= spans_b.len(),
    ensures
        forall|i: int| 0 <= i < n ==> #[trigger] spans_a[i] == spans_b[i],
    decreases n,
{
    if n > 0 {
        lemma_same_prefix_by_energy(
            scoring,
            analyze_a,
            analyze_b,
            policy,
            audio,
            spans_a,
            failures_a,
            spans_b,
            failures_b,
            n - 1,
        );
        let i = n - 1;
        assert(rolling_step_at(scoring, analyze_a, policy, audio, spans_a, failures_a, i));
        assert(rolling_step_at(scoring, analyze_b, policy, audio, spans_b, failures_b, i));
        if i > 0 {
            assert(joined(spans_a, i));
            assert(joined(spans_b, i));
            assert(spans_a[i - 1] == spans_b[i - 1]);
        }
        assert(spans_a[i].start == spans_b[i].start);
        let rest = audio.skip(spans_a[i].start as int);
        let end_a = spans_a[i].end - spans_a[i].start;
        let end_b = spans_b[i].end - spans_b[i].start;
        lemma_step_by_energy(
            scoring,
            analyze_a,
            policy,
            rest,
            failures_a[i],
            end_a,
            failures_a[i + 1],
        );
        lemma_step_by_energy(
            scoring,
            analyze_b,
            policy,
            rest,
            failures_b[i],
            end_b,
            failures_b[i + 1],
        );
        law_a_first_span_is_deterministic(
            scoring,
            rest.take(horizon(policy)),
            Seq::empty(),
            policy,
            Some(Range { start: 0usize, end: end_a as usize }),
            Some(Range { start: 0usize, end: end_b as usize }),
        );
        assert(spans_a[i].end == spans_b[i].end);
    }
}

/// Without pauses to go by, the rest is planned by energy alone.
proof fn lemma_tail_by_energy<S, E, M: Scoring<S>, F: FnMut(&[S]) -> Result<Vec<Range<usize>>, E>>(
    scoring: &M,
    analyze: F,
    policy: ChunkPolicy,
    rest: Seq<S>,
    failed: bool,
    tail: Seq<Range<usize>>,
)
    requires
        finds_nothing(analyze),
        is_tail_plan(scoring, analyze, policy, rest, failed, tail),
    ensures
        is_suffix_plan(scoring, rest, Seq::empty(), policy, tail),
{
    let pauses = choose|pauses: Seq<Range<usize>>|
        {
            &&& #[trigger] tail_pauses(analyze, policy, rest, failed, pauses)
            &&& is_suffix_plan(scoring, rest, pauses, policy, tail)
        };
    assert(pauses =~= Seq::empty());
}

/// Law: an analysis that fails leads to the plan that an analysis without any
/// pauses leads to.
pub proof fn law_a_failed_analysis_plans_by_energy<
    S,
    E,
    G,
    M: Scoring<S>,
    F: FnMut(&[S]) -> Result<Vec<Range<usize>>, E>,
    H: FnMut(&[S]) -> Result<Vec<Range<usize>>, G>,
>(
    scoring: &M,
    analyze_a: F,
    analyze_b: H,
    policy: ChunkPolicy,
    audio: Seq<S>,
    a: Seq<Range<usize>>,
    b: Seq<Range<usize>>,
)
    requires
        repeatable(scoring),
        finds_nothing(analyze_a),
        finds_nothing(analyze_b),
        audio.len() <= usize::MAX,
        audio.len() > 0 ==> policy.valid(),
        is_rolling_plan(scoring, analyze_a, policy, audio, a),
        is_rolling_plan(scoring, analyze_b, policy, audio, b),
    ensures
        a == b,
{
    let (early_a, failures_a, tail_a) = choose|
        early: Seq<Range<usize>>,
        failures: Seq<bool>,
        tail: Seq<Range<usize>>,
    |
        #[trigger] is_rolling_plan_with(
            scoring,
            analyze_a,
            policy,
            audio,
            a,
            early,
            failures,
            tail,
        );
    let (early_b, failures_b, tail_b) = choose|
        early: Seq<Range<usize>>,
        failures: Seq<bool>,
        tail: Seq<Range<usize>>,
    |
        #[trigger] is_rolling_plan_with(
            scoring,
            analyze_b,
            policy,
            audio,
            b,
            early,
            failures,
            tail,
        );
    let n = if early_a.len() < early_b.len() {
        early_a.len() as int
    } else {
        early_b.len() as int
    };
    lemma_same_prefix_by_energy(
        scoring,
        analyze_a,
        analyze_b,
        policy,
        audio,
        early_a,
        failures_a,
        early_b,
        failures_b,
        n,
    );
    lemma_exhausted_is_longest(
        scoring,
        analyze_b,
        policy,
        audio,
        early_a,
        early_b,
        failures_b,
    );
    lemma_exhausted_is_longest(
        scoring,
        analyze_a,
        policy,
        audio,
        early_b,
        early_a,
        failures_a,
    );
    assert(early_a =~= early_b);
    lemma_end_is_inside(scoring, analyze_a, policy, audio, early_a, failures_a);
    let rest = audio.skip(end_of(early_a));
    lemma_tail_by_energy(scoring, analyze_a, policy, rest, failures_a.last(), tail_a);
    lemma_tail_by_energy(scoring, analyze_b, policy, rest, failures_b.last(), tail_b);
    law_suffix_planning_is_deterministic(scoring, rest, Seq::empty(), policy, tail_a, tail_b);
}

} // verus!
