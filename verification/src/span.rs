//! Contiguous, non-overlapping coverage of a recording by spans.

use std::ops::Range;
use vstd::prelude::*;

verus! {

/// `spans` cover `audio_len` samples from first to last, each sample once, with
/// no empty span and none above `hard_max` samples.
pub open spec fn full_coverage(spans: Seq<Range<usize>>, audio_len: nat, hard_max: nat) -> bool {
    if audio_len == 0 {
        spans.len() == 0
    } else {
        &&& spans.len() > 0
        &&& spans[0].start == 0
        &&& spans.last().end == audio_len
        &&& forall|i: int|
            0 <= i < spans.len() ==> (#[trigger] spans[i]).start < spans[i].end && spans[i].end
                - spans[i].start <= hard_max
        &&& chained(spans)
    }
}

/// Each span starts where the one before it ends.
pub open spec fn chained(spans: Seq<Range<usize>>) -> bool {
    forall|i: int| 0 < i < spans.len() ==> #[trigger] joined(spans, i)
}

/// Span `i` starts where the one before it ends.
pub open spec fn joined(spans: Seq<Range<usize>>, i: int) -> bool {
    spans[i - 1].end == spans[i].start
}

/// The span number `i` of a cut after every `hard_max` samples.
pub open spec fn fixed_span(audio_len: int, hard_max: int, i: int) -> Range<usize> {
    let end = (i + 1) * hard_max;
    Range {
        start: (i * hard_max) as usize,
        end: (if end < audio_len { end } else { audio_len }) as usize,
    }
}

/// The cut of `audio_len` samples after every `hard_max` samples.
pub open spec fn fixed_spans(audio_len: int, hard_max: int) -> Seq<Range<usize>> {
    Seq::new(
        ((audio_len + hard_max - 1) / hard_max) as nat,
        |i: int| fixed_span(audio_len, hard_max, i),
    )
}

/// Cuts `audio_len` samples after every `hard_max_samples`, wherever that falls.
pub fn fixed_maximum_spans(audio_len: usize, hard_max_samples: usize) -> (spans: Vec<Range<usize>>)
    requires
        hard_max_samples > 0,
    ensures
        spans@ == fixed_spans(audio_len as int, hard_max_samples as int),
        full_coverage(spans@, audio_len as nat, hard_max_samples as nat),
{
    let mut spans: Vec<Range<usize>> = Vec::new();
    let mut start: usize = 0;
    let ghost n: int = audio_len as int;
    let ghost h: int = hard_max_samples as int;
    proof {
        assert(0 * h == 0) by (nonlinear_arith);
    }
    while start < audio_len
        invariant
            h == hard_max_samples,
            n == audio_len,
            h > 0,
            0 <= start <= n,
            start < n ==> start == spans.len() * h,
            start == n && n > 0 ==> (spans.len() - 1) * h < n <= spans.len() * h,
            n == 0 ==> spans.len() == 0,
            spans@ == Seq::new(spans@.len(), |i: int| fixed_span(n, h, i)),
            forall|i: int|
                0 <= i < spans.len() ==> (#[trigger] spans@[i]).start < spans@[i].end
                    && spans@[i].end - spans@[i].start <= h,
            spans.len() == 0 ==> start == 0,
            spans.len() > 0 ==> spans@[0].start == 0 && spans@.last().end == start,
            chained(spans@),
        decreases audio_len - start,
    {
        let end: usize = if audio_len - start > hard_max_samples {
            start + hard_max_samples
        } else {
            audio_len
        };
        proof {
            let k = spans.len() as int;
            assert((k + 1) * h == k * h + h) by (nonlinear_arith);
            assert(fixed_span(n, h, k) == (Range { start, end }));
        }
        let ghost before = spans@;
        spans.push(start..end);
        start = end;
        proof {
            assert(spans@ =~= Seq::new(spans@.len(), |i: int| fixed_span(n, h, i)));
            assert(spans@[before.len() as int].start == before.len() * h);
            assert forall|i: int| 0 < i < spans@.len() implies #[trigger] joined(spans@, i) by {
                if i < before.len() {
                    assert(joined(before, i));
                }
            }
        }
    }
    proof {
        let k = spans.len() as int;
        if n > 0 {
            assert((n + h - 1) / h == k) by (nonlinear_arith)
                requires
                    h > 0,
                    (k - 1) * h < n <= k * h,
            ;
        } else {
            assert((n + h - 1) / h == 0) by (nonlinear_arith)
                requires
                    h > 0,
                    n == 0,
            ;
        }
        assert(spans@ =~= fixed_spans(n, h));
    }
    spans
}

/// A cut after every `h` samples has full coverage.
pub proof fn lemma_fixed_spans_cover(n: int, h: int)
    requires
        0 < h,
        0 <= n <= usize::MAX,
    ensures
        full_coverage(fixed_spans(n, h), n as nat, h as nat),
{
    let spans = fixed_spans(n, h);
    let k = (n + h - 1) / h;
    assert(n == 0 ==> k == 0) by (nonlinear_arith)
        requires
            0 < h,
            k == (n + h - 1) / h,
    ;
    if n > 0 {
        assert(k >= 1 && (k - 1) * h < n <= k * h) by (nonlinear_arith)
            requires
                0 < h,
                0 < n,
                k == (n + h - 1) / h,
        ;
        assert forall|i: int| 0 <= i < k implies 0 <= #[trigger] (i * h) < n && (i + 1) * h == i * h
            + h && (i + 1 < k ==> (i + 1) * h < n) && (i + 1 == k ==> n <= (i + 1) * h) by {
            assert(0 <= i * h <= (k - 1) * h) by (nonlinear_arith)
                requires
                    0 <= i <= k - 1,
                    0 < h,
            ;
            assert((i + 1) * h == i * h + h) by (nonlinear_arith);
            if i + 1 < k {
                assert((i + 1) * h <= (k - 1) * h) by (nonlinear_arith)
                    requires
                        0 <= i + 1 <= k - 1,
                        0 < h,
                ;
            }
        }
        assert forall|i: int| 0 <= i < spans.len() implies (#[trigger] spans[i]).start
            < spans[i].end && spans[i].end - spans[i].start <= h by {
            assert(0 <= i * h < n);
        }
        assert forall|i: int| 0 < i < spans.len() implies #[trigger] joined(spans, i) by {
            assert(0 <= (i - 1) * h < n);
            assert(0 <= i * h < n);
        }
        assert(0 * h == 0) by (nonlinear_arith);
        assert(0 <= (k - 1) * h < n);
    }
}

/// Whether `spans` cover `audio_len` samples exactly once and in order, with no
/// empty span and none above `hard_max_samples`.
pub fn spans_have_full_coverage(
    spans: &[Range<usize>],
    audio_len: usize,
    hard_max_samples: usize,
) -> (covered: bool)
    ensures
        covered == full_coverage(spans@, audio_len as nat, hard_max_samples as nat),
{
    if audio_len == 0 {
        return spans.len() == 0;
    }
    if spans.len() == 0 || spans[0].start != 0 || spans[spans.len() - 1].end != audio_len {
        return false;
    }
    let mut index: usize = 0;
    while index < spans.len()
        invariant
            0 <= index <= spans.len(),
            forall|i: int|
                0 <= i < index ==> (#[trigger] spans@[i]).start < spans@[i].end && spans@[i].end
                    - spans@[i].start <= hard_max_samples,
            forall|i: int| 0 < i < index ==> #[trigger] joined(spans@, i),
            audio_len > 0,
        decreases spans.len() - index,
    {
        let start: usize = spans[index].start;
        let end: usize = spans[index].end;
        if start >= end || end - start > hard_max_samples {
            assert(!(spans@[index as int].start < spans@[index as int].end && spans@[index as int].end
                - spans@[index as int].start <= hard_max_samples));
            return false;
        }
        if index > 0 && spans[index - 1].end != start {
            assert(!joined(spans@, index as int));
            return false;
        }
        index = index + 1;
    }
    true
}

/// The samples of `audio` inside `span`.
pub open spec fn piece<S>(audio: Seq<S>, span: Range<usize>) -> Seq<S> {
    audio.subrange(span.start as int, span.end as int)
}

/// The samples inside `spans`, one span after the other.
pub open spec fn pieces<S>(audio: Seq<S>, spans: Seq<Range<usize>>) -> Seq<S>
    decreases spans.len(),
{
    if spans.len() == 0 {
        seq![]
    } else {
        pieces(audio, spans.drop_last()) + piece(audio, spans.last())
    }
}

/// In a chain of spans that start before they end, later spans lie behind earlier ones.
proof fn lemma_chain_is_ordered(spans: Seq<Range<usize>>, i: int, j: int)
    requires
        chained(spans),
        forall|k: int| 0 <= k < spans.len() ==> (#[trigger] spans[k]).start < spans[k].end,
        0 <= i < j < spans.len(),
    ensures
        spans[i].end <= spans[j].start,
    decreases j - i,
{
    assert(joined(spans, j));
    if i < j - 1 {
        lemma_chain_is_ordered(spans, i, j - 1);
        assert(spans[j - 1].start < spans[j - 1].end);
    }
}

/// Law: spans with full coverage hold every sample of the recording, and no
/// sample is in two of them.
pub proof fn law_every_sample_is_in_exactly_one_span(
    spans: Seq<Range<usize>>,
    audio_len: nat,
    hard_max: nat,
    sample: int,
)
    requires
        full_coverage(spans, audio_len, hard_max),
        0 <= sample < audio_len,
    ensures
        exists|i: int| 0 <= i < spans.len() && (#[trigger] spans[i]).start <= sample < spans[i].end,
        forall|i: int, j: int|
            0 <= i < spans.len() && 0 <= j < spans.len() && (#[trigger] spans[i]).start <= sample
                < spans[i].end && (#[trigger] spans[j]).start <= sample < spans[j].end ==> i == j,
{
    lemma_some_span_holds(spans, sample, spans.len() as int);
    assert forall|i: int, j: int|
        0 <= i < spans.len() && 0 <= j < spans.len() && (#[trigger] spans[i]).start <= sample
            < spans[i].end && (#[trigger] spans[j]).start <= sample < spans[j].end implies i == j by {
        if i < j {
            lemma_chain_is_ordered(spans, i, j);
        } else if j < i {
            lemma_chain_is_ordered(spans, j, i);
        }
    }
}

proof fn lemma_some_span_holds(spans: Seq<Range<usize>>, sample: int, n: int)
    requires
        0 < n <= spans.len(),
        spans[0].start <= sample < spans[n - 1].end,
        chained(spans),
    ensures
        exists|i: int| 0 <= i < n && (#[trigger] spans[i]).start <= sample < spans[i].end,
    decreases n,
{
    if spans[n - 1].start > sample {
        assert(n - 1 > 0);
        assert(joined(spans, n - 1));
        lemma_some_span_holds(spans, sample, n - 1);
    }
}

proof fn lemma_pieces_of_a_chain<S>(audio: Seq<S>, spans: Seq<Range<usize>>)
    requires
        spans.len() > 0,
        chained(spans),
        forall|k: int| 0 <= k < spans.len() ==> (#[trigger] spans[k]).start < spans[k].end,
        spans.last().end <= audio.len(),
    ensures
        pieces(audio, spans) == audio.subrange(spans[0].start as int, spans.last().end as int),
        spans[0].start < spans.last().end,
    decreases spans.len(),
{
    let head = spans.drop_last();
    if head.len() == 0 {
        assert(pieces(audio, head) =~= seq![]);
        assert(seq![] + piece(audio, spans.last()) =~= piece(audio, spans.last()));
    } else {
        let n = spans.len() as int;
        assert(joined(spans, n - 1));
        assert(head.last() == spans[n - 2]);
        assert(spans[n - 1].start < spans[n - 1].end);
        assert(chained(head)) by {
            assert forall|i: int| 0 < i < head.len() implies #[trigger] joined(head, i) by {
                assert(joined(spans, i));
            }
        }
        assert forall|k: int| 0 <= k < head.len() implies (#[trigger] head[k]).start
            < head[k].end by {
            assert(spans[k].start < spans[k].end);
        }
        lemma_pieces_of_a_chain(audio, head);
        assert(pieces(audio, spans) =~= audio.subrange(
            spans[0].start as int,
            spans.last().end as int,
        ));
    }
}

/// Law: the pieces of a recording that spans with full coverage cut out, put
/// back together in order, are the recording.
pub proof fn law_pieces_rebuild_the_audio<S>(
    audio: Seq<S>,
    spans: Seq<Range<usize>>,
    hard_max: nat,
)
    requires
        full_coverage(spans, audio.len(), hard_max),
    ensures
        pieces(audio, spans) == audio,
{
    if audio.len() > 0 {
        lemma_pieces_of_a_chain(audio, spans);
        assert(audio.subrange(0, audio.len() as int) =~= audio);
    } else {
        assert(audio =~= seq![]);
    }
}

/// Law: a cut after every `h` samples leaves spans of `h` samples, but for the
/// last one, and they cover all samples.
pub proof fn law_a_fixed_cut_leaves_full_spans(n: int, h: int)
    requires
        0 < h,
        0 <= n <= usize::MAX,
    ensures
        full_coverage(fixed_spans(n, h), n as nat, h as nat),
        forall|i: int|
            0 <= i < fixed_spans(n, h).len() - 1 ==> (#[trigger] fixed_spans(n, h)[i]).end
                - fixed_spans(n, h)[i].start == h,
{
    lemma_fixed_spans_cover(n, h);
    let spans = fixed_spans(n, h);
    let k = (n + h - 1) / h;
    assert forall|i: int| 0 <= i < spans.len() - 1 implies (#[trigger] spans[i]).end
        - spans[i].start == h by {
        assert((i + 1) * h < n && (i + 1) * h == i * h + h && 0 <= i * h) by (nonlinear_arith)
            requires
                0 < h,
                0 <= i < k - 1,
                k == (n + h - 1) / h,
        ;
    }
}

/// Law: spans have full coverage just where they start at the first sample, go on
/// where the one before ended, end with the last sample, and none is empty or
/// above the hard maximum; no samples have it without any span.
pub proof fn law_what_full_coverage_is(
    spans: Seq<Range<usize>>,
    audio_len: nat,
    hard_max: nat,
)
    ensures
        full_coverage(spans, audio_len, hard_max) <==> {
            &&& spans.len() == 0 <==> audio_len == 0
            &&& spans.len() > 0 ==> spans[0].start == 0 && spans[spans.len() - 1].end == audio_len
            &&& forall|i: int|
                0 <= i < spans.len() ==> 0 < (#[trigger] spans[i]).end - spans[i].start
                    <= hard_max
            &&& forall|i: int, j: int|
                0 <= i < spans.len() && j == i + 1 && j < spans.len() ==> (#[trigger] spans[i]).end
                    == (#[trigger] spans[j]).start
        },
{
    if full_coverage(spans, audio_len, hard_max) {
        assert forall|i: int, j: int|
            0 <= i < spans.len() && j == i + 1 && j < spans.len() implies (
        #[trigger] spans[i]).end == (#[trigger] spans[j]).start by {
            assert(joined(spans, j));
        }
    } else if spans.len() > 0 {
        if forall|i: int, j: int|
            0 <= i < spans.len() && j == i + 1 && j < spans.len() ==> (#[trigger] spans[i]).end
                == (#[trigger] spans[j]).start {
            assert forall|i: int| 0 < i < spans.len() implies #[trigger] joined(spans, i) by {
                assert(spans[i - 1].end == spans[i].start);
            }
        }
    }
}

} // verus!
