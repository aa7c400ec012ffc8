//! Running the spans of a plan one after the other.

use crate::text::cancelled_before_chunk;
use std::ops::Range;
use vstd::prelude::*;

verus! {

/// Why a sequence of chunks has no result.
#[derive(Debug)]
pub enum ChunkSequenceError<E> {
    /// It was cancelled before chunk number `chunk`, counted from one.
    Cancelled { chunk: usize },
    /// A chunk failed.
    Failed(E),
}

/// `run` may return `result` for span `i` of `spans`.
pub open spec fn runs<T, E, F: FnMut(&Range<usize>, usize, usize) -> Result<T, E>>(
    run: F,
    spans: Seq<Range<usize>>,
    i: int,
    result: Result<T, E>,
) -> bool {
    call_ensures(run, (&spans[i], i as usize, spans.len() as usize), result)
}

/// `results` are what `run` may return for the first of `spans`, one each.
pub open spec fn ran<T, E, F: FnMut(&Range<usize>, usize, usize) -> Result<T, E>>(
    run: F,
    spans: Seq<Range<usize>>,
    results: Seq<T>,
) -> bool {
    &&& results.len() <= spans.len()
    &&& forall|i: int|
        0 <= i < results.len() ==> runs(run, spans, i, Ok(#[trigger] results[i]))
}

/// `is_cancelled` may answer no before each of the first `count` chunks, except
/// the first one, before which it is not asked.
pub open spec fn goes_on<C: Fn(usize) -> bool>(is_cancelled: C, count: int) -> bool {
    forall|i: usize| 0 < i < count ==> #[trigger] call_ensures(is_cancelled, (i,), false)
}

/// `outcome` is what running `spans` in order may lead to: all results; or the
/// cancellation that was seen before a chunk other than the first; or the error
/// of the first chunk that failed. Every chunk before that one has run, and
/// before each of them but the first it was asked for a cancellation.
pub open spec fn is_sequence_outcome<
    T,
    E,
    C: Fn(usize) -> bool,
    F: FnMut(&Range<usize>, usize, usize) -> Result<T, E>,
>(
    spans: Seq<Range<usize>>,
    is_cancelled: C,
    run: F,
    outcome: Result<Vec<T>, ChunkSequenceError<E>>,
) -> bool {
    match outcome {
        Ok(results) => {
            &&& results.len() == spans.len()
            &&& ran(run, spans, results@)
            &&& goes_on(is_cancelled, spans.len() as int)
        },
        Err(ChunkSequenceError::Cancelled { chunk }) => {
            &&& 1 < chunk <= spans.len()
            &&& call_ensures(is_cancelled, ((chunk - 1) as usize,), true)
            &&& goes_on(is_cancelled, chunk - 1)
            &&& exists|results: Seq<T>| #[trigger]
                ran(run, spans, results) && results.len() == chunk - 1
        },
        Err(ChunkSequenceError::Failed(error)) => exists|results: Seq<T>|
            {
                &&& #[trigger] ran(run, spans, results)
                &&& results.len() < spans.len()
                &&& runs(run, spans, results.len() as int, Err(error))
                &&& goes_on(is_cancelled, results.len() as int + 1)
            },
    }
}

/// `run` can be called on each span once all spans before it have run, and no
/// cancellation was seen up to it.
pub open spec fn can_run_in_order<
    T,
    E,
    C: Fn(usize) -> bool,
    F: FnMut(&Range<usize>, usize, usize) -> Result<T, E>,
>(
    spans: Seq<Range<usize>>,
    is_cancelled: C,
    run: F,
) -> bool {
    forall|results: Seq<T>| #[trigger]
        ran(run, spans, results) && results.len() < spans.len() && goes_on(
            is_cancelled,
            results.len() as int + 1,
        ) ==> call_requires(
            run,
            (&spans[results.len() as int], results.len() as usize, spans.len() as usize),
        )
}

/// `is_cancelled` can be asked before each span but the first once all spans
/// before it have run, and no cancellation was seen before them.
pub open spec fn can_ask_in_order<
    T,
    E,
    C: Fn(usize) -> bool,
    F: FnMut(&Range<usize>, usize, usize) -> Result<T, E>,
>(
    spans: Seq<Range<usize>>,
    is_cancelled: C,
    run: F,
) -> bool {
    forall|results: Seq<T>| #[trigger]
        ran(run, spans, results) && 0 < results.len() < spans.len() && goes_on(
            is_cancelled,
            results.len() as int,
        ) ==> call_requires(is_cancelled, (results.len() as usize,))
}

/// Runs every span in order, as `run(span, index, number of spans)`. Stops at
/// the first error. Before each chunk but the first, `is_cancelled` is asked with
/// the index of the chunk, and stops the sequence too. Neither is called out of
/// order, nor once the sequence has stopped: both need only be callable in turn.
pub fn run_chunk_sequence<
    T,
    E,
    C: Fn(usize) -> bool,
    F: FnMut(&Range<usize>, usize, usize) -> Result<T, E>,
>(
    spans: &[Range<usize>],
    is_cancelled: &C,
    run: F,
) -> (outcome: Result<Vec<T>, ChunkSequenceError<E>>)
    requires
        can_ask_in_order(spans@, *is_cancelled, run),
        can_run_in_order(spans@, *is_cancelled, run),
    ensures
        is_sequence_outcome(spans@, *is_cancelled, run, outcome),
{
    let mut next: F = run;
    let total: usize = spans.len();
    let mut results: Vec<T> = Vec::new();
    let mut index: usize = 0;
    while index < total
        invariant
            total == spans.len(),
            index <= total,
            next == run,
            can_ask_in_order(spans@, *is_cancelled, run),
            can_run_in_order(spans@, *is_cancelled, run),
            results.len() == index,
            ran(run, spans@, results@),
            goes_on(*is_cancelled, index as int),
        decreases total - index,
    {
        if index > 0 && (*is_cancelled)(index) {
            return Err(ChunkSequenceError::Cancelled { chunk: index + 1 });
        }
        let span: &Range<usize> = &spans[index];
        assert(span == &spans@[index as int]);
        match next(span, index, total) {
            Ok(result) => {
                results.push(result);
            },
            Err(error) => {
                return Err(ChunkSequenceError::Failed(error));
            },
        }
        index = index + 1;
    }
    Ok(results)
}

impl ChunkSequenceError<String> {
    /// What is said of the error.
    pub fn message(&self) -> (message: String)
        ensures
            match self {
                ChunkSequenceError::Cancelled { chunk } => message@
                    == "Transcription cancelled before chunk "@ + crate::text::decimal(
                    *chunk as nat,
                ),
                ChunkSequenceError::Failed(error) => message@ == error@,
            },
    {
        match self {
            ChunkSequenceError::Cancelled { chunk } => cancelled_before_chunk(*chunk),
            ChunkSequenceError::Failed(error) => error.clone(),
        }
    }
}

/// Law: a sequence of chunks comes to the results of all spans, each in its place
/// and run with its number and how many there are; or to a cancellation that was
/// answered before a chunk other than the first; or to the error of a chunk. Each
/// chunk before that one has run, and it was answered that nothing is cancelled
/// before each of them but the first.
pub proof fn law_what_a_sequence_comes_to<
    T,
    E,
    C: Fn(usize) -> bool,
    F: FnMut(&Range<usize>, usize, usize) -> Result<T, E>,
>(
    spans: Seq<Range<usize>>,
    is_cancelled: C,
    run: F,
    outcome: Result<Vec<T>, ChunkSequenceError<E>>,
)
    requires
        is_sequence_outcome(spans, is_cancelled, run, outcome),
    ensures
        outcome matches Ok(results) ==> {
            &&& results@.len() == spans.len()
            &&& forall|i: int|
                0 <= i < spans.len() ==> call_ensures(
                    run,
                    (&spans[i], i as usize, spans.len() as usize),
                    Ok(#[trigger] results@[i]),
                )
            &&& forall|i: usize|
                0 < i < spans.len() ==> #[trigger] call_ensures(is_cancelled, (i,), false)
        },
        outcome matches Err(ChunkSequenceError::Cancelled { chunk }) ==> {
            &&& 2 <= chunk <= spans.len()
            &&& call_ensures(is_cancelled, ((chunk - 1) as usize,), true)
            &&& forall|i: usize|
                0 < i < chunk - 1 ==> #[trigger] call_ensures(is_cancelled, (i,), false)
            &&& exists|results: Seq<T>|
                #[trigger] results.len() == chunk - 1 && forall|i: int|
                    0 <= i < chunk - 1 ==> call_ensures(
                        run,
                        (&spans[i], i as usize, spans.len() as usize),
                        Ok::<T, E>(#[trigger] results[i]),
                    )
        },
        outcome matches Err(ChunkSequenceError::Failed(error)) ==> exists|results: Seq<T>|
            {
                &&& #[trigger] results.len() < spans.len()
                &&& call_ensures(
                    run,
                    (
                        &spans[results.len() as int],
                        results.len() as usize,
                        spans.len() as usize,
                    ),
                    Err::<T, E>(error),
                )
                &&& forall|i: usize|
                    0 < i <= results.len() ==> #[trigger] call_ensures(is_cancelled, (i,), false)
                &&& forall|i: int|
                    0 <= i < results.len() ==> call_ensures(
                        run,
                        (&spans[i], i as usize, spans.len() as usize),
                        Ok::<T, E>(#[trigger] results[i]),
                    )
            },
{
    match outcome {
        Ok(results) => {
            assert forall|i: int| 0 <= i < spans.len() implies call_ensures(
                run,
                (&spans[i], i as usize, spans.len() as usize),
                Ok(#[trigger] results@[i]),
            ) by {
                assert(runs(run, spans, i, Ok(results@[i])));
            }
        },
        Err(ChunkSequenceError::Cancelled { chunk }) => {
            let results = choose|results: Seq<T>| #[trigger]
                ran(run, spans, results) && results.len() == chunk - 1;
            assert forall|i: int| 0 <= i < chunk - 1 implies call_ensures(
                run,
                (&spans[i], i as usize, spans.len() as usize),
                Ok::<T, E>(#[trigger] results[i]),
            ) by {
                assert(runs(run, spans, i, Ok(results[i])));
            }
        },
        Err(ChunkSequenceError::Failed(error)) => {
            let results = choose|results: Seq<T>|
                {
                    &&& #[trigger] ran(run, spans, results)
                    &&& results.len() < spans.len()
                    &&& runs(run, spans, results.len() as int, Err(error))
                    &&& goes_on(is_cancelled, results.len() as int + 1)
                };
            assert(results.len() < spans.len());
            assert forall|i: int| 0 <= i < results.len() implies call_ensures(
                run,
                (&spans[i], i as usize, spans.len() as usize),
                Ok::<T, E>(#[trigger] results[i]),
            ) by {
                assert(runs(run, spans, i, Ok(results[i])));
            }
        },
    }
}

/// Law: where no chunk fails and nothing is cancelled, a sequence has its results.
pub proof fn law_only_a_failure_or_a_cancellation_stops_a_sequence<
    T,
    E,
    C: Fn(usize) -> bool,
    F: FnMut(&Range<usize>, usize, usize) -> Result<T, E>,
>(
    spans: Seq<Range<usize>>,
    is_cancelled: C,
    run: F,
    outcome: Result<Vec<T>, ChunkSequenceError<E>>,
)
    requires
        is_sequence_outcome(spans, is_cancelled, run, outcome),
        forall|i: usize| !(#[trigger] call_ensures(is_cancelled, (i,), true)),
        forall|span: &Range<usize>, i: usize, n: usize, error: E|
            !(#[trigger] call_ensures(run, (span, i, n), Err::<T, E>(error))),
    ensures
        outcome is Ok,
{
}

} // verus!
