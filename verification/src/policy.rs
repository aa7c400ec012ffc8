//! The limits that every plan keeps, in samples.

use vstd::prelude::*;

verus! {

/// Samples per second of the audio that is planned.
pub const SAMPLE_RATE: usize = 16_000;

/// Limits and preferences for the spans of a plan, in samples.
#[derive(Clone, Copy, Debug)]
pub struct ChunkPolicy {
    /// No span is longer than this.
    pub hard_max_samples: usize,
    /// The length that a span is scored against.
    pub preferred_samples: usize,
    /// Spans below this length are penalised, and never committed early.
    pub soft_min_samples: usize,
    /// Shorter pauses are not considered as boundaries.
    pub min_pause_samples: usize,
    /// Distance of the fallback boundaries, and length of the window that a
    /// boundary's loudness is measured over.
    pub energy_window_samples: usize,
}

impl ChunkPolicy {
    /// A policy that non-empty audio can be planned with.
    pub open spec fn valid(self) -> bool {
        &&& self.hard_max_samples > 0
        &&& self.preferred_samples > 0
        &&& 0 < self.soft_min_samples <= self.hard_max_samples
        &&& self.energy_window_samples > 0
    }
}

/// At most 35 s and preferably 30 s per span, no less than 15 s; pauses from
/// 200 ms on; loudness over 100 ms.
pub open spec fn default_policy() -> ChunkPolicy {
    ChunkPolicy {
        hard_max_samples: 560_000,
        preferred_samples: 480_000,
        soft_min_samples: 240_000,
        min_pause_samples: 3_200,
        energy_window_samples: 1_600,
    }
}

impl Default for ChunkPolicy {
    /// At most 35 s and preferably 30 s per span, no less than 15 s; pauses
    /// from 200 ms on; loudness over 100 ms.
    fn default() -> (policy: ChunkPolicy)
        ensures
            policy == default_policy(),
            policy.valid(),
    {
        ChunkPolicy {
            hard_max_samples: 35 * SAMPLE_RATE,
            preferred_samples: 30 * SAMPLE_RATE,
            soft_min_samples: 15 * SAMPLE_RATE,
            min_pause_samples: SAMPLE_RATE / 5,
            energy_window_samples: SAMPLE_RATE / 10,
        }
    }
}

/// Law: by default a span takes no more than 35 seconds, preferably 30 and no less
/// than 15, a pause counts from a fifth of a second on, and loudness is measured
/// over a tenth.
pub proof fn law_default_limits()
    ensures
        SAMPLE_RATE == 16_000,
        default_policy().hard_max_samples == 35 * SAMPLE_RATE,
        default_policy().preferred_samples == 30 * SAMPLE_RATE,
        default_policy().soft_min_samples == 15 * SAMPLE_RATE,
        5 * default_policy().min_pause_samples == SAMPLE_RATE,
        10 * default_policy().energy_window_samples == SAMPLE_RATE,
        default_policy().valid(),
{
}

/// Law: a policy is one to plan with just where none of its lengths but that of
/// pauses is zero, and the soft minimum does not exceed the hard maximum.
pub proof fn law_which_policies_are_valid(policy: ChunkPolicy)
    ensures
        policy.valid() <==> policy.preferred_samples != 0 && policy.soft_min_samples != 0
            && policy.energy_window_samples != 0 && policy.soft_min_samples
            <= policy.hard_max_samples,
{
}

} // verus!
