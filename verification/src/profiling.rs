use vstd::prelude::*;

verus! {

// Process-memory counters. No sampler feeds them: nothing in the runtime records a memory
// sample, so both counters stay zero and resetting them changes nothing. They are kept as
// the place where a sampler would report.

/// The peak process memory, in bytes, seen since the last `reset`: always 0, since no
/// sampler records memory.
pub fn get_peak_memory() -> (r: usize)
    ensures
        r == 0,
{
    0
}

/// The most recently sampled process memory, in bytes: always 0, since no sampler records
/// memory.
pub fn get_current_memory() -> (r: usize)
    ensures
        r == 0,
{
    0
}

/// Sets the peak and current counters back to zero, which they already are.
pub fn reset() {
}

} // verus!
