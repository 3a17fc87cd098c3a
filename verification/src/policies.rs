use vstd::prelude::*;

use crate::cache::Item;

verus! {

/// Which priority formula the cache uses to rank entries for eviction.
///
/// Lower scores are evicted sooner.
#[derive(Clone, Copy, PartialEq, Eq, Structural)]
pub enum CachePolicy {
    /// Plain frequency: the score is the entry's hit count.
    LFU,
    /// Frequency plus dynamic aging: the score is the hit count plus the
    /// cache's age counter at the time of the promoting access.
    LFUDA,
    /// Size-weighted frequency plus age: the score is the hit count divided
    /// by the entry's weight, plus the cache's age counter, so small,
    /// frequently used entries outrank large ones.
    GDSF,
}

/// Mathematical `a + b`, saturating at `u64::MAX`.
pub open spec fn sat_add(a: u64, b: u64) -> u64 {
    if a + b > u64::MAX {
        u64::MAX
    } else {
        (a + b) as u64
    }
}

/// The priority score an entry with the given statistics receives under
/// `policy` when the cache's age counter is `cache_age`.
///
/// A weight of zero is treated as one for the size-weighted division only,
/// so the score is total; the stored weight is not changed.
pub open spec fn spec_priority(policy: CachePolicy, hits: u64, weight: u64, cache_age: u64) -> u64 {
    match policy {
        CachePolicy::LFU => hits,
        CachePolicy::LFUDA => sat_add(hits, cache_age),
        CachePolicy::GDSF => sat_add(
            hits / (if weight == 0 { 1u64 } else { weight }),
            cache_age,
        ),
    }
}

/// `a + b`, saturating at `u64::MAX`.
fn saturating_sum(a: u64, b: u64) -> (r: u64)
    ensures
        r == sat_add(a, b),
{
    if a > u64::MAX - b {
        u64::MAX
    } else {
        a + b
    }
}

/// Computes the priority score of `element` under `policy`: pure, total,
/// and non-negative for every input.
pub fn calculate_policy<V>(policy: CachePolicy, element: &Item<V>, cache_age: u64) -> (score: u64)
    ensures
        score == spec_priority(policy, element.hits, element.weight, cache_age),
{
    match policy {
        CachePolicy::LFU => element.hits,
        CachePolicy::LFUDA => saturating_sum(element.hits, cache_age),
        CachePolicy::GDSF => {
            let w: u64 = if element.weight == 0 {
                1
            } else {
                element.weight
            };
            saturating_sum(element.hits / w, cache_age)
        },
    }
}

} // verus!
