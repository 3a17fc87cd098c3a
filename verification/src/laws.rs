use vstd::prelude::*;

use crate::cache::Cache;
use crate::cache::Slot;
use crate::cache::freq_has_score;
use crate::cache::in_freq;
use crate::cache::sum_weights;
use crate::cache::sweep_entries;
use crate::cache::sweep_removed;
use crate::support::lemma_sweep_all_live;
use crate::support::lemma_sweep_no_expired;

verus! {

/// Idempotence of the expiry sweep: a table that has just been swept at
/// `now` holds no entry expired at `now`, so sweeping it again at the same
/// instant leaves it unchanged and removes nothing.  [`Cache::remove_expired`]
/// returns exactly `sweep_removed` and leaves exactly `sweep_entries`, so
/// two back-to-back calls at one instant make the second a no-op.
pub proof fn lemma_sweep_idempotent<V>(s: Seq<Slot<V>>, now: u64)
    ensures
        sweep_entries(sweep_entries(s, now), now) == sweep_entries(s, now),
        sweep_removed(sweep_entries(s, now), now) == Seq::<(u64, V)>::empty(),
{
    lemma_sweep_no_expired(s, now);
    lemma_sweep_all_live(sweep_entries(s, now), now);
}

/// Size accounting: in every well-formed cache state the running total
/// weight equals the sum of the weights of all live entries.
pub proof fn lemma_size_accounting<V>(c: Cache<V>)
    requires
        c.wf(),
    ensures
        c.cur_size == sum_weights(c.elements@),
{
}

/// Bucket consistency: every live key is recorded in exactly one frequency
/// bucket, the bucket of its entry's current priority score.
pub proof fn lemma_bucket_consistency<V>(c: Cache<V>, k: u64)
    requires
        c.wf(),
        c.spec_contains(k),
    ensures
        in_freq(c.frequencies@, c.spec_get(k)->0.priority_key, k),
        forall|sc: u64|
            sc != c.spec_get(k)->0.priority_key ==> !in_freq(c.frequencies@, sc, k),
{
    let es = c.elements@;
    let fs = c.frequencies@;
    let e = crate::cache::idx_of(es, k);
    assert(0 <= e < es.len() && es[e].key == k);
    assert(in_freq(fs, es[e].item.priority_key, k));
    assert forall|sc: u64| sc != c.spec_get(k)->0.priority_key implies !in_freq(fs, sc, k) by {
        if in_freq(fs, sc, k) {
            let i = choose|i: int| 0 <= i < fs.len() && fs[i].score == sc && fs[i].key == k;
            assert(es[crate::cache::idx_of(es, fs[i].key)].item.priority_key == fs[i].score);
        }
    }
}

/// Minimum correctness: while the cache is non-empty, no live entry scores
/// below the tracked minimum, and the bucket at the minimum is non-empty.
pub proof fn lemma_minimum_correct<V>(c: Cache<V>)
    requires
        c.wf(),
        c.elements@.len() > 0,
    ensures
        forall|e: int|
            0 <= e < c.elements@.len() ==> (#[trigger] c.elements@[e]).item.priority_key
                >= c.min_frequency,
        freq_has_score(c.frequencies@, c.min_frequency),
{
}

/// Capacity law: with an entry-count bound of `n`, a well-formed cache
/// never holds more than `n` entries.
pub proof fn lemma_capacity_bound<V>(c: Cache<V>, n: usize)
    requires
        c.wf(),
        c.capacity == Some(n),
    ensures
        c.elements@.len() <= n,
{
}

/// Size-bound law: with a total-weight bound of `m`, the running total
/// weight of a well-formed cache never exceeds `m`.
pub proof fn lemma_size_bound<V>(c: Cache<V>, m: u64)
    requires
        c.wf(),
        c.max_size == Some(m),
    ensures
        c.cur_size <= m,
{
}

} // verus!
