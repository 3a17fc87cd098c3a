use vstd::prelude::*;

use crate::cache::BucketEntry;
use crate::cache::Slot;
use crate::cache::freq_has_key;
use crate::cache::freq_keys_distinct;
use crate::cache::has_key;
use crate::cache::idx_of;
use crate::cache::in_freq;
use crate::cache::keys_distinct;
use crate::cache::spec_expired;
use crate::cache::sum_weights;
use crate::cache::sweep_entries;
use crate::cache::sweep_removed;

verus! {

/// A weight sum is never negative.
pub proof fn lemma_sum_nonneg<V>(s: Seq<Slot<V>>)
    ensures
        sum_weights(s) >= 0,
    decreases s.len(),
{
    if s.len() > 0 {
        lemma_sum_nonneg(s.drop_last());
    }
}

/// Removing a slot subtracts exactly its weight from the sum.
pub proof fn lemma_sum_remove<V>(s: Seq<Slot<V>>, i: int)
    requires
        0 <= i < s.len(),
    ensures
        sum_weights(s.remove(i)) == sum_weights(s) - s[i].item.weight,
    decreases s.len(),
{
    if i == s.len() - 1 {
        assert(s.remove(i) =~= s.drop_last());
    } else {
        assert(s.remove(i).drop_last() =~= s.drop_last().remove(i));
        assert(s.remove(i).last() == s.last());
        lemma_sum_remove(s.drop_last(), i);
        assert(s.drop_last()[i] == s[i]);
    }
}

/// Replacing a slot adjusts the sum by the difference of the two weights.
pub proof fn lemma_sum_update<V>(s: Seq<Slot<V>>, i: int, slot: Slot<V>)
    requires
        0 <= i < s.len(),
    ensures
        sum_weights(s.update(i, slot)) == sum_weights(s) - s[i].item.weight
            + slot.item.weight,
    decreases s.len(),
{
    if i == s.len() - 1 {
        assert(s.update(i, slot).drop_last() =~= s.drop_last());
        assert(s.update(i, slot).last() == slot);
    } else {
        assert(s.update(i, slot).drop_last() =~= s.drop_last().update(i, slot));
        assert(s.update(i, slot).last() == s.last());
        lemma_sum_update(s.drop_last(), i, slot);
        assert(s.drop_last()[i] == s[i]);
    }
}

/// Appending a slot adds exactly its weight to the sum.
pub proof fn lemma_sum_push<V>(s: Seq<Slot<V>>, slot: Slot<V>)
    ensures
        sum_weights(s.push(slot)) == sum_weights(s) + slot.item.weight,
{
    assert(s.push(slot).drop_last() =~= s);
    assert(s.push(slot).last() == slot);
}

/// No single weight exceeds the sum.
pub proof fn lemma_sum_element_le<V>(s: Seq<Slot<V>>, i: int)
    requires
        0 <= i < s.len(),
    ensures
        s[i].item.weight <= sum_weights(s),
{
    lemma_sum_remove(s, i);
    lemma_sum_nonneg(s.remove(i));
}

/// Nothing that survives a sweep is expired at the sweep's instant.
pub proof fn lemma_sweep_no_expired<V>(s: Seq<Slot<V>>, now: u64)
    ensures
        forall|e: int|
            0 <= e < sweep_entries(s, now).len() ==> !spec_expired(
                (#[trigger] sweep_entries(s, now)[e]).item,
                now,
            ),
    decreases s.len(),
{
    if s.len() > 0 {
        lemma_sweep_no_expired(s.drop_last(), now);
    }
}

/// A sweep over a table with nothing expired removes nothing.
pub proof fn lemma_sweep_all_live<V>(s: Seq<Slot<V>>, now: u64)
    requires
        forall|e: int|
            0 <= e < s.len() ==> !spec_expired((#[trigger] s[e]).item, now),
    ensures
        sweep_entries(s, now) == s,
        sweep_removed(s, now) == Seq::<(u64, V)>::empty(),
    decreases s.len(),
{
    if s.len() > 0 {
        assert(forall|e: int|
            0 <= e < s.drop_last().len() ==> !spec_expired(
                (#[trigger] s.drop_last()[e]).item,
                now,
            ));
        lemma_sweep_all_live(s.drop_last(), now);
        assert(!spec_expired(s.last().item, now));
        assert(sweep_entries(s, now) =~= s);
    }
}

/// With distinct keys, the index found for a key is the one and only index
/// carrying it.
pub proof fn lemma_idx_of<V>(s: Seq<Slot<V>>, i: int, k: u64)
    requires
        keys_distinct(s),
        0 <= i < s.len(),
        s[i].key == k,
    ensures
        has_key(s, k),
        idx_of(s, k) == i,
{
    assert(has_key(s, k));
    let j = idx_of(s, k);
    assert(0 <= j < s.len() && s[j].key == k);
    if j != i {
        assert(s[i].key != s[j].key);
    }
}

/// Effect of removing slot `i` on key lookups: the removed key is gone and
/// every other key resolves to the same slot as before.
pub proof fn lemma_slot_remove<V>(s: Seq<Slot<V>>, i: int)
    requires
        keys_distinct(s),
        0 <= i < s.len(),
    ensures
        keys_distinct(s.remove(i)),
        !has_key(s.remove(i), s[i].key),
        forall|k: u64|
            k != s[i].key ==> #[trigger] has_key(s.remove(i), k) == has_key(s, k),
        forall|k: u64|
            k != s[i].key && has_key(s, k) ==> s.remove(i)[idx_of(s.remove(i), k)] == s[
                #[trigger] idx_of(s, k)],
{
    let r = s.remove(i);
    assert forall|k: u64| k != s[i].key implies #[trigger] has_key(r, k) == has_key(s, k) by {
        if has_key(s, k) {
            let j = idx_of(s, k);
            assert(0 <= j < s.len() && s[j].key == k);
            if j < i {
                assert(r[j] == s[j]);
            } else {
                assert(j != i);
                assert(r[j - 1] == s[j]);
            }
            assert(has_key(r, k));
        }
        if has_key(r, k) {
            let j = choose|j: int| 0 <= j < r.len() && r[j].key == k;
            if j < i {
                assert(r[j] == s[j]);
            } else {
                assert(r[j] == s[j + 1]);
            }
            assert(has_key(s, k));
        }
    }
    assert forall|j: int| 0 <= j < r.len() implies r[j].key != s[i].key by {
        if j < i {
            assert(r[j] == s[j]);
        } else {
            assert(r[j] == s[j + 1]);
        }
    }
    assert(!has_key(r, s[i].key));
    assert forall|a: int, b: int|
        0 <= a < r.len() && 0 <= b < r.len() && a != b implies r[a].key != r[b].key by {
        let a2: int = if a < i { a } else { a + 1 };
        let b2: int = if b < i { b } else { b + 1 };
        assert(r[a] == s[a2]);
        assert(r[b] == s[b2]);
    }
    assert forall|k: u64| k != s[i].key && has_key(s, k) implies r[idx_of(r, k)] == s[
        #[trigger] idx_of(s, k)] by {
        let j = idx_of(s, k);
        assert(0 <= j < s.len() && s[j].key == k);
        if j < i {
            assert(r[j] == s[j]);
            lemma_idx_of(r, j, k);
        } else {
            assert(r[j - 1] == s[j]);
            lemma_idx_of(r, j - 1, k);
        }
    }
}

/// Effect of replacing slot `i` by a slot with the same key: every other
/// key resolves to the same slot as before, and the key itself resolves to
/// the replacement.
pub proof fn lemma_slot_update<V>(s: Seq<Slot<V>>, i: int, slot: Slot<V>)
    requires
        keys_distinct(s),
        0 <= i < s.len(),
        slot.key == s[i].key,
    ensures
        keys_distinct(s.update(i, slot)),
        forall|k: u64| #[trigger] has_key(s.update(i, slot), k) == has_key(s, k),
        idx_of(s.update(i, slot), slot.key) == i,
        forall|k: u64|
            k != slot.key && has_key(s, k) ==> s.update(i, slot)[idx_of(s.update(i, slot), k)]
                == s[#[trigger] idx_of(s, k)],
{
    let u = s.update(i, slot);
    assert forall|a: int, b: int|
        0 <= a < u.len() && 0 <= b < u.len() && a != b implies u[a].key != u[b].key by {
        assert(u[a].key == s[a].key);
        assert(u[b].key == s[b].key);
    }
    assert forall|k: u64| #[trigger] has_key(u, k) == has_key(s, k) by {
        if has_key(s, k) {
            let j = idx_of(s, k);
            assert(u[j].key == s[j].key);
            assert(has_key(u, k));
        }
        if has_key(u, k) {
            let j = choose|j: int| 0 <= j < u.len() && u[j].key == k;
            assert(s[j].key == u[j].key);
            assert(has_key(s, k));
        }
    }
    lemma_idx_of(u, i, slot.key);
    assert forall|k: u64| k != slot.key && has_key(s, k) implies u[idx_of(u, k)] == s[
        #[trigger] idx_of(s, k)] by {
        let j = idx_of(s, k);
        assert(0 <= j < s.len() && s[j].key == k);
        assert(j != i);
        assert(u[j] == s[j]);
        lemma_idx_of(u, j, k);
    }
}

/// Replacing only the stored value of slot `i` disturbs none of the
/// cross-referencing invariants: keys, weights, scores and the bucket
/// index are untouched, and every key still resolves as before.
pub proof fn lemma_value_update_wf<V>(
    es: Seq<Slot<V>>,
    fs: Seq<BucketEntry>,
    cur_size: u64,
    min_frequency: u64,
    capacity: Option<usize>,
    max_size: Option<u64>,
    i: int,
    v: V,
)
    requires
        crate::cache::wf_state(es, fs, cur_size, min_frequency, capacity, max_size),
        0 <= i < es.len(),
    ensures
        crate::cache::wf_state(
            es.update(i, crate::cache::with_value(es[i], v)),
            fs,
            cur_size,
            min_frequency,
            capacity,
            max_size,
        ),
        forall|k: u64|
            #[trigger] has_key(es.update(i, crate::cache::with_value(es[i], v)), k) == has_key(
                es,
                k,
            ),
        forall|k: u64|
            k != es[i].key && has_key(es, k) ==> es.update(
                i,
                crate::cache::with_value(es[i], v),
            )[idx_of(es.update(i, crate::cache::with_value(es[i], v)), k)] == es[
                #[trigger] idx_of(es, k)],
        idx_of(es.update(i, crate::cache::with_value(es[i], v)), es[i].key) == i,
{
    let slot = crate::cache::with_value(es[i], v);
    let u = es.update(i, slot);
    lemma_slot_update(es, i, slot);
    lemma_sum_update(es, i, slot);
    assert forall|j: int| 0 <= j < fs.len() implies {
        &&& has_key(u, (#[trigger] fs[j]).key)
        &&& u[idx_of(u, fs[j].key)].item.priority_key == fs[j].score
    } by {
        let rec = fs[j];
        assert(has_key(es, rec.key));
        let e = idx_of(es, rec.key);
        assert(0 <= e < es.len() && es[e].key == rec.key);
        assert(u[e].key == rec.key);
        lemma_idx_of(u, e, rec.key);
        assert(u[e].item.priority_key == es[e].item.priority_key);
    }
    assert forall|e: int| 0 <= e < u.len() implies in_freq(
        fs,
        (#[trigger] u[e]).item.priority_key,
        u[e].key,
    ) by {
        assert(u[e].item.priority_key == es[e].item.priority_key);
        assert(u[e].key == es[e].key);
        assert(in_freq(fs, es[e].item.priority_key, es[e].key));
    }
    if u.len() > 0 {
        assert forall|e: int| 0 <= e < u.len() implies (#[trigger] u[e]).item.priority_key
            >= min_frequency by {
            assert(u[e].item.priority_key == es[e].item.priority_key);
        }
    }
}

/// Effect of appending a slot with a fresh key: every old key resolves as
/// before and the new key resolves to the appended slot.
pub proof fn lemma_slot_push<V>(s: Seq<Slot<V>>, slot: Slot<V>)
    requires
        keys_distinct(s),
        !has_key(s, slot.key),
    ensures
        keys_distinct(s.push(slot)),
        has_key(s.push(slot), slot.key),
        idx_of(s.push(slot), slot.key) == s.len(),
        s.push(slot)[idx_of(s.push(slot), slot.key)] == slot,
        forall|k: u64|
            k != slot.key ==> #[trigger] has_key(s.push(slot), k) == has_key(s, k),
        forall|k: u64|
            k != slot.key && has_key(s, k) ==> s.push(slot)[idx_of(s.push(slot), k)] == s[
                #[trigger] idx_of(s, k)],
{
    let r = s.push(slot);
    assert forall|a: int, b: int|
        0 <= a < r.len() && 0 <= b < r.len() && a != b implies r[a].key != r[b].key by {
        if a < s.len() && b < s.len() {
            assert(r[a] == s[a]);
            assert(r[b] == s[b]);
        } else if a < s.len() {
            assert(r[a] == s[a]);
            assert(r[b] == slot);
        } else {
            assert(r[a] == slot);
            assert(r[b] == s[b]);
        }
    }
    assert(r[s.len() as int] == slot);
    lemma_idx_of(r, s.len() as int, slot.key);
    assert forall|k: u64| k != slot.key implies #[trigger] has_key(r, k) == has_key(s, k) by {
        if has_key(s, k) {
            let j = idx_of(s, k);
            assert(r[j] == s[j]);
            assert(has_key(r, k));
        }
        if has_key(r, k) {
            let j = choose|j: int| 0 <= j < r.len() && r[j].key == k;
            assert(j < s.len());
            assert(r[j] == s[j]);
            assert(has_key(s, k));
        }
    }
    assert forall|k: u64| k != slot.key && has_key(s, k) implies r[idx_of(r, k)] == s[
        #[trigger] idx_of(s, k)] by {
        let j = idx_of(s, k);
        assert(0 <= j < s.len() && s[j].key == k);
        assert(r[j] == s[j]);
        lemma_idx_of(r, j, k);
    }
}

/// Effect of removing record `i` of the bucket index on memberships: the
/// removed key is recorded nowhere, every other pair is unchanged.
pub proof fn lemma_freq_remove(fs: Seq<BucketEntry>, i: int)
    requires
        freq_keys_distinct(fs),
        0 <= i < fs.len(),
    ensures
        freq_keys_distinct(fs.remove(i)),
        !freq_has_key(fs.remove(i), fs[i].key),
        forall|sc: u64, k: u64|
            k != fs[i].key ==> #[trigger] in_freq(fs.remove(i), sc, k) == in_freq(fs, sc, k),
{
    let r = fs.remove(i);
    assert forall|j: int| 0 <= j < r.len() implies r[j] == (if j < i {
        fs[j]
    } else {
        fs[j + 1]
    }) by {}
    assert forall|a: int, b: int|
        0 <= a < r.len() && 0 <= b < r.len() && a != b implies r[a].key != r[b].key by {
        let a2: int = if a < i { a } else { a + 1 };
        let b2: int = if b < i { b } else { b + 1 };
        assert(r[a] == fs[a2]);
        assert(r[b] == fs[b2]);
    }
    assert forall|j: int| 0 <= j < r.len() implies r[j].key != fs[i].key by {
        let j2: int = if j < i { j } else { j + 1 };
        assert(r[j] == fs[j2]);
    }
    assert forall|sc: u64, k: u64| k != fs[i].key implies #[trigger] in_freq(r, sc, k) == in_freq(
        fs,
        sc,
        k,
    ) by {
        if in_freq(fs, sc, k) {
            let j = choose|j: int| 0 <= j < fs.len() && fs[j].score == sc && fs[j].key == k;
            if j < i {
                assert(r[j] == fs[j]);
            } else {
                assert(r[j - 1] == fs[j]);
            }
            assert(in_freq(r, sc, k));
        }
        if in_freq(r, sc, k) {
            let j = choose|j: int| 0 <= j < r.len() && r[j].score == sc && r[j].key == k;
            let j2: int = if j < i { j } else { j + 1 };
            assert(r[j] == fs[j2]);
            assert(in_freq(fs, sc, k));
        }
    }
}

/// Effect of appending a record to the bucket index on memberships.
pub proof fn lemma_freq_push(fs: Seq<BucketEntry>, rec: BucketEntry)
    requires
        freq_keys_distinct(fs),
        !freq_has_key(fs, rec.key),
    ensures
        freq_keys_distinct(fs.push(rec)),
        forall|sc: u64, k: u64| #[trigger] in_freq(fs.push(rec), sc, k) == (in_freq(fs, sc, k)
            || (sc == rec.score && k == rec.key)),
{
    let r = fs.push(rec);
    assert forall|a: int, b: int|
        0 <= a < r.len() && 0 <= b < r.len() && a != b implies r[a].key != r[b].key by {
        if a < fs.len() && b < fs.len() {
            assert(r[a] == fs[a]);
            assert(r[b] == fs[b]);
        } else if a < fs.len() {
            assert(r[a] == fs[a]);
            assert(r[b] == rec);
            assert(!freq_has_key(fs, rec.key));
        } else {
            assert(r[a] == rec);
            assert(r[b] == fs[b]);
            assert(!freq_has_key(fs, rec.key));
        }
    }
    assert forall|sc: u64, k: u64| #[trigger] in_freq(r, sc, k) == (in_freq(fs, sc, k) || (sc
        == rec.score && k == rec.key)) by {
        if in_freq(fs, sc, k) {
            let j = choose|j: int| 0 <= j < fs.len() && fs[j].score == sc && fs[j].key == k;
            assert(r[j] == fs[j]);
            assert(in_freq(r, sc, k));
        }
        if sc == rec.score && k == rec.key {
            assert(r[fs.len() as int] == rec);
            assert(in_freq(r, sc, k));
        }
        if in_freq(r, sc, k) {
            let j = choose|j: int| 0 <= j < r.len() && r[j].score == sc && r[j].key == k;
            if j < fs.len() {
                assert(in_freq(fs, sc, k));
            } else {
                assert(r[j] == rec);
            }
        }
    }
}

} // verus!
