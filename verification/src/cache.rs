use vstd::prelude::*;

use crate::policies::CachePolicy;
use crate::policies::calculate_policy;
use crate::policies::sat_add;
use crate::policies::spec_priority;
use crate::support::lemma_freq_push;
use crate::support::lemma_freq_remove;
use crate::support::lemma_idx_of;
use crate::support::lemma_slot_push;
use crate::support::lemma_slot_remove;
use crate::support::lemma_slot_update;
use crate::support::lemma_sum_element_le;
use crate::support::lemma_sum_nonneg;
use crate::support::lemma_sum_push;
use crate::support::lemma_sweep_all_live;
use crate::support::lemma_value_update_wf;
use crate::support::lemma_sweep_no_expired;
use crate::support::lemma_sum_remove;
use crate::support::lemma_sum_update;

verus! {

/// The one caller-visible failure: the weight of an inserted item exceeds
/// the cache's configured total-weight bound, so it can never be admitted,
/// not even into an empty cache.
#[derive(Clone, Copy, PartialEq, Eq, Structural, Debug)]
pub enum CacheError {
    WeightExceedsCapacity,
}

/// One live entry: the stored value together with its statistics.
#[derive(Clone)]
pub struct Item<V> {
    /// The cached value.
    pub value: V,
    /// Caller-assigned cost unit used for weight-bounded eviction.
    pub weight: u64,
    /// Number of promoting accesses this entry has received.
    pub hits: u64,
    /// The priority score the entry held after its last promoting access.
    pub priority_key: u64,
    /// Caller-supplied timestamp of the insert that created or refreshed
    /// the entry; present exactly when a time-to-live is present.
    pub creation_time: Option<u64>,
    /// Optional time-to-live, in the same unit as the timestamps.
    pub ttl: Option<u64>,
}

/// An entry of the table together with its key.
#[derive(Clone)]
pub struct Slot<V> {
    pub key: u64,
    pub item: Item<V>,
}

/// One membership record of the frequency-bucket index: `key` currently
/// holds the priority score `score`.  The bucket for a score is the set of
/// records carrying that score; a bucket with no records does not exist.
#[derive(Clone, Copy, PartialEq, Eq, Structural)]
pub struct BucketEntry {
    pub score: u64,
    pub key: u64,
}

/// True when some slot of `s` carries `k`.
pub open spec fn has_key<V>(s: Seq<Slot<V>>, k: u64) -> bool {
    exists|i: int| 0 <= i < s.len() && s[i].key == k
}

/// Index of the slot carrying `k`; meaningful when `has_key(s, k)` and the
/// keys of `s` are distinct.
pub open spec fn idx_of<V>(s: Seq<Slot<V>>, k: u64) -> int {
    choose|i: int| 0 <= i < s.len() && s[i].key == k
}

/// Every slot of `s` carries a different key.
pub open spec fn keys_distinct<V>(s: Seq<Slot<V>>) -> bool {
    forall|i: int, j: int|
        0 <= i < s.len() && 0 <= j < s.len() && i != j ==> s[i].key != s[j].key
}

/// Sum of the weights of all slots of `s`.
pub open spec fn sum_weights<V>(s: Seq<Slot<V>>) -> int
    decreases s.len(),
{
    if s.len() == 0 {
        0
    } else {
        sum_weights(s.drop_last()) + s.last().item.weight
    }
}

/// True when the bucket index `fs` records `k` at score `score`.
pub open spec fn in_freq(fs: Seq<BucketEntry>, score: u64, k: u64) -> bool {
    exists|i: int| 0 <= i < fs.len() && fs[i].score == score && fs[i].key == k
}

/// True when `k` appears anywhere in the bucket index.
pub open spec fn freq_has_key(fs: Seq<BucketEntry>, k: u64) -> bool {
    exists|i: int| 0 <= i < fs.len() && fs[i].key == k
}

/// True when some record of the bucket index carries `score`, that is, the
/// bucket at `score` is non-empty.
pub open spec fn freq_has_score(fs: Seq<BucketEntry>, score: u64) -> bool {
    exists|i: int| 0 <= i < fs.len() && fs[i].score == score
}

/// Every record of the bucket index carries a different key, so a key lies
/// in at most one bucket.
pub open spec fn freq_keys_distinct(fs: Seq<BucketEntry>) -> bool {
    forall|i: int, j: int|
        0 <= i < fs.len() && 0 <= j < fs.len() && i != j ==> fs[i].key != fs[j].key
}

/// An entry with creation time `c` and time-to-live `t` is expired at `now`
/// when more than `t` time units have elapsed since `c`.  Entries without a
/// time-to-live never expire.
pub open spec fn spec_expired<V>(item: Item<V>, now: u64) -> bool {
    &&& item.ttl is Some
    &&& item.creation_time is Some
    &&& now - item.creation_time->0 > item.ttl->0
}

/// The slot `slot` with its stored value replaced by `v` and every other
/// attribute kept.
pub open spec fn with_value<V>(slot: Slot<V>, v: V) -> Slot<V> {
    Slot {
        key: slot.key,
        item: Item {
            value: v,
            weight: slot.item.weight,
            hits: slot.item.hits,
            priority_key: slot.item.priority_key,
            creation_time: slot.item.creation_time,
            ttl: slot.item.ttl,
        },
    }
}

/// The cross-referencing invariants of a cache state, over the views of
/// its fields; [`Cache::wf`] applies them to a cache value.
pub open spec fn wf_state<V>(
    es: Seq<Slot<V>>,
    fs: Seq<BucketEntry>,
    cur_size: u64,
    min_frequency: u64,
    capacity: Option<usize>,
    max_size: Option<u64>,
) -> bool {
    &&& keys_distinct(es)
    &&& freq_keys_distinct(fs)
    &&& forall|i: int|
        0 <= i < fs.len() ==> {
            &&& has_key(es, (#[trigger] fs[i]).key)
            &&& es[idx_of(es, fs[i].key)].item.priority_key == fs[i].score
        }
    &&& forall|e: int|
        0 <= e < es.len() ==> in_freq(fs, (#[trigger] es[e]).item.priority_key, es[e].key)
    &&& cur_size == sum_weights(es)
    &&& es.len() > 0 ==> {
        &&& freq_has_score(fs, min_frequency)
        &&& forall|e: int|
            0 <= e < es.len() ==> (#[trigger] es[e]).item.priority_key >= min_frequency
    }
    &&& max_size matches Some(m) ==> cur_size <= m
    &&& capacity matches Some(c) ==> es.len() <= c
}

/// The entry table after one full expiry sweep at `now`: the slots that
/// are not expired at `now`, in table order.
pub open spec fn sweep_entries<V>(s: Seq<Slot<V>>, now: u64) -> Seq<Slot<V>>
    decreases s.len(),
{
    if s.len() == 0 {
        s
    } else {
        let rest = sweep_entries(s.drop_last(), now);
        if spec_expired(s.last().item, now) {
            rest
        } else {
            rest.push(s.last())
        }
    }
}

/// The key/value pairs that one full expiry sweep at `now` removes, in
/// table order.
pub open spec fn sweep_removed<V>(s: Seq<Slot<V>>, now: u64) -> Seq<(u64, V)>
    decreases s.len(),
{
    if s.len() == 0 {
        Seq::empty()
    } else {
        let rest = sweep_removed(s.drop_last(), now);
        if spec_expired(s.last().item, now) {
            rest.push((s.last().key, s.last().item.value))
        } else {
            rest
        }
    }
}

/// The keys of a sequence of departing key/value pairs.
pub open spec fn evicted_keys<V>(ev: Seq<(u64, V)>) -> Seq<u64> {
    ev.map_values(|p: (u64, V)| p.0)
}

/// The weight already held under `key`, or zero when `key` is absent: the
/// amount that re-admitting `key` frees.
pub open spec fn spec_existing_weight<V>(c: Cache<V>, key: u64) -> int {
    if c.spec_contains(key) {
        c.spec_get(key)->0.weight as int
    } else {
        0
    }
}

/// The key/value cache with frequency-based eviction.
///
/// Timestamps (`now` arguments, creation times, time-to-live durations) are
/// plain caller-supplied counters in a unit of the caller's choice; the
/// engine only compares and subtracts them.
#[derive(Clone)]
pub struct Cache<V> {
    /// Optional bound on the number of live entries.
    pub capacity: Option<usize>,
    /// Optional bound on the total weight of live entries.
    pub max_size: Option<u64>,
    /// Running total weight of all live entries.
    pub cur_size: u64,
    /// The entry table.
    pub elements: Vec<Slot<V>>,
    /// The frequency-bucket index, kept as one record per live key.
    pub frequencies: Vec<BucketEntry>,
    /// The lowest priority score held by any live entry (meaningful only
    /// while the cache is non-empty): the search key for eviction.
    pub min_frequency: u64,
    /// The monotonically non-decreasing aging counter.
    pub age: u64,
    /// The selected priority policy.
    pub policy: CachePolicy,
}

impl<V> Cache<V> {
    /// The entry stored under `k`, if any.
    pub open spec fn spec_get(self, k: u64) -> Option<Item<V>> {
        if has_key(self.elements@, k) {
            Some(self.elements@[idx_of(self.elements@, k)].item)
        } else {
            None
        }
    }

    /// True when `k` is in the entry table (expired or not).
    pub open spec fn spec_contains(self, k: u64) -> bool {
        has_key(self.elements@, k)
    }

    /// True when `k` is in the table and not expired at `now`: exactly the
    /// keys that `contains`, `peek` and `get` report present at `now`.
    pub open spec fn spec_live(self, k: u64, now: u64) -> bool {
        &&& self.spec_contains(k)
        &&& !spec_expired(self.spec_get(k)->0, now)
    }

    /// Well-formedness: the cross-referencing invariants that every
    /// operation preserves.
    ///
    /// - entry keys are distinct, and so are the bucket-index keys, so every
    ///   live key lies in exactly one bucket;
    /// - the bucket index and the entry table agree: a record at score `s`
    ///   names a live key whose entry's score is `s`, and every live key has
    ///   a record at its entry's score;
    /// - the running total weight equals the sum of the live weights;
    /// - while the cache is non-empty, `min_frequency` is held by some
    ///   record (its bucket is non-empty) and no entry scores below it;
    /// - the configured bounds hold.
    pub open spec fn wf(self) -> bool {
        wf_state(
            self.elements@,
            self.frequencies@,
            self.cur_size,
            self.min_frequency,
            self.capacity,
            self.max_size,
        )
    }

    /// Number of live entries.  Does not force expiry, so entries that are
    /// expired but not yet discovered are still counted.
    pub fn len(&self) -> (n: usize)
        ensures
            n == self.elements@.len(),
    {
        self.elements.len()
    }

    /// True when the table is empty; does not force expiry.
    pub fn is_empty(&self) -> (r: bool)
        ensures
            r <==> self.elements@.len() == 0,
    {
        self.elements.len() == 0
    }

    /// The running total weight; does not force expiry.
    pub fn size(&self) -> (s: u64)
        ensures
            s == self.cur_size,
    {
        self.cur_size
    }

    /// The current value of the aging counter.
    pub fn age(&self) -> (a: u64)
        ensures
            a == self.age,
    {
        self.age
    }

    /// The live keys, in table order; does not force expiry.
    pub fn keys(&self) -> (ks: Vec<u64>)
        ensures
            ks@ == self.elements@.map_values(|s: Slot<V>| s.key),
    {
        let mut ks: Vec<u64> = Vec::new();
        let mut i: usize = 0;
        while i < self.elements.len()
            invariant
                i <= self.elements@.len(),
                ks@ == self.elements@.subrange(0, i as int).map_values(|s: Slot<V>| s.key),
            decreases self.elements@.len() - i,
        {
            ks.push(self.elements[i].key);
            i = i + 1;
            proof {
                assert(self.elements@.subrange(0, i as int).drop_last()
                    =~= self.elements@.subrange(0, i - 1 as int));
                assert(ks@ =~= self.elements@.subrange(0, i as int).map_values(
                    |s: Slot<V>| s.key,
                ));
            }
        }
        proof {
            assert(self.elements@.subrange(0, self.elements@.len() as int) =~= self.elements@);
        }
        ks
    }

    /// Index of the slot carrying `key`, if present.
    fn find_entry(&self, key: u64) -> (r: Option<usize>)
        ensures
            match r {
                Some(i) => i < self.elements@.len() && self.elements@[i as int].key == key,
                None => !has_key(self.elements@, key),
            },
    {
        let mut i: usize = 0;
        while i < self.elements.len()
            invariant
                i <= self.elements@.len(),
                forall|j: int| 0 <= j < i ==> (#[trigger] self.elements@[j]).key != key,
            decreases self.elements@.len() - i,
        {
            if self.elements[i].key == key {
                return Some(i);
            }
            i = i + 1;
        }
        None
    }

    /// Removes the bucket-index record of `key` at score `place`, if it is
    /// there; a bucket whose last record goes away ceases to exist.
    fn freq_remove_entry(&mut self, place: u64, key: u64)
        requires
            freq_keys_distinct(old(self).frequencies@),
        ensures
            freq_keys_distinct(final(self).frequencies@),
            forall|sc: u64, k: u64|
                #[trigger] in_freq(final(self).frequencies@, sc, k) == (in_freq(
                    old(self).frequencies@,
                    sc,
                    k,
                ) && !(sc == place && k == key)),
            final(self).elements == old(self).elements,
            final(self).capacity == old(self).capacity,
            final(self).max_size == old(self).max_size,
            final(self).cur_size == old(self).cur_size,
            final(self).min_frequency == old(self).min_frequency,
            final(self).age == old(self).age,
            final(self).policy == old(self).policy,
    {
        let mut i: usize = 0;
        while i < self.frequencies.len()
            invariant
                i <= self.frequencies@.len(),
                *self == *old(self),
                freq_keys_distinct(self.frequencies@),
                forall|j: int|
                    0 <= j < i ==> !((#[trigger] self.frequencies@[j]).score == place
                        && self.frequencies@[j].key == key),
            decreases self.frequencies@.len() - i,
        {
            if self.frequencies[i].score == place && self.frequencies[i].key == key {
                proof {
                    lemma_freq_remove(self.frequencies@, i as int);
                    assert forall|sc: u64|
                        sc != place implies !in_freq(old(self).frequencies@, sc, key) by {
                        if in_freq(old(self).frequencies@, sc, key) {
                            let j = choose|j: int|
                                0 <= j < old(self).frequencies@.len() && old(
                                    self,
                                ).frequencies@[j].score == sc && old(self).frequencies@[j].key
                                    == key;
                            assert(old(self).frequencies@[j].key == old(
                                self,
                            ).frequencies@[i as int].key);
                        }
                    }
                }
                self.frequencies.remove(i);
                proof {
                    assert forall|sc: u64, k: u64|
                        #[trigger] in_freq(self.frequencies@, sc, k) == (in_freq(
                            old(self).frequencies@,
                            sc,
                            k,
                        ) && !(sc == place && k == key)) by {
                        if k == key {
                            if in_freq(self.frequencies@, sc, k) {
                                let j = choose|j: int|
                                    0 <= j < self.frequencies@.len()
                                        && self.frequencies@[j].score == sc
                                        && self.frequencies@[j].key == k;
                                assert(freq_has_key(self.frequencies@, key));
                            }
                        }
                    }
                }
                return ;
            }
            i = i + 1;
        }
        proof {
            assert forall|sc: u64, k: u64|
                #[trigger] in_freq(self.frequencies@, sc, k) == (in_freq(
                    old(self).frequencies@,
                    sc,
                    k,
                ) && !(sc == place && k == key)) by {
                if sc == place && k == key {
                    if in_freq(self.frequencies@, sc, k) {
                        let j = choose|j: int|
                            0 <= j < self.frequencies@.len() && self.frequencies@[j].score == sc
                                && self.frequencies@[j].key == k;
                        assert(!(self.frequencies@[j].score == place && self.frequencies@[j].key
                            == key));
                    }
                }
            }
        }
    }

    /// Adds the bucket-index record `(score, key)`, creating the bucket at
    /// `score` if it did not exist.
    fn freq_insert(&mut self, score: u64, key: u64)
        requires
            freq_keys_distinct(old(self).frequencies@),
            !freq_has_key(old(self).frequencies@, key),
        ensures
            freq_keys_distinct(final(self).frequencies@),
            forall|sc: u64, k: u64|
                #[trigger] in_freq(final(self).frequencies@, sc, k) == (in_freq(
                    old(self).frequencies@,
                    sc,
                    k,
                ) || (sc == score && k == key)),
            final(self).elements == old(self).elements,
            final(self).capacity == old(self).capacity,
            final(self).max_size == old(self).max_size,
            final(self).cur_size == old(self).cur_size,
            final(self).min_frequency == old(self).min_frequency,
            final(self).age == old(self).age,
            final(self).policy == old(self).policy,
    {
        proof {
            lemma_freq_push(self.frequencies@, BucketEntry { score, key });
        }
        self.frequencies.push(BucketEntry { score, key });
    }

    /// The lowest score currently held by any bucket-index record.
    fn min_score(&self) -> (r: u64)
        requires
            self.frequencies@.len() > 0,
        ensures
            freq_has_score(self.frequencies@, r),
            forall|j: int| 0 <= j < self.frequencies@.len() ==> (#[trigger] self.frequencies@[j]).score >= r,
    {
        let mut m: u64 = self.frequencies[0].score;
        let mut i: usize = 1;
        while i < self.frequencies.len()
            invariant
                1 <= i <= self.frequencies@.len(),
                freq_has_score(self.frequencies@, m),
                forall|j: int| 0 <= j < i ==> (#[trigger] self.frequencies@[j]).score >= m,
            decreases self.frequencies@.len() - i,
        {
            if self.frequencies[i].score < m {
                m = self.frequencies[i].score;
                proof {
                    assert(self.frequencies@[i as int].score == m);
                }
            }
            i = i + 1;
        }
        m
    }

    /// Removes the slot at table index `i` through the full accounting
    /// path: entry table, bucket index, running total weight, and, while
    /// the cache stays non-empty, a fresh scan for the lowest score.
    fn remove_index(&mut self, i: usize) -> (s: Slot<V>)
        requires
            old(self).wf(),
            i < old(self).elements@.len(),
        ensures
            final(self).wf(),
            s == old(self).elements@[i as int],
            final(self).elements@ == old(self).elements@.remove(i as int),
            final(self).cur_size == old(self).cur_size - s.item.weight,
            final(self).capacity == old(self).capacity,
            final(self).max_size == old(self).max_size,
            final(self).age == old(self).age,
            final(self).policy == old(self).policy,
            !final(self).spec_contains(s.key),
            forall|k: u64|
                k != s.key ==> final(self).spec_contains(k) == old(self).spec_contains(k),
            forall|k: u64|
                k != s.key && old(self).spec_contains(k) ==> final(self).spec_get(k) == old(
                    self,
                ).spec_get(k),
    {
        let ghost es0 = self.elements@;
        let ghost fs0 = self.frequencies@;
        let place = self.elements[i].item.priority_key;
        let key = self.elements[i].key;
        proof {
            lemma_sum_remove(es0, i as int);
            lemma_sum_nonneg(es0.remove(i as int));
            lemma_slot_remove(es0, i as int);
            lemma_idx_of(es0, i as int, key);
        }
        let slot = self.elements.remove(i);
        self.cur_size = self.cur_size - slot.item.weight;
        self.freq_remove_entry(place, key);
        let ghost es = self.elements@;
        let ghost fs = self.frequencies@;
        proof {
            // The bucket index still matches the shrunken table.
            assert forall|j: int| 0 <= j < fs.len() implies {
                &&& has_key(es, (#[trigger] fs[j]).key)
                &&& es[idx_of(es, fs[j].key)].item.priority_key == fs[j].score
            } by {
                let rec = fs[j];
                assert(in_freq(fs, rec.score, rec.key));
                assert(in_freq(fs0, rec.score, rec.key));
                let j0 = choose|j0: int|
                    0 <= j0 < fs0.len() && fs0[j0].score == rec.score && fs0[j0].key == rec.key;
                assert(es0[idx_of(es0, fs0[j0].key)].item.priority_key == fs0[j0].score);
                if rec.key == key {
                    assert(rec.score == place);
                    assert(!(in_freq(fs, rec.score, rec.key)));
                }
            }
            assert forall|e: int| 0 <= e < es.len() implies in_freq(
                fs,
                (#[trigger] es[e]).item.priority_key,
                es[e].key,
            ) by {
                let e2: int = if e < i { e } else { e + 1 };
                assert(es[e] == es0[e2]);
                assert(in_freq(fs0, es0[e2].item.priority_key, es0[e2].key));
                assert(es[e].key != key);
            }
        }
        if self.elements.len() > 0 {
            proof {
                let e2: int = if 0 < i { 0 } else { 1 };
                assert(es[0] == es0[e2]);
                assert(in_freq(fs, es[0].item.priority_key, es[0].key));
            }
            let m = self.min_score();
            self.min_frequency = m;
            proof {
                assert forall|e: int| 0 <= e < es.len() implies (#[trigger] es[e]).item.priority_key
                    >= m by {
                    assert(in_freq(fs, es[e].item.priority_key, es[e].key));
                    let j = choose|j: int|
                        0 <= j < fs.len() && fs[j].score == es[e].item.priority_key && fs[j].key
                            == es[e].key;
                    assert(fs[j].score >= m);
                }
            }
        }
        slot
    }

    /// Removes `key` and returns its value, or returns nothing and leaves
    /// the cache untouched when `key` is absent.  The departing key and the
    /// returned value are what an eviction-notification hook would see.
    pub fn remove(&mut self, key: u64) -> (r: Option<V>)
        requires
            old(self).wf(),
        ensures
            final(self).wf(),
            final(self).capacity == old(self).capacity,
            final(self).max_size == old(self).max_size,
            final(self).age == old(self).age,
            final(self).policy == old(self).policy,
            match r {
                Some(v) => {
                    &&& old(self).spec_contains(key)
                    &&& v == old(self).spec_get(key)->0.value
                    &&& !final(self).spec_contains(key)
                    &&& final(self).elements@ == old(self).elements@.remove(
                        idx_of(old(self).elements@, key),
                    )
                    &&& final(self).cur_size == old(self).cur_size - old(self).spec_get(
                        key,
                    )->0.weight
                },
                None => {
                    &&& !old(self).spec_contains(key)
                    &&& *final(self) == *old(self)
                },
            },
            forall|k: u64|
                k != key ==> final(self).spec_contains(k) == old(self).spec_contains(k),
            forall|k: u64|
                k != key && old(self).spec_contains(k) ==> final(self).spec_get(k) == old(
                    self,
                ).spec_get(k),
    {
        match self.find_entry(key) {
            Some(i) => {
                proof {
                    lemma_idx_of(self.elements@, i as int, key);
                }
                let slot = self.remove_index(i);
                Some(slot.item.value)
            },
            None => None,
        }
    }

    /// The lazy expiry check shared by every accessor: when the entry under
    /// `key` is expired at `now` it is removed through the same accounting
    /// path as an explicit removal, silently (the returned value is only
    /// reported to the internal caller, which drops it).
    fn check_ttl(&mut self, key: u64, now: u64) -> (r: Option<V>)
        requires
            old(self).wf(),
        ensures
            final(self).wf(),
            final(self).capacity == old(self).capacity,
            final(self).max_size == old(self).max_size,
            final(self).age == old(self).age,
            final(self).policy == old(self).policy,
            if old(self).spec_contains(key) && spec_expired(old(self).spec_get(key)->0, now) {
                &&& r == Some(old(self).spec_get(key)->0.value)
                &&& !final(self).spec_contains(key)
                &&& final(self).elements@ == old(self).elements@.remove(
                    idx_of(old(self).elements@, key),
                )
                &&& final(self).cur_size == old(self).cur_size - old(self).spec_get(
                    key,
                )->0.weight
            } else {
                &&& r is None
                &&& *final(self) == *old(self)
            },
            forall|k: u64|
                k != key ==> final(self).spec_contains(k) == old(self).spec_contains(k),
            forall|k: u64|
                k != key && old(self).spec_contains(k) ==> final(self).spec_get(k) == old(
                    self,
                ).spec_get(k),
    {
        match self.find_entry(key) {
            None => None,
            Some(i) => {
                proof {
                    lemma_idx_of(self.elements@, i as int, key);
                }
                let expired: bool = match (
                    self.elements[i].item.creation_time,
                    self.elements[i].item.ttl,
                ) {
                    (Some(c), Some(t)) => now > c && now - c > t,
                    _ => false,
                };
                proof {
                    assert(expired == spec_expired(self.elements@[i as int].item, now));
                }
                if expired {
                    let slot = self.remove_index(i);
                    Some(slot.item.value)
                } else {
                    None
                }
            },
        }
    }

    /// The promoting access: raises the entry's hit count by one
    /// (saturating at `u64::MAX`), recomputes its priority score under the
    /// active policy and the current age, moves its bucket-index record to
    /// the bucket of the new score, and re-establishes the tracked minimum.
    fn increment(&mut self, key: u64)
        requires
            old(self).wf(),
            old(self).spec_contains(key),
        ensures
            final(self).wf(),
            final(self).elements@ == old(self).elements@.update(
                idx_of(old(self).elements@, key),
                (Slot {
                    key,
                    item: Item {
                        value: old(self).spec_get(key)->0.value,
                        weight: old(self).spec_get(key)->0.weight,
                        hits: sat_add(old(self).spec_get(key)->0.hits, 1),
                        priority_key: spec_priority(
                            old(self).policy,
                            sat_add(old(self).spec_get(key)->0.hits, 1),
                            old(self).spec_get(key)->0.weight,
                            old(self).age,
                        ),
                        creation_time: old(self).spec_get(key)->0.creation_time,
                        ttl: old(self).spec_get(key)->0.ttl,
                    },
                }),
            ),
            final(self).cur_size == old(self).cur_size,
            final(self).capacity == old(self).capacity,
            final(self).max_size == old(self).max_size,
            final(self).age == old(self).age,
            final(self).policy == old(self).policy,
            forall|k: u64| final(self).spec_contains(k) == old(self).spec_contains(k),
            forall|k: u64|
                k != key && old(self).spec_contains(k) ==> final(self).spec_get(k) == old(
                    self,
                ).spec_get(k),
    {
        let ghost es0 = self.elements@;
        let ghost fs0 = self.frequencies@;
        let i = match self.find_entry(key) {
            Some(i) => i,
            None => {
                proof {
                    assert(false);
                }
                0
            },
        };
        proof {
            lemma_idx_of(es0, i as int, key);
        }
        let old_p = self.elements[i].item.priority_key;
        let h = self.elements[i].item.hits;
        let new_h: u64 = if h == u64::MAX {
            u64::MAX
        } else {
            h + 1
        };
        let mut slot = self.elements.remove(i);
        slot.item.hits = new_h;
        let np = calculate_policy(self.policy, &slot.item, self.age);
        slot.item.priority_key = np;
        let ghost slotg = slot;
        self.elements.insert(i, slot);
        let ghost es = self.elements@;
        proof {
            assert(es =~= es0.update(i as int, slotg));
            lemma_slot_update(es0, i as int, slotg);
            lemma_sum_update(es0, i as int, slotg);
        }
        self.freq_remove_entry(old_p, key);
        let ghost fs1 = self.frequencies@;
        proof {
            assert forall|sc: u64| !in_freq(fs1, sc, key) by {
                if in_freq(fs1, sc, key) {
                    assert(in_freq(fs0, sc, key));
                    let j0 = choose|j0: int|
                        0 <= j0 < fs0.len() && fs0[j0].score == sc && fs0[j0].key == key;
                    assert(es0[idx_of(es0, fs0[j0].key)].item.priority_key == fs0[j0].score);
                    assert(sc == old_p);
                }
            }
            if freq_has_key(fs1, key) {
                let j = choose|j: int| 0 <= j < fs1.len() && fs1[j].key == key;
                assert(in_freq(fs1, fs1[j].score, key));
            }
        }
        self.freq_insert(np, key);
        let ghost fs = self.frequencies@;
        proof {
            assert(in_freq(fs, np, key));
        }
        let m = self.min_score();
        self.min_frequency = m;
        proof {
            assert forall|j: int| 0 <= j < fs.len() implies {
                &&& has_key(es, (#[trigger] fs[j]).key)
                &&& es[idx_of(es, fs[j].key)].item.priority_key == fs[j].score
            } by {
                let rec = fs[j];
                assert(in_freq(fs, rec.score, rec.key));
                if rec.score == np && rec.key == key {
                    assert(es[idx_of(es, key)] == slotg);
                } else {
                    assert(in_freq(fs1, rec.score, rec.key));
                    assert(in_freq(fs0, rec.score, rec.key));
                    assert(rec.key != key);
                    let j0 = choose|j0: int|
                        0 <= j0 < fs0.len() && fs0[j0].score == rec.score && fs0[j0].key
                            == rec.key;
                    assert(es0[idx_of(es0, fs0[j0].key)].item.priority_key == fs0[j0].score);
                }
            }
            assert forall|e: int| 0 <= e < es.len() implies in_freq(
                fs,
                (#[trigger] es[e]).item.priority_key,
                es[e].key,
            ) by {
                if e == i {
                    assert(es[e] == slotg);
                } else {
                    assert(es[e] == es0[e]);
                    assert(in_freq(fs0, es0[e].item.priority_key, es0[e].key));
                    assert(es0[e].key != key);
                }
            }
            assert forall|e: int| 0 <= e < es.len() implies (#[trigger] es[e]).item.priority_key
                >= m by {
                assert(in_freq(fs, es[e].item.priority_key, es[e].key));
                let j = choose|j: int|
                    0 <= j < fs.len() && fs[j].score == es[e].item.priority_key && fs[j].key
                        == es[e].key;
                assert(fs[j].score >= m);
            }
        }
    }

    /// Index of some bucket-index record at the tracked minimum score.
    fn find_min_record(&self) -> (j: usize)
        requires
            freq_has_score(self.frequencies@, self.min_frequency),
        ensures
            j < self.frequencies@.len(),
            self.frequencies@[j as int].score == self.min_frequency,
    {
        let mut j: usize = 0;
        while j < self.frequencies.len()
            invariant
                j <= self.frequencies@.len(),
                forall|l: int|
                    0 <= l < j ==> (#[trigger] self.frequencies@[l]).score
                        != self.min_frequency,
            decreases self.frequencies@.len() - j,
        {
            if self.frequencies[j].score == self.min_frequency {
                return j;
            }
            j = j + 1;
        }
        proof {
            let w = choose|w: int|
                0 <= w < self.frequencies@.len() && self.frequencies@[w].score
                    == self.min_frequency;
            assert(false);
        }
        0
    }

    /// Evicts one entry holding the lowest priority score (the choice among
    /// equal scores is unspecified), after raising the aging counter to at
    /// least that score; the removal runs through the same path as an
    /// explicit removal.  Returns the departing key and value so the caller
    /// can hand them to an eviction-notification hook.
    fn evict(&mut self) -> (r: (u64, V))
        requires
            old(self).wf(),
            old(self).elements@.len() > 0,
        ensures
            final(self).wf(),
            old(self).spec_contains(r.0),
            r.1 == old(self).spec_get(r.0)->0.value,
            old(self).spec_get(r.0)->0.priority_key == old(self).min_frequency,
            !final(self).spec_contains(r.0),
            final(self).elements@.len() == old(self).elements@.len() - 1,
            final(self).cur_size == old(self).cur_size - old(self).spec_get(r.0)->0.weight,
            final(self).age == (if old(self).age < old(self).min_frequency {
                old(self).min_frequency
            } else {
                old(self).age
            }),
            final(self).capacity == old(self).capacity,
            final(self).max_size == old(self).max_size,
            final(self).policy == old(self).policy,
            forall|k: u64|
                k != r.0 ==> final(self).spec_contains(k) == old(self).spec_contains(k),
            forall|k: u64|
                k != r.0 && old(self).spec_contains(k) ==> final(self).spec_get(k) == old(
                    self,
                ).spec_get(k),
    {
        let j = self.find_min_record();
        let key = self.frequencies[j].key;
        let i = match self.find_entry(key) {
            Some(i) => i,
            None => {
                proof {
                    assert(has_key(self.elements@, self.frequencies@[j as int].key));
                    assert(false);
                }
                0
            },
        };
        proof {
            lemma_idx_of(self.elements@, i as int, key);
            assert(self.elements@[idx_of(self.elements@, self.frequencies@[j as int].key)]
                .item.priority_key == self.frequencies@[j as int].score);
        }
        let p = self.elements[i].item.priority_key;
        if self.age < p {
            self.age = p;
        }
        let slot = self.remove_index(i);
        (key, slot.item.value)
    }

    /// Sweeps every live key once, forcing the lazy expiry check for each:
    /// the table afterwards holds exactly the entries that were not expired
    /// at `now`, in order.  Unlike the silent expiry of ordinary accesses,
    /// the removed key/value pairs are returned (in table order) so the
    /// caller can hand each to an eviction-notification hook, as an
    /// explicit removal would.  A second sweep at the same instant removes
    /// nothing and returns no pairs.
    pub fn remove_expired(&mut self, now: u64) -> (r: Vec<(u64, V)>)
        requires
            old(self).wf(),
        ensures
            final(self).wf(),
            final(self).capacity == old(self).capacity,
            final(self).max_size == old(self).max_size,
            final(self).age == old(self).age,
            final(self).policy == old(self).policy,
            final(self).elements@ == sweep_entries(old(self).elements@, now),
            r@ == sweep_removed(old(self).elements@, now),
            forall|e: int|
                0 <= e < final(self).elements@.len() ==> !spec_expired(
                    (#[trigger] final(self).elements@[e]).item,
                    now,
                ),
            forall|k: u64|
                #[trigger] final(self).spec_contains(k) ==> old(self).spec_contains(k)
                    && final(self).spec_get(k) == old(self).spec_get(k),
            (forall|e: int|
                0 <= e < old(self).elements@.len() ==> !spec_expired(
                    (#[trigger] old(self).elements@[e]).item,
                    now,
                )) ==> *final(self) == *old(self) && r@.len() == 0,
    {
        let ghost es0 = self.elements@;
        let mut out: Vec<(u64, V)> = Vec::new();
        let mut i: usize = 0;
        let ghost mut k: int = 0;
        #[verifier::loop_isolation(false)]
        while i < self.elements.len()
            invariant
                self.wf(),
                self.capacity == old(self).capacity,
                self.max_size == old(self).max_size,
                self.age == old(self).age,
                self.policy == old(self).policy,
                0 <= k <= es0.len(),
                i == sweep_entries(es0.take(k), now).len(),
                self.elements@ == sweep_entries(es0.take(k), now) + es0.skip(k),
                out@ == sweep_removed(es0.take(k), now),
                out@.len() == 0 ==> *self == *old(self),
                forall|k2: u64|
                    #[trigger] self.spec_contains(k2) ==> old(self).spec_contains(k2)
                        && self.spec_get(k2) == old(self).spec_get(k2),
            decreases es0.len() - k,
        {
            let ghost pre = self.elements@;
            let ghost prefix = sweep_entries(es0.take(k), now);
            proof {
                assert(pre[i as int] == es0.skip(k)[0]);
                assert(es0.skip(k)[0] == es0[k]);
                assert(es0.take(k + 1).drop_last() =~= es0.take(k));
                assert(es0.take(k + 1).last() == es0[k]);
                assert(sweep_entries(es0.take(k + 1), now) == (if spec_expired(
                    es0[k].item,
                    now,
                ) {
                    prefix
                } else {
                    prefix.push(es0[k])
                }));
            }
            let expired: bool = match (
                self.elements[i].item.creation_time,
                self.elements[i].item.ttl,
            ) {
                (Some(c), Some(t)) => now > c && now - c > t,
                _ => false,
            };
            proof {
                assert(expired == spec_expired(es0[k].item, now));
            }
            if expired {
                let slot = self.remove_index(i);
                let ghost slotg = slot;
                out.push((slot.key, slot.item.value));
                proof {
                    assert(slotg == es0[k]);
                    assert(self.elements@ =~= prefix + es0.skip(k + 1));
                    assert(out@ =~= sweep_removed(es0.take(k + 1), now));
                    k = k + 1;
                }
            } else {
                i = i + 1;
                proof {
                    assert(self.elements@ =~= sweep_entries(es0.take(k + 1), now) + es0.skip(
                        k + 1,
                    ));
                    k = k + 1;
                }
            }
        }
        proof {
            assert(es0.take(k) =~= es0);
            assert(es0.skip(k) =~= Seq::<Slot<V>>::empty());
            assert(self.elements@ =~= sweep_entries(es0, now));
            lemma_sweep_no_expired(es0, now);
            if forall|e: int|
                0 <= e < es0.len() ==> !spec_expired((#[trigger] es0[e]).item, now) {
                lemma_sweep_all_live(es0, now);
            }
        }
        out
    }

    /// Reports whether `key` is present and unexpired at `now`.  The lazy
    /// expiry check runs first, so an expired key reports absent and is
    /// removed (silently) as a side effect.
    pub fn contains(&mut self, key: u64, now: u64) -> (r: bool)
        requires
            old(self).wf(),
        ensures
            final(self).wf(),
            r == old(self).spec_live(key, now),
            final(self).capacity == old(self).capacity,
            final(self).max_size == old(self).max_size,
            final(self).age == old(self).age,
            final(self).policy == old(self).policy,
            old(self).spec_live(key, now) || !old(self).spec_contains(key) ==> *final(self)
                == *old(self),
            !old(self).spec_live(key, now) ==> !final(self).spec_contains(key),
            forall|k: u64|
                k != key ==> final(self).spec_contains(k) == old(self).spec_contains(k),
            forall|k: u64|
                k != key && old(self).spec_contains(k) ==> final(self).spec_get(k) == old(
                    self,
                ).spec_get(k),
    {
        let _ = self.check_ttl(key, now);
        match self.find_entry(key) {
            Some(_) => true,
            None => false,
        }
    }

    /// A reference to the value under `key` without promotion: hit count,
    /// score and bucket position stay untouched.  The lazy expiry check
    /// still runs first.
    pub fn peek(&mut self, key: u64, now: u64) -> (r: Option<&V>)
        requires
            old(self).wf(),
        ensures
            final(self).wf(),
            final(self).capacity == old(self).capacity,
            final(self).max_size == old(self).max_size,
            final(self).age == old(self).age,
            final(self).policy == old(self).policy,
            r is Some <==> old(self).spec_live(key, now),
            match r {
                Some(v) => *v == old(self).spec_get(key)->0.value && *final(self) == *old(self),
                None => !final(self).spec_contains(key),
            },
            !old(self).spec_contains(key) ==> *final(self) == *old(self),
            forall|k: u64|
                k != key ==> final(self).spec_contains(k) == old(self).spec_contains(k),
            forall|k: u64|
                k != key && old(self).spec_contains(k) ==> final(self).spec_get(k) == old(
                    self,
                ).spec_get(k),
    {
        let _ = self.check_ttl(key, now);
        match self.find_entry(key) {
            Some(i) => {
                proof {
                    lemma_idx_of(self.elements@, i as int, key);
                }
                Some(&self.elements[i].item.value)
            },
            None => None,
        }
    }

    /// A mutable reference to the value under `key` without promotion: hit
    /// count, score and bucket position stay untouched, and only the
    /// stored value can change through the reference.  The lazy expiry
    /// check still runs first.
    pub fn peek_mut(&mut self, key: u64, now: u64) -> (r: Option<&mut V>)
        requires
            old(self).wf(),
        ensures
            final(self).capacity == old(self).capacity,
            final(self).max_size == old(self).max_size,
            final(self).age == old(self).age,
            final(self).policy == old(self).policy,
            r is Some <==> old(self).spec_live(key, now),
            match r {
                Some(v) => {
                    &&& *v == old(self).spec_get(key)->0.value
                    &&& final(self).wf()
                    &&& final(self).frequencies == old(self).frequencies
                    &&& final(self).cur_size == old(self).cur_size
                    &&& final(self).min_frequency == old(self).min_frequency
                    &&& final(self).elements@ == old(self).elements@.update(
                        idx_of(old(self).elements@, key),
                        with_value(
                            old(self).elements@[idx_of(old(self).elements@, key)],
                            *final(v),
                        ),
                    )
                },
                None => {
                    &&& final(self).wf()
                    &&& !final(self).spec_contains(key)
                    &&& forall|k: u64|
                        k != key ==> final(self).spec_contains(k) == old(self).spec_contains(k)
                    &&& forall|k: u64|
                        k != key && old(self).spec_contains(k) ==> final(self).spec_get(k)
                            == old(self).spec_get(k)
                },
            },
            !old(self).spec_contains(key) ==> *final(self) == *old(self),
    {
        let _ = self.check_ttl(key, now);
        match self.find_entry(key) {
            Some(i) => {
                let ghost es0 = self.elements@;
                proof {
                    lemma_idx_of(es0, i as int, key);
                    assert forall|v2: V|
                        #![trigger with_value(es0[i as int], v2)]
                        {
                            &&& wf_state(
                                es0.update(i as int, with_value(es0[i as int], v2)),
                                self.frequencies@,
                                self.cur_size,
                                self.min_frequency,
                                self.capacity,
                                self.max_size,
                            )
                        } by {
                        lemma_value_update_wf(
                            es0,
                            self.frequencies@,
                            self.cur_size,
                            self.min_frequency,
                            self.capacity,
                            self.max_size,
                            i as int,
                            v2,
                        );
                    }
                }
                Some(&mut self.elements[i].item.value)
            },
            None => None,
        }
    }

    /// Looks `key` up and promotes it: the hit count rises by one
    /// (saturating), the score is recomputed under the active policy, and
    /// the entry moves to the bucket of its new score.  Absent or lazily
    /// expired keys return nothing.
    pub fn get(&mut self, key: u64, now: u64) -> (r: Option<&V>)
        requires
            old(self).wf(),
        ensures
            final(self).wf(),
            final(self).capacity == old(self).capacity,
            final(self).max_size == old(self).max_size,
            final(self).age == old(self).age,
            final(self).policy == old(self).policy,
            r is Some <==> old(self).spec_live(key, now),
            match r {
                Some(v) => {
                    &&& *v == old(self).spec_get(key)->0.value
                    &&& final(self).cur_size == old(self).cur_size
                    &&& final(self).spec_get(key) == Some(
                        Item {
                            value: old(self).spec_get(key)->0.value,
                            weight: old(self).spec_get(key)->0.weight,
                            hits: sat_add(old(self).spec_get(key)->0.hits, 1),
                            priority_key: spec_priority(
                                old(self).policy,
                                sat_add(old(self).spec_get(key)->0.hits, 1),
                                old(self).spec_get(key)->0.weight,
                                old(self).age,
                            ),
                            creation_time: old(self).spec_get(key)->0.creation_time,
                            ttl: old(self).spec_get(key)->0.ttl,
                        },
                    )
                },
                None => !final(self).spec_contains(key),
            },
            !old(self).spec_contains(key) ==> *final(self) == *old(self),
            forall|k: u64|
                k != key ==> final(self).spec_contains(k) == old(self).spec_contains(k),
            forall|k: u64|
                k != key && old(self).spec_contains(k) ==> final(self).spec_get(k) == old(
                    self,
                ).spec_get(k),
    {
        let _ = self.check_ttl(key, now);
        match self.find_entry(key) {
            Some(i) => {
                proof {
                    lemma_idx_of(self.elements@, i as int, key);
                }
                self.increment(key);
                proof {
                    assert(final(self).elements@[i as int].key == key);
                    lemma_idx_of(final(self).elements@, i as int, key);
                }
                Some(&self.elements[i].item.value)
            },
            None => None,
        }
    }

    /// Refreshes the entry at table index `i` (which holds `key`) in place:
    /// value, weight, time-to-live and creation time are all replaced, the
    /// running total weight is adjusted by the weight difference, and the
    /// entry is then promoted, so its hit count keeps accumulating.
    fn commit_overwrite(
        &mut self,
        i: usize,
        key: u64,
        value: V,
        weight: u64,
        ttl: Option<u64>,
        now: u64,
    )
        requires
            old(self).wf(),
            i < old(self).elements@.len(),
            old(self).elements@[i as int].key == key,
            old(self).max_size matches Some(m) ==> old(self).cur_size - old(
                self,
            ).elements@[i as int].item.weight + weight <= m,
            old(self).max_size is None ==> old(self).cur_size + weight <= u64::MAX,
        ensures
            final(self).wf(),
            final(self).capacity == old(self).capacity,
            final(self).max_size == old(self).max_size,
            final(self).age == old(self).age,
            final(self).policy == old(self).policy,
            final(self).cur_size == old(self).cur_size - old(
                self,
            ).elements@[i as int].item.weight + weight,
            final(self).elements@.len() == old(self).elements@.len(),
            final(self).spec_get(key) == Some(
                Item {
                    value,
                    weight,
                    hits: sat_add(old(self).elements@[i as int].item.hits, 1),
                    priority_key: spec_priority(
                        old(self).policy,
                        sat_add(old(self).elements@[i as int].item.hits, 1),
                        weight,
                        old(self).age,
                    ),
                    creation_time: if ttl is Some {
                        Some(now)
                    } else {
                        None::<u64>
                    },
                    ttl,
                },
            ),
            forall|k: u64| final(self).spec_contains(k) == old(self).spec_contains(k),
            forall|k: u64|
                k != key && old(self).spec_contains(k) ==> final(self).spec_get(k) == old(
                    self,
                ).spec_get(k),
    {
        let ghost es1 = self.elements@;
        proof {
            lemma_idx_of(es1, i as int, key);
            lemma_sum_element_le(es1, i as int);
        }
        let old_w = self.elements[i].item.weight;
        let mut slot = self.elements.remove(i);
        slot.item.weight = weight;
        slot.item.value = value;
        slot.item.ttl = ttl;
        slot.item.creation_time = if ttl.is_some() {
            Some(now)
        } else {
            None
        };
        let ghost slotg = slot;
        self.elements.insert(i, slot);
        proof {
            assert(self.elements@ =~= es1.update(i as int, slotg));
            lemma_slot_update(es1, i as int, slotg);
            lemma_sum_update(es1, i as int, slotg);
        }
        self.cur_size = self.cur_size - old_w + weight;
        proof {
            let es = self.elements@;
            let fs = self.frequencies@;
            assert forall|j: int| 0 <= j < fs.len() implies {
                &&& has_key(es, (#[trigger] fs[j]).key)
                &&& es[idx_of(es, fs[j].key)].item.priority_key == fs[j].score
            } by {
                let rec = fs[j];
                assert(has_key(es1, rec.key));
                assert(es1[idx_of(es1, rec.key)].item.priority_key == rec.score);
                if rec.key == key {
                    assert(idx_of(es1, key) == i);
                    assert(es[idx_of(es, key)] == slotg);
                }
            }
            assert forall|e: int| 0 <= e < es.len() implies in_freq(
                fs,
                (#[trigger] es[e]).item.priority_key,
                es[e].key,
            ) by {
                if e == i {
                    assert(es[e] == slotg);
                    assert(es1[e].item.priority_key == slotg.item.priority_key);
                    assert(in_freq(fs, es1[e].item.priority_key, es1[e].key));
                } else {
                    assert(es[e] == es1[e]);
                }
            }
            assert forall|e: int|
                0 <= e < es.len() && es.len() > 0 implies (#[trigger] es[e]).item.priority_key
                    >= self.min_frequency by {
                if e == i {
                    assert(es1[e].item.priority_key == slotg.item.priority_key);
                } else {
                    assert(es[e] == es1[e]);
                }
            }
            assert(self.wf());
        }
        let ghost c3 = *self;
        self.increment(key);
        proof {
            assert(c3.spec_get(key) == Some(slotg.item));
            assert(idx_of(c3.elements@, key) == i);
            assert(self.elements@[i as int].key == key);
            lemma_idx_of(self.elements@, i as int, key);
            assert(self.spec_get(key) == Some(self.elements@[i as int].item));
            assert forall|k: u64|
                self.spec_contains(k) == old(self).spec_contains(k) by {
                assert(has_key(c3.elements@, k) == has_key(es1, k));
                assert(self.spec_contains(k) == c3.spec_contains(k));
            }
            assert forall|k: u64|
                k != key && old(self).spec_contains(k) implies self.spec_get(k) == old(
                    self,
                ).spec_get(k) by {
                assert(c3.elements@[idx_of(c3.elements@, k)] == es1[idx_of(es1, k)]);
                assert(c3.spec_get(k) == old(self).spec_get(k));
                assert(self.spec_get(k) == c3.spec_get(k));
            }
        }
    }

    /// Creates a brand-new entry under the absent `key`: it starts with one
    /// hit (the promoting access of its insert), a score computed from the
    /// active policy and the current age, and a bucket-index record at that
    /// score.
    fn commit_fresh(&mut self, key: u64, value: V, weight: u64, ttl: Option<u64>, now: u64)
        requires
            old(self).wf(),
            !old(self).spec_contains(key),
            old(self).max_size matches Some(m) ==> old(self).cur_size + weight <= m,
            old(self).max_size is None ==> old(self).cur_size + weight <= u64::MAX,
            old(self).capacity matches Some(c) ==> old(self).elements@.len() < c,
        ensures
            final(self).wf(),
            final(self).capacity == old(self).capacity,
            final(self).max_size == old(self).max_size,
            final(self).age == old(self).age,
            final(self).policy == old(self).policy,
            final(self).cur_size == old(self).cur_size + weight,
            final(self).elements@.len() == old(self).elements@.len() + 1,
            final(self).spec_contains(key),
            final(self).spec_get(key) == Some(
                Item {
                    value,
                    weight,
                    hits: 1u64,
                    priority_key: spec_priority(old(self).policy, 1u64, weight, old(self).age),
                    creation_time: if ttl is Some {
                        Some(now)
                    } else {
                        None::<u64>
                    },
                    ttl,
                },
            ),
            forall|k: u64|
                k != key ==> final(self).spec_contains(k) == old(self).spec_contains(k),
            forall|k: u64|
                k != key && old(self).spec_contains(k) ==> final(self).spec_get(k) == old(
                    self,
                ).spec_get(k),
    {
        let creation: Option<u64> = if ttl.is_some() {
            Some(now)
        } else {
            None
        };
        let mut item = Item { value, weight, hits: 1, priority_key: 0, creation_time: creation, ttl };
        let np = calculate_policy(self.policy, &item, self.age);
        item.priority_key = np;
        let ghost c2 = *self;
        let slot = Slot { key, item };
        let ghost slotg = slot;
        proof {
            lemma_slot_push(c2.elements@, slotg);
            lemma_sum_push(c2.elements@, slotg);
            lemma_sum_nonneg(c2.elements@);
        }
        self.elements.push(slot);
        self.cur_size = self.cur_size + weight;
        proof {
            if freq_has_key(self.frequencies@, key) {
                let j = choose|j: int|
                    0 <= j < self.frequencies@.len() && self.frequencies@[j].key == key;
                assert(has_key(c2.elements@, key));
            }
        }
        self.freq_insert(np, key);
        let ghost fs = self.frequencies@;
        let ghost es = self.elements@;
        proof {
            assert(in_freq(fs, np, key));
        }
        let m = self.min_score();
        self.min_frequency = m;
        proof {
            assert forall|j: int| 0 <= j < fs.len() implies {
                &&& has_key(es, (#[trigger] fs[j]).key)
                &&& es[idx_of(es, fs[j].key)].item.priority_key == fs[j].score
            } by {
                let rec = fs[j];
                assert(in_freq(fs, rec.score, rec.key));
                if rec.score == np && rec.key == key {
                    assert(es[idx_of(es, key)] == slotg);
                } else {
                    assert(in_freq(c2.frequencies@, rec.score, rec.key));
                    let j0 = choose|j0: int|
                        0 <= j0 < c2.frequencies@.len() && c2.frequencies@[j0].score == rec.score
                            && c2.frequencies@[j0].key == rec.key;
                    assert(has_key(c2.elements@, rec.key));
                    assert(rec.key != key);
                }
            }
            assert forall|e: int| 0 <= e < es.len() implies in_freq(
                fs,
                (#[trigger] es[e]).item.priority_key,
                es[e].key,
            ) by {
                if e == es.len() - 1 {
                    assert(es[e] == slotg);
                } else {
                    assert(es[e] == c2.elements@[e]);
                    assert(in_freq(
                        c2.frequencies@,
                        c2.elements@[e].item.priority_key,
                        c2.elements@[e].key,
                    ));
                    assert(c2.elements@[e].key != key);
                }
            }
            assert forall|e: int| 0 <= e < es.len() implies (#[trigger] es[e]).item.priority_key
                >= m by {
                assert(in_freq(fs, es[e].item.priority_key, es[e].key));
                let j = choose|j: int|
                    0 <= j < fs.len() && fs[j].score == es[e].item.priority_key && fs[j].key
                        == es[e].key;
                assert(fs[j].score >= m);
            }
            assert(self.wf());
            assert(self.spec_get(key) == Some(slotg.item));
            assert forall|k: u64|
                k != key implies self.spec_contains(k) == old(self).spec_contains(k) by {
                assert(has_key(self.elements@, k) == has_key(c2.elements@, k));
            }
            assert forall|k: u64|
                k != key && old(self).spec_contains(k) implies self.spec_get(k) == old(
                    self,
                ).spec_get(k) by {
                assert(self.elements@[idx_of(self.elements@, k)] == c2.elements@[idx_of(
                    c2.elements@,
                    k,
                )]);
            }
        }
    }

    /// Inserts or overwrites the entry under `key`.
    ///
    /// When a total-weight bound is configured and `weight` alone exceeds
    /// it, the call fails with [`CacheError::WeightExceedsCapacity`] and
    /// the cache is left unchanged; this is the only failure.  Otherwise
    /// the engine first evicts lowest-score entries until admitting
    /// `weight` (net of any weight already held under `key`) fits the
    /// weight bound, then — for a new key — until the entry-count bound
    /// has room; the entry is then created or refreshed (value, weight,
    /// time-to-live and creation time all anew) and promoted, so an
    /// overwritten key keeps accumulating hits while a fresh key starts at
    /// one.  The returned pairs are the evicted entries, in eviction
    /// order, for the caller's eviction-notification hook.
    ///
    /// An entry-count bound of zero can admit nothing and is excluded, as
    /// is, with no weight bound configured, a total weight that would no
    /// longer fit the counter.
    #[verifier::rlimit(100)]
    pub fn insert(&mut self, key: u64, value: V, weight: u64, ttl: Option<u64>, now: u64) -> (r:
        Result<Vec<(u64, V)>, CacheError>)
        requires
            old(self).wf(),
            old(self).capacity != Some(0usize),
            old(self).max_size is None ==> old(self).cur_size + weight <= u64::MAX,
        ensures
            final(self).capacity == old(self).capacity,
            final(self).max_size == old(self).max_size,
            final(self).policy == old(self).policy,
            match r {
                Err(e) => {
                    &&& e == CacheError::WeightExceedsCapacity
                    &&& old(self).max_size matches Some(m) && weight > m
                    &&& *final(self) == *old(self)
                },
                Ok(ev) => {
                    &&& (old(self).max_size matches Some(m) ==> weight <= m)
                    &&& final(self).wf()
                    &&& final(self).age >= old(self).age
                    &&& final(self).spec_contains(key)
                    &&& final(self).spec_get(key)->0.value == value
                    &&& final(self).spec_get(key)->0.weight == weight
                    &&& final(self).spec_get(key)->0.ttl == ttl
                    &&& final(self).spec_get(key)->0.creation_time == (if ttl is Some {
                        Some(now)
                    } else {
                        None::<u64>
                    })
                    &&& final(self).spec_get(key)->0.hits == (if old(self).spec_contains(key)
                        && !evicted_keys(ev@).contains(key) {
                        sat_add(old(self).spec_get(key)->0.hits, 1)
                    } else {
                        sat_add(0, 1)
                    })
                    &&& final(self).spec_get(key)->0.priority_key == spec_priority(
                        old(self).policy,
                        final(self).spec_get(key)->0.hits,
                        weight,
                        final(self).age,
                    )
                    &&& forall|k: u64|
                        k != key && final(self).spec_contains(k) ==> old(self).spec_contains(k)
                            && final(self).spec_get(k) == old(self).spec_get(k)
                    &&& forall|k: u64|
                        k != key && old(self).spec_contains(k) && !evicted_keys(ev@).contains(k)
                            ==> final(self).spec_contains(k)
                    &&& forall|j: int|
                        0 <= j < ev@.len() ==> old(self).spec_contains((#[trigger] ev@[j]).0)
                            && ev@[j].1 == old(self).spec_get(ev@[j].0)->0.value
                    &&& forall|j: int|
                        0 <= j < ev@.len() && (#[trigger] ev@[j]).0 != key
                            ==> !final(self).spec_contains(ev@[j].0)
                },
            },
    {
        let ghost c0 = *self;
        let mut evicted: Vec<(u64, V)> = Vec::new();
        if let Some(ms) = self.max_size {
            if weight > ms {
                return Err(CacheError::WeightExceedsCapacity);
            }
            loop
                invariant
                    self.wf(),
                    self.capacity == c0.capacity,
                    self.max_size == c0.max_size,
                    self.policy == c0.policy,
                    self.max_size == Some(ms),
                    weight <= ms,
                    self.age >= c0.age,
                    self.cur_size <= c0.cur_size,
                    forall|k: u64|
                        #[trigger] self.spec_contains(k) ==> c0.spec_contains(k)
                            && self.spec_get(k) == c0.spec_get(k),
                    forall|k: u64|
                        c0.spec_contains(k) && !evicted_keys(evicted@).contains(k)
                            ==> #[trigger] self.spec_contains(k),
                    forall|j: int|
                        0 <= j < evicted@.len() ==> c0.spec_contains((#[trigger] evicted@[j]).0)
                            && evicted@[j].1 == c0.spec_get(evicted@[j].0)->0.value && !self
                            .spec_contains(evicted@[j].0),
                ensures
                    self.wf(),
                    self.capacity == c0.capacity,
                    self.max_size == c0.max_size,
                    self.policy == c0.policy,
                    self.age >= c0.age,
                    self.cur_size <= c0.cur_size,
                    self.cur_size - spec_existing_weight(*self, key) + weight <= ms,
                    forall|k: u64|
                        #[trigger] self.spec_contains(k) ==> c0.spec_contains(k)
                            && self.spec_get(k) == c0.spec_get(k),
                    forall|k: u64|
                        c0.spec_contains(k) && !evicted_keys(evicted@).contains(k)
                            ==> #[trigger] self.spec_contains(k),
                    forall|j: int|
                        0 <= j < evicted@.len() ==> c0.spec_contains((#[trigger] evicted@[j]).0)
                            && evicted@[j].1 == c0.spec_get(evicted@[j].0)->0.value && !self
                            .spec_contains(evicted@[j].0),
                decreases self.elements@.len(),
            {
                let ex: u64 = match self.find_entry(key) {
                    Some(i) => {
                        proof {
                            lemma_idx_of(self.elements@, i as int, key);
                            lemma_sum_element_le(self.elements@, i as int);
                        }
                        self.elements[i].item.weight
                    },
                    None => 0,
                };
                proof {
                    assert(ex == spec_existing_weight(*self, key));
                    lemma_sum_nonneg(self.elements@);
                }
                if self.cur_size - ex <= ms - weight {
                    break ;
                }
                proof {
                    if self.elements@.len() == 0 {
                        assert(sum_weights(self.elements@) == 0);
                        assert(false);
                    }
                }
                let p = self.evict();
                let ghost pg = p;
                let ghost ev0 = evicted@;
                evicted.push(p);
                proof {
                    assert(evicted@ == ev0.push(pg));
                    let evk0 = evicted_keys(ev0);
                    let evk = evicted_keys(evicted@);
                    assert(evk =~= evk0.push(pg.0));
                    assert(forall|j: int| 0 <= j < ev0.len() ==> #[trigger] evicted@[j] == ev0[j]);
                    assert forall|k: u64|
                        c0.spec_contains(k) && !evk.contains(k)
                            implies #[trigger] self.spec_contains(k) by {
                        assert(evk[evk0.len() as int] == pg.0);
                        if k == pg.0 {
                            assert(evk.contains(k));
                        }
                        if evk0.contains(k) {
                            let j = choose|j: int| 0 <= j < evk0.len() && evk0[j] == k;
                            assert(evk[j] == k);
                            assert(evk.contains(k));
                        }
                    }
                }
            }
        }
        let ghost c1 = *self;
        proof {
            assert(forall|k: u64|
                #[trigger] c1.spec_contains(k) ==> c0.spec_contains(k) && c1.spec_get(k)
                    == c0.spec_get(k));
        }
        match self.find_entry(key) {
            Some(i) => {
                proof {
                    lemma_idx_of(self.elements@, i as int, key);
                    assert(spec_existing_weight(c1, key) == c1.elements@[i as int].item.weight);
                }
                self.commit_overwrite(i, key, value, weight, ttl, now);
                proof {
                    assert(sat_add(0, 1) == 1);
                    if evicted_keys(evicted@).contains(key) {
                        let j = choose|j: int|
                            0 <= j < evicted_keys(evicted@).len() && evicted_keys(evicted@)[j]
                                == key;
                        assert(evicted@[j].0 == key);
                        assert(!c1.spec_contains(key));
                    }
                    assert(!evicted_keys(evicted@).contains(key));
                    assert forall|k: u64|
                        k != key && #[trigger] self.spec_contains(k) implies c0.spec_contains(k)
                            && self.spec_get(k) == c0.spec_get(k) by {
                        assert(c1.spec_contains(k));
                    }
                    assert forall|k: u64|
                        k != key && c0.spec_contains(k) && !evicted_keys(evicted@).contains(k)
                            implies #[trigger] self.spec_contains(k) by {
                        assert(c1.spec_contains(k));
                    }
                    assert forall|j: int|
                        0 <= j < evicted@.len() && (#[trigger] evicted@[j]).0 != key
                            implies !self.spec_contains(evicted@[j].0) by {
                        assert(!c1.spec_contains(evicted@[j].0));
                    }
                }
                Ok(evicted)
            },
            None => {
                if let Some(cap) = self.capacity {
                    while self.elements.len() >= cap
                        invariant
                            self.wf(),
                            self.capacity == c0.capacity,
                            self.max_size == c0.max_size,
                            self.policy == c0.policy,
                            self.capacity == Some(cap),
                            cap >= 1,
                            self.age >= c0.age,
                            self.cur_size <= c0.cur_size,
                            !self.spec_contains(key),
                            self.max_size matches Some(m) ==> self.cur_size + weight <= m,
                            forall|k: u64|
                                #[trigger] self.spec_contains(k) ==> c0.spec_contains(k)
                                    && self.spec_get(k) == c0.spec_get(k),
                            forall|k: u64|
                                c0.spec_contains(k) && !evicted_keys(evicted@).contains(k)
                                    ==> #[trigger] self.spec_contains(k),
                            forall|j: int|
                                0 <= j < evicted@.len() ==> c0.spec_contains(
                                    (#[trigger] evicted@[j]).0,
                                ) && evicted@[j].1 == c0.spec_get(evicted@[j].0)->0.value
                                    && !self.spec_contains(evicted@[j].0),
                        decreases self.elements@.len(),
                    {
                        let p = self.evict();
                        let ghost pg = p;
                        let ghost ev0 = evicted@;
                        evicted.push(p);
                        proof {
                            assert(evicted@ == ev0.push(pg));
                            let evk0 = evicted_keys(ev0);
                            let evk = evicted_keys(evicted@);
                            assert(evk =~= evk0.push(pg.0));
                            assert(forall|j: int|
                                0 <= j < ev0.len() ==> #[trigger] evicted@[j] == ev0[j]);
                            assert forall|k: u64|
                                c0.spec_contains(k) && !evk.contains(k)
                                    implies #[trigger] self.spec_contains(k) by {
                                assert(evk[evk0.len() as int] == pg.0);
                                if k == pg.0 {
                                    assert(evk.contains(k));
                                }
                                if evk0.contains(k) {
                                    let j = choose|j: int| 0 <= j < evk0.len() && evk0[j] == k;
                                    assert(evk[j] == k);
                                    assert(evk.contains(k));
                                }
                            }
                        }
                    }
                }
                let ghost c2 = *self;
                proof {
                    assert(spec_existing_weight(c1, key) == 0);
                }
                self.commit_fresh(key, value, weight, ttl, now);
                proof {
                    assert(sat_add(0, 1) == 1);
                    if c0.spec_contains(key) && !evicted_keys(evicted@).contains(key) {
                        assert(c2.spec_contains(key));
                    }
                    assert forall|k: u64|
                        k != key && #[trigger] self.spec_contains(k) implies c0.spec_contains(k)
                            && self.spec_get(k) == c0.spec_get(k) by {
                        assert(c2.spec_contains(k));
                    }
                    assert forall|k: u64|
                        k != key && c0.spec_contains(k) && !evicted_keys(evicted@).contains(k)
                            implies #[trigger] self.spec_contains(k) by {
                        assert(c2.spec_contains(k));
                    }
                    assert forall|j: int|
                        0 <= j < evicted@.len() && (#[trigger] evicted@[j]).0 != key
                            implies !self.spec_contains(evicted@[j].0) by {
                        assert(!c2.spec_contains(evicted@[j].0));
                    }
                }
                Ok(evicted)
            },
        }
    }

    /// Looks `key` up, promotes it exactly as [`Cache::get`] does, and
    /// returns a mutable reference to the value: only the stored value can
    /// change through the reference.  Absent or lazily expired keys return
    /// nothing.
    pub fn get_mut(&mut self, key: u64, now: u64) -> (r: Option<&mut V>)
        requires
            old(self).wf(),
        ensures
            final(self).capacity == old(self).capacity,
            final(self).max_size == old(self).max_size,
            final(self).age == old(self).age,
            final(self).policy == old(self).policy,
            r is Some <==> old(self).spec_live(key, now),
            match r {
                Some(v) => {
                    &&& *v == old(self).spec_get(key)->0.value
                    &&& final(self).wf()
                    &&& final(self).cur_size == old(self).cur_size
                    &&& final(self).elements@ == old(self).elements@.update(
                        idx_of(old(self).elements@, key),
                        with_value(
                            (Slot {
                                key,
                                item: Item {
                                    value: old(self).spec_get(key)->0.value,
                                    weight: old(self).spec_get(key)->0.weight,
                                    hits: sat_add(old(self).spec_get(key)->0.hits, 1),
                                    priority_key: spec_priority(
                                        old(self).policy,
                                        sat_add(old(self).spec_get(key)->0.hits, 1),
                                        old(self).spec_get(key)->0.weight,
                                        old(self).age,
                                    ),
                                    creation_time: old(self).spec_get(key)->0.creation_time,
                                    ttl: old(self).spec_get(key)->0.ttl,
                                },
                            }),
                            *final(v),
                        ),
                    )
                    &&& final(self).spec_get(key) == Some(
                        Item {
                            value: *final(v),
                            weight: old(self).spec_get(key)->0.weight,
                            hits: sat_add(old(self).spec_get(key)->0.hits, 1),
                            priority_key: spec_priority(
                                old(self).policy,
                                sat_add(old(self).spec_get(key)->0.hits, 1),
                                old(self).spec_get(key)->0.weight,
                                old(self).age,
                            ),
                            creation_time: old(self).spec_get(key)->0.creation_time,
                            ttl: old(self).spec_get(key)->0.ttl,
                        },
                    )
                    &&& forall|k: u64|
                        k != key ==> final(self).spec_contains(k) == old(self).spec_contains(k)
                    &&& forall|k: u64|
                        k != key && old(self).spec_contains(k) ==> final(self).spec_get(k)
                            == old(self).spec_get(k)
                },
                None => {
                    &&& final(self).wf()
                    &&& !final(self).spec_contains(key)
                    &&& forall|k: u64|
                        k != key ==> final(self).spec_contains(k) == old(self).spec_contains(k)
                    &&& forall|k: u64|
                        k != key && old(self).spec_contains(k) ==> final(self).spec_get(k)
                            == old(self).spec_get(k)
                },
            },
            !old(self).spec_contains(key) ==> *final(self) == *old(self),
    {
        let _ = self.check_ttl(key, now);
        match self.find_entry(key) {
            Some(i) => {
                let ghost esb = self.elements@;
                proof {
                    lemma_idx_of(esb, i as int, key);
                }
                self.increment(key);
                let ghost mid = *self;
                proof {
                    assert(mid.elements@[i as int].key == key);
                    lemma_idx_of(mid.elements@, i as int, key);
                    assert(mid.spec_get(key) == Some(mid.elements@[i as int].item));
                    assert forall|v2: V|
                        #![trigger with_value(mid.elements@[i as int], v2)]
                        {
                            &&& wf_state(
                                mid.elements@.update(
                                    i as int,
                                    with_value(mid.elements@[i as int], v2),
                                ),
                                mid.frequencies@,
                                mid.cur_size,
                                mid.min_frequency,
                                mid.capacity,
                                mid.max_size,
                            )
                            &&& forall|k2: u64|
                                #[trigger] has_key(
                                    mid.elements@.update(
                                        i as int,
                                        with_value(mid.elements@[i as int], v2),
                                    ),
                                    k2,
                                ) == has_key(mid.elements@, k2)
                            &&& forall|k2: u64|
                                k2 != key && has_key(mid.elements@, k2) ==> mid.elements@.update(
                                    i as int,
                                    with_value(mid.elements@[i as int], v2),
                                )[idx_of(
                                    mid.elements@.update(
                                        i as int,
                                        with_value(mid.elements@[i as int], v2),
                                    ),
                                    k2,
                                )] == mid.elements@[#[trigger] idx_of(mid.elements@, k2)]
                            &&& idx_of(
                                mid.elements@.update(
                                    i as int,
                                    with_value(mid.elements@[i as int], v2),
                                ),
                                key,
                            ) == i
                            &&& mid.elements@.update(
                                i as int,
                                with_value(mid.elements@[i as int], v2),
                            ) == esb.update(i as int, with_value(mid.elements@[i as int], v2))
                        } by {
                        assert(mid.elements@.update(
                            i as int,
                            with_value(mid.elements@[i as int], v2),
                        ) =~= esb.update(i as int, with_value(mid.elements@[i as int], v2)));
                        lemma_value_update_wf(
                            mid.elements@,
                            mid.frequencies@,
                            mid.cur_size,
                            mid.min_frequency,
                            mid.capacity,
                            mid.max_size,
                            i as int,
                            v2,
                        );
                    }
                }
                Some(&mut self.elements[i].item.value)
            },
            None => None,
        }
    }

    /// Drops every entry without reporting any of them, and resets the
    /// running total weight and the aging counter to zero.
    pub fn clear_without_eviction(&mut self)
        requires
            old(self).wf(),
        ensures
            final(self).wf(),
            final(self).elements@.len() == 0,
            final(self).cur_size == 0,
            final(self).age == 0,
            final(self).capacity == old(self).capacity,
            final(self).max_size == old(self).max_size,
            final(self).policy == old(self).policy,
    {
        self.elements.clear();
        self.frequencies.clear();
        self.cur_size = 0;
        self.age = 0;
    }

    /// Drops every entry and returns all departing key/value pairs, in an
    /// unspecified order, so the caller can notify each one; resets the
    /// running total weight and the aging counter to zero.
    pub fn clear_with_eviction(&mut self) -> (r: Vec<(u64, V)>)
        requires
            old(self).wf(),
        ensures
            final(self).wf(),
            final(self).elements@.len() == 0,
            final(self).cur_size == 0,
            final(self).age == 0,
            final(self).capacity == old(self).capacity,
            final(self).max_size == old(self).max_size,
            final(self).policy == old(self).policy,
            r@.len() == old(self).elements@.len(),
            forall|j: int|
                0 <= j < r@.len() ==> old(self).spec_contains((#[trigger] r@[j]).0) && r@[j].1
                    == old(self).spec_get(r@[j].0)->0.value,
            forall|k: u64|
                old(self).spec_contains(k) ==> exists|j: int|
                    0 <= j < r@.len() && (#[trigger] r@[j]).0 == k,
    {
        let ghost es0 = self.elements@;
        let ghost n = es0.len() as int;
        let mut out: Vec<(u64, V)> = Vec::new();
        #[verifier::loop_isolation(false)]
        while self.elements.len() > 0
            invariant
                self.elements@ == es0.subrange(0, es0.len() - out@.len()),
                out@.len() <= es0.len(),
                self.capacity == old(self).capacity,
                self.max_size == old(self).max_size,
                self.policy == old(self).policy,
                forall|j: int|
                    0 <= j < out@.len() ==> (#[trigger] out@[j]).0 == es0[n - 1 - j].key
                        && out@[j].1 == es0[n - 1 - j].item.value,
            decreases self.elements@.len(),
        {
            let ghost pre = self.elements@;
            match self.elements.pop() {
                Some(slot) => {
                    let ghost slotg = slot;
                    proof {
                        let m2 = n - out@.len();
                        assert(pre == es0.subrange(0, m2));
                        assert(pre.len() == m2);
                        assert(slotg == pre.last());
                        assert(pre.last() == pre[m2 - 1]);
                        assert(es0.subrange(0, m2)[m2 - 1] == es0[m2 - 1]);
                        assert(slotg == es0[n - 1 - out@.len()]);
                        assert(self.elements@ =~= es0.subrange(0, es0.len() - out@.len() - 1));
                    }
                    out.push((slot.key, slot.item.value));
                },
                None => {
                    proof {
                        assert(false);
                    }
                },
            }
        }
        self.frequencies.clear();
        self.cur_size = 0;
        self.age = 0;
        proof {
            assert forall|j: int| 0 <= j < out@.len() implies old(self).spec_contains(
                (#[trigger] out@[j]).0,
            ) && out@[j].1 == old(self).spec_get(out@[j].0)->0.value by {
                lemma_idx_of(es0, n - 1 - j, es0[n - 1 - j].key);
            }
            assert forall|k: u64| old(self).spec_contains(k) implies exists|j: int|
                0 <= j < out@.len() && (#[trigger] out@[j]).0 == k by {
                let e = idx_of(es0, k);
                assert(0 <= e < n && es0[e].key == k);
                assert(out@[n - 1 - e].0 == k);
            }
        }
        out
    }
}

} // verus!
