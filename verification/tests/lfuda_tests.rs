use lfuda::CacheBuilder;
use lfuda::CacheError;
use lfuda::CachePolicy;

#[test]
fn builder_defaults() {
    let b = CacheBuilder::new();
    let c = b.build::<i32>();
    assert_eq!(c.len(), 0);
    assert!(c.is_empty());
    assert_eq!(c.size(), 0);
    assert_eq!(c.age(), 0);
}

#[test]
fn builder_setters_chain() {
    let b = CacheBuilder::new()
        .set_policy(CachePolicy::GDSF)
        .set_max_size(100)
        .set_max_capacity(7);
    let c = b.build::<String>();
    assert_eq!(c.capacity, Some(7));
    assert_eq!(c.max_size, Some(100));
    assert_eq!(c.len(), 0);
}

#[test]
fn builder_default_and_clone() {
    let b: CacheBuilder = Default::default();
    let b2 = b.clone().set_max_capacity(2);
    let c = b2.build::<i32>();
    assert_eq!(c.capacity, Some(2));
    let c0 = b.build::<i32>();
    assert_eq!(c0.capacity, None);
}

#[test]
fn insert_and_get_roundtrip() {
    let mut c = CacheBuilder::new().build::<String>();
    c.insert(1, String::from("one"), 0, None, 0).unwrap();
    assert_eq!(c.get(1, 0), Some(&String::from("one")));
    assert_eq!(c.get(2, 0), None);
    assert_eq!(c.len(), 1);
}

#[test]
fn get_promotes_hit_count_and_score() {
    // Promotion law: `get` raises the hit count by exactly one and
    // recomputes the score; under plain frequency the score is the count.
    let mut c = CacheBuilder::new().set_policy(CachePolicy::LFU).build::<i32>();
    c.insert(5, 50, 0, None, 0).unwrap();
    assert_eq!(c.elements[0].item.hits, 1);
    assert_eq!(c.elements[0].item.priority_key, 1);
    c.get(5, 0);
    assert_eq!(c.elements[0].item.hits, 2);
    assert_eq!(c.elements[0].item.priority_key, 2);
}

#[test]
fn peek_never_promotes() {
    let mut c = CacheBuilder::new().set_policy(CachePolicy::LFU).build::<i32>();
    c.insert(5, 50, 0, None, 0).unwrap();
    assert_eq!(c.peek(5, 0), Some(&50));
    assert_eq!(c.peek(5, 0), Some(&50));
    assert_eq!(c.elements[0].item.hits, 1);
    assert_eq!(c.elements[0].item.priority_key, 1);
}

#[test]
fn overwrite_keeps_hits_and_replaces_value_and_weight() {
    let mut c = CacheBuilder::new().build::<String>();
    c.insert(9, String::from("a"), 5, None, 0).unwrap();
    assert_eq!(c.size(), 5);
    c.insert(9, String::from("b"), 3, None, 0).unwrap();
    // Size accounting: the old weight is not double-counted.
    assert_eq!(c.size(), 3);
    assert_eq!(c.len(), 1);
    assert_eq!(c.peek(9, 0), Some(&String::from("b")));
    // The hit counter keeps accumulating across the overwrite.
    assert_eq!(c.elements[0].item.hits, 2);
}

#[test]
fn size_tracks_sum_of_weights() {
    let mut c = CacheBuilder::new().build::<i32>();
    c.insert(1, 10, 4, None, 0).unwrap();
    c.insert(2, 20, 6, None, 0).unwrap();
    c.insert(3, 30, 0, None, 0).unwrap();
    assert_eq!(c.size(), 10);
    c.remove(2);
    assert_eq!(c.size(), 4);
}

#[test]
fn weight_exceeds_capacity_fails_and_leaves_cache_unchanged() {
    let mut c = CacheBuilder::new().set_max_size(50).build::<i32>();
    c.insert(1, 10, 20, None, 0).unwrap();
    let r = c.insert(2, 20, 60, None, 0);
    assert_eq!(r, Err(CacheError::WeightExceedsCapacity));
    assert_eq!(c.len(), 1);
    assert_eq!(c.size(), 20);
    assert_eq!(c.peek(1, 0), Some(&10));
}

#[test]
fn size_bound_holds_after_successful_inserts() {
    let mut c = CacheBuilder::new().set_max_size(50).build::<i32>();
    for k in 0..20u64 {
        c.insert(k, k as i32, 10, None, 0).unwrap();
        assert!(c.size() <= 50);
    }
    assert!(c.len() <= 5);
}

#[test]
fn capacity_bound_holds_after_any_insert_sequence() {
    let mut c = CacheBuilder::new().set_max_capacity(3).build::<i32>();
    for k in 0..10u64 {
        c.insert(k, k as i32, 0, None, 0).unwrap();
        assert!(c.len() <= 3);
    }
    assert_eq!(c.len(), 3);
}

#[test]
fn eviction_prefers_lower_hit_count_under_plain_frequency() {
    // Capacity 2: A is promoted once more than B, so inserting a third
    // key evicts B, the key with the lower hit count.
    let mut c = CacheBuilder::new()
        .set_policy(CachePolicy::LFU)
        .set_max_capacity(2)
        .build::<i32>();
    c.insert(1, 10, 0, None, 0).unwrap();
    c.insert(2, 20, 0, None, 0).unwrap();
    c.get(1, 0);
    let evicted = c.insert(3, 30, 0, None, 0).unwrap();
    assert_eq!(evicted.len(), 1);
    assert_eq!(evicted[0], (2, 20));
    assert!(c.contains(1, 0));
    assert!(!c.contains(2, 0));
    assert!(c.contains(3, 0));
}

#[test]
fn capacity_one_keeps_only_latest() {
    // Capacity 1, keys inserted in turn: each insert evicts the current
    // holder, whichever of them holds the lower (only) hit count.
    let mut c = CacheBuilder::new()
        .set_policy(CachePolicy::LFU)
        .set_max_capacity(1)
        .build::<i32>();
    c.insert(1, 10, 0, None, 0).unwrap();
    let ev = c.insert(2, 20, 0, None, 0).unwrap();
    assert_eq!(ev, vec![(1, 10)]);
    let ev = c.insert(3, 30, 0, None, 0).unwrap();
    assert_eq!(ev, vec![(2, 20)]);
    assert!(c.contains(3, 0));
    assert_eq!(c.len(), 1);
}

#[test]
fn repeated_zero_weight_inserts_and_peeks() {
    // Weight 0 never exhausts the size bound, and peek never promotes, so
    // the value stays reachable through any number of peeks.
    let mut c = CacheBuilder::new()
        .set_policy(CachePolicy::LFU)
        .set_max_capacity(3)
        .set_max_size(120)
        .build::<i32>();
    for _ in 0..4 {
        c.insert(3, 3, 0, None, 0).unwrap();
    }
    for _ in 0..6 {
        assert_eq!(c.peek(3, 0), Some(&3));
    }
    assert_eq!(c.len(), 1);
    assert_eq!(c.size(), 0);
}

#[test]
fn gdsf_favors_small_frequent_entries() {
    // Size-weighted frequency: A is light and frequently used, B is heavy
    // and used once, so B's per-weight frequency is lower and B leaves
    // first when a third entry needs room.
    let mut c = CacheBuilder::new()
        .set_policy(CachePolicy::GDSF)
        .set_max_capacity(2)
        .build::<i32>();
    c.insert(1, 10, 1, None, 0).unwrap();
    for _ in 0..4 {
        c.get(1, 0);
    }
    c.insert(2, 20, 100, None, 0).unwrap();
    let evicted = c.insert(3, 30, 1, None, 0).unwrap();
    assert_eq!(evicted, vec![(2, 20)]);
    assert!(c.contains(1, 0));
    assert!(!c.contains(2, 0));
}

#[test]
fn gdsf_scenario_with_weight_bound() {
    // Capacity 10, size cap 100: the heavy entry B cannot share the cache
    // with A, so admitting B evicts A, and the next insert evicts B.
    let mut c = CacheBuilder::new()
        .set_policy(CachePolicy::GDSF)
        .set_max_capacity(10)
        .set_max_size(100)
        .build::<i32>();
    c.insert(1, 10, 10, None, 0).unwrap();
    for _ in 0..4 {
        c.get(1, 0);
    }
    assert_eq!(c.elements[0].item.hits, 5);
    let ev = c.insert(2, 20, 100, None, 0).unwrap();
    assert_eq!(ev, vec![(1, 10)]);
    let ev = c.insert(3, 30, 1, None, 0).unwrap();
    assert_eq!(ev, vec![(2, 20)]);
    assert!(c.contains(3, 0));
}

#[test]
fn lfuda_aging_raises_age_on_eviction() {
    let mut c = CacheBuilder::new()
        .set_policy(CachePolicy::LFUDA)
        .set_max_capacity(1)
        .build::<i32>();
    c.insert(1, 10, 0, None, 0).unwrap();
    assert_eq!(c.age(), 0);
    // Evicting key 1 (score 1) pulls the aging counter up to 1, so the
    // fresh key starts at score hit count + age = 2.
    c.insert(2, 20, 0, None, 0).unwrap();
    assert_eq!(c.age(), 1);
    assert_eq!(c.elements[0].item.priority_key, 2);
}

#[test]
fn ttl_entry_present_until_expiry_then_removed_everywhere() {
    let mut c = CacheBuilder::new().build::<String>();
    c.insert(7, String::from("x"), 4, Some(10), 100).unwrap();
    assert!(c.contains(7, 105));
    assert_eq!(c.peek(7, 110), Some(&String::from("x")));
    // Elapsed time must strictly exceed the time-to-live.
    assert!(c.contains(7, 110));
    assert!(!c.contains(7, 111));
    assert_eq!(c.len(), 0);
    assert_eq!(c.size(), 0);
    assert_eq!(c.get(7, 111), None);
}

#[test]
fn ttl_expiry_through_get_and_peek() {
    let mut c = CacheBuilder::new().build::<i32>();
    c.insert(1, 10, 0, Some(5), 0).unwrap();
    assert_eq!(c.get(1, 6), None);
    assert_eq!(c.len(), 0);
    c.insert(2, 20, 0, Some(5), 10).unwrap();
    assert_eq!(c.peek(2, 16), None);
    assert_eq!(c.len(), 0);
}

#[test]
fn entries_without_ttl_never_expire() {
    let mut c = CacheBuilder::new().build::<i32>();
    c.insert(1, 10, 0, None, 0).unwrap();
    assert!(c.contains(1, u64::MAX));
    assert_eq!(c.elements[0].item.creation_time, None);
}

#[test]
fn remove_expired_reports_pairs_and_is_idempotent() {
    let mut c = CacheBuilder::new().build::<String>();
    c.insert(1, String::from("a"), 1, Some(5), 0).unwrap();
    c.insert(2, String::from("b"), 2, None, 0).unwrap();
    c.insert(3, String::from("c"), 3, Some(50), 0).unwrap();
    let removed = c.remove_expired(10);
    assert_eq!(removed, vec![(1, String::from("a"))]);
    assert_eq!(c.len(), 2);
    assert_eq!(c.size(), 5);
    // Idempotence: a second sweep at the same instant removes nothing.
    let removed_again = c.remove_expired(10);
    assert!(removed_again.is_empty());
    assert_eq!(c.len(), 2);
    assert_eq!(c.size(), 5);
}

#[test]
fn remove_returns_value_and_updates_accounting() {
    let mut c = CacheBuilder::new().build::<String>();
    c.insert(1, String::from("a"), 7, None, 0).unwrap();
    assert_eq!(c.remove(1), Some(String::from("a")));
    assert_eq!(c.remove(1), None);
    assert_eq!(c.len(), 0);
    assert_eq!(c.size(), 0);
}

#[test]
fn clear_without_eviction_resets_everything() {
    let mut c = CacheBuilder::new()
        .set_policy(CachePolicy::LFUDA)
        .set_max_capacity(1)
        .build::<i32>();
    c.insert(1, 10, 0, None, 0).unwrap();
    c.insert(2, 20, 0, None, 0).unwrap();
    assert_eq!(c.age(), 1);
    c.clear_without_eviction();
    assert_eq!(c.len(), 0);
    assert_eq!(c.size(), 0);
    assert_eq!(c.age(), 0);
    assert!(c.is_empty());
}

#[test]
fn clear_with_eviction_reports_every_entry() {
    let mut c = CacheBuilder::new().build::<i32>();
    c.insert(1, 10, 1, None, 0).unwrap();
    c.insert(2, 20, 2, None, 0).unwrap();
    c.insert(3, 30, 3, None, 0).unwrap();
    let mut pairs = c.clear_with_eviction();
    pairs.sort();
    assert_eq!(pairs, vec![(1, 10), (2, 20), (3, 30)]);
    assert_eq!(c.len(), 0);
    assert_eq!(c.size(), 0);
    assert_eq!(c.age(), 0);
}

#[test]
fn keys_lists_live_keys() {
    let mut c = CacheBuilder::new().build::<i32>();
    c.insert(4, 40, 0, None, 0).unwrap();
    c.insert(5, 50, 0, None, 0).unwrap();
    let mut ks = c.keys();
    ks.sort();
    assert_eq!(ks, vec![4, 5]);
}

#[test]
fn peek_mut_changes_value_without_promotion() {
    let mut c = CacheBuilder::new().set_policy(CachePolicy::LFU).build::<String>();
    c.insert(1, String::from("old"), 0, None, 0).unwrap();
    if let Some(v) = c.peek_mut(1, 0) {
        *v = String::from("new");
    } else {
        panic!("entry must be present");
    }
    assert_eq!(c.peek(1, 0), Some(&String::from("new")));
    assert_eq!(c.elements[0].item.hits, 1);
}

#[test]
fn get_mut_changes_value_and_promotes() {
    let mut c = CacheBuilder::new().set_policy(CachePolicy::LFU).build::<i32>();
    c.insert(1, 10, 0, None, 0).unwrap();
    if let Some(v) = c.get_mut(1, 0) {
        *v += 1;
    } else {
        panic!("entry must be present");
    }
    assert_eq!(c.peek(1, 0), Some(&11));
    assert_eq!(c.elements[0].item.hits, 2);
    assert_eq!(c.get_mut(9, 0), None);
}

#[test]
fn calculate_policy_formulas() {
    // Exact scores: plain frequency, frequency plus age, and hits divided
    // by weight plus age (weight floored at one for the division).
    let item = lfuda::Item {
        value: 0i32,
        weight: 4,
        hits: 10,
        priority_key: 0,
        creation_time: None,
        ttl: None,
    };
    assert_eq!(lfuda::calculate_policy(CachePolicy::LFU, &item, 99), 10);
    assert_eq!(lfuda::calculate_policy(CachePolicy::LFUDA, &item, 7), 17);
    assert_eq!(lfuda::calculate_policy(CachePolicy::GDSF, &item, 7), 9);
    let zero_weight = lfuda::Item {
        value: 0i32,
        weight: 0,
        hits: 3,
        priority_key: 0,
        creation_time: None,
        ttl: None,
    };
    assert_eq!(lfuda::calculate_policy(CachePolicy::GDSF, &zero_weight, 2), 5);
    assert_eq!(
        lfuda::calculate_policy(CachePolicy::LFUDA, &zero_weight, u64::MAX),
        u64::MAX
    );
}

/// Checks the three structural invariants on a concrete cache state: the
/// running total equals the sum of live weights, every live key holds
/// exactly one bucket record carrying its current score, and no live entry
/// scores below the tracked minimum, whose bucket is non-empty.
fn assert_invariants(c: &lfuda::Cache<i32>) {
    let total: u64 = c.elements.iter().map(|s| s.item.weight).sum();
    assert_eq!(c.size(), total);
    for slot in &c.elements {
        let records: Vec<_> = c
            .frequencies
            .iter()
            .filter(|r| r.key == slot.key)
            .collect();
        assert_eq!(records.len(), 1);
        assert_eq!(records[0].score, slot.item.priority_key);
        assert!(slot.item.priority_key >= c.min_frequency);
    }
    assert_eq!(c.elements.len(), c.frequencies.len());
    if !c.elements.is_empty() {
        assert!(c.frequencies.iter().any(|r| r.score == c.min_frequency));
    }
}

#[test]
fn invariants_hold_after_mixed_operations() {
    let mut c = CacheBuilder::new()
        .set_policy(CachePolicy::LFUDA)
        .set_max_capacity(4)
        .set_max_size(100)
        .build::<i32>();
    assert_invariants(&c);
    for k in 0..8u64 {
        c.insert(k, k as i32, 10 + k, Some(30), k).unwrap();
        assert_invariants(&c);
    }
    c.get(6, 10);
    c.get(6, 11);
    c.get(7, 12);
    assert_invariants(&c);
    c.remove(5);
    assert_invariants(&c);
    c.insert(6, 66, 40, None, 20).unwrap();
    assert_invariants(&c);
    // Push time past the remaining time-to-live entries and sweep.
    c.remove_expired(60);
    assert_invariants(&c);
    c.insert(9, 9, 5, None, 61).unwrap();
    assert_invariants(&c);
}

#[test]
fn cache_and_entries_are_cloneable() {
    let mut c = CacheBuilder::new().build::<i32>();
    c.insert(1, 10, 2, None, 0).unwrap();
    let mut d = c.clone();
    d.insert(2, 20, 3, None, 0).unwrap();
    assert_eq!(c.len(), 1);
    assert_eq!(d.len(), 2);
    assert_eq!(c.peek(1, 0), Some(&10));
}

#[test]
fn overwrite_respects_weight_bound_without_double_count() {
    // Re-admitting a key counts only the weight difference against the
    // bound, so growing an entry within the cap needs no eviction.
    let mut c = CacheBuilder::new().set_max_size(10).build::<i32>();
    c.insert(1, 10, 8, None, 0).unwrap();
    c.insert(2, 20, 2, None, 0).unwrap();
    let ev = c.insert(1, 11, 8, None, 0).unwrap();
    assert!(ev.is_empty());
    assert_eq!(c.size(), 10);
    assert!(c.contains(1, 0) && c.contains(2, 0));
}
