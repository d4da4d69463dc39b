use lfu_cache::lfu::{Item, LFUCache, MISS};

#[test]
fn new_cache_is_empty() {
    let cache = LFUCache::new(3);
    assert_eq!(cache.len(), 0);
    assert_eq!(cache.capacity(), 3);
    assert_eq!(cache.victim(), None);
    assert_eq!(cache.lowest_frequency(), None);
    assert!(!cache.contains(1));
}

#[test]
fn get_on_empty_cache_misses() {
    let mut cache = LFUCache::new(2);
    assert_eq!(cache.get(7), -1);
    assert_eq!(cache.get(7), MISS);
    assert_eq!(cache.lookup(7), None);
    assert_eq!(cache.len(), 0);
}

#[test]
fn scenario_capacity_two() {
    let mut cache = LFUCache::new(2);
    cache.put(1, 1);
    cache.put(2, 2);
    assert_eq!(cache.get(1), 1);
    assert_eq!(cache.frequency(1), Some(2));
    assert_eq!(cache.frequency(2), Some(1));
    cache.put(3, 3);
    assert!(!cache.contains(2));
    assert_eq!(cache.get(2), -1);
    assert_eq!(cache.get(3), 3);
    assert_eq!(cache.get(1), 1);
}

#[test]
fn scenario_capacity_one() {
    let mut cache = LFUCache::new(1);
    cache.put(1, 1);
    cache.put(2, 2);
    assert_eq!(cache.get(1), -1);
    assert_eq!(cache.get(2), 2);
}

#[test]
fn size_never_exceeds_capacity() {
    let mut cache = LFUCache::new(3);
    for key in 0..50 {
        cache.put(key, key * 10);
        assert!(cache.len() <= cache.capacity());
        if key % 3 == 0 {
            cache.get(key);
        }
    }
    assert_eq!(cache.len(), 3);
}

#[test]
fn fills_up_to_capacity_without_eviction() {
    let mut cache = LFUCache::new(3);
    cache.put(1, 10);
    cache.put(2, 20);
    cache.put(3, 30);
    assert_eq!(cache.len(), 3);
    assert!(cache.contains(1) && cache.contains(2) && cache.contains(3));
}

#[test]
fn evicts_lowest_frequency() {
    let mut cache = LFUCache::new(3);
    cache.put(1, 10);
    cache.put(2, 20);
    cache.put(3, 30);
    cache.get(1);
    cache.get(1);
    cache.get(3);
    assert_eq!(cache.victim(), Some(2));
    cache.put(4, 40);
    assert!(!cache.contains(2));
    assert!(cache.contains(1) && cache.contains(3) && cache.contains(4));
}

#[test]
fn ties_are_broken_by_recency() {
    let mut cache = LFUCache::new(3);
    cache.put(1, 10);
    cache.put(2, 20);
    cache.put(3, 30);
    assert_eq!(cache.victim(), Some(1));
    cache.get(1);
    cache.get(2);
    cache.get(3);
    // All at frequency 2; key 1 was touched first.
    assert_eq!(cache.victim(), Some(1));
    cache.get(1);
    cache.get(2);
    // Keys 1 and 2 at frequency 3, key 3 alone at frequency 2.
    assert_eq!(cache.victim(), Some(3));
    cache.put(4, 40);
    assert!(!cache.contains(3));
    // The newcomer has the lowest frequency.
    assert_eq!(cache.victim(), Some(4));
    cache.put(5, 50);
    assert!(!cache.contains(4));
    assert!(cache.contains(1) && cache.contains(2) && cache.contains(5));
}

#[test]
fn put_on_live_key_counts_as_touch() {
    let mut cache = LFUCache::new(2);
    cache.put(1, 10);
    cache.put(2, 20);
    cache.put(1, 11);
    assert_eq!(cache.frequency(1), Some(2));
    assert_eq!(cache.len(), 2);
    cache.put(3, 30);
    assert!(!cache.contains(2));
    assert_eq!(cache.get(1), 11);
}

#[test]
fn frequency_rises_by_one_per_access() {
    let mut cache = LFUCache::new(2);
    cache.put(5, 50);
    assert_eq!(cache.frequency(5), Some(1));
    cache.get(5);
    assert_eq!(cache.frequency(5), Some(2));
    cache.put(5, 51);
    assert_eq!(cache.frequency(5), Some(3));
    cache.lookup(5);
    assert_eq!(cache.frequency(5), Some(4));
    cache.get(6);
    assert_eq!(cache.frequency(5), Some(4));
    assert_eq!(cache.frequency(6), None);
}

#[test]
fn observers_do_not_touch() {
    let mut cache = LFUCache::new(2);
    cache.put(1, 10);
    cache.put(2, 20);
    assert!(cache.contains(1));
    assert_eq!(cache.frequency(1), Some(1));
    assert_eq!(cache.victim(), Some(1));
    assert_eq!(cache.frequency(1), Some(1));
}

#[test]
fn round_trip() {
    let mut cache = LFUCache::new(1);
    cache.put(9, 90);
    assert_eq!(cache.get(9), 90);
    cache.put(9, 91);
    assert_eq!(cache.get(9), 91);
    cache.put(8, -5);
    assert_eq!(cache.lookup(8), Some(-5));
}

#[test]
fn stored_sentinel_is_told_apart_by_lookup() {
    let mut cache = LFUCache::new(1);
    cache.put(1, MISS);
    assert_eq!(cache.get(1), MISS);
    assert_eq!(cache.lookup(1), Some(MISS));
    assert_eq!(cache.lookup(2), None);
}

#[test]
fn disabled_cache_stays_empty() {
    let mut cache = LFUCache::new(0);
    cache.put(1, 1);
    assert_eq!(cache.get(1), -1);
    assert_eq!(cache.lookup(1), None);
    assert_eq!(cache.len(), 0);
    assert_eq!(cache.victim(), None);
    cache.put(2, 2);
    cache.put(1, 3);
    assert_eq!(cache.get(2), -1);
    assert_eq!(cache.len(), 0);
}

#[test]
fn lowest_frequency_follows_the_lowest_bucket() {
    let mut cache = LFUCache::new(3);
    assert_eq!(cache.lowest_frequency(), None);
    cache.put(1, 10);
    assert_eq!(cache.lowest_frequency(), Some(1));
    cache.get(1);
    assert_eq!(cache.lowest_frequency(), Some(2));
    cache.get(1);
    assert_eq!(cache.lowest_frequency(), Some(3));
    cache.put(2, 20);
    assert_eq!(cache.lowest_frequency(), Some(1));
    cache.get(2);
    assert_eq!(cache.lowest_frequency(), Some(2));
    cache.get(2);
    assert_eq!(cache.lowest_frequency(), Some(3));
    cache.get(2);
    assert_eq!(cache.lowest_frequency(), Some(3));
    assert_eq!(cache.victim(), Some(1));
}

#[test]
fn promotion_into_existing_and_new_buckets() {
    let mut cache = LFUCache::new(4);
    cache.put(1, 1);
    cache.put(2, 2);
    cache.put(3, 3);
    cache.get(3); // 3 -> f2
    cache.get(3); // 3 -> f3, bucket 2 vanishes
    cache.get(1); // 1 -> f2: new bucket between f1 and f3
    assert_eq!(cache.frequency(1), Some(2));
    assert_eq!(cache.frequency(2), Some(1));
    assert_eq!(cache.frequency(3), Some(3));
    cache.get(1); // 1 -> f3, joins 3 behind it
    cache.get(2); // 2 -> f2, bucket 1 vanishes, lowest is 2
    assert_eq!(cache.lowest_frequency(), Some(2));
    assert_eq!(cache.victim(), Some(2));
    cache.get(2); // 2 -> f3 behind 3 and 1
    assert_eq!(cache.victim(), Some(3));
    cache.put(4, 4);
    cache.put(5, 5); // evicts 4, the only key at frequency 1
    assert!(!cache.contains(4));
    assert!(cache.contains(5));
    cache.put(6, 6); // evicts 5
    assert!(!cache.contains(5));
    assert_eq!(cache.len(), 4);
}

#[test]
fn middle_of_a_bucket_can_be_promoted() {
    let mut cache = LFUCache::new(3);
    cache.put(1, 1);
    cache.put(2, 2);
    cache.put(3, 3);
    cache.get(2);
    assert_eq!(cache.victim(), Some(1));
    cache.put(4, 4);
    assert!(!cache.contains(1));
    assert_eq!(cache.victim(), Some(3));
    cache.put(5, 5);
    assert!(!cache.contains(3));
    assert_eq!(cache.victim(), Some(4));
    assert_eq!(cache.get(2), 2);
}

#[test]
fn eviction_of_the_last_entry_empties_the_cache_for_a_moment() {
    let mut cache = LFUCache::new(1);
    cache.put(1, 1);
    cache.get(1);
    cache.get(1);
    assert_eq!(cache.lowest_frequency(), Some(3));
    cache.put(2, 2);
    assert_eq!(cache.lowest_frequency(), Some(1));
    assert_eq!(cache.victim(), Some(2));
    assert_eq!(cache.len(), 1);
}

#[test]
fn clear_drops_everything_and_keeps_capacity() {
    let mut cache = LFUCache::new(2);
    cache.put(1, 1);
    cache.put(2, 2);
    cache.get(1);
    cache.clear();
    assert_eq!(cache.len(), 0);
    assert_eq!(cache.capacity(), 2);
    assert_eq!(cache.get(1), -1);
    assert_eq!(cache.lowest_frequency(), None);
    cache.put(3, 3);
    cache.put(4, 4);
    cache.put(5, 5);
    assert_eq!(cache.len(), 2);
    assert!(!cache.contains(3));
}

#[test]
fn negative_keys_and_values() {
    let mut cache = LFUCache::new(2);
    cache.put(-1, i32::MIN);
    cache.put(i32::MAX, -7);
    assert_eq!(cache.get(-1), i32::MIN);
    assert_eq!(cache.get(i32::MAX), -7);
}

#[test]
fn long_run_agrees_with_a_plain_model() {
    // A plain model: (key, value, frequency, last touch), searched linearly.
    let capacity = 5usize;
    let mut cache = LFUCache::new(5);
    let mut model: Vec<(i32, i32, u64, u64)> = Vec::new();
    let mut clock = 0u64;
    let mut seed = 12345u64;
    for _ in 0..5000 {
        seed = seed.wrapping_mul(6364136223846793005).wrapping_add(1442695040888963407);
        let key = ((seed >> 33) % 12) as i32;
        let store = (seed >> 20) % 3 == 0;
        clock += 1;
        let at = model.iter().position(|e| e.0 == key);
        if store {
            let value = (seed >> 40) as i32;
            cache.put(key, value);
            match at {
                Some(i) => {
                    model[i].1 = value;
                    model[i].2 += 1;
                    model[i].3 = clock;
                }
                None => {
                    if model.len() == capacity {
                        let mut least = 0;
                        for i in 1..model.len() {
                            if (model[i].2, model[i].3) < (model[least].2, model[least].3) {
                                least = i;
                            }
                        }
                        model.remove(least);
                    }
                    model.push((key, value, 1, clock));
                }
            }
        } else {
            let got = cache.lookup(key);
            match at {
                Some(i) => {
                    assert_eq!(got, Some(model[i].1));
                    model[i].2 += 1;
                    model[i].3 = clock;
                }
                None => assert_eq!(got, None),
            }
        }
        assert_eq!(cache.len(), model.len());
        for e in model.iter() {
            assert_eq!(cache.frequency(e.0), Some(e.2));
        }
        let mut expected = model.clone();
        expected.sort_by_key(|e| (e.2, e.3));
        let listed = cache.entries();
        assert_eq!(listed.len(), expected.len());
        for (item, e) in listed.iter().zip(expected.iter()) {
            assert_eq!(*item, Item { key: e.0, value: e.1, frequency: e.2 });
        }
        assert_eq!(cache.victim(), listed.first().map(|item| item.key));
        assert_eq!(cache.lowest_frequency(), listed.first().map(|item| item.frequency));
    }
}

#[test]
fn entries_are_listed_in_eviction_order() {
    let mut cache = LFUCache::new(4);
    assert_eq!(cache.entries(), Vec::<Item>::new());
    cache.put(1, 10);
    cache.put(2, 20);
    cache.put(3, 30);
    cache.put(4, 40);
    cache.get(2);
    cache.get(4);
    cache.get(2);
    cache.get(1);
    assert_eq!(
        cache.entries(),
        vec![
            Item { key: 3, value: 30, frequency: 1 },
            Item { key: 4, value: 40, frequency: 2 },
            Item { key: 1, value: 10, frequency: 2 },
            Item { key: 2, value: 20, frequency: 3 },
        ]
    );
    cache.put(5, 50);
    assert_eq!(
        cache.entries(),
        vec![
            Item { key: 5, value: 50, frequency: 1 },
            Item { key: 4, value: 40, frequency: 2 },
            Item { key: 1, value: 10, frequency: 2 },
            Item { key: 2, value: 20, frequency: 3 },
        ]
    );
}

#[test]
fn buckets_stay_strictly_ascending() {
    let mut cache = LFUCache::new(6);
    for key in 0..6 {
        cache.put(key, key);
        for _ in 0..key {
            cache.get(key);
        }
    }
    cache.get(0);
    cache.get(3);
    cache.put(9, 9);
    let listed = cache.entries();
    assert_eq!(listed.len(), cache.len());
    for pair in listed.windows(2) {
        assert!(pair[0].frequency <= pair[1].frequency);
    }
    assert_eq!(cache.lowest_frequency(), Some(listed[0].frequency));
    assert_eq!(cache.victim(), Some(listed[0].key));
}
