use bounded_cache::lfu_w::LFUCache;

// ========== Basic Unweighted Tests ==========

#[test]
fn test_basic_put_and_get() {
    let mut cache = LFUCache::new(2);
    cache.put(1, "one", 1);
    cache.put(2, "two", 1);

    assert_eq!(cache.get(&1), Some(&"one"));
    assert_eq!(cache.get(&2), Some(&"two"));
    assert_eq!(cache.len(), 2);
}

#[test]
fn test_get_nonexistent() {
    let mut cache: LFUCache<i32, &str> = LFUCache::new(2);
    assert_eq!(cache.get(&1), None);
}

#[test]
fn test_update_existing_key() {
    let mut cache = LFUCache::new(2);
    cache.put(1, "one", 1);
    cache.put(1, "ONE", 1);

    assert_eq!(cache.get(&1), Some(&"ONE"));
    assert_eq!(cache.len(), 1);
}

#[test]
fn test_eviction_on_capacity() {
    let mut cache = LFUCache::new(2);
    cache.put(1, "one", 1);
    cache.put(2, "two", 1);
    cache.put(3, "three", 1);

    // Key 1 should be evicted (least frequently used)
    assert_eq!(cache.get(&1), None);
    assert_eq!(cache.get(&2), Some(&"two"));
    assert_eq!(cache.get(&3), Some(&"three"));
    assert_eq!(cache.len(), 2);
}

#[test]
fn test_lfu_eviction_with_different_frequencies() {
    let mut cache = LFUCache::new(2);
    cache.put(1, "one", 1);
    cache.put(2, "two", 1);

    // Access key 2 multiple times to increase its frequency
    cache.get(&2);
    cache.get(&2);

    // Add a third item - key 1 should be evicted (lower frequency)
    cache.put(3, "three", 1);

    assert_eq!(cache.get(&1), None);
    assert_eq!(cache.get(&2), Some(&"two"));
    assert_eq!(cache.get(&3), Some(&"three"));
}

#[test]
fn test_lru_within_same_frequency() {
    let mut cache = LFUCache::new(2);
    cache.put(1, "one", 1);
    cache.put(2, "two", 1);

    // Both have same frequency (1), so LRU should be evicted
    cache.put(3, "three", 1);

    // Key 1 should be evicted (least recently used among freq=1)
    assert_eq!(cache.get(&1), None);
    assert_eq!(cache.get(&2), Some(&"two"));
    assert_eq!(cache.get(&3), Some(&"three"));
}

#[test]
fn test_frequency_tracking() {
    let mut cache = LFUCache::new(3);
    cache.put(1, "one", 1);

    assert_eq!(cache.get_freq(&1), Some(1));

    cache.get(&1);
    assert_eq!(cache.get_freq(&1), Some(2));

    cache.get(&1);
    assert_eq!(cache.get_freq(&1), Some(3));
}

#[test]
fn test_update_increases_frequency() {
    let mut cache = LFUCache::new(2);
    cache.put(1, "one", 1);
    cache.put(2, "two", 1);

    assert_eq!(cache.get_freq(&1), Some(1));

    // Update key 1
    cache.put(1, "ONE", 1);
    assert_eq!(cache.get_freq(&1), Some(2));

    // Key 2 should be evicted (lower frequency)
    cache.put(3, "three", 1);

    assert_eq!(cache.get(&1), Some(&"ONE"));
    assert_eq!(cache.get(&2), None);
    assert_eq!(cache.get(&3), Some(&"three"));
}

#[test]
fn test_is_empty() {
    let mut cache = LFUCache::new(2);
    assert!(cache.is_empty());

    cache.put(1, "one", 1);
    assert!(!cache.is_empty());

    cache.put(2, "two", 1);
    cache.put(3, "three", 1);
    assert!(!cache.is_empty());
}

#[test]
fn test_single_capacity() {
    let mut cache = LFUCache::new(1);
    cache.put(1, "one", 1);
    assert_eq!(cache.get(&1), Some(&"one"));

    cache.put(2, "two", 1);
    assert_eq!(cache.get(&1), None);
    assert_eq!(cache.get(&2), Some(&"two"));
}

// ========== Weighted Tests ==========

#[test]
fn test_weighted_basic() {
    let mut cache = LFUCache::new(3);
    cache.put(1, "one", 1);
    cache.put(2, "two", 2);

    assert_eq!(cache.get(&1), Some(&"one"));
    assert_eq!(cache.get(&2), Some(&"two"));
}

#[test]
fn test_weighted_eviction_by_priority() {
    let mut cache = LFUCache::new(2);
    cache.put(1, "one", 1); // priority = 1 * 1 = 1
    cache.put(2, "two", 3); // priority = 1 * 3 = 3

    // Key 1 has lower priority and should be evicted first
    cache.put(3, "three", 1);

    assert_eq!(cache.get(&1), None);
    assert_eq!(cache.get(&2), Some(&"two"));
    assert_eq!(cache.get(&3), Some(&"three"));
}

#[test]
fn test_weighted_frequency_increase() {
    let mut cache = LFUCache::new(2);
    cache.put(1, "one", 2); // priority = 1 * 2 = 2
    cache.put(2, "two", 1); // priority = 1 * 1 = 1

    // Access key 2, increasing its priority to 2 * 1 = 2
    cache.get(&2);

    // Access key 1, increasing its priority to 2 * 2 = 4
    cache.get(&1);

    // Add third item - key 2 should be evicted (lower priority)
    cache.put(3, "three", 1);

    assert_eq!(cache.get(&1), Some(&"one"));
    assert_eq!(cache.get(&2), None);
    assert_eq!(cache.get(&3), Some(&"three"));
}

#[test]
fn test_weighted_high_weight_survives() {
    let mut cache = LFUCache::new(2);
    cache.put(1, "one", 10); // priority = 1 * 10 = 10
    cache.put(2, "two", 1); // priority = 1 * 1 = 1
    cache.put(3, "three", 1); // priority = 1 * 1 = 1

    // Key 1 should survive due to high weight
    assert_eq!(cache.get(&1), Some(&"one"));
    assert_eq!(cache.get(&2), None);
    assert_eq!(cache.get(&3), Some(&"three"));
}

#[test]
fn test_weighted_equal_priority_lru() {
    let mut cache = LFUCache::new(2);
    cache.put(1, "one", 2); // priority = 1 * 2 = 2
    cache.put(2, "two", 2); // priority = 1 * 2 = 2

    // Both have same priority, LRU should be evicted
    cache.put(3, "three", 1);

    assert_eq!(cache.get(&1), None);
    assert_eq!(cache.get(&2), Some(&"two"));
    assert_eq!(cache.get(&3), Some(&"three"));
}

#[test]
fn test_weighted_update_maintains_weight() {
    let mut cache = LFUCache::new(2);
    cache.put(1, "one", 5); // priority = 1 * 5 = 5

    // Update should maintain weight and increase frequency
    cache.put(1, "ONE", 5); // priority = 2 * 5 = 10

    cache.put(2, "two", 1); // priority = 1 * 1 = 1

    // Add third item - key 2 should be evicted
    cache.put(3, "three", 2); // priority = 1 * 2 = 2

    assert_eq!(cache.get(&1), Some(&"ONE"));
    assert_eq!(cache.get(&2), None);
    assert_eq!(cache.get(&3), Some(&"three"));
}

#[test]
fn test_weighted_complex_scenario() {
    let mut cache = LFUCache::new(3);
    cache.put(1, "one", 1); // priority = 1 * 1 = 1
    cache.put(2, "two", 2); // priority = 1 * 2 = 2
    cache.put(3, "three", 3); // priority = 1 * 3 = 3

    // Access patterns
    cache.get(&1); // priority = 2 * 1 = 2
    cache.get(&1); // priority = 3 * 1 = 3
    cache.get(&2); // priority = 2 * 2 = 4

    // At this point: key1=3, key2=4, key3=3
    // key3 is LRU among priority=3

    cache.put(4, "four", 1); // priority = 1 * 1 = 1

    // Key 4 should evict key 3 (lowest priority)
    assert_eq!(cache.get(&1), Some(&"one"));
    assert_eq!(cache.get(&2), Some(&"two"));
    assert_eq!(cache.get(&3), None);
    assert_eq!(cache.get(&4), Some(&"four"));
}

// ========== Large Capacity Tests ==========

#[test]
fn test_large_capacity() {
    let mut cache = LFUCache::new(100);
    for i in 0..100 {
        cache.put(i, i * 2, 1);
    }

    assert_eq!(cache.len(), 100);

    // Access some keys
    for i in 0..50 {
        assert_eq!(cache.get(&i), Some(&(i * 2)));
    }

    // Add more items
    for i in 100..150 {
        cache.put(i, i * 2, 1);
    }

    // First 50 should still be there (higher frequency)
    for i in 0..50 {
        assert_eq!(cache.get(&i), Some(&(i * 2)));
    }

    // Items 50-99 should have been evicted
    for i in 50..100 {
        assert_eq!(cache.get(&i), None);
    }
}

#[test]
fn test_lfu_unweighted_usage() {
    let mut cache = LFUCache::new(3);

    cache.put(1, "apple", 1);
    cache.put(2, "banana", 1);
    cache.put(3, "cherry", 1);

    // Access item 1 multiple times (increases frequency)
    cache.get(&1);
    cache.get(&1);
    cache.get(&1);

    // Access item 2 once
    cache.get(&2);

    // Adding a 4th item evicts the least frequent (key 3)
    cache.put(4, "date", 1);

    assert_eq!(cache.get(&3), None); // Evicted (freq=1)
    assert_eq!(cache.get(&1), Some(&"apple")); // Safe (freq=4)
}

#[test]
fn test_lfu_weighted_usage() {
    let mut cache = LFUCache::new(2);
    cache.put(1, "low_priority", 1);
    cache.put(2, "high_priority", 100);

    cache.put(3, "medium_priority", 50);
    assert_eq!(cache.get(&1), None); // Evicted due to low weight
    assert_eq!(cache.get(&2), Some(&"high_priority"));
}

// ========== Further cases ==========

#[test]
fn lfu_new_key_starts_at_one_and_each_access_adds_one() {
    let mut cache = LFUCache::new(3);
    cache.put("k", 0, 7);
    assert_eq!(cache.get_freq(&"k"), Some(1));
    for n in 2..=10usize {
        if n % 2 == 0 {
            cache.get(&"k");
        } else {
            cache.put("k", n, 7);
        }
        assert_eq!(cache.get_freq(&"k"), Some(n));
    }
    assert_eq!(cache.get_freq(&"absent"), None);
}

#[test]
fn lfu_miss_does_not_count() {
    let mut cache = LFUCache::new(2);
    cache.put(1, "one", 1);
    assert_eq!(cache.get(&2), None);
    assert_eq!(cache.get(&2), None);
    assert_eq!(cache.get_freq(&1), Some(1));
    assert_eq!(cache.get_freq(&2), None);
    assert_eq!(cache.len(), 1);
}

#[test]
fn lfu_tie_on_priority_goes_to_the_entry_touched_earlier() {
    // capacity 2: put(1, w=2); put(2, w=2); put(3, w=1) evicts key 1
    let mut cache = LFUCache::new(2);
    cache.put(1, "one", 2);
    cache.put(2, "two", 2);
    cache.put(3, "three", 1);
    assert_eq!(cache.get_freq(&1), None);
    assert_eq!(cache.get_freq(&2), Some(1));
    assert_eq!(cache.get_freq(&3), Some(1));
}

#[test]
fn lfu_tie_across_different_counts_and_weights() {
    // key 1: freq 2 x weight 3 = 6, key 2: freq 1 x weight 6 = 6, key 3: 1 x 7
    let mut cache = LFUCache::new(3);
    cache.put(1, "one", 3);
    cache.put(2, "two", 6);
    cache.put(3, "three", 7);
    cache.get(&1);
    // key 2 was touched before key 1 was touched last
    cache.put(4, "four", 100);
    assert_eq!(cache.get_freq(&2), None);
    assert_eq!(cache.get_freq(&1), Some(2));
    assert_eq!(cache.get_freq(&3), Some(1));
    assert_eq!(cache.get_freq(&4), Some(1));
}

#[test]
fn lfu_least_priority_is_found_again_after_its_bucket_emptied() {
    // priorities 1, 5, 9; once the bucket of 1 is gone the least is 5, not
    // the priority of the entry that came last
    let mut cache = LFUCache::new(3);
    cache.put('a', 0, 1);
    cache.put('b', 0, 5);
    cache.put('c', 0, 9);
    cache.put('d', 0, 20); // evicts a
    assert_eq!(cache.get_freq(&'a'), None);
    cache.put('e', 0, 30); // evicts b
    assert_eq!(cache.get_freq(&'b'), None);
    cache.put('f', 0, 40); // evicts c
    assert_eq!(cache.get_freq(&'c'), None);
    assert_eq!(cache.get_freq(&'d'), Some(1));
    assert_eq!(cache.get_freq(&'e'), Some(1));
    assert_eq!(cache.get_freq(&'f'), Some(1));
    assert_eq!(cache.len(), 3);
}

#[test]
fn lfu_evicted_slot_leaves_the_queue() {
    let mut cache = LFUCache::new(2);
    cache.put(1, "one", 1);
    cache.put(2, "two", 1);
    cache.put(3, "three", 1); // evicts 1
    cache.put(4, "four", 1); // evicts 2
    cache.put(5, "five", 1); // evicts 3
    assert_eq!(cache.len(), 2);
    assert_eq!(cache.get(&1), None);
    assert_eq!(cache.get(&2), None);
    assert_eq!(cache.get(&3), None);
    assert_eq!(cache.get(&4), Some(&"four"));
    assert_eq!(cache.get(&5), Some(&"five"));
}

#[test]
fn lfu_len_never_passes_capacity() {
    let mut cache = LFUCache::new(4);
    for i in 0..50u32 {
        cache.put(i, i, i % 5);
        if i % 3 == 0 {
            cache.get(&i);
        }
        assert!(cache.len() <= 4);
        let expected = if i < 4 { (i + 1) as usize } else { 4 };
        assert_eq!(cache.len(), expected);
    }
}

#[test]
fn lfu_update_keeps_len_and_the_first_weight() {
    let mut cache = LFUCache::new(2);
    cache.put(1, "one", 10);
    cache.put(2, "two", 15);
    // the weight of an update is not used: key 1 stays at weight 10,
    // priority 2 x 10 = 20 > 15
    cache.put(1, "uno", 1);
    assert_eq!(cache.len(), 2);
    assert_eq!(cache.get_freq(&1), Some(2));
    cache.put(3, "three", 1);
    assert_eq!(cache.get_freq(&2), None);
    assert_eq!(cache.get(&1), Some(&"uno"));
}

#[test]
fn lfu_zero_weight_gives_priority_zero() {
    let mut cache = LFUCache::new(2);
    cache.put(1, "zero", 0);
    cache.put(2, "one", 1);
    cache.get(&1);
    cache.get(&1);
    // 3 x 0 = 0 is still below 1 x 1
    cache.put(3, "three", 1);
    assert_eq!(cache.get_freq(&1), None);
    assert_eq!(cache.get_freq(&2), Some(1));
}

#[test]
fn lfu_greatest_weight_does_not_wrap() {
    let mut cache = LFUCache::new(2);
    cache.put(1, "heavy", u32::MAX);
    cache.put(2, "light", 1);
    // 2 x (2^32 - 1) passes 32 bits and must stay above 4 x 1
    cache.get(&1);
    cache.get(&2);
    cache.get(&2);
    cache.get(&2);
    cache.put(3, "new", 2);
    assert_eq!(cache.get_freq(&2), None);
    assert_eq!(cache.get_freq(&1), Some(2));
}

#[test]
fn lfu_string_keys() {
    let mut cache = LFUCache::new(2);
    cache.put("foo".to_string(), 1, 1);
    cache.put("bar".to_string(), 2, 1);
    assert_eq!(cache.get(&"foo".to_string()), Some(&1));
    cache.put("baz".to_string(), 3, 1);
    assert_eq!(cache.get(&"bar".to_string()), None);
    assert_eq!(cache.get(&"foo".to_string()), Some(&1));
}

#[test]
fn lfu_queue_follows_priority_changes() {
    let mut cache = LFUCache::new(2);
    cache.put(1, "one", 1);
    cache.put(2, "two", 5);
    for _ in 0..9 {
        cache.get(&1);
    }
    // key 1 stands at 10 x 1, above 1 x 5
    cache.put(3, "three", 100);
    assert_eq!(cache.len(), 2);
    assert_eq!(cache.get_freq(&2), None);
    assert_eq!(cache.get_freq(&1), Some(10));
}

#[test]
fn lfu_evictions_in_a_row_take_the_victims_in_order() {
    let mut cache = LFUCache::new(3);
    cache.put('a', 1, 1);
    cache.put('b', 2, 5);
    cache.put('c', 3, 3);
    cache.evict_lfu();
    assert_eq!(cache.len(), 2);
    assert_eq!(cache.get_freq(&'a'), None);
    cache.evict_lfu();
    assert_eq!(cache.len(), 1);
    assert_eq!(cache.get_freq(&'c'), None);
    assert_eq!(cache.get_freq(&'b'), Some(1));
    cache.evict_lfu();
    assert!(cache.is_empty());
    cache.evict_lfu();
    assert!(cache.is_empty());
    cache.put('d', 4, 2);
    assert_eq!(cache.get(&'d'), Some(&4));
}
