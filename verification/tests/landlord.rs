use bounded_cache::landlord::Landlord;

#[test]
fn test_new_cache() {
    let cache: Landlord<String, i32> = Landlord::new(5);
    assert_eq!(cache.capacity(), 5);
    assert_eq!(cache.threshold(), 0);
}

#[test]
fn test_put_and_get() {
    let mut cache = Landlord::new(3);
    cache.put("key1".to_string(), 100, 10);

    let value = cache.get("key1".to_string());
    assert_eq!(value, Some(&100));
}

#[test]
fn test_get_nonexistent_key() {
    let mut cache: Landlord<String, i32> = Landlord::new(3);
    let value = cache.get("nonexistent".to_string());
    assert_eq!(value, None);
}

#[test]
fn test_put_multiple_items() {
    let mut cache = Landlord::new(3);
    cache.put("key1".to_string(), 100, 10);
    cache.put("key2".to_string(), 200, 20);
    cache.put("key3".to_string(), 300, 30);

    assert_eq!(cache.get("key1".to_string()), Some(&100));
    assert_eq!(cache.get("key2".to_string()), Some(&200));
    assert_eq!(cache.get("key3".to_string()), Some(&300));
}

#[test]
fn test_eviction_on_capacity_reached() {
    let mut cache = Landlord::new(2);
    cache.put("key1".to_string(), 100, 10);
    cache.put("key2".to_string(), 200, 20);

    // This should trigger eviction of key1 (lowest priority)
    cache.put("key3".to_string(), 300, 30);

    assert_eq!(cache.get("key1".to_string()), None);
    assert_eq!(cache.get("key2".to_string()), Some(&200));
    assert_eq!(cache.get("key3".to_string()), Some(&300));
}

#[test]
fn test_priority_update_on_get() {
    let mut cache = Landlord::new(2);
    cache.put("key1".to_string(), 100, 10);
    cache.put("key2".to_string(), 200, 5);

    // Access key1 to boost its priority
    cache.get("key1".to_string());

    // Adding key3 should evict key2 (lowest priority after key1 was accessed)
    cache.put("key3".to_string(), 300, 15);

    assert_eq!(cache.get("key1".to_string()), Some(&100));
    assert_eq!(cache.get("key2".to_string()), None);
    assert_eq!(cache.get("key3".to_string()), Some(&300));
}

#[test]
fn test_l_value_updates_on_eviction() {
    let mut cache = Landlord::new(2);
    cache.put("key1".to_string(), 100, 10);
    assert_eq!(cache.threshold(), 0);

    cache.put("key2".to_string(), 200, 20);
    cache.put("key3".to_string(), 300, 30); // Triggers eviction

    // After eviction, l should be updated to the priority of the evicted item
    assert_eq!(cache.threshold(), 10);
}

#[test]
fn test_manual_evict() {
    let mut cache = Landlord::new(3);
    cache.put("key1".to_string(), 100, 10);
    cache.put("key2".to_string(), 200, 20);

    cache.evict();

    assert_eq!(cache.get("key1".to_string()), None);
    assert_eq!(cache.get("key2".to_string()), Some(&200));
}

#[test]
fn test_evict_on_empty_cache() {
    let mut cache: Landlord<String, i32> = Landlord::new(3);
    cache.evict(); // Should not panic
    assert_eq!(cache.threshold(), 0);
}

#[test]
fn test_weight_based_eviction() {
    let mut cache = Landlord::new(3);
    cache.put("low_weight".to_string(), 1, 5);
    cache.put("high_weight".to_string(), 2, 50);
    cache.put("medium_weight".to_string(), 3, 25);

    // Adding another item should evict low_weight (lowest priority)
    cache.put("new_item".to_string(), 4, 30);

    assert_eq!(cache.get("low_weight".to_string()), None);
    assert_eq!(cache.get("high_weight".to_string()), Some(&2));
    assert_eq!(cache.get("medium_weight".to_string()), Some(&3));
    assert_eq!(cache.get("new_item".to_string()), Some(&4));
}

#[test]
fn test_overwrite_existing_key() {
    let mut cache = Landlord::new(3);
    cache.put("key1".to_string(), 100, 10);
    cache.put("key1".to_string(), 200, 20);

    assert_eq!(cache.get("key1".to_string()), Some(&200));
}

#[test]
fn test_with_integer_keys() {
    let mut cache = Landlord::new(3);
    cache.put(1, "value1", 10);
    cache.put(2, "value2", 20);
    cache.put(3, "value3", 30);

    assert_eq!(cache.get(1), Some(&"value1"));
    assert_eq!(cache.get(2), Some(&"value2"));
    assert_eq!(cache.get(3), Some(&"value3"));
}

#[test]
fn test_sequential_evictions() {
    let mut cache = Landlord::new(2);
    cache.put("key1".to_string(), 100, 10);
    cache.put("key2".to_string(), 200, 20);

    let initial_l = cache.threshold();
    cache.put("key3".to_string(), 300, 30);
    assert!(cache.threshold() > initial_l);

    let second_l = cache.threshold();
    cache.put("key4".to_string(), 400, 40);
    assert!(cache.threshold() > second_l);
}

// ========== Further cases ==========

#[test]
fn landlord_threshold_is_the_due_point_of_the_entry_evicted_last() {
    let mut cache = Landlord::new(2);
    cache.put('a', 1, 10); // due 0 + 10
    cache.put('b', 2, 20); // due 0 + 20
    cache.put('c', 3, 30); // evicts a, L = 10, due 10 + 30 = 40
    assert_eq!(cache.threshold(), 10);
    cache.put('d', 4, 5); // evicts b, L = 20, due 20 + 5 = 25
    assert_eq!(cache.threshold(), 20);
    cache.put('e', 5, 1); // evicts d (25 < 40), L = 25
    assert_eq!(cache.threshold(), 25);
    assert_eq!(cache.get('c'), Some(&3));
    assert_eq!(cache.get('d'), None);
    assert_eq!(cache.get('e'), Some(&5));
}

#[test]
fn landlord_threshold_never_falls() {
    let mut cache = Landlord::new(3);
    let mut seen = cache.threshold();
    for i in 0..200u32 {
        cache.put(i % 17, i, (i * 7) % 13);
        assert!(cache.threshold() >= seen);
        seen = cache.threshold();
        cache.get((i * 5) % 17);
        assert_eq!(cache.threshold(), seen);
        if i % 11 == 0 {
            cache.evict();
            assert!(cache.threshold() >= seen);
            seen = cache.threshold();
        }
        assert!(cache.len() <= 3);
    }
}

#[test]
fn landlord_heavy_entry_outlives_light_ones() {
    // capacity 2: a weight-10 key, then two weight-1 keys in sequence
    let mut cache = Landlord::new(2);
    cache.put("heavy", 0, 10);
    cache.put("light1", 1, 1);
    cache.put("light2", 2, 1);
    assert_eq!(cache.get("heavy"), Some(&0));
    assert_eq!(cache.get("light1"), None);
    assert_eq!(cache.get("light2"), Some(&2));
    assert_eq!(cache.threshold(), 1);
}

#[test]
fn landlord_lookup_rearms_with_the_entrys_own_weight() {
    let mut cache = Landlord::new(2);
    cache.put('a', 1, 4); // due 4
    cache.put('b', 2, 6); // due 6
    cache.put('c', 3, 9); // evicts a, L = 4, c due 13
    assert_eq!(cache.threshold(), 4);
    cache.get('b'); // b due 4 + 6 = 10
    cache.put('d', 4, 100); // evicts b, L = 10
    assert_eq!(cache.threshold(), 10);
    assert_eq!(cache.get('b'), None);
    assert_eq!(cache.get('c'), Some(&3));
}

#[test]
fn landlord_overwrite_keeps_the_weight_and_len() {
    let mut cache = Landlord::new(2);
    cache.put('a', 1, 50); // due 0 + 50
    cache.put('b', 2, 20); // due 0 + 20
    cache.put('a', 10, 5); // a keeps weight 50 and is due at 0 + 50
    assert_eq!(cache.len(), 2);
    assert_eq!(cache.threshold(), 0);
    cache.put('c', 3, 30); // evicts b
    assert_eq!(cache.threshold(), 20);
    assert_eq!(cache.get('b'), None);
    assert_eq!(cache.get('a'), Some(&10));
}

#[test]
fn landlord_overwrite_rearms_as_a_lookup_does() {
    let mut cache = Landlord::new(2);
    cache.put('a', 1, 4); // due 4
    cache.put('b', 2, 6); // due 6
    cache.put('c', 3, 9); // evicts a, L = 4, c due 13
    assert_eq!(cache.threshold(), 4);
    cache.put('b', 20, 100); // b due 4 + 6 = 10, not 4 + 100
    assert_eq!(cache.threshold(), 4);
    assert_eq!(cache.len(), 2);
    cache.put('d', 4, 1); // evicts b, L = 10
    assert_eq!(cache.threshold(), 10);
    assert_eq!(cache.get('b'), None);
    assert_eq!(cache.get('c'), Some(&3));
    assert_eq!(cache.get('d'), Some(&4));
}

#[test]
fn landlord_overwrite_in_a_full_cache_evicts_nothing() {
    let mut cache = Landlord::new(2);
    cache.put('a', 1, 3);
    cache.put('b', 2, 8);
    cache.put('a', 5, 1);
    cache.put('b', 6, 1);
    assert_eq!(cache.len(), 2);
    assert_eq!(cache.threshold(), 0);
    assert_eq!(cache.get('a'), Some(&5));
    assert_eq!(cache.get('b'), Some(&6));
}

#[test]
fn landlord_miss_changes_nothing() {
    let mut cache = Landlord::new(2);
    cache.put('a', 1, 10);
    cache.put('b', 2, 20);
    assert_eq!(cache.get('z'), None);
    assert_eq!(cache.get('z'), None);
    assert_eq!(cache.len(), 2);
    assert_eq!(cache.threshold(), 0);
    cache.put('c', 3, 30);
    assert_eq!(cache.threshold(), 10);
    assert_eq!(cache.get('a'), None);
}

#[test]
fn landlord_len_and_is_empty() {
    let mut cache = Landlord::new(2);
    assert!(cache.is_empty());
    assert_eq!(cache.len(), 0);
    cache.put(1, 1, 1);
    assert!(!cache.is_empty());
    cache.put(2, 2, 2);
    cache.put(3, 3, 3);
    assert_eq!(cache.len(), 2);
    cache.evict();
    cache.evict();
    assert!(cache.is_empty());
    cache.evict();
    assert!(cache.is_empty());
    assert_eq!(cache.threshold(), 4);
}

#[test]
fn landlord_zero_weight_entry_is_due_at_once() {
    let mut cache = Landlord::new(2);
    cache.put('a', 1, 7);
    cache.evict();
    assert_eq!(cache.threshold(), 7);
    cache.put('b', 2, 0); // due 7 + 0
    cache.put('c', 3, 1); // due 8
    cache.put('d', 4, 1); // evicts b
    assert_eq!(cache.threshold(), 7);
    assert_eq!(cache.get('b'), None);
    assert_eq!(cache.get('c'), Some(&3));
}

#[test]
fn landlord_slots_are_reused_over_many_rounds() {
    let mut cache = Landlord::new(2);
    for i in 0..500u32 {
        cache.put(i, i, 1);
        assert_eq!(cache.get(i), Some(&i));
        assert!(cache.len() <= 2);
    }
    assert_eq!(cache.len(), 2);
}
