use bounded_cache::lru::LRUCache;

#[test]
fn test_basic_operations() {
    let mut cache = LRUCache::new(2);

    cache.put(1, "one", 0);
    cache.put(2, "two", 0);

    assert_eq!(cache.get(&1), Some(&"one"));
    assert_eq!(cache.get(&2), Some(&"two"));
}

#[test]
fn test_eviction() {
    let mut cache = LRUCache::new(2);

    cache.put(1, "one", 0);
    cache.put(2, "two", 0);
    cache.put(3, "three", 0);

    assert_eq!(cache.get(&1), None);
    assert_eq!(cache.get(&2), Some(&"two"));
    assert_eq!(cache.get(&3), Some(&"three"));
}

#[test]
fn test_lru_order() {
    let mut cache = LRUCache::new(2);

    cache.put(1, "one", 0);
    cache.put(2, "two", 0);
    cache.get(&1);
    cache.put(3, "three", 0);

    assert_eq!(cache.get(&1), Some(&"one"));
    assert_eq!(cache.get(&2), None);
    assert_eq!(cache.get(&3), Some(&"three"));
}

#[test]
fn test_lru_basic_usage() {
    let mut cache = LRUCache::new(3);
    cache.put("a", 1, 0);
    cache.put("b", 2, 0);
    cache.put("c", 3, 0);

    assert_eq!(cache.get(&"a"), Some(&1));
    assert_eq!(cache.len(), 3);

    // Accessing "a" makes it most recently used
    cache.put("d", 4, 0);
    assert_eq!(cache.get(&"b"), None); // "b" was LRU
}

#[test]
fn lru_new_cache_is_empty() {
    let cache: LRUCache<u32, u32> = LRUCache::new(4);
    assert_eq!(cache.len(), 0);
    assert!(cache.is_empty());
}

#[test]
fn lru_evicts_in_insertion_order_without_lookups() {
    let mut cache = LRUCache::new(2);
    cache.put("a", 1, 0);
    cache.put("b", 2, 0);
    cache.put("c", 3, 0);
    // "a" went first
    assert_eq!(cache.len(), 2);
    cache.put("d", 4, 0);
    // then "b"
    assert_eq!(cache.get(&"a"), None);
    assert_eq!(cache.get(&"b"), None);
    assert_eq!(cache.get(&"c"), Some(&3));
    assert_eq!(cache.get(&"d"), Some(&4));
}

#[test]
fn lru_lookup_between_puts_changes_the_victim() {
    let mut cache = LRUCache::new(2);
    cache.put("a", 1, 0);
    cache.put("b", 2, 0);
    assert_eq!(cache.get(&"a"), Some(&1));
    cache.put("c", 3, 0);
    assert_eq!(cache.get(&"b"), None);
    assert_eq!(cache.get(&"a"), Some(&1));
    cache.put("d", 4, 0);
    assert_eq!(cache.get(&"c"), None);
    assert_eq!(cache.get(&"a"), Some(&1));
    assert_eq!(cache.get(&"d"), Some(&4));
}

#[test]
fn lru_len_never_passes_capacity() {
    let mut cache = LRUCache::new(3);
    for i in 0..20u32 {
        cache.put(i, i, 0);
        let expected = if i < 3 { (i + 1) as usize } else { 3 };
        assert_eq!(cache.len(), expected);
    }
}

#[test]
fn lru_len_counts_distinct_keys_while_there_is_room() {
    let mut cache = LRUCache::new(5);
    cache.put(1, 'a', 0);
    cache.put(2, 'b', 0);
    cache.put(1, 'c', 0);
    cache.put(3, 'd', 0);
    cache.put(2, 'e', 0);
    assert_eq!(cache.len(), 3);
}

#[test]
fn lru_miss_changes_nothing() {
    let mut cache = LRUCache::new(2);
    cache.put(1, "one", 0);
    cache.put(2, "two", 0);
    assert_eq!(cache.get(&7), None);
    assert_eq!(cache.get(&7), None);
    assert_eq!(cache.len(), 2);
    // 1 is still the least recently used entry
    cache.put(3, "three", 0);
    assert_eq!(cache.get(&1), None);
    assert_eq!(cache.get(&2), Some(&"two"));
}

#[test]
fn lru_miss_on_evicted_key_repeats() {
    let mut cache = LRUCache::new(1);
    cache.put(1, "one", 0);
    cache.put(2, "two", 0);
    assert_eq!(cache.get(&1), None);
    assert_eq!(cache.get(&1), None);
    assert_eq!(cache.len(), 1);
    assert_eq!(cache.get(&2), Some(&"two"));
}

#[test]
fn lru_update_in_place_keeps_len_and_takes_the_new_value() {
    let mut cache = LRUCache::new(2);
    cache.put(1, "one", 0);
    cache.put(2, "two", 0);
    cache.put(1, "uno", 0);
    assert_eq!(cache.len(), 2);
    assert_eq!(cache.get(&1), Some(&"uno"));
    cache.put(1, "eins", 0);
    assert_eq!(cache.len(), 2);
    assert_eq!(cache.get(&1), Some(&"eins"));
}

#[test]
fn lru_update_makes_the_entry_most_recent() {
    let mut cache = LRUCache::new(2);
    cache.put(1, "one", 0);
    cache.put(2, "two", 0);
    cache.put(1, "uno", 0);
    cache.put(3, "three", 0);
    assert_eq!(cache.get(&2), None);
    assert_eq!(cache.get(&1), Some(&"uno"));
}

#[test]
fn lru_weight_is_ignored() {
    let mut cache = LRUCache::new(2);
    cache.put(1, "one", 1000);
    cache.put(2, "two", 1);
    cache.put(3, "three", 1);
    assert_eq!(cache.get(&1), None);
    assert_eq!(cache.get(&2), Some(&"two"));
}

#[test]
fn lru_capacity_one() {
    let mut cache = LRUCache::new(1);
    cache.put("x", 1, 0);
    assert_eq!(cache.get(&"x"), Some(&1));
    cache.put("y", 2, 0);
    assert_eq!(cache.get(&"x"), None);
    assert_eq!(cache.get(&"y"), Some(&2));
    assert_eq!(cache.len(), 1);
}

#[test]
fn lru_slots_are_reused_over_many_rounds() {
    let mut cache = LRUCache::new(3);
    for i in 0..1000u32 {
        cache.put(i, i * 10, 0);
        if i >= 1 {
            assert_eq!(cache.get(&(i - 1)), Some(&((i - 1) * 10)));
        }
        if i >= 3 {
            assert_eq!(cache.get(&(i - 3)), None);
        }
    }
    assert_eq!(cache.len(), 3);
}

#[test]
fn lru_remove_tail_drops_the_least_recent_entry() {
    let mut cache = LRUCache::new(3);
    cache.put(1, "one", 0);
    cache.put(2, "two", 0);
    cache.put(3, "three", 0);
    cache.remove_tail();
    assert_eq!(cache.len(), 2);
    assert_eq!(cache.get(&1), None);
    assert_eq!(cache.get(&2), Some(&"two"));
    assert_eq!(cache.get(&3), Some(&"three"));
}

#[test]
fn lru_remove_tail_on_empty_cache_is_idle() {
    let mut cache: LRUCache<u8, u8> = LRUCache::new(3);
    cache.remove_tail();
    assert_eq!(cache.len(), 0);
    cache.put(1, 1, 0);
    assert_eq!(cache.get(&1), Some(&1));
}

#[test]
fn lru_move_to_front_promotes_a_slot() {
    let mut cache = LRUCache::new(3);
    // a fresh arena hands out slots 0, 1, 2 in turn
    cache.put("a", 1, 0);
    cache.put("b", 2, 0);
    cache.put("c", 3, 0);
    cache.move_to_front(0);
    // "b" is now the least recently used entry
    cache.put("d", 4, 0);
    assert_eq!(cache.get(&"b"), None);
    assert_eq!(cache.get(&"a"), Some(&1));
    assert_eq!(cache.get(&"c"), Some(&3));
    assert_eq!(cache.get(&"d"), Some(&4));
}

#[test]
fn lru_move_to_front_of_the_head_changes_nothing() {
    let mut cache = LRUCache::new(2);
    cache.put("a", 1, 0);
    cache.put("b", 2, 0);
    cache.move_to_front(1);
    cache.put("c", 3, 0);
    assert_eq!(cache.get(&"a"), None);
    assert_eq!(cache.get(&"b"), Some(&2));
}

#[test]
fn lru_detach_then_add_to_front_is_a_promotion() {
    let mut cache = LRUCache::new(3);
    cache.put("a", 1, 0);
    cache.put("b", 2, 0);
    cache.put("c", 3, 0);
    cache.detach(1);
    cache.add_to_front(1);
    // order is now b, c, a
    cache.put("d", 4, 0);
    assert_eq!(cache.get(&"a"), None);
    cache.put("e", 5, 0);
    assert_eq!(cache.get(&"c"), None);
    assert_eq!(cache.get(&"b"), Some(&2));
    assert_eq!(cache.len(), 3);
}

#[test]
fn lru_freed_slot_is_taken_before_the_arena_grows() {
    let mut cache = LRUCache::new(3);
    cache.put("a", 1, 0); // slot 0
    cache.put("b", 2, 0); // slot 1
    cache.put("c", 3, 0); // slot 2
    cache.put("d", 4, 0); // evicts "a"; "d" takes slot 0
    assert_eq!(cache.get(&"b"), Some(&2));
    assert_eq!(cache.get(&"c"), Some(&3));
    // order is now c, b, d
    cache.move_to_front(0);
    // order is now d, c, b
    cache.put("e", 5, 0);
    assert_eq!(cache.get(&"b"), None);
    assert_eq!(cache.get(&"d"), Some(&4));
    assert_eq!(cache.get(&"c"), Some(&3));
    assert_eq!(cache.get(&"e"), Some(&5));
    assert_eq!(cache.len(), 3);
}
