use bounded_cache::contract::Cache;
use bounded_cache::landlord::Landlord;
use bounded_cache::lfu_w::{LFUCache, PriorityList};
use bounded_cache::lru::LRUCache;
use bounded_cache::CacheType;

#[test]
fn test_all_caches_with_strings() {
    // LRU
    let mut lru = LRUCache::new(2);

    lru.put("hello", "world", 0);
    assert_eq!(lru.get(&"hello"), Some(&"world"));

    // LFU
    let mut lfu = LFUCache::new(2);

    lfu.put("foo", "bar", 1);
    assert_eq!(lfu.get(&"foo"), Some(&"bar"));

    // Landlord
    let mut landlord = Landlord::new(2);

    landlord.put("key".to_string(), "value", 10);
    assert_eq!(landlord.get("key".to_string()), Some(&"value"));
}

fn exercise(mut cache: CacheType<u32, &'static str>) {
    assert!(cache.is_empty());
    assert_eq!(cache.len(), 0);
    assert_eq!(cache.get(&1), None);
    cache.put(1, "one", 3);
    cache.put(2, "two", 5);
    assert_eq!(cache.len(), 2);
    assert!(!cache.is_empty());
    assert_eq!(cache.get(&1), Some(&"one"));
    assert_eq!(cache.get(&2), Some(&"two"));
    assert_eq!(cache.get(&3), None);
    assert_eq!(cache.len(), 2);
    cache.put(1, "uno", 3);
    assert_eq!(cache.len(), 2);
    assert_eq!(cache.get(&1), Some(&"uno"));
    cache.put(3, "three", 4);
    assert_eq!(cache.len(), 2);
    assert_eq!(cache.get(&3), Some(&"three"));
}

#[test]
fn dispatch_lru_meets_the_shared_contract() {
    exercise(CacheType::new_lru(2));
}

#[test]
fn dispatch_lfu_meets_the_shared_contract() {
    exercise(CacheType::new_lfu(2));
}

#[test]
fn dispatch_landlord_meets_the_shared_contract() {
    exercise(CacheType::new_landlord(2));
}

#[test]
fn dispatch_policies_pick_different_victims() {
    let mut lru: CacheType<char, u8> = CacheType::new_lru(2);
    let mut lfu: CacheType<char, u8> = CacheType::new_lfu(2);
    let mut landlord: CacheType<char, u8> = CacheType::new_landlord(2);
    // a: weight 1, looked up twice; b: weight 9, never looked up
    for cache in [&mut lru, &mut lfu, &mut landlord] {
        cache.put('b', 2, 9);
        cache.put('a', 1, 1);
        cache.get(&'a');
        cache.get(&'a');
        cache.put('b', 2, 9);
        cache.put('c', 3, 5);
    }
    // least recently used: a
    assert_eq!(lru.get(&'a'), None);
    assert_eq!(lru.get(&'b'), Some(&2));
    // priorities a = 3 x 1, b = 2 x 9: a
    assert_eq!(lfu.get(&'a'), None);
    assert_eq!(lfu.get(&'b'), Some(&2));
    // due points a = 0 + 1, b = 0 + 9: a
    assert_eq!(landlord.get(&'a'), None);
    assert_eq!(landlord.get(&'b'), Some(&2));
    assert_eq!(landlord.get(&'c'), Some(&3));
}

#[test]
fn priority_list_new_builds() {
    let _list: PriorityList = PriorityList::new();
    let _copy = _list;
}

fn through_the_trait<C: Cache<&'static str, i32>>() {
    let mut cache = C::new(2);
    assert!(Cache::is_empty(&cache));
    Cache::put(&mut cache, "a", 1, 4);
    Cache::put(&mut cache, "b", 2, 4);
    assert_eq!(Cache::get(&mut cache, &"a"), Some(&1));
    assert_eq!(Cache::get(&mut cache, &"z"), None);
    Cache::put(&mut cache, "a", 10, 4);
    assert_eq!(Cache::len(&cache), 2);
    assert_eq!(Cache::get(&mut cache, &"a"), Some(&10));
    Cache::put(&mut cache, "c", 3, 4);
    assert_eq!(Cache::len(&cache), 2);
    assert_eq!(Cache::get(&mut cache, &"c"), Some(&3));
}

#[test]
fn trait_lru() {
    through_the_trait::<LRUCache<&'static str, i32>>();
}

#[test]
fn trait_lfu() {
    through_the_trait::<LFUCache<&'static str, i32>>();
}

#[test]
fn trait_landlord() {
    through_the_trait::<Landlord<&'static str, i32>>();
}
