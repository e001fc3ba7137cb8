use minicache::lru::LruCache;

// access "a" and evict "b"
#[test]
fn evicts_least_recently_used() {
    let mut cache = LruCache::new(2);
    cache.insert("a", 1);
    cache.insert("b", 2);
    let _ = cache.get(&"a");
    cache.insert("c", 3);

    assert!(cache.contains_key(&"a"));
    assert!(!cache.contains_key(&"b"));
    assert!(cache.contains_key(&"c"));
}

// checks capacity=1 and keep newest
#[test]
fn capacity_one() {
    let mut cache = LruCache::new(1);
    cache.insert("a", 1);
    cache.insert("b", 2);

    assert!(!cache.contains_key(&"a"));
    assert!(cache.contains_key(&"b"));
}

// a should be 10 and b should get evicted
#[test]
fn duplicate_key_updates_value_and_recency() {
    let mut cache = LruCache::new(2);
    cache.insert("a", 1);
    cache.insert("b", 2);
    cache.insert("a", 10);
    cache.insert("c", 3);

    assert_eq!(cache.get(&"a"), Some(&10));
    assert!(!cache.contains_key(&"b"));
    assert!(cache.contains_key(&"c"));
}

fn keys_in_order(cache: &LruCache<u64, i32>) -> Vec<u64> {
    cache.iter().into_iter().map(|(k, _)| *k).collect()
}

#[test]
fn new_cache_is_empty() {
    let cache: LruCache<u64, i32> = LruCache::new(3);
    assert!(cache.is_empty());
    assert_eq!(cache.len(), 0);
    assert_eq!(cache.capacity(), 3);
    assert!(cache.iter().is_empty());
}

#[test]
fn read_after_write_returns_written_value() {
    let mut cache = LruCache::new(3);
    cache.insert(7u64, 70);
    assert_eq!(cache.get(&7), Some(&70));
    cache.insert(7u64, 71);
    assert_eq!(cache.get(&7), Some(&71));
    assert_eq!(cache.len(), 1);
}

#[test]
fn get_of_missing_key_changes_nothing() {
    let mut cache = LruCache::new(3);
    cache.insert(1u64, 10);
    cache.insert(2u64, 20);
    assert_eq!(cache.get(&9), None);
    assert_eq!(keys_in_order(&cache), vec![2, 1]);
}

#[test]
fn iter_lists_most_recent_first() {
    let mut cache = LruCache::new(4);
    cache.insert(1u64, 10);
    cache.insert(2u64, 20);
    cache.insert(3u64, 30);
    assert_eq!(keys_in_order(&cache), vec![3, 2, 1]);
    let _ = cache.get(&1);
    assert_eq!(keys_in_order(&cache), vec![1, 3, 2]);
    let values: Vec<i32> = cache.iter().into_iter().map(|(_, v)| *v).collect();
    assert_eq!(values, vec![10, 30, 20]);
}

#[test]
fn full_cache_evicts_exactly_the_least_recent() {
    let mut cache = LruCache::new(3);
    cache.insert(1u64, 10);
    cache.insert(2u64, 20);
    cache.insert(3u64, 30);
    cache.insert(4u64, 40);
    assert_eq!(cache.len(), 3);
    assert!(!cache.contains_key(&1));
    assert_eq!(keys_in_order(&cache), vec![4, 3, 2]);
    assert_eq!(cache.get(&2), Some(&20));
    assert_eq!(cache.get(&3), Some(&30));
}

#[test]
fn updating_a_full_cache_evicts_nothing() {
    let mut cache = LruCache::new(2);
    cache.insert(1u64, 10);
    cache.insert(2u64, 20);
    cache.insert(1u64, 11);
    assert_eq!(cache.len(), 2);
    assert_eq!(keys_in_order(&cache), vec![1, 2]);
    assert_eq!(cache.get(&2), Some(&20));
}

#[test]
fn touch_moves_entry_to_front() {
    let mut cache = LruCache::new(3);
    cache.insert(1u64, 10);
    cache.insert(2u64, 20);
    assert!(cache.touch(&1));
    assert!(!cache.touch(&5));
    assert_eq!(keys_in_order(&cache), vec![1, 2]);
    cache.insert(3u64, 30);
    cache.insert(4u64, 40);
    assert!(!cache.contains_key(&2));
    assert!(cache.contains_key(&1));
}

#[test]
fn contains_key_does_not_change_recency() {
    let mut cache = LruCache::new(2);
    cache.insert(1u64, 10);
    cache.insert(2u64, 20);
    assert!(cache.contains_key(&1));
    cache.insert(3u64, 30);
    assert!(!cache.contains_key(&1));
}

#[test]
fn remove_returns_value_and_forgets_key() {
    let mut cache = LruCache::new(3);
    cache.insert(1u64, 10);
    cache.insert(2u64, 20);
    cache.insert(3u64, 30);
    assert_eq!(cache.remove(&2), Some(20));
    assert_eq!(cache.remove(&2), None);
    assert!(!cache.contains_key(&2));
    assert_eq!(cache.len(), 2);
    assert_eq!(keys_in_order(&cache), vec![3, 1]);
}

#[test]
fn freed_slots_are_reused() {
    let mut cache = LruCache::new(2);
    for round in 0..10u64 {
        cache.insert(round, round as i32);
        cache.insert(round + 100, 1);
        assert_eq!(cache.remove(&round), Some(round as i32));
        assert_eq!(cache.remove(&(round + 100)), Some(1));
        assert!(cache.is_empty());
    }
    cache.insert(5, 50);
    assert_eq!(keys_in_order(&cache), vec![5]);
}

#[test]
fn get_mut_writes_through_and_promotes() {
    let mut cache = LruCache::new(2);
    cache.insert(1u64, 10);
    cache.insert(2u64, 20);
    if let Some(v) = cache.get_mut(&1) {
        *v = 99;
    }
    assert!(cache.get_mut(&7).is_none());
    assert_eq!(keys_in_order(&cache), vec![1, 2]);
    assert_eq!(cache.get(&1), Some(&99));
    cache.insert(3u64, 30);
    assert!(!cache.contains_key(&2));
}

#[test]
fn string_keys_work() {
    let mut cache: LruCache<String, String> = LruCache::new(2);
    cache.insert("q".to_string(), "r".to_string());
    assert_eq!(cache.get(&"q".to_string()), Some(&"r".to_string()));
    assert_eq!(cache.remove(&"q".to_string()), Some("r".to_string()));
    assert!(cache.is_empty());
}

#[test]
fn insert_then_remove_restores_order() {
    let mut cache = LruCache::new(4);
    cache.insert(1u64, 10);
    cache.insert(2u64, 20);
    let _ = cache.get(&1);
    let before = keys_in_order(&cache);
    cache.insert(9u64, 90);
    assert_eq!(cache.remove(&9), Some(90));
    assert_eq!(keys_in_order(&cache), before);
}

#[test]
fn touching_twice_equals_touching_once() {
    let mut cache = LruCache::new(3);
    cache.insert(1u64, 10);
    cache.insert(2u64, 20);
    cache.insert(3u64, 30);
    let _ = cache.get(&2);
    let once = keys_in_order(&cache);
    let _ = cache.get(&2);
    assert_eq!(keys_in_order(&cache), once);
    assert_eq!(once, vec![2, 3, 1]);
}
