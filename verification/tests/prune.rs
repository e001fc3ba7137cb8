use minicache::lru::LruCache;
use minicache::prune::{expired_keys, prune_expired};

#[test]
fn prune_removes_listed_keys_and_keeps_order() {
    let mut cache = LruCache::new(5);
    for k in 1..=5u64 {
        cache.insert(k, k * 10);
    }
    prune_expired(&mut cache, vec![2, 4, 9]);
    let keys: Vec<u64> = cache.iter().into_iter().map(|(k, _)| *k).collect();
    assert_eq!(keys, vec![5, 3, 1]);
    assert_eq!(cache.get(&3), Some(&30));
    assert_eq!(cache.capacity(), 5);
}

#[test]
fn prune_with_no_keys_changes_nothing() {
    let mut cache = LruCache::new(2);
    cache.insert("a", 1);
    prune_expired(&mut cache, vec![]);
    assert_eq!(cache.len(), 1);
}

#[test]
fn expired_entry_is_pruned() {
    let mut cache = LruCache::new(10);
    cache.insert("a".to_string(), 1);
    prune_expired(&mut cache, vec!["a".to_string()]);
    assert_eq!(cache.len(), 0);
}

#[test]
fn expired_keys_picks_ages_strictly_over_ttl() {
    let ages = vec![
        ("a".to_string(), 5u128),
        ("b".to_string(), 10),
        ("c".to_string(), 11),
        ("d".to_string(), 0),
        ("e".to_string(), 100),
    ];
    assert_eq!(expired_keys(ages, 10), vec!["c".to_string(), "e".to_string()]);
    let none: Vec<(u64, u128)> = vec![];
    assert!(expired_keys(none, 0).is_empty());
}

#[test]
fn pruning_by_age_keeps_fresh_entries() {
    let mut cache = LruCache::new(4);
    cache.insert(1u64, "old");
    cache.insert(2u64, "fresh");
    cache.insert(3u64, "older");
    let ages = vec![(1u64, 2_000u128), (2, 10), (3, 5_000)];
    prune_expired(&mut cache, expired_keys(ages, 1_000));
    assert_eq!(cache.len(), 1);
    assert_eq!(cache.get(&2), Some(&"fresh"));
}
