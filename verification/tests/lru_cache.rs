use rust_interview_lab::lru_cache::LruCache;

#[test]
fn put_get_and_len() {
    let mut cache = LruCache::new(2);
    cache.put("a".to_string(), 1);
    cache.put("b".to_string(), 2);
    assert_eq!(cache.len(), 2);
    assert_eq!(cache.get(&"a".to_string()), Some(1));
    assert_eq!(cache.get(&"missing".to_string()), None);
}

#[test]
fn evicts_least_recently_used() {
    let mut cache = LruCache::new(2);
    cache.put("a".to_string(), 1);
    cache.put("b".to_string(), 2);
    cache.put("c".to_string(), 3);
    assert_eq!(cache.get(&"a".to_string()), None);
    assert_eq!(cache.get(&"b".to_string()), Some(2));
    assert_eq!(cache.get(&"c".to_string()), Some(3));
}

#[test]
fn get_updates_recency() {
    let mut cache = LruCache::new(2);
    cache.put("a".to_string(), 1);
    cache.put("b".to_string(), 2);
    assert_eq!(cache.get(&"a".to_string()), Some(1));
    cache.put("c".to_string(), 3);
    assert_eq!(cache.get(&"b".to_string()), None);
    assert_eq!(cache.get(&"a".to_string()), Some(1));
    assert_eq!(cache.get(&"c".to_string()), Some(3));
}

#[test]
fn updating_existing_key_moves_it_to_mru() {
    let mut cache = LruCache::new(2);
    cache.put("a".to_string(), 1);
    cache.put("b".to_string(), 2);
    cache.put("a".to_string(), 10);
    cache.put("c".to_string(), 3);
    assert_eq!(cache.get(&"a".to_string()), Some(10));
    assert_eq!(cache.get(&"b".to_string()), None);
    assert_eq!(cache.get(&"c".to_string()), Some(3));
}

#[test]
fn length_never_exceeds_capacity() {
    let mut cache = LruCache::new(3);
    assert!(cache.is_empty());
    for k in 0..10u64 {
        cache.put(k, k * 2);
        assert!(cache.len() <= 3);
    }
    assert_eq!(cache.len(), 3);
    assert_eq!(cache.get(&9), Some(18));
    assert_eq!(cache.get(&6), None);
}
