use rust_interview_lab::lru_cache_easy::LruCache;

#[test]
fn basic_eviction() {
    let mut c = LruCache::new(2);
    c.put("A", 1);
    c.put("B", 2);
    assert_eq!(c.get(&"A"), Some(&1));
    c.put("C", 3);
    assert_eq!(c.get(&"B"), None);
    assert_eq!(c.get(&"A"), Some(&1));
    assert_eq!(c.get(&"C"), Some(&3));
}

#[test]
fn updating_existing_key_keeps_it() {
    let mut c = LruCache::new(2);
    c.put("A", 1);
    c.put("B", 2);
    c.put("A", 100);
    c.put("C", 3);
    assert_eq!(c.get(&"A"), Some(&100));
    assert_eq!(c.get(&"B"), None);
    assert_eq!(c.get(&"C"), Some(&3));
}

#[test]
fn get_refreshes_recency() {
    let mut c = LruCache::new(2);
    c.put("A", 1);
    c.put("B", 2);
    assert_eq!(c.get(&"A"), Some(&1));
    c.put("C", 3);
    assert_eq!(c.get(&"B"), None);
    assert_eq!(c.get(&"A"), Some(&1));
}

#[test]
fn capacity_one() {
    let mut c = LruCache::new(1);
    c.put("A", 1);
    c.put("B", 2);
    assert_eq!(c.get(&"A"), None);
    assert_eq!(c.get(&"B"), Some(&2));
}

#[test]
fn missing_key_returns_none() {
    let mut c: LruCache<&str, i32> = LruCache::new(2);
    assert_eq!(c.get(&"nope"), None);
}

#[test]
#[should_panic(expected = "capacity must be > 0")]
fn zero_capacity_panics() {
    let _: LruCache<&str, i32> = LruCache::new(0);
}
