use magellan::cache::{EntityCacheKey, LruCache};

#[test]
fn test_lru_cache_basic_operations() {
    let mut cache: LruCache<String, i32> = LruCache::new(3);

    assert_eq!(cache.get(&"a".to_string()), None);
    assert_eq!(cache._len(), 0);
    assert!(cache._is_empty());

    cache.put("a".to_string(), 1);
    cache.put("b".to_string(), 2);
    assert_eq!(cache.get(&"a".to_string()), Some(&1));
    assert_eq!(cache.get(&"b".to_string()), Some(&2));
    assert_eq!(cache._len(), 2);
    assert!(!cache._is_empty());
}

#[test]
fn test_lru_cache_eviction() {
    let mut cache: LruCache<String, i32> = LruCache::new(2);

    cache.put("a".to_string(), 1);
    cache.put("b".to_string(), 2);

    cache.get(&"a".to_string());

    cache.put("c".to_string(), 3);

    assert_eq!(cache.get(&"a".to_string()), Some(&1));
    assert_eq!(cache.get(&"b".to_string()), None);
    assert_eq!(cache.get(&"c".to_string()), Some(&3));
    assert_eq!(cache._len(), 2);
}

#[test]
fn test_lru_cache_update_existing() {
    let mut cache: LruCache<String, i32> = LruCache::new(3);

    cache.put("a".to_string(), 1);
    cache.put("b".to_string(), 2);
    cache.put("c".to_string(), 3);

    cache.put("a".to_string(), 10);

    cache.put("d".to_string(), 4);

    assert_eq!(cache.get(&"a".to_string()), Some(&10));
    assert_eq!(cache.get(&"b".to_string()), None);
    assert_eq!(cache.get(&"c".to_string()), Some(&3));
    assert_eq!(cache.get(&"d".to_string()), Some(&4));
    assert_eq!(cache._len(), 3);
}

#[test]
fn test_lru_cache_invalidate() {
    let mut cache: LruCache<String, i32> = LruCache::new(3);

    cache.put("a".to_string(), 1);
    cache.put("b".to_string(), 2);
    cache.put("c".to_string(), 3);

    cache.invalidate(&"b".to_string());

    assert_eq!(cache.get(&"a".to_string()), Some(&1));
    assert_eq!(cache.get(&"b".to_string()), None);
    assert_eq!(cache.get(&"c".to_string()), Some(&3));
    assert_eq!(cache._len(), 2);
}

#[test]
fn test_lru_cache_clear() {
    let mut cache: LruCache<String, i32> = LruCache::new(3);

    cache.put("a".to_string(), 1);
    cache.put("b".to_string(), 2);

    cache.clear();

    assert_eq!(cache._len(), 0);
    assert!(cache._is_empty());
    assert_eq!(cache.get(&"a".to_string()), None);
}

#[test]
fn test_cache_stats() {
    let mut cache: LruCache<String, i32> = LruCache::new(3);

    cache.put("a".to_string(), 1);
    cache.put("b".to_string(), 2);

    cache.get(&"a".to_string());
    cache.get(&"b".to_string());
    cache.get(&"c".to_string());

    let stats = cache.stats();
    assert_eq!(stats.hits, 2);
    assert_eq!(stats.misses, 1);
    assert_eq!(stats.size, 2);
}

#[test]
fn cache_read_after_write_gives_the_value_written() {
    let mut cache: LruCache<EntityCacheKey, &str> = LruCache::new(2);
    cache.put(EntityCacheKey(7), "seven");
    assert_eq!(cache.get(&EntityCacheKey(7)), Some(&"seven"));
    cache.put(EntityCacheKey(7), "SEVEN");
    assert_eq!(cache.get(&EntityCacheKey(7)), Some(&"SEVEN"));
    assert_eq!(cache._len(), 1);
}

#[test]
fn cache_never_holds_more_than_its_capacity() {
    let mut cache: LruCache<EntityCacheKey, i64> = LruCache::new(2);
    for k in 0..10 {
        cache.put(EntityCacheKey(k), k * 10);
        assert!(cache._len() <= 2);
    }
    assert_eq!(cache.get(&EntityCacheKey(9)), Some(&90));
    assert_eq!(cache.get(&EntityCacheKey(8)), Some(&80));
    assert_eq!(cache.get(&EntityCacheKey(7)), None);
}

#[test]
fn cache_invalidated_key_is_gone_and_others_stay() {
    let mut cache: LruCache<EntityCacheKey, i64> = LruCache::new(3);
    cache.put(EntityCacheKey(1), 1);
    cache.put(EntityCacheKey(2), 2);
    cache.invalidate(&EntityCacheKey(1));
    cache.invalidate(&EntityCacheKey(5));
    assert_eq!(cache.get(&EntityCacheKey(1)), None);
    assert_eq!(cache.get(&EntityCacheKey(2)), Some(&2));
    let s = cache.stats();
    assert_eq!((s.hits, s.misses, s.size), (1, 1, 1));
}
