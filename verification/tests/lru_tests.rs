use neurobin::lru::LruCache;

#[test]
fn test_lru_cache_initialization() {
    let lru: LruCache = LruCache::new(2);
    assert_eq!(lru.len(), 0);
    assert_eq!(lru.capacity(), 2);
}

#[test]
fn test_lru_cache_access() {
    let mut lru = LruCache::new(2);
    lru.access(1);
    lru.access(2);
    lru.access(1);

    assert_eq!(lru.len(), 2);
    assert_eq!(lru.front().unwrap(), 2);
    assert_eq!(lru.back().unwrap(), 1);
}

#[test]
fn test_lru_cache_eviction() {
    let mut lru = LruCache::new(2);
    lru.access(1);
    lru.access(2);
    lru.access(3); // This should evict '1'

    assert_eq!(lru.len(), 2);
    assert!(lru.contains(&2));
    assert!(lru.contains(&3));
    assert!(!lru.contains(&1));
}

#[test]
fn test_lru_cache_item_removal() {
    let mut lru = LruCache::new(2);
    let key = 1;
    lru.access(key);
    lru.remove(&key);

    assert!(lru.is_empty());
}

#[test]
fn test_lru_cache_capacity() {
    let mut lru = LruCache::new(2);
    lru.access(1);
    lru.access(2);
    lru.access(3);

    assert_eq!(lru.len(), 2);
}

#[test]
fn test_lru_cache_order_maintenance() {
    let mut lru = LruCache::new(3);
    lru.access(1);
    lru.access(2);
    lru.access(3);
    lru.access(2);

    assert_eq!(lru.front().unwrap(), 1);
    assert_eq!(lru.back().unwrap(), 2);
}

#[test]
fn test_lru_cache_edge_cases() {
    let mut lru = LruCache::new(2);
    let non_existing_key = 99;

    assert!(!lru.remove(&non_existing_key));
    assert!(lru.is_empty());
}

#[test]
fn test_lru_cache_evict_returns_oldest() {
    let mut lru = LruCache::new(3);
    lru.access(1);
    lru.access(2);
    lru.access(1);

    assert_eq!(lru.evict(), Some(2));
    assert_eq!(lru.evict(), Some(1));
    assert_eq!(lru.evict(), None);
}
