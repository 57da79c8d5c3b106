use neurobin::cache::Cache;
use neurobin::errors::CacheError;
use neurobin::tensor::Tensor;

fn scalar(value: i64) -> Tensor {
    Tensor::from_parts(&Vec::new(), &vec![value]).unwrap()
}

#[test]
fn test_cache_initialization() {
    let cache: Cache = Cache::new(2);
    assert_eq!(cache.len(), 0);
    assert_eq!(cache.capacity(), 2);
}

#[test]
fn test_cache_set_and_get() {
    let mut cache: Cache = Cache::new(2);
    let value = scalar(42);
    assert_eq!(cache.set(1, value), Ok(()));
    let got = cache.get(&1).unwrap();
    assert_eq!(got.to_vec(), vec![42]);
    assert_eq!(got.shape(), Vec::<usize>::new());
}

#[test]
fn test_cache_eviction() {
    let mut cache: Cache = Cache::new(2);
    let value1 = scalar(42);
    let value2 = scalar(43);
    let value3 = scalar(44);
    assert_eq!(cache.set(1, value1), Ok(()));
    assert_eq!(cache.set(2, value2), Ok(()));
    assert_eq!(cache.set(3, value3), Ok(()));
    assert_eq!(cache.get(&1).unwrap_err().message(), "Key not found in cache");
    assert_eq!(cache.get(&2).unwrap().to_vec(), vec![43]);
    assert_eq!(cache.get(&3).unwrap().to_vec(), vec![44]);
}

#[test]
fn test_cache_delete_existing_key() {
    let mut cache: Cache = Cache::new(2);
    let value = scalar(42);
    assert_eq!(cache.set(1, value), Ok(()));
    assert_eq!(cache.delete(&1), Ok(()));
    assert_eq!(cache.get(&1).unwrap_err().message(), "Key not found in cache");
}

#[test]
fn test_cache_delete_nonexistent_key() {
    let mut cache: Cache = Cache::new(2);
    assert_eq!(cache.delete(&1).unwrap_err().message(), "Key not found in cache");
}

#[test]
fn test_cache_recency_update() {
    let mut cache: Cache = Cache::new(2);
    assert_eq!(cache.set(1, scalar(10)), Ok(()));
    assert_eq!(cache.set(2, scalar(20)), Ok(()));
    assert_eq!(cache.get(&1).unwrap().to_vec(), vec![10]);
    assert_eq!(cache.set(3, scalar(30)), Ok(()));

    assert_eq!(cache.get(&2).unwrap_err(), CacheError::NotFound);
    assert_eq!(cache.get(&1).unwrap().to_vec(), vec![10]);
    assert_eq!(cache.get(&3).unwrap().to_vec(), vec![30]);
}

#[test]
fn test_cache_capacity_zero() {
    let mut cache: Cache = Cache::new(0);
    assert_eq!(cache.set(1, scalar(42)), Err(CacheError::CapacityExhausted));
    assert_eq!(
        cache.set(1, scalar(42)).unwrap_err().message(),
        "Cache is full and unable to evict items"
    );
    assert_eq!(cache.len(), 0);
}

#[test]
fn test_cache_set_replaces_value() {
    let mut cache: Cache = Cache::new(2);
    assert_eq!(cache.set(1, scalar(42)), Ok(()));
    assert_eq!(cache.set(1, scalar(99)), Ok(()));
    assert_eq!(cache.len(), 1);
    assert_eq!(cache.get(&1).unwrap().to_vec(), vec![99]);
}

#[test]
fn test_cache_delete_absent_keeps_state() {
    let mut cache: Cache = Cache::new(2);
    assert_eq!(cache.set(1, scalar(42)), Ok(()));
    assert_eq!(cache.delete(&7), Err(CacheError::NotFound));
    assert_eq!(cache.len(), 1);
    assert_eq!(cache.get(&1).unwrap().to_vec(), vec![42]);
}

#[test]
fn test_cache_multi_dimensional_round_trip() {
    let mut cache: Cache = Cache::new(1);
    let value = Tensor::from_parts(&vec![2, 3], &vec![1, 2, 3, 4, 5, 6]).unwrap();
    assert_eq!(cache.set(5, value), Ok(()));
    let got = cache.get(&5).unwrap();
    assert_eq!(got.shape(), vec![2, 3]);
    assert_eq!(got.to_vec(), vec![1, 2, 3, 4, 5, 6]);
}
