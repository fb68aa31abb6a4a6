use pso_rs::cache::cache_for;
use pso_rs::{CacheKind, ObjectiveCache};

#[test]
fn first_iterator_evicts_oldest() {
    let mut cache = ObjectiveCache::new(2, CacheKind::FirstIterator);
    cache.insert(vec![1], 1.0);
    cache.insert(vec![2], 2.0);
    cache.insert(vec![3], 3.0);
    assert_eq!(cache.len(), 2);
    assert_eq!(cache.get(&[1]), None);
    assert_eq!(cache.get(&[2]), Some(2.0));
    assert_eq!(cache.get(&[3]), Some(3.0));
}

#[test]
fn bucket_clears_when_full() {
    let mut cache = ObjectiveCache::new(2, CacheKind::Bucket);
    cache.insert(vec![1], 1.0);
    cache.insert(vec![2], 2.0);
    cache.insert(vec![3], 3.0);
    assert_eq!(cache.len(), 1);
    assert_eq!(cache.get(&[1]), None);
    assert_eq!(cache.get(&[2]), None);
    assert_eq!(cache.get(&[3]), Some(3.0));
}

#[test]
fn repeated_particle_is_stored_once() {
    // The same particle evaluated twice is stored once.
    let mut cache = cache_for::<f64>(Some(8), CacheKind::FirstIterator).unwrap();
    let particle = [0.5f64, -0.25];
    let key: Vec<u64> = particle.iter().map(|x| x.to_bits()).collect();
    if cache.get(&key).is_none() {
        cache.insert(key.clone(), 0.3125);
    }
    let after_first = cache.len();
    if cache.get(&key).is_none() {
        cache.insert(key.clone(), 0.3125);
    }
    assert_eq!(cache.len(), after_first);
    assert!(after_first >= 1);
}

#[test]
fn cache_read_after_write() {
    let mut cache = ObjectiveCache::new(3, CacheKind::FirstIterator);
    cache.insert(vec![7, 8], 10u32);
    assert_eq!(cache.get(&[7, 8]), Some(10));
    assert_eq!(cache.get(&[7]), None);
    assert_eq!(cache.get(&[8, 7]), None);
}

#[test]
fn cache_reinsert_replaces_value_in_place() {
    let mut cache = ObjectiveCache::new(2, CacheKind::FirstIterator);
    cache.insert(vec![1], 1u32);
    cache.insert(vec![2], 2u32);
    cache.insert(vec![1], 11u32);
    assert_eq!(cache.len(), 2);
    assert_eq!(cache.get(&[1]), Some(11));
    // Key 1 kept its place as the oldest entry, so it is the one evicted next.
    cache.insert(vec![3], 3u32);
    assert_eq!(cache.get(&[1]), None);
    assert_eq!(cache.get(&[2]), Some(2));
    assert_eq!(cache.get(&[3]), Some(3));
}

#[test]
fn zero_capacity_cache_stores_nothing() {
    let mut cache = ObjectiveCache::new(0, CacheKind::Bucket);
    cache.insert(vec![1], 1u32);
    assert_eq!(cache.len(), 0);
    assert_eq!(cache.get(&[1]), None);
}

#[test]
fn cache_setting_none_or_zero_disables_it() {
    assert!(cache_for::<f64>(None, CacheKind::FirstIterator).is_none());
    assert!(cache_for::<f64>(Some(0), CacheKind::Bucket).is_none());
    let cache = cache_for::<f64>(Some(5), CacheKind::Bucket).unwrap();
    assert_eq!(cache.len(), 0);
}

#[test]
fn default_cache_kind_is_first_iterator() {
    assert_eq!(CacheKind::default(), CacheKind::FirstIterator);
}

#[test]
fn large_cache_keeps_the_newest_entries() {
    let mut cache = ObjectiveCache::new(1000, CacheKind::FirstIterator);
    for i in 0..20_000u64 {
        cache.insert(vec![i, i.wrapping_mul(31), 7], i);
    }
    assert_eq!(cache.len(), 1000);
    assert_eq!(cache.get(&[0, 0, 7]), None);
    assert_eq!(cache.get(&[18_999, 18_999u64.wrapping_mul(31), 8]), None);
    for i in 19_000..20_000u64 {
        assert_eq!(cache.get(&[i, i.wrapping_mul(31), 7]), Some(i));
    }
    assert_eq!(cache.get(&[18_999, 18_999u64.wrapping_mul(31), 7]), None);
}
