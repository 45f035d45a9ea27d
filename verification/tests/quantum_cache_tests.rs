use symmetrix::quantum_cache::QuantumSuperpositionCache;

#[test]
fn test_quantum_cache() {
    let mut cache = QuantumSuperpositionCache::new(100);

    // the routing state of one path: its hops
    let state: Vec<u32> = vec![1, 2, 3];
    cache.insert(12345, state);

    let retrieved = cache.get(12345);
    assert!(retrieved.is_some());

    let (hits, misses) = cache.counters();
    let hit_rate = hits as f64 / (hits + misses) as f64;
    assert_eq!(hits, 1);
    assert_eq!(misses, 0);
    assert!((hit_rate - 1.0).abs() < 0.01);
}

#[test]
fn lookups_count_hits_and_misses() {
    let mut cache = QuantumSuperpositionCache::new(4);
    cache.insert(1, "a".to_string());
    assert_eq!(cache.get(1), Some("a".to_string()));
    assert_eq!(cache.get(2), None);
    assert_eq!(cache.get(3), None);
    assert_eq!(cache.counters(), (1, 2));
    cache.insert(1, "b".to_string());
    assert_eq!(cache.get(1), Some("b".to_string()));
}

#[test]
fn full_cache_evicts_one_flow() {
    let mut cache = QuantumSuperpositionCache::new(2);
    cache.insert(1, 10u32);
    cache.insert(2, 20u32);
    cache.insert(3, 30u32);
    assert_eq!(cache.get(3), Some(30));
    let kept = [1u64, 2].iter().filter(|k| cache.get(**k).is_some()).count();
    assert_eq!(kept, 1);
}

#[test]
fn zero_capacity_keeps_the_last_flow() {
    let mut cache = QuantumSuperpositionCache::new(0);
    cache.insert(1, 1u8);
    cache.insert(2, 2u8);
    assert_eq!(cache.get(1), None);
    assert_eq!(cache.get(2), Some(2));
}

#[test]
fn clear_empties_and_resets() {
    let mut cache = QuantumSuperpositionCache::new(8);
    cache.insert(7, 7u64);
    let _ = cache.get(7);
    let _ = cache.get(8);
    cache.clear();
    assert_eq!(cache.counters(), (0, 0));
    assert_eq!(cache.get(7), None);
}
