use cachemap2::CacheMap;
use std::sync::Arc;

#[test]
fn idempotent_population() {
    let mut m = CacheMap::new();
    let first = *m.cache("key", || 5u32);
    assert_eq!(5, first);
    let second = *m.cache("key", || 7u32);
    assert_eq!(5, second);
}

#[test]
fn key_isolation() {
    let mut m = CacheMap::new();
    assert_eq!(5, *m.cache("a", || 5u32));
    assert_eq!(7, *m.cache("b", || 7u32));
    assert_eq!(5, *m.cache("a", || 9u32));
    assert_eq!(7, *m.cache("b", || 11u32));
}

#[test]
fn single_evaluation() {
    let mut m = CacheMap::new();
    let mut runs = 0u32;
    for _ in 0..10 {
        let v = *m.cache("key", || {
            runs += 1;
            5u32
        });
        assert_eq!(5, v);
    }
    assert_eq!(1, runs);
}

#[test]
fn handle_stability_across_growth() {
    let mut m = CacheMap::new();
    let first_value = *m.cache(0u64, || 42u64);
    for k in 1u64..=100 {
        m.cache(k, || k * 2);
    }
    let again = *m.cache(0u64, || 999u64);
    assert_eq!(first_value, again);
    assert_eq!(42, again);
}

#[test]
fn existence_check_consistency() {
    let mut m = CacheMap::new();
    assert!(!m.contains_key(&"k"));
    m.cache("k", || 1u32);
    assert!(m.contains_key(&"k"));
    assert!(!m.contains_key(&"missing"));
}

#[test]
fn iteration_yields_each_entry_once() {
    let mut m = CacheMap::new();
    for k in 0u32..8 {
        m.cache(k, || k + 100);
    }
    let mut seen = vec![false; 8];
    let mut it = m.iter();
    while let Some((k, v)) = it.next() {
        let i = *k as usize;
        assert!(!seen[i], "duplicate key");
        seen[i] = true;
        assert_eq!(*v, k + 100);
    }
    assert!(seen.iter().all(|s| *s));
}

#[test]
fn consuming_iteration_drains() {
    let mut m = CacheMap::new();
    for k in 0u32..8 {
        m.cache(k, || k + 100);
    }
    let mut seen = vec![false; 8];
    let mut count = 0usize;
    let mut it = m.into_iter();
    while let Some((k, v)) = it.next() {
        let i = k as usize;
        assert!(!seen[i], "duplicate key");
        seen[i] = true;
        assert_eq!(v, k + 100);
        count += 1;
    }
    assert_eq!(8, count);
    assert!(seen.iter().all(|s| *s));
}

#[test]
fn iterating_empty_map() {
    let m = CacheMap::<u32, u32>::new();
    let mut it = m.iter();
    assert!(it.next().is_none());
    let mut it2 = CacheMap::<u32, u32>::new().into_iter();
    assert!(it2.next().is_none());
}

#[test]
fn from_pairs_builds_all_entries() {
    let mut m = CacheMap::from_pairs(vec![(1u32, 10u32), (2, 20), (3, 30)]);
    assert_eq!(10, *m.cache(1, || 99));
    assert_eq!(20, *m.cache(2, || 99));
    assert_eq!(30, *m.cache(3, || 99));
    assert!(!m.contains_key(&4));
}

#[test]
fn from_pairs_later_duplicate_wins() {
    let mut m = CacheMap::from_pairs(vec![(1u32, 10u32), (1, 20)]);
    assert_eq!(20, *m.cache(1, || 99));
    let mut it = m.iter();
    let mut count = 0usize;
    while let Some(_) = it.next() {
        count += 1;
    }
    assert_eq!(1, count);
}

#[test]
fn from_pairs_empty() {
    let m = CacheMap::<u32, u32>::from_pairs(Vec::new());
    assert!(!m.contains_key(&1));
}

#[test]
fn cache_default_inserts_default() {
    let mut m = CacheMap::new();
    assert_eq!(0, *m.cache_default("missing"));
    m.cache("present", || 9u32);
    assert_eq!(9, *m.cache_default("present"));
}

#[test]
fn shared_value_round_trip() {
    let mut m = CacheMap::new();
    let contents: Vec<u8> = vec![1, 2, 3, 4];
    let handle = m.cache_arc("slice", || Arc::new(vec![1u8, 2, 3, 4]));
    assert_eq!(*handle, contents);
    let again = m.cache_arc("slice", || Arc::new(Vec::new()));
    assert_eq!(*again, contents);
    drop(m);
    assert_eq!(handle[..], contents[..]);
}

#[test]
fn default_map_is_empty() {
    let m: CacheMap<u32, u32> = Default::default();
    assert!(!m.contains_key(&0));
    let mut it = m.iter();
    assert!(it.next().is_none());
}
