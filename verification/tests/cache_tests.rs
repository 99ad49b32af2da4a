use timelapse::cache::{key_eq, CacheKey, VideoCache};

fn key(folder: &str, start: i64, end: i64, fps: usize) -> CacheKey {
    CacheKey {
        folder: folder.to_string(),
        start,
        end,
        fps,
        args_override: None,
    }
}

#[test]
fn get_on_empty_cache_misses() {
    let cache = VideoCache::new(10);
    assert_eq!(cache.get(&key("/a", 1, 2, 20)), None);
}

#[test]
fn set_then_get_hits_with_same_bytes() {
    let mut cache = VideoCache::new(10);
    cache.set(key("/a", 1, 2, 20), vec![1, 2, 3]);
    assert_eq!(cache.get(&key("/a", 1, 2, 20)), Some(&vec![1, 2, 3]));
}

#[test]
fn capacity_plus_one_evicts_exactly_the_first_key() {
    let mut cache = VideoCache::new(3);
    cache.set(key("/a", 1, 2, 20), vec![1]);
    cache.set(key("/b", 1, 2, 20), vec![2]);
    cache.set(key("/c", 1, 2, 20), vec![3]);
    cache.set(key("/d", 1, 2, 20), vec![4]);
    assert_eq!(cache.get(&key("/a", 1, 2, 20)), None);
    assert_eq!(cache.get(&key("/b", 1, 2, 20)), Some(&vec![2]));
    assert_eq!(cache.get(&key("/c", 1, 2, 20)), Some(&vec![3]));
    assert_eq!(cache.get(&key("/d", 1, 2, 20)), Some(&vec![4]));
}

#[test]
fn overwriting_a_key_keeps_every_other_entry() {
    let mut cache = VideoCache::new(3);
    cache.set(key("/a", 1, 2, 20), vec![1]);
    cache.set(key("/b", 1, 2, 20), vec![2]);
    cache.set(key("/c", 1, 2, 20), vec![3]);
    cache.set(key("/a", 1, 2, 20), vec![9]);
    cache.set(key("/a", 1, 2, 20), vec![10]);
    assert_eq!(cache.get(&key("/a", 1, 2, 20)), Some(&vec![10]));
    assert_eq!(cache.get(&key("/b", 1, 2, 20)), Some(&vec![2]));
    assert_eq!(cache.get(&key("/c", 1, 2, 20)), Some(&vec![3]));
}

#[test]
fn keys_differ_by_any_field() {
    let base = key("/a", 1, 2, 20);
    assert!(key_eq(&base, &key("/a", 1, 2, 20)));
    assert!(!key_eq(&base, &key("/b", 1, 2, 20)));
    assert!(!key_eq(&base, &key("/a", 0, 2, 20)));
    assert!(!key_eq(&base, &key("/a", 1, 3, 20)));
    assert!(!key_eq(&base, &key("/a", 1, 2, 5)));
    let with_args = CacheKey {
        args_override: Some(vec!["-y".to_string()]),
        ..key("/a", 1, 2, 20)
    };
    assert!(!key_eq(&base, &with_args));
    let with_same_args = CacheKey {
        args_override: Some(vec!["-y".to_string()]),
        ..key("/a", 1, 2, 20)
    };
    assert!(key_eq(&with_args, &with_same_args));
    let with_other_args = CacheKey {
        args_override: Some(vec!["-n".to_string()]),
        ..key("/a", 1, 2, 20)
    };
    assert!(!key_eq(&with_args, &with_other_args));
}

#[test]
fn capacity_one_cache_holds_the_latest_entry() {
    let mut cache = VideoCache::new(1);
    cache.set(key("/a", 1, 2, 20), vec![1]);
    cache.set(key("/b", 1, 2, 20), vec![2]);
    assert_eq!(cache.get(&key("/a", 1, 2, 20)), None);
    assert_eq!(cache.get(&key("/b", 1, 2, 20)), Some(&vec![2]));
}
