use lru_weighted::{LruCacheItem, LruError, LruWeightedCache, Weighted};

#[test]
fn build_an_entry() {
    let entry = LruCacheItem::new("test", "value");
    assert_eq!(entry.key, "test");
    assert_eq!(entry.value, "value");
}

#[test]
fn build_an_empty_cache() {
    let cache: LruWeightedCache<&str, &str> = LruWeightedCache::new(5, 2).unwrap();
    assert_eq!(cache.len(), 0);
    assert_eq!(cache.weight(), 0);
}

#[test]
fn add_to_the_cache() {
    let mut cache: LruWeightedCache<&str, &str> = LruWeightedCache::new(5, 2).unwrap();
    let _ = cache.insert("foo", "aa");
    let _ = cache.insert("bar", "bb");
    assert_eq!(cache.len(), 2);
    assert_eq!(cache.weight(), 4);
}

#[test]
fn replace_in_the_cache() {
    let mut cache: LruWeightedCache<&str, &str> = LruWeightedCache::new(5, 2).unwrap();
    let _ = cache.insert("foo", "aa");
    let _ = cache.insert("bar", "bb");
    let _ = cache.insert("bar", "c");
    assert_eq!(cache.len(), 2);
    assert_eq!(cache.weight(), 3);
}

#[test]
fn eject_by_weight() {
    let mut cache: LruWeightedCache<&str, &str> = LruWeightedCache::new(3, 4).unwrap();
    for i in vec!["a", "b", "c", "d", "e", "f", "g", "h", "i", "j", "k", "l"] {
        let _ = cache.insert(i.clone(), i.clone());
    }
    let _ = cache.insert("z", "zzz");
    assert_eq!(cache.weight(), 12);
    assert_eq!(cache.len(), 10);
}

#[test]
fn replace_by_weight() {
    let mut cache: LruWeightedCache<&str, &str> = LruWeightedCache::new(3, 4).unwrap();
    for i in vec!["a", "b", "c", "d", "e", "f", "g", "h", "i", "j", "k", "l"] {
        let _ = cache.insert(i.clone(), i.clone());
    }
    let _ = cache.insert("l", "zzz");
    assert_eq!(cache.weight(), 12);
    assert_eq!(cache.len(), 10);
}

#[test]
fn delete_in_the_cache() {
    let mut cache: LruWeightedCache<&str, &str> = LruWeightedCache::new(5, 2).unwrap();
    let _ = cache.insert("foo", "aa");
    let _ = cache.insert("bar", "bb");
    cache.remove(&"bar");
    assert_eq!(cache.len(), 1);
    assert_eq!(cache.weight(), 2);
    assert!(cache.contains_key(&"foo"));
    assert!(!cache.contains_key(&"bar"));
    assert!(cache.get(&"foo") == Some(&"aa"));
    assert!(cache.get(&"bar") == None);
}

#[test]
fn catch_errant_nonsense() {
    let cache = LruWeightedCache::<&str, &str>::new(0, 0);
    match cache {
        Ok(_) => assert!(false),
        Err(err) => assert_eq!(err, LruError::NonsenseParameters),
    }
}

#[test]
fn zero_count_or_zero_weight_is_refused() {
    assert!(matches!(
        LruWeightedCache::<u32, &str>::new(0, 4),
        Err(LruError::NonsenseParameters)
    ));
    assert!(matches!(
        LruWeightedCache::<u32, &str>::new(4, 0),
        Err(LruError::NonsenseParameters)
    ));
    assert!(LruWeightedCache::<u32, &str>::new(1, 1).is_ok());
}

#[test]
fn oversized_insert_changes_nothing() {
    let mut cache: LruWeightedCache<&str, &str> = LruWeightedCache::new(5, 2).unwrap();
    let _ = cache.insert("foo", "aa");
    let _ = cache.insert("bar", "b");
    assert_eq!(cache.insert("baz", "ccc"), Err(LruError::ExceedsMaximumWeight));
    assert_eq!(cache.insert("foo", "ccc"), Err(LruError::ExceedsMaximumWeight));
    assert_eq!(cache.len(), 2);
    assert_eq!(cache.weight(), 3);
    assert_eq!(cache.get(&"foo"), Some(&"aa"));
    assert_eq!(cache.get(&"bar"), Some(&"b"));
    assert!(!cache.contains_key(&"baz"));
}

#[test]
fn will_accept_compares_with_the_item_limit() {
    let mut cache: LruWeightedCache<u8, &str> = LruWeightedCache::new(3, 2).unwrap();
    assert!(cache.will_accept(&""));
    assert!(cache.will_accept(&"ab"));
    assert!(!cache.will_accept(&"abc"));
}

#[test]
fn inserted_value_is_retrievable() {
    let mut cache: LruWeightedCache<u32, &str> = LruWeightedCache::new(2, 3).unwrap();
    assert_eq!(cache.insert(7, "abc"), Ok(()));
    assert!(cache.contains_key(&7));
    assert_eq!(cache.get(&7), Some(&"abc"));
    assert_eq!(cache.insert(7, "de"), Ok(()));
    assert_eq!(cache.get(&7), Some(&"de"));
    assert_eq!(cache.len(), 1);
    assert_eq!(cache.weight(), 2);
}

#[test]
fn eviction_takes_the_oldest_first() {
    let mut cache: LruWeightedCache<u32, &str> = LruWeightedCache::new(3, 1).unwrap();
    let _ = cache.insert(1, "a");
    let _ = cache.insert(2, "b");
    let _ = cache.insert(3, "c");
    let _ = cache.insert(4, "d");
    assert!(!cache.contains_key(&1));
    assert!(cache.contains_key(&2));
    assert!(cache.contains_key(&3));
    assert!(cache.contains_key(&4));
    assert_eq!(cache.len(), 3);
}

#[test]
fn eviction_removes_only_what_is_needed() {
    let mut cache: LruWeightedCache<u32, &str> = LruWeightedCache::new(2, 3).unwrap();
    let _ = cache.insert(1, "a");
    let _ = cache.insert(2, "bb");
    let _ = cache.insert(3, "ccc");
    // 1 + 2 + 3 = 6 fits the budget of 6.
    assert_eq!(cache.len(), 3);
    let _ = cache.insert(4, "dd");
    // Dropping 1 alone leaves 5 + 2 = 7: 2 must go as well.
    assert!(!cache.contains_key(&1));
    assert!(!cache.contains_key(&2));
    assert!(cache.contains_key(&3));
    assert!(cache.contains_key(&4));
    assert_eq!(cache.weight(), 5);
}

#[test]
fn reading_does_not_protect_from_eviction() {
    let mut cache: LruWeightedCache<u32, &str> = LruWeightedCache::new(2, 1).unwrap();
    let _ = cache.insert(1, "a");
    let _ = cache.insert(2, "b");
    assert_eq!(cache.get(&1), Some(&"a"));
    let _ = cache.insert(3, "c");
    assert!(!cache.contains_key(&1));
    assert!(cache.contains_key(&2));
    assert!(cache.contains_key(&3));
}

#[test]
fn reinsert_protects_from_eviction() {
    let mut cache: LruWeightedCache<u32, &str> = LruWeightedCache::new(2, 1).unwrap();
    let _ = cache.insert(1, "a");
    let _ = cache.insert(2, "b");
    let _ = cache.insert(1, "x");
    let _ = cache.insert(3, "c");
    assert!(cache.contains_key(&1));
    assert!(!cache.contains_key(&2));
    assert_eq!(cache.get(&1), Some(&"x"));
}

#[test]
fn replacing_the_oldest_key_does_not_evict_it() {
    let mut cache: LruWeightedCache<u32, &str> = LruWeightedCache::new(2, 2).unwrap();
    let _ = cache.insert(1, "aa");
    let _ = cache.insert(2, "bb");
    assert_eq!(cache.insert(1, "xx"), Ok(()));
    assert_eq!(cache.get(&1), Some(&"xx"));
    assert_eq!(cache.get(&2), Some(&"bb"));
    assert_eq!(cache.weight(), 4);
}

#[test]
fn remove_hands_back_the_value() {
    let mut cache: LruWeightedCache<u32, String> = LruWeightedCache::new(4, 8).unwrap();
    let _ = cache.insert(1, String::from("hello"));
    assert!(!cache.is_empty());
    assert_eq!(cache.remove(&2), None);
    assert_eq!(cache.remove(&1), Some(String::from("hello")));
    assert_eq!(cache.remove(&1), None);
    assert!(cache.is_empty());
    assert_eq!(cache.weight(), 0);
}

#[test]
fn weights_of_the_provided_types() {
    assert_eq!(String::from("héllo").weight(), 6);
    assert_eq!("abc".weight(), 3);
    assert_eq!(Weighted::weight("abcd"), 4);
    let bytes: Vec<u8> = vec![1, 2, 3, 4, 5];
    assert_eq!(bytes.weight(), 5);
    assert_eq!((&bytes).weight(), 5);
}

#[test]
fn byte_vectors_are_weighed_by_length() {
    let mut cache: LruWeightedCache<u8, Vec<u8>> = LruWeightedCache::new(2, 4).unwrap();
    let _ = cache.insert(1, vec![0; 4]);
    let _ = cache.insert(2, vec![0; 3]);
    assert_eq!(cache.weight(), 7);
    let _ = cache.insert(3, vec![0; 2]);
    assert!(!cache.contains_key(&1));
    assert_eq!(cache.weight(), 5);
}
