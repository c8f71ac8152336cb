use tinyredis::cache::Cache;

#[test]
fn capacity_is_never_exceeded() {
    let mut cache = Cache::new(3);
    for i in 0..10u64 {
        cache.set(format!("k{}", i), format!("v{}", i), None, i);
        assert!(cache.len() <= 3);
    }
    assert_eq!(cache.len(), 3);
    assert_eq!(cache.maximum(), 3);
}

#[test]
fn zero_capacity_holds_nothing() {
    let mut cache = Cache::new(0);
    cache.set("a".to_string(), "1".to_string(), None, 0);
    assert_eq!(cache.len(), 0);
    assert_eq!(cache.get("a", 0), None);
}

#[test]
fn full_cache_evicts_least_recently_used() {
    let mut cache = Cache::new(3);
    cache.set("a".to_string(), "1".to_string(), None, 0);
    cache.set("b".to_string(), "2".to_string(), None, 0);
    cache.set("c".to_string(), "3".to_string(), None, 0);
    // reading "a" makes "b" the stalest entry
    assert_eq!(cache.get("a", 1), Some("1".to_string()));
    assert_eq!(cache.meta_of("b").unwrap().recency, 3);
    cache.set("d".to_string(), "4".to_string(), None, 2);
    assert_eq!(cache.get("b", 3), None);
    assert_eq!(cache.get("a", 3), Some("1".to_string()));
    assert_eq!(cache.get("c", 3), Some("3".to_string()));
    assert_eq!(cache.get("d", 3), Some("4".to_string()));
}

#[test]
fn overwrite_keeps_size_and_resets_counters() {
    let mut cache = Cache::new(2);
    cache.set("a".to_string(), "1".to_string(), None, 0);
    cache.set("b".to_string(), "2".to_string(), None, 0);
    assert_eq!(cache.get("a", 0), Some("1".to_string()));
    cache.set("a".to_string(), "9".to_string(), None, 5);
    assert_eq!(cache.len(), 2);
    let meta = cache.meta_of("a").unwrap();
    assert_eq!(meta.frequency, 0);
    assert_eq!(meta.recency, 1);
    assert_eq!(meta.insertion_time, 5);
    assert_eq!(cache.get("a", 6), Some("9".to_string()));
    assert_eq!(cache.get("b", 6), Some("2".to_string()));
}

#[test]
fn recency_ages_other_entries() {
    let mut cache = Cache::new(3);
    cache.set("a".to_string(), "1".to_string(), None, 0);
    cache.set("b".to_string(), "2".to_string(), None, 0);
    assert_eq!(cache.meta_of("a").unwrap().recency, 2);
    assert_eq!(cache.meta_of("b").unwrap().recency, 1);
    // a miss ages every entry
    assert_eq!(cache.get("zzz", 0), None);
    assert_eq!(cache.meta_of("a").unwrap().recency, 3);
    assert_eq!(cache.meta_of("b").unwrap().recency, 2);
}

#[test]
fn ttl_expiry_in_milliseconds() {
    let mut cache = Cache::new(3);
    let t0: u64 = 5_000;
    let m: u64 = 1_000;
    cache.set("t".to_string(), "v".to_string(), Some(m), t0);
    assert_eq!(cache.get("t", t0), Some("v".to_string()));
    assert_eq!(cache.get("t", t0 + m), Some("v".to_string()));
    assert_eq!(cache.get("t", t0 + 2 * m), None);
    // an expired entry is dropped
    assert_eq!(cache.len(), 0);
}

#[test]
fn frequency_never_decreases_between_reads() {
    let mut cache = Cache::new(3);
    cache.set("f".to_string(), "v".to_string(), None, 0);
    let mut last = cache.meta_of("f").unwrap().frequency;
    assert_eq!(last, 0);
    for i in 0..5u64 {
        assert_eq!(cache.get("f", i), Some("v".to_string()));
        let now = cache.meta_of("f").unwrap().frequency;
        assert!(now >= last);
        assert_eq!(now, last + 1);
        last = now;
        // reads of other keys leave it as it is
        cache.get("other", i);
        assert_eq!(cache.meta_of("f").unwrap().frequency, last);
    }
}

#[test]
fn remove_counts_words_that_were_held() {
    let mut cache = Cache::new(3);
    cache.set("a".to_string(), "1".to_string(), None, 0);
    cache.set("b".to_string(), "2".to_string(), None, 0);
    assert_eq!(cache.remove("a  a c"), 1);
    assert_eq!(cache.len(), 1);
    assert_eq!(cache.remove(""), 0);
    assert_eq!(cache.remove(" b "), 1);
    assert_eq!(cache.len(), 0);
}

#[test]
fn snapshot_lists_every_entry() {
    let mut cache = Cache::new(3);
    cache.set("a".to_string(), "1".to_string(), None, 0);
    cache.set("b".to_string(), "2".to_string(), None, 0);
    let (keys, values) = cache.snapshot();
    let mut pairs: Vec<(String, String)> = keys.into_iter().zip(values).collect();
    pairs.sort();
    assert_eq!(
        pairs,
        vec![("a".to_string(), "1".to_string()), ("b".to_string(), "2".to_string())]
    );
}

#[test]
fn split_words_on_spaces() {
    assert_eq!(
        tinyredis::cache::split_words("  del2 del3  x"),
        vec!["del2".to_string(), "del3".to_string(), "x".to_string()]
    );
    assert!(tinyredis::cache::split_words("   ").is_empty());
    assert_eq!(
        tinyredis::cache::split_words("a\tb\nc"),
        vec!["a".to_string(), "b".to_string(), "c".to_string()]
    );
}
