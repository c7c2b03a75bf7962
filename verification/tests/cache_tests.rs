use minibuild::cache::{sort_signatures, BuildCache, CacheEntry};

fn sig(path: &str, ts: u128) -> (String, u128) {
    (path.to_string(), ts)
}

#[test]
fn text_roundtrip_keeps_entries() {
    let mut cache = BuildCache::new();
    cache.insert(
        "compile".to_string(),
        CacheEntry {
            input_hashes: vec![sig("src/main.c", 12345)],
            output_hashes: vec![sig("build/main.o", 67890)],
        },
    );
    let text = cache.serialize();
    let loaded = BuildCache::deserialize(&text);
    assert_eq!(loaded.len(), 1);
    assert_eq!(loaded.get("compile"), cache.get("compile"));
}

#[test]
fn serialized_text_is_sorted_by_rule() {
    let mut cache = BuildCache::new();
    cache.insert(
        "b".to_string(),
        CacheEntry { input_hashes: vec![sig("x y", 7)], output_hashes: vec![] },
    );
    cache.insert(
        "a".to_string(),
        CacheEntry { input_hashes: vec![], output_hashes: vec![sig("out", 0)] },
    );
    assert_eq!(cache.serialize(), "RULE a\n  OUT 0 out\nRULE b\n  IN 7 x y\n");
}

#[test]
fn empty_cache_serializes_to_nothing() {
    let cache = BuildCache::new();
    assert_eq!(cache.serialize(), "");
    assert_eq!(BuildCache::deserialize("").len(), 0);
}

#[test]
fn deserialize_skips_bad_lines_and_keeps_stray_signatures() {
    let text = "  IN 5 early\ngarbage\nRULE r\n  IN x bad\n  IN 9\n  OUT +3 o\nRULE s\n";
    let cache = BuildCache::deserialize(text);
    assert_eq!(cache.len(), 2);
    let r = cache.get("r").unwrap();
    assert_eq!(r.input_hashes, vec![sig("early", 5)]);
    assert_eq!(r.output_hashes, vec![sig("o", 3)]);
    let s = cache.get("s").unwrap();
    assert!(s.input_hashes.is_empty() && s.output_hashes.is_empty());
}

#[test]
fn deserialize_later_rule_wins() {
    let text = "RULE r\n  IN 1 a\nRULE r\r\n  IN 2 b\r\n";
    let cache = BuildCache::deserialize(text);
    assert_eq!(cache.len(), 1);
    assert_eq!(cache.get("r").unwrap().input_hashes, vec![sig("b", 2)]);
}

#[test]
fn timestamps_that_overflow_are_dropped() {
    let text = "RULE r\n  IN 340282366920938463463374607431768211456 a\n  IN 340282366920938463463374607431768211455 b\n";
    let cache = BuildCache::deserialize(text);
    assert_eq!(cache.get("r").unwrap().input_hashes, vec![sig("b", u128::MAX)]);
}

#[test]
fn up_to_date_after_record_until_invalidated() {
    let inputs = vec![sig("input.txt", 10)];
    let outputs = vec![sig("output.txt", 20)];
    let mut cache = BuildCache::new();
    assert!(!cache.is_up_to_date("test", &inputs, &outputs));
    cache.record("test", inputs.clone(), outputs.clone());
    assert!(cache.is_up_to_date("test", &inputs, &outputs));
    assert!(!cache.is_up_to_date("test", &vec![sig("input.txt", 11)], &outputs));
    assert!(!cache.is_up_to_date("other", &inputs, &outputs));
    cache.invalidate("test");
    assert!(!cache.is_up_to_date("test", &inputs, &outputs));
    assert_eq!(cache.len(), 0);
}

#[test]
fn record_replaces_entry() {
    let mut cache = BuildCache::new();
    cache.record("r", vec![sig("a", 1)], vec![]);
    cache.record("r", vec![sig("a", 2)], vec![]);
    assert_eq!(cache.len(), 1);
    assert!(cache.is_up_to_date("r", &vec![sig("a", 2)], &vec![]));
}

#[test]
fn signatures_sort_by_path_then_time() {
    let v = vec![sig("b", 1), sig("a", 9), sig("b", 0), sig("A", 5), sig("a", 9)];
    assert_eq!(
        sort_signatures(&v),
        vec![sig("A", 5), sig("a", 9), sig("a", 9), sig("b", 0), sig("b", 1)]
    );
    assert!(sort_signatures(&vec![]).is_empty());
}
