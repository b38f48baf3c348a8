use ros_madair::dictionary::{detect_prefixes, Dictionary, IndexedDictionary};

#[test]
fn test_intern_and_resolve() {
    let mut dict = Dictionary::new();
    let id1 = dict.intern("http://example.org/foo");
    let id2 = dict.intern("http://example.org/bar");
    let id1_again = dict.intern("http://example.org/foo");

    assert_eq!(id1, id1_again);
    assert_ne!(id1, id2);
    assert_eq!(dict.resolve(id1), Some("http://example.org/foo"));
    assert_eq!(dict.resolve(id2), Some("http://example.org/bar"));
    assert_eq!(dict.lookup("http://example.org/foo"), Some(id1));
    assert_eq!(dict.len(), 2);
}

#[test]
fn test_binary_roundtrip() {
    let mut dict = Dictionary::new();
    dict.intern("http://example.org/foo");
    dict.intern("http://example.org/bar");
    dict.intern("hello world");

    let bytes = dict.to_bytes();
    let dict2 = Dictionary::from_bytes(&bytes).unwrap();

    assert_eq!(dict2.len(), 3);
    assert_eq!(dict2.resolve(0), Some("http://example.org/foo"));
    assert_eq!(dict2.resolve(1), Some("http://example.org/bar"));
    assert_eq!(dict2.resolve(2), Some("hello world"));
    assert_eq!(dict2.lookup("http://example.org/foo"), Some(0));
}

#[test]
fn test_empty_dictionary() {
    let dict = Dictionary::new();
    let bytes = dict.to_bytes();
    let dict2 = Dictionary::from_bytes(&bytes).unwrap();
    assert_eq!(dict2.len(), 0);
    assert!(dict2.is_empty());
}

#[test]
fn test_v2_prefix_compression() {
    let mut dict = Dictionary::new();
    for i in 0..100 {
        dict.intern(&format!("http://example.org/ontology/goidelic#{}", i));
    }
    dict.intern("http://www.w3.org/ns/lemon/ontolex#LexicalEntry");
    dict.intern("http://www.w3.org/ns/lemon/ontolex#Form");
    dict.intern("plain-literal");

    let v2_bytes = dict.to_bytes_indexed();
    assert_eq!(&v2_bytes[0..4], b"RMDC");
    assert_eq!(v2_bytes[4], 2);

    let naive_size: usize = (0..dict.len())
        .map(|i| 4 + dict.resolve(i as u32).unwrap().len())
        .sum::<usize>()
        + 4;
    assert!(
        v2_bytes.len() < naive_size,
        "v2 ({}) should be smaller than naive ({})",
        v2_bytes.len(),
        naive_size
    );

    let indexed = IndexedDictionary::from_bytes(v2_bytes).unwrap();
    assert_eq!(indexed.len(), 103);

    assert_eq!(indexed.resolve(0).as_deref(), Some("http://example.org/ontology/goidelic#0"));
    assert_eq!(indexed.resolve(50).as_deref(), Some("http://example.org/ontology/goidelic#50"));
    assert_eq!(
        indexed.resolve(100).as_deref(),
        Some("http://www.w3.org/ns/lemon/ontolex#LexicalEntry")
    );
    assert_eq!(indexed.resolve(102).as_deref(), Some("plain-literal"));

    assert_eq!(indexed.lookup("http://example.org/ontology/goidelic#0"), Some(0));
    assert_eq!(indexed.lookup("http://example.org/ontology/goidelic#99"), Some(99));
    assert_eq!(indexed.lookup("http://www.w3.org/ns/lemon/ontolex#Form"), Some(101));
    assert_eq!(indexed.lookup("plain-literal"), Some(102));
    assert_eq!(indexed.lookup("nonexistent"), None);
}

#[test]
fn test_v2_no_prefixes_for_short_terms() {
    let mut dict = Dictionary::new();
    dict.intern("a");
    dict.intern("b");
    dict.intern("c");

    let bytes = dict.to_bytes_indexed();
    let indexed = IndexedDictionary::from_bytes(bytes).unwrap();

    assert_eq!(indexed.resolve(0).as_deref(), Some("a"));
    assert_eq!(indexed.resolve(1).as_deref(), Some("b"));
    assert_eq!(indexed.resolve(2).as_deref(), Some("c"));
    assert_eq!(indexed.lookup("b"), Some(1));
    assert_eq!(indexed.lookup("d"), None);
}

#[test]
fn test_v2_roundtrip_to_dictionary() {
    let mut dict = Dictionary::new();
    dict.intern("http://example.org/foo");
    dict.intern("http://example.org/bar");
    dict.intern("hello world");

    let bytes = dict.to_bytes_indexed();
    let dict2 = Dictionary::from_bytes(&bytes).unwrap();
    assert_eq!(dict2.len(), 3);
    assert_eq!(dict2.resolve(0), Some("http://example.org/foo"));
    assert_eq!(dict2.resolve(1), Some("http://example.org/bar"));
    assert_eq!(dict2.resolve(2), Some("hello world"));
    assert_eq!(dict2.lookup("http://example.org/bar"), Some(1));
}

#[test]
fn test_v2_empty() {
    let dict = Dictionary::new();
    let bytes = dict.to_bytes_indexed();
    let indexed = IndexedDictionary::from_bytes(bytes).unwrap();
    assert_eq!(indexed.len(), 0);
    assert!(indexed.is_empty());
    assert_eq!(indexed.resolve(0), None);
    assert_eq!(indexed.lookup("anything"), None);
}

#[test]
fn test_prefix_detection() {
    let terms: Vec<String> = (0..50)
        .map(|i| format!("http://example.org/resource/{}", i))
        .chain(std::iter::once("standalone".to_string()))
        .collect();
    let prefixes = detect_prefixes(&terms);
    assert!(!prefixes.is_empty());
    assert!(prefixes[0].contains("http://example.org/resource/"));
}

#[test]
fn dictionary_ids_are_dense_in_first_intern_order() {
    let mut dict = Dictionary::new();
    assert_eq!(dict.intern("z"), 0);
    assert_eq!(dict.intern("a"), 1);
    assert_eq!(dict.intern("z"), 0);
    assert_eq!(dict.intern("m"), 2);
    assert_eq!(dict.len(), 3);
    assert_eq!(dict.resolve(3), None);
    assert_eq!(dict.lookup("q"), None);
}

#[test]
fn dictionary_indexed_roundtrip_unicode_terms() {
    let mut dict = Dictionary::new();
    for t in ["Église", "église", "ÉGLISE", "", "日本語", "https://x.org/ä"] {
        dict.intern(t);
    }
    let indexed = IndexedDictionary::from_bytes(dict.to_bytes_indexed()).unwrap();
    assert!(indexed.check_entries());
    for i in 0..dict.len() as u32 {
        let t = dict.resolve(i).unwrap();
        assert_eq!(indexed.resolve(i).as_deref(), Some(t));
        assert_eq!(indexed.lookup(t), Some(i));
    }
    let legacy = Dictionary::from_bytes(&dict.to_bytes()).unwrap();
    assert_eq!(legacy.lookup("日本語"), Some(4));
}

#[test]
fn dictionary_rejects_bad_data() {
    assert!(Dictionary::from_bytes(&[1, 2]).is_err());
    assert!(Dictionary::from_bytes(&[1, 0, 0, 0, 5, 0, 0, 0, b'a']).is_err());
    assert!(Dictionary::from_bytes(&[1, 0, 0, 0, 1, 0, 0, 0, 0xFF]).is_err());
    assert!(IndexedDictionary::from_bytes(b"RMDC\x09\x00\x00\x00".to_vec()).is_err());
    assert!(IndexedDictionary::from_bytes(Vec::new()).is_err());
}

#[test]
fn prefix_detection_ignores_short_and_unique_terms() {
    let terms: Vec<String> = vec!["a".into(), "b".into(), "c".into()];
    assert!(detect_prefixes(&terms).is_empty());
    assert!(detect_prefixes(&[]).is_empty());
}

#[test]
fn indexed_v2_header_without_prefix_count_is_an_error() {
    let data = vec![b'R', b'M', b'D', b'C', 2, 0, 0, 0, 0];
    assert!(IndexedDictionary::from_bytes(data).is_err());
    assert!(IndexedDictionary::from_bytes(vec![b'R', b'M', b'D', b'C', 2, 0, 0, 0]).is_err());
    assert!(IndexedDictionary::from_bytes(vec![b'R', b'M', b'D', b'C', 7, 0, 0, 0, 0]).is_err());
}

#[test]
fn equal_savings_prefixes_keep_first_use_order() {
    let ab: Vec<String> = ["a/1", "a/2", "a/3", "a/4", "b/1", "b/2", "b/3", "b/4"]
        .iter()
        .map(|s| s.to_string())
        .collect();
    assert_eq!(detect_prefixes(&ab), vec!["a/".to_string(), "b/".to_string()]);
    let ba: Vec<String> = ["b/1", "a/1", "b/2", "a/2", "b/3", "a/3", "b/4", "a/4"]
        .iter()
        .map(|s| s.to_string())
        .collect();
    assert_eq!(detect_prefixes(&ba), vec!["b/".to_string(), "a/".to_string()]);

    let mut d1 = Dictionary::new();
    let mut d2 = Dictionary::new();
    for t in &ab {
        d1.intern(t);
        d2.intern(t);
    }
    assert_eq!(d1.to_bytes(), d2.to_bytes());
    assert_eq!(d1.to_bytes(), d1.to_bytes_indexed());
}
