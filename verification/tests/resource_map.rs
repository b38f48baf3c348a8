use ros_madair::dictionary::Dictionary;
use ros_madair::resource_map::ResourceMap;

#[test]
fn resource_map_test_roundtrip() {
    let mut dict = Dictionary::new();
    dict.intern("https://example.org/resource/res-1");
    dict.intern("https://example.org/node/some_pred");
    dict.intern("https://example.org/resource/res-2");

    let r2p = vec![("res-1".to_string(), 0u32), ("res-2".to_string(), 3u32)];

    let rmap = ResourceMap::build(&dict, &r2p, "https://example.org/");
    assert_eq!(rmap.page_for(0), Some(0));
    assert_eq!(rmap.page_for(1), None);
    assert_eq!(rmap.page_for(2), Some(3));

    let bytes = rmap.to_bytes();
    let rmap2 = ResourceMap::from_bytes(&bytes).unwrap();
    assert_eq!(rmap2.page_for(0), Some(0));
    assert_eq!(rmap2.page_for(1), None);
    assert_eq!(rmap2.page_for(2), Some(3));
    assert_eq!(rmap2.len(), 3);
}

#[test]
fn test_empty() {
    let dict = Dictionary::new();
    let rmap = ResourceMap::build(&dict, &[], "https://example.org/");
    assert!(rmap.is_empty());
    let bytes = rmap.to_bytes();
    let rmap2 = ResourceMap::from_bytes(&bytes).unwrap();
    assert!(rmap2.is_empty());
}

#[test]
fn test_out_of_bounds() {
    let mut dict = Dictionary::new();
    dict.intern("https://example.org/resource/r1");
    let rmap = ResourceMap::build(&dict, &[], "https://example.org/");
    assert_eq!(rmap.page_for(999), None);
}

#[test]
fn resource_map_unmapped_resource_and_flags() {
    let mut dict = Dictionary::new();
    dict.intern("https://example.org/resource/a");
    dict.intern("https://example.org/resource/b");
    let rmap = ResourceMap::build(&dict, &[("a".to_string(), 7)], "https://example.org/");
    assert_eq!(rmap.page_for(0), Some(7));
    assert_eq!(rmap.page_for(1), None);
    assert!(rmap.is_resource(0));
    assert!(!rmap.is_resource(1));
    assert_eq!(rmap.len(), 2);
}

#[test]
fn resource_map_from_bytes_rejects_bad_input() {
    assert!(ResourceMap::from_bytes(&[]).is_err());
    assert!(ResourceMap::from_bytes(b"NOPE\x01\x00\x00\x00\x00").is_err());
    let mut dict = Dictionary::new();
    dict.intern("https://example.org/resource/a");
    let bytes = ResourceMap::build(&dict, &[("a".to_string(), 1)], "https://example.org/").to_bytes();
    assert!(ResourceMap::from_bytes(&bytes[..bytes.len() - 1]).is_err());
}
