use ros_madair::concept_intervals::{ConceptInterval, ConceptIntervalIndex};

fn make_test_index() -> ConceptIntervalIndex {
    let intervals = vec![
        ConceptInterval { dict_id: 10, dfs_enter: 0, dfs_leave: 5 },
        ConceptInterval { dict_id: 11, dfs_enter: 1, dfs_leave: 3 },
        ConceptInterval { dict_id: 12, dfs_enter: 2, dfs_leave: 2 },
        ConceptInterval { dict_id: 13, dfs_enter: 3, dfs_leave: 3 },
        ConceptInterval { dict_id: 14, dfs_enter: 4, dfs_leave: 4 },
        ConceptInterval { dict_id: 15, dfs_enter: 5, dfs_leave: 5 },
    ];
    ConceptIntervalIndex::from_intervals(intervals)
}

#[test]
fn test_forward_lookup() {
    let idx = make_test_index();
    assert_eq!(idx.lookup(10), Some((0, 5)));
    assert_eq!(idx.lookup(11), Some((1, 3)));
    assert_eq!(idx.lookup(12), Some((2, 2)));
    assert_eq!(idx.lookup(99), None);
}

#[test]
fn test_reverse_lookup() {
    let idx = make_test_index();
    assert_eq!(idx.reverse_lookup(0), Some(10));
    assert_eq!(idx.reverse_lookup(1), Some(11));
    assert_eq!(idx.reverse_lookup(2), Some(12));
    assert_eq!(idx.reverse_lookup(99), None);
}

#[test]
fn test_encode_decode_summary() {
    let encoded = ConceptIntervalIndex::encode_for_summary(42);
    assert!(ConceptIntervalIndex::is_concept_page_o(encoded));
    assert_eq!(ConceptIntervalIndex::decode_from_summary(encoded), 42);

    assert!(!ConceptIntervalIndex::is_concept_page_o(42));
}

#[test]
fn test_serialization_roundtrip() {
    let idx = make_test_index();
    let bytes = idx.to_bytes();
    let idx2 = ConceptIntervalIndex::from_bytes(&bytes).unwrap();

    assert_eq!(idx.len(), idx2.len());
    for ci in idx.intervals() {
        assert_eq!(idx2.lookup(ci.dict_id), Some((ci.dfs_enter, ci.dfs_leave)));
    }
    for e in idx.dfs_entries() {
        assert_eq!(idx2.reverse_lookup(e.dfs_enter), Some(e.dict_id));
    }
}

#[test]
fn test_empty_index() {
    let idx = ConceptIntervalIndex::from_intervals(Vec::new());
    assert!(idx.is_empty());
    assert_eq!(idx.lookup(0), None);
    assert_eq!(idx.reverse_lookup(0), None);

    let bytes = idx.to_bytes();
    let idx2 = ConceptIntervalIndex::from_bytes(&bytes).unwrap();
    assert!(idx2.is_empty());
}

#[test]
fn test_dedup_by_dict_id() {
    let intervals = vec![
        ConceptInterval { dict_id: 10, dfs_enter: 0, dfs_leave: 5 },
        ConceptInterval { dict_id: 10, dfs_enter: 0, dfs_leave: 5 },
        ConceptInterval { dict_id: 11, dfs_enter: 1, dfs_leave: 3 },
    ];
    let idx = ConceptIntervalIndex::from_intervals(intervals);
    assert_eq!(idx.len(), 2);
}

#[test]
fn intervals_unsorted_input_is_sorted() {
    let idx = ConceptIntervalIndex::from_intervals(vec![
        ConceptInterval { dict_id: 30, dfs_enter: 7, dfs_leave: 9 },
        ConceptInterval { dict_id: 5, dfs_enter: 2, dfs_leave: 2 },
        ConceptInterval { dict_id: 17, dfs_enter: 0, dfs_leave: 9 },
    ]);
    let ids: Vec<u32> = idx.intervals().iter().map(|c| c.dict_id).collect();
    assert_eq!(ids, vec![5, 17, 30]);
    let enters: Vec<u32> = idx.dfs_entries().iter().map(|e| e.dfs_enter).collect();
    assert_eq!(enters, vec![0, 2, 7]);
    assert_eq!(idx.reverse_lookup(7), Some(30));
}

#[test]
fn intervals_encoding_sets_high_bit() {
    assert_eq!(ConceptIntervalIndex::encode_for_summary(0), 0x8000_0000);
    assert_eq!(ConceptIntervalIndex::decode_from_summary(0x8000_0005), 5);
    assert!(!ConceptIntervalIndex::is_concept_page_o(0x7FFF_FFFF));
}

#[test]
fn intervals_from_bytes_rejects_bad_magic_and_truncation() {
    let idx = make_test_index();
    let mut bytes = idx.to_bytes();
    assert!(ConceptIntervalIndex::from_bytes(&bytes[..bytes.len() - 1]).is_err());
    bytes[0] ^= 0xFF;
    assert!(ConceptIntervalIndex::from_bytes(&bytes).is_err());
    assert!(ConceptIntervalIndex::from_bytes(&[]).is_err());
}
