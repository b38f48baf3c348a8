use ros_madair::concept_tree::{CollectionHeader, ConceptEntry, ConceptTree};

fn entry(enter: u32, leave: u32, depth: u16, vid: &str, label: &str) -> ConceptEntry {
    ConceptEntry {
        dfs_enter: enter,
        dfs_leave: leave,
        depth,
        value_id: vid.into(),
        label: label.into(),
    }
}

fn make_test_tree() -> ConceptTree {
    let entries = vec![
        entry(0, 5, 0, "vid-ecclesiastical", "Ecclesiastical Building"),
        entry(1, 3, 1, "vid-church", "Church"),
        entry(4, 4, 1, "vid-monastery", "Monastery"),
        entry(5, 5, 1, "vid-synagogue", "Synagogue"),
        entry(2, 2, 2, "vid-cathedral", "Cathedral"),
        entry(3, 3, 2, "vid-meetinghouse", "Meetinghouse"),
    ];
    let collections = vec![CollectionHeader {
        collection_id: "col-1".into(),
        first_entry: 0,
        entry_count: entries.len() as u32,
    }];
    ConceptTree::from_parts(collections, entries)
}

#[test]
fn concept_tree_test_roundtrip() {
    let tree = make_test_tree();
    let bytes = tree.to_bytes();
    let tree2 = ConceptTree::from_bytes(&bytes).unwrap();

    assert_eq!(tree2.collections().len(), 1);
    assert_eq!(tree2.entries().len(), tree.entries().len());

    for (a, b) in tree.entries().iter().zip(tree2.entries().iter()) {
        assert_eq!(a.dfs_enter, b.dfs_enter);
        assert_eq!(a.dfs_leave, b.dfs_leave);
        assert_eq!(a.depth, b.depth);
        assert_eq!(a.value_id, b.value_id);
        assert_eq!(a.label, b.label);
    }
}

#[test]
fn test_label_lookup() {
    let tree = make_test_tree();
    assert_eq!(tree.lookup_label("col-1", "Church"), Some("vid-church"));
    assert_eq!(tree.lookup_label("col-1", "church"), Some("vid-church"));
    assert_eq!(tree.lookup_label("col-1", "CATHEDRAL"), Some("vid-cathedral"));
    assert_eq!(tree.lookup_label("col-1", "Nonexistent"), None);
    assert_eq!(tree.lookup_label("col-999", "Church"), None);
}

#[test]
fn test_list_top_level() {
    let tree = make_test_tree();
    let top = tree.list_top_level("col-1");
    assert_eq!(top.len(), 1);
    assert_eq!(top[0].value_id, "vid-ecclesiastical");
    assert!(top[0].has_children);
}

#[test]
fn test_list_children() {
    let tree = make_test_tree();

    let children = tree.list_children("col-1", "vid-ecclesiastical");
    assert_eq!(children.len(), 3);
    let labels: Vec<&str> = children.iter().map(|c| c.label.as_str()).collect();
    assert!(labels.contains(&"Church"));
    assert!(labels.contains(&"Monastery"));
    assert!(labels.contains(&"Synagogue"));

    let church = children.iter().find(|c| c.label == "Church").unwrap();
    assert!(church.has_children);

    let monastery = children.iter().find(|c| c.label == "Monastery").unwrap();
    assert!(!monastery.has_children);

    let grandchildren = tree.list_children("col-1", "vid-church");
    assert_eq!(grandchildren.len(), 2);
    let labels: Vec<&str> = grandchildren.iter().map(|c| c.label.as_str()).collect();
    assert!(labels.contains(&"Cathedral"));
    assert!(labels.contains(&"Meetinghouse"));
}

#[test]
fn test_list_children_leaf() {
    let tree = make_test_tree();
    let children = tree.list_children("col-1", "vid-cathedral");
    assert!(children.is_empty());
}

#[test]
fn test_unknown_collection() {
    let tree = make_test_tree();
    assert!(tree.list_top_level("nonexistent").is_empty());
    assert!(tree.list_children("nonexistent", "vid-church").is_empty());
}

#[test]
fn test_collection_ids() {
    let tree = make_test_tree();
    let ids = tree.collection_ids();
    assert_eq!(ids, vec!["col-1"]);
}

#[test]
fn test_empty_tree() {
    let tree = ConceptTree::from_parts(Vec::new(), Vec::new());
    assert!(tree.is_empty());
    assert!(tree.list_top_level("x").is_empty());
    assert_eq!(tree.lookup_label("x", "x"), None);
    assert!(tree.collection_ids().is_empty());

    let bytes = tree.to_bytes();
    let tree2 = ConceptTree::from_bytes(&bytes).unwrap();
    assert!(tree2.is_empty());
}

#[test]
fn test_multi_language_dedup() {
    let entries = vec![entry(0, 0, 0, "vid-a-en", "Church"), entry(0, 0, 0, "vid-a-fr", "Église")];
    let collections = vec![CollectionHeader {
        collection_id: "col-1".into(),
        first_entry: 0,
        entry_count: 2,
    }];
    let tree = ConceptTree::from_parts(collections, entries);

    let top = tree.list_top_level("col-1");
    assert_eq!(top.len(), 1);

    assert!(tree.lookup_label("col-1", "Church").is_some());
    assert!(tree.lookup_label("col-1", "Église").is_some());
}

#[test]
fn tree_label_lookup_and_len() {
    let tree = make_test_tree();
    assert_eq!(tree.len(), 6);
    assert_eq!(tree.lookup_label("col-1", "église"), None);
    assert_eq!(tree.lookup_label("col-1", "SYNAGOGUE"), Some("vid-synagogue"));
}

#[test]
fn tree_roundtrip_keeps_collections_and_answers() {
    let tree = make_test_tree();
    let tree2 = ConceptTree::from_bytes(&tree.to_bytes()).unwrap();
    assert_eq!(tree2.collection_ids(), vec!["col-1"]);
    assert_eq!(tree2.collections()[0].first_entry, 0);
    assert_eq!(tree2.collections()[0].entry_count, 6);
    assert_eq!(tree2.lookup_label("col-1", "meetinghouse"), Some("vid-meetinghouse"));
    assert_eq!(tree2.list_children("col-1", "vid-church").len(), 2);
}

#[test]
fn tree_from_bytes_rejects_garbage() {
    assert!(ConceptTree::from_bytes(&[]).is_err());
    assert!(ConceptTree::from_bytes(b"XXXX\x01\x00\x00\x00\x00").is_err());
    let bytes = make_test_tree().to_bytes();
    assert!(ConceptTree::from_bytes(&bytes[..bytes.len() - 1]).is_err());
}

#[test]
fn concept_tree_collection_range_past_entries_is_an_error() {
    let mut bytes = make_test_tree().to_bytes();
    // The first collection's entry count sits after its 36-byte id and its
    // first-entry field.
    bytes[60..64].copy_from_slice(&7u32.to_le_bytes());
    assert!(ConceptTree::from_bytes(&bytes).is_err());
    bytes[60..64].copy_from_slice(&6u32.to_le_bytes());
    assert!(ConceptTree::from_bytes(&bytes).is_ok());
}
