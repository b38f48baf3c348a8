use ros_madair::concept_build::{build_concept_indexes, SkosCollectionNode, SkosConceptNode};
use ros_madair::dictionary::Dictionary;

fn concept(id: &str, label: &str, children: Vec<SkosConceptNode>) -> SkosConceptNode {
    SkosConceptNode { labels: vec![(id.to_string(), label.to_string())], children }
}

#[test]
fn build_numbers_concepts_depth_first() {
    let tree = concept(
        "eccl",
        "Ecclesiastical",
        vec![concept("church", "Church", vec![concept("cath", "Cathedral", vec![])]), concept("mon", "Monastery", vec![])],
    );
    let mut dict = Dictionary::new();
    let church = dict.intern("https://e.org/concept/church");
    let eccl = dict.intern("https://e.org/concept/eccl");
    let cols = vec![SkosCollectionNode { id: "col-1".into(), concepts: vec![tree] }];
    let (index, tree) = build_concept_indexes(&cols, &dict, "https://e.org/");
    // Ecclesiastical 0..=3, Church 1..=2, Cathedral 2, Monastery 3
    assert_eq!(index.lookup(eccl), Some((0, 3)));
    assert_eq!(index.lookup(church), Some((1, 2)));
    assert_eq!(index.len(), 2);
    let depths: Vec<(u16, u32)> = tree.entries().iter().map(|e| (e.depth, e.dfs_enter)).collect();
    assert_eq!(depths, vec![(0, 0), (1, 1), (1, 3), (2, 2)]);
    assert_eq!(tree.collections()[0].entry_count, 4);
    assert_eq!(tree.list_children("col-1", "eccl").len(), 2);
    assert_eq!(tree.lookup_label("col-1", "cathedral"), Some("cath"));
}

#[test]
fn build_orders_collections_by_id_and_skips_empty_ids() {
    let cols = vec![
        SkosCollectionNode { id: "zeta".into(), concepts: vec![concept("z1", "Z", vec![])] },
        SkosCollectionNode {
            id: "alpha".into(),
            concepts: vec![SkosConceptNode {
                labels: vec![("".into(), "nameless".into()), ("a1".into(), "A".into())],
                children: vec![],
            }],
        },
    ];
    let dict = Dictionary::new();
    let (index, tree) = build_concept_indexes(&cols, &dict, "https://e.org/");
    assert!(index.is_empty());
    assert_eq!(tree.collection_ids(), vec!["alpha", "zeta"]);
    // entries stay in walk order: zeta's first, then alpha's
    assert_eq!(tree.collections()[0].first_entry, 1);
    assert_eq!(tree.collections()[1].first_entry, 0);
    assert_eq!(tree.entries()[1].dfs_enter, 1);
    assert_eq!(tree.lookup_label("alpha", "a"), Some("a1"));
}

#[test]
fn build_interval_scan_finds_the_subtree() {
    let tree = concept(
        "eccl",
        "Ecclesiastical",
        vec![
            concept(
                "church",
                "Church",
                vec![concept("cath", "Cathedral", vec![]), concept("meet", "Meetinghouse", vec![])],
            ),
            concept("mon", "Monastery", vec![]),
            concept("syn", "Synagogue", vec![]),
        ],
    );
    let mut dict = Dictionary::new();
    let church = dict.intern("https://e.org/concept/church");
    let cols = vec![SkosCollectionNode { id: "col".into(), concepts: vec![tree] }];
    let (index, tree) = build_concept_indexes(&cols, &dict, "https://e.org/");
    let (lo, hi) = index.lookup(church).unwrap();
    let mut found: Vec<&str> = tree
        .entries()
        .iter()
        .filter(|e| lo <= e.dfs_enter && e.dfs_enter <= hi)
        .map(|e| e.value_id.as_str())
        .collect();
    found.sort();
    assert_eq!(found, vec!["cath", "church", "meet"]);
}
