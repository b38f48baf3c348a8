use ros_madair::summary_quads::{serialize_summary, SummaryBuilder, SummaryIndex, SummaryQuad};

fn q(page_s: u32, predicate: u32, page_o: u32, edge_count: u32, subject_count: u32) -> SummaryQuad {
    SummaryQuad { page_s, predicate, page_o, edge_count, subject_count }
}

fn sample_quads() -> Vec<SummaryQuad> {
    vec![q(0, 10, 1, 5, 3), q(0, 10, 2, 2, 2), q(0, 20, 3, 10, 8), q(1, 10, 0, 3, 3), q(2, 20, 3, 7, 5)]
}

fn sample_index() -> SummaryIndex {
    SummaryIndex::from_bytes(&serialize_summary(&sample_quads())).unwrap()
}

#[test]
fn test_serialize_roundtrip() {
    let idx = sample_index();
    assert_eq!(idx.len(), 5);
}

#[test]
fn test_lookup_sp() {
    let idx = sample_index();
    let results = idx.lookup_sp(0, 10);
    assert_eq!(results.len(), 2);
    assert!(results.iter().all(|q| q.page_s == 0 && q.predicate == 10));
}

#[test]
fn test_lookup_op() {
    let idx = sample_index();
    let results = idx.lookup_op(3, 20);
    assert_eq!(results.len(), 2);
}

#[test]
fn test_count_where() {
    let idx = sample_index();
    assert_eq!(idx.count_where(20, 3), 17);
    assert_eq!(idx.count_where(10, 1), 5);
    assert_eq!(idx.count_where(99, 99), 0);
}

#[test]
fn test_subject_pages_for() {
    let idx = sample_index();
    let mut pages = idx.subject_pages_for(20, 3);
    pages.sort();
    assert_eq!(pages, vec![0, 2]);
}

#[test]
fn test_object_pages_for() {
    let idx = sample_index();
    let mut pages = idx.object_pages_for(0, 10);
    pages.sort();
    assert_eq!(pages, vec![1, 2]);
}

#[test]
fn test_lookup_p() {
    let idx = sample_index();
    let results = idx.lookup_p(10);
    assert_eq!(results.len(), 3);
}

#[test]
fn test_builder() {
    let mut builder = SummaryBuilder::new();
    builder.add(0, 10, 1, 100);
    builder.add(0, 10, 1, 101);
    builder.add(0, 10, 1, 100);
    builder.add(0, 10, 2, 102);

    let quads = builder.build();
    assert_eq!(quads.len(), 2);

    let q1 = quads.iter().find(|q| q.page_o == 1).unwrap();
    assert_eq!(q1.edge_count, 3);
    assert_eq!(q1.subject_count, 2);
}

#[test]
fn summary_other_lookups() {
    let idx = sample_index();
    assert_eq!(idx.lookup_s(0).len(), 3);
    assert_eq!(idx.lookup_s(5).len(), 0);
    assert_eq!(idx.lookup_ps(20, 2), &[q(2, 20, 3, 7, 5)][..]);
    assert_eq!(idx.lookup_o(3).len(), 2);
    assert!(idx.lookup_o(3).iter().all(|x| x.page_o == 3));
    assert!(!idx.is_empty());
}

#[test]
fn summary_range_lookup_by_object_page() {
    let idx = sample_index();
    let mut hits = idx.lookup_op_range(1, 3, 10);
    hits.sort_by_key(|x| (x.page_s, x.page_o));
    assert_eq!(hits, vec![q(0, 10, 1, 5, 3), q(0, 10, 2, 2, 2)]);
    assert!(idx.lookup_op_range(4, 9, 10).is_empty());
}

#[test]
fn summary_builder_output_roundtrips() {
    let mut builder = SummaryBuilder::new();
    builder.add(3, 1, 4, 10);
    builder.add(1, 1, 4, 11);
    builder.add(3, 1, 4, 12);
    let quads = builder.build();
    assert_eq!(quads, vec![q(1, 1, 4, 1, 1), q(3, 1, 4, 2, 2)]);
    let idx = SummaryIndex::from_bytes(&serialize_summary(&quads)).unwrap();
    assert_eq!(idx.count_where(1, 4), 3);
    assert_eq!(idx.lookup_sp(3, 1), &[q(3, 1, 4, 2, 2)][..]);
}

#[test]
fn summary_empty_and_bad_bytes() {
    let idx = SummaryIndex::from_bytes(&serialize_summary(&[])).unwrap();
    assert!(idx.is_empty());
    assert_eq!(idx.count_where(1, 1), 0);
    assert!(SummaryIndex::from_bytes(&[]).is_err());
    let bytes = serialize_summary(&sample_quads());
    assert!(SummaryIndex::from_bytes(&bytes[..bytes.len() - 1]).is_err());
}
