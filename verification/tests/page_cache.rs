use ros_madair::page_cache::{FetchPlan, PageCache, PageFetchSpec};

#[test]
fn test_empty_cache() {
    let cache = PageCache::new();
    assert_eq!(cache.gaps(0, &[1, 2, 3]), vec![1, 2, 3]);
    assert_eq!(cache.record_count(), 0);
    assert_eq!(cache.page_count(), 0);
}

#[test]
fn test_mark_and_check() {
    let mut cache = PageCache::new();
    cache.mark_loaded(0, &[10, 20], 50);

    assert!(cache.is_loaded(0, 10));
    assert!(cache.is_loaded(0, 20));
    assert!(!cache.is_loaded(0, 30));
    assert!(!cache.is_loaded(1, 10));
    assert_eq!(cache.record_count(), 50);
    assert_eq!(cache.page_count(), 1);
}

#[test]
fn test_gaps() {
    let mut cache = PageCache::new();
    cache.mark_loaded(0, &[10, 20], 50);

    assert_eq!(cache.gaps(0, &[10, 20, 30]), vec![30]);
    assert!(cache.gaps(0, &[10, 20]).is_empty());
    assert_eq!(cache.gaps(1, &[10]), vec![10]);
}

#[test]
fn test_reduce_plan() {
    let mut cache = PageCache::new();
    cache.mark_loaded(0, &[10, 20], 50);

    let plan: FetchPlan<()> = FetchPlan {
        pages: vec![
            PageFetchSpec { page_id: 0, predicates: vec![10, 20, 30] },
            PageFetchSpec { page_id: 1, predicates: vec![10] },
        ],
        estimated_bytes: 10000,
        summary_result: None,
    };

    let reduced = cache.reduce_plan(&plan);
    assert_eq!(reduced.pages.len(), 2);
    assert_eq!(reduced.pages[0].predicates, vec![30]);
    assert_eq!(reduced.pages[1].predicates, vec![10]);
}

#[test]
fn test_reduce_plan_fully_loaded() {
    let mut cache = PageCache::new();
    cache.mark_loaded(0, &[10, 20], 50);

    let plan: FetchPlan<()> = FetchPlan {
        pages: vec![PageFetchSpec { page_id: 0, predicates: vec![10, 20] }],
        estimated_bytes: 5000,
        summary_result: None,
    };

    let reduced = cache.reduce_plan(&plan);
    assert!(reduced.pages.is_empty());
}

#[test]
fn cache_records_accumulate_and_meta_is_tracked() {
    let mut cache = PageCache::new();
    cache.mark_loaded(3, &[1], 7);
    cache.mark_loaded(3, &[2], 5);
    cache.mark_loaded(4, &[1], 1);
    assert_eq!(cache.record_count(), 13);
    assert_eq!(cache.page_count(), 2);
    assert!(!cache.is_meta_loaded(3));
    cache.mark_meta_loaded(3);
    assert!(cache.is_meta_loaded(3));
    assert!(!cache.is_meta_loaded(4));
}

#[test]
fn cache_gaps_after_marking_are_empty() {
    let mut cache = PageCache::new();
    let preds = [5u32, 9, 11];
    cache.mark_loaded(2, &preds, 0);
    assert!(cache.gaps(2, &preds).is_empty());
    assert_eq!(cache.gaps(2, &[5, 12, 9]), vec![12]);
}

#[test]
fn cache_reduce_plan_recomputes_estimate() {
    let cache = PageCache::new();
    let plan: FetchPlan<u8> = FetchPlan {
        pages: vec![PageFetchSpec { page_id: 7, predicates: vec![1, 2] }],
        estimated_bytes: 123,
        summary_result: Some(9),
    };
    let reduced = cache.reduce_plan(&plan);
    assert_eq!(reduced.pages.len(), 1);
    assert_eq!(reduced.pages[0].page_id, 7);
    assert_eq!(reduced.pages[0].predicates, vec![1, 2]);
    assert_eq!(reduced.estimated_bytes, 200 + 2 * 800);
}

#[test]
fn page_cache_empty_mark_counts_no_page() {
    let mut cache = PageCache::new();
    cache.mark_loaded(7, &[], 0);
    assert_eq!(cache.page_count(), 0);
    assert!(!cache.is_loaded(7, 0));
    cache.mark_loaded(7, &[1], 3);
    assert_eq!(cache.page_count(), 1);
}
