use ros_madair::page_assignment::plan_pages;

fn ids(v: &[&str]) -> Vec<String> {
    v.iter().map(|s| s.to_string()).collect()
}

#[test]
fn plan_single_graph_single_page() {
    let g = ids(&["graph-1"; 50]);
    let keys: Vec<u64> = (0..50).rev().collect();
    let plan = plan_pages(&g, &keys, 200);
    assert_eq!(plan.pages.len(), 1);
    assert_eq!(plan.pages[0].start, 0);
    assert_eq!(plan.pages[0].len, 50);
    // ordered by key: index 49 has key 0
    assert_eq!(plan.order[0], 49);
    assert_eq!(plan.order[49], 0);
}

#[test]
fn plan_multiple_pages_of_target_size() {
    let g = ids(&["graph-1"; 500]);
    let keys = vec![7u64; 500];
    let plan = plan_pages(&g, &keys, 200);
    let lens: Vec<usize> = plan.pages.iter().map(|p| p.len).collect();
    assert_eq!(lens, vec![200, 200, 100]);
    // equal keys keep input order
    assert_eq!(plan.order, (0..500).collect::<Vec<usize>>());
}

#[test]
fn plan_graphs_get_separate_pages_in_id_order() {
    let mut g = ids(&["person"; 3]);
    g.extend(ids(&["heritage-place"; 4]));
    let keys = vec![5, 1, 3, 9, 8, 7, 6];
    let plan = plan_pages(&g, &keys, 200);
    assert_eq!(plan.pages.len(), 2);
    assert_eq!(plan.pages[0].len, 4);
    assert_eq!(plan.pages[1].len, 3);
    assert_eq!(plan.order, vec![6, 5, 4, 3, 1, 2, 0]);
    for p in &plan.pages {
        let gs: Vec<&String> = plan.order[p.start..p.start + p.len].iter().map(|&i| &g[i]).collect();
        assert!(gs.iter().all(|x| *x == gs[0]));
    }
}

#[test]
fn plan_empty_and_page_size_one() {
    let plan = plan_pages(&[], &[], 10);
    assert!(plan.order.is_empty());
    assert!(plan.pages.is_empty());
    let g = ids(&["a", "b", "a"]);
    let plan = plan_pages(&g, &[1, 1, 0], 1);
    assert_eq!(plan.order, vec![2, 0, 1]);
    assert_eq!(plan.pages.len(), 3);
}
