use ros_madair::query_results::{combine_pattern_matches, intersect_page_sets, select_layers};

fn strings(v: &[&str]) -> Vec<String> {
    v.iter().map(|s| s.to_string()).collect()
}

#[test]
fn layers_all_or_by_name() {
    let names = strings(&["base", "corpus", "base"]);
    assert_eq!(select_layers(&names, None).unwrap(), vec![0, 1, 2]);
    assert_eq!(select_layers(&names, Some("base")).unwrap(), vec![0, 2]);
    assert_eq!(select_layers(&names, Some("corpus")).unwrap(), vec![1]);
}

#[test]
fn layers_unknown_name_is_an_error() {
    let names = strings(&["base"]);
    assert_eq!(select_layers(&names, Some("nope")).unwrap_err(), "Unknown layer: 'nope'");
    assert_eq!(select_layers(&[], None).unwrap_err(), "Unknown layer: ''");
}

#[test]
fn matches_intersected_sorted_and_unique() {
    let per = vec![
        strings(&["u/c", "u/a", "u/b", "u/a"]),
        strings(&["u/b", "u/a", "u/z"]),
        strings(&["u/a", "u/b", "u/c"]),
    ];
    assert_eq!(combine_pattern_matches(&per), strings(&["u/a", "u/b"]));
    assert!(combine_pattern_matches(&[]).is_empty());
    let single = vec![strings(&["z", "a", "z", "m"])];
    assert_eq!(combine_pattern_matches(&single), strings(&["a", "m", "z"]));
    let disjoint = vec![strings(&["a"]), strings(&["b"])];
    assert!(combine_pattern_matches(&disjoint).is_empty());
}

#[test]
fn page_sets_intersected_in_order() {
    let sets = vec![vec![9, 3, 5, 3, 1], vec![1, 5, 9, 11], vec![5, 9, 1]];
    assert_eq!(intersect_page_sets(&sets), vec![1, 5, 9]);
    assert!(intersect_page_sets(&[]).is_empty());
    assert_eq!(intersect_page_sets(&[vec![4, 2, 4]]), vec![2, 4]);
    assert!(intersect_page_sets(&[vec![1], vec![]]).is_empty());
}
