use ros_madair::dictionary::Dictionary;
use ros_madair::resource_listing::{
    dict_ids_to_resource_ids, list_resource_ids, page_for_resource, resources_for_page,
    resources_on_page, uris_to_resource_ids,
};
use ros_madair::resource_map::ResourceMap;

const BASE: &str = "https://example.org/";

fn sample() -> (Dictionary, ResourceMap) {
    let mut dict = Dictionary::new();
    dict.intern("https://example.org/resource/res-1");
    dict.intern("https://example.org/node/some_pred");
    dict.intern("https://example.org/resource/res-2");
    dict.intern("https://example.org/resource/res-3");
    dict.intern("https://example.org/resource/unplaced");
    let r2p = vec![
        ("res-1".to_string(), 0u32),
        ("res-2".to_string(), 3u32),
        ("res-3".to_string(), 0u32),
    ];
    let rmap = ResourceMap::build(&dict, &r2p, BASE);
    (dict, rmap)
}

#[test]
fn listing_resources_on_page_as_uris() {
    let (dict, rmap) = sample();
    assert_eq!(
        resources_on_page(&dict, &rmap, 0),
        vec![
            "https://example.org/resource/res-1".to_string(),
            "https://example.org/resource/res-3".to_string(),
        ]
    );
    assert_eq!(
        resources_on_page(&dict, &rmap, 3),
        vec!["https://example.org/resource/res-2".to_string()]
    );
    assert!(resources_on_page(&dict, &rmap, 7).is_empty());
}

#[test]
fn listing_bare_resource_ids() {
    let (dict, rmap) = sample();
    assert_eq!(
        list_resource_ids(&dict, &rmap, BASE),
        vec!["res-1".to_string(), "res-2".to_string(), "res-3".to_string()]
    );
    assert_eq!(
        resources_for_page(&dict, &rmap, BASE, 0),
        vec!["res-1".to_string(), "res-3".to_string()]
    );
    assert_eq!(resources_for_page(&dict, &rmap, BASE, 3), vec!["res-2".to_string()]);
    // Another base URI matches no resource term.
    assert!(list_resource_ids(&dict, &rmap, "https://other.org/").is_empty());
}

#[test]
fn listing_dict_ids_to_bare_ids() {
    let (dict, _) = sample();
    assert_eq!(
        dict_ids_to_resource_ids(&dict, BASE, &[2, 1, 0, 99, 4]),
        vec!["res-2".to_string(), "res-1".to_string(), "unplaced".to_string()]
    );
}

#[test]
fn listing_uris_to_bare_ids_over_layers() {
    let bases = vec![BASE.to_string(), "https://corpus.org/".to_string()];
    let uris = vec![
        "https://corpus.org/resource/c-9".to_string(),
        "https://example.org/node/x".to_string(),
        "https://example.org/resource/res-1".to_string(),
    ];
    assert_eq!(
        uris_to_resource_ids(&bases, &uris),
        vec!["c-9".to_string(), "res-1".to_string()]
    );
    assert!(uris_to_resource_ids(&[], &uris).is_empty());
}

#[test]
fn listing_page_for_bare_id() {
    let (dict, rmap) = sample();
    assert_eq!(page_for_resource(&dict, &rmap, BASE, "res-2"), Some(3));
    assert_eq!(page_for_resource(&dict, &rmap, BASE, "res-1"), Some(0));
    assert_eq!(page_for_resource(&dict, &rmap, BASE, "unplaced"), None);
    assert_eq!(page_for_resource(&dict, &rmap, BASE, "missing"), None);
}
