use std::collections::HashMap;

use ros_madair::dictionary::Dictionary;
use ros_madair::resource_map::ResourceMap;
use ros_madair::tile_content_file::write_tile_content_file;
use ros_madair::tile_source::{resolve_resource, tile_blob_range, TileLoadError, TileStore};

const BASE: &str = "https://example.org/";

fn fixtures() -> (Dictionary, ResourceMap, Vec<u8>) {
    let mut dict = Dictionary::new();
    let a = dict.intern("https://example.org/resource/hp-001");
    let b = dict.intern("https://example.org/resource/hp-002");
    dict.intern("https://example.org/node/name");
    let rmap = ResourceMap::build(
        &dict,
        &[("hp-001".to_string(), 0), ("hp-002".to_string(), 0)],
        BASE,
    );
    let file = write_tile_content_file(&[(a, vec![1, 2, 3]), (b, vec![4, 5])]);
    (dict, rmap, file)
}

#[test]
fn tile_resolve_known_and_unknown() {
    let (dict, rmap, _) = fixtures();
    assert_eq!(resolve_resource(&dict, &rmap, BASE, "hp-002").unwrap(), (1, 0));
    match resolve_resource(&dict, &rmap, BASE, "hp-999") {
        Err(TileLoadError::ResourceNotFound { resource_id }) => assert_eq!(resource_id, "hp-999"),
        other => panic!("unexpected {:?}", other),
    }
}

#[test]
fn tile_blob_ranges_and_errors() {
    let (_, _, file) = fixtures();
    let (s, e) = tile_blob_range(&file, 0, "hp-001").unwrap();
    assert_eq!(&file[s..e], &[1, 2, 3]);
    let (s, e) = tile_blob_range(&file, 1, "hp-002").unwrap();
    assert_eq!(&file[s..e], &[4, 5]);
    assert!(matches!(tile_blob_range(&file, 7, "x"), Err(TileLoadError::ResourceNotFound { .. })));
    assert!(matches!(tile_blob_range(&file[..file.len() - 1], 1, "x"), Err(TileLoadError::LoadError(_))));
    assert!(matches!(tile_blob_range(&[0u8; 3], 1, "x"), Err(TileLoadError::LoadError(_))));
}

#[test]
fn tile_store_locates_blobs_once_file_present() {
    let (dict, rmap, file) = fixtures();
    let mut store = TileStore::new(BASE.to_string(), dict, rmap, HashMap::new());
    assert!(!store.has_tile_file(0));
    assert!(matches!(store.locate_tiles("hp-001"), Err(TileLoadError::ResourceNotFound { .. })));
    store.insert_tile_file(0, file);
    assert!(store.has_tile_file(0));
    assert_eq!(store.locate_tiles("hp-001").unwrap(), &[1, 2, 3]);
    assert_eq!(store.locate_tiles("hp-002").unwrap(), &[4, 5]);
    assert_eq!(store.base_uri(), BASE);
    assert_eq!(store.dictionary().len(), 3);
    assert_eq!(store.resource_map().page_for(1), Some(0));
}
