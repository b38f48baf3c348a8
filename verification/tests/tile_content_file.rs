use ros_madair::tile_content_file::{
    parse_tile_content_header, tile_full_header_size, write_tile_content_file,
    TILE_MIN_HEADER_PROBE, TILE_VERSION,
};

fn header_size_for_count(n: usize) -> usize {
    9 + 12 * n
}

#[test]
fn test_roundtrip_empty() {
    let data = write_tile_content_file(&[]);
    assert_eq!(data.len(), 9);
    let header = parse_tile_content_header(&data).unwrap();
    assert!(header.entries.is_empty());
    assert_eq!(header.header_size(), 9);
}

#[test]
fn test_roundtrip_single() {
    let blob = vec![0xDE, 0xAD, 0xBE, 0xEF];
    let entries = vec![(42u32, blob.clone())];
    let data = write_tile_content_file(&entries);

    let header = parse_tile_content_header(&data).unwrap();
    assert_eq!(header.entries.len(), 1);
    assert_eq!(header.header_size(), 9 + 12);

    let entry = header.entry_for_subject(42).unwrap();
    assert_eq!(entry.subject_id, 42);
    assert_eq!(entry.blob_size, 4);

    let extracted = &data[entry.blob_offset as usize..(entry.blob_offset + entry.blob_size) as usize];
    assert_eq!(extracted, &blob);
}

#[test]
fn test_roundtrip_multiple() {
    let entries = vec![(10u32, vec![1, 2, 3]), (20u32, vec![4, 5]), (30u32, vec![6, 7, 8, 9])];
    let data = write_tile_content_file(&entries);

    let header = parse_tile_content_header(&data).unwrap();
    assert_eq!(header.entries.len(), 3);
    assert_eq!(header.header_size(), 9 + 36);

    for (subject_id, blob) in &entries {
        let entry = header.entry_for_subject(*subject_id).unwrap();
        let extracted =
            &data[entry.blob_offset as usize..(entry.blob_offset + entry.blob_size) as usize];
        assert_eq!(extracted, blob.as_slice());
    }

    assert!(header.entry_for_subject(15).is_none());
    assert!(header.entry_for_subject(99).is_none());
}

#[test]
fn tile_content_file_test_header_probe() {
    let entries = vec![(1u32, vec![0xAA]), (2u32, vec![0xBB, 0xCC])];
    let data = write_tile_content_file(&entries);

    let size = tile_full_header_size(&data[..TILE_MIN_HEADER_PROBE]).unwrap();
    assert_eq!(size, 9 + 24);
    assert_eq!(size, header_size_for_count(2));
}

#[test]
fn test_invalid_magic() {
    let data = vec![0, 0, 0, 0, 1, 0, 0, 0, 0];
    assert!(parse_tile_content_header(&data).is_err());
    assert!(tile_full_header_size(&data).is_err());
}

#[test]
fn test_truncated_header() {
    let mut data = Vec::new();
    data.extend_from_slice(b"RMTL");
    data.push(TILE_VERSION);
    data.extend_from_slice(&2u32.to_le_bytes());
    data.extend_from_slice(&[0; 5]);
    assert!(parse_tile_content_header(&data).is_err());
}

#[test]
fn tile_file_layout_is_header_then_blobs() {
    let data = write_tile_content_file(&[(7u32, vec![9, 8]), (8u32, vec![])]);
    assert_eq!(&data[0..4], b"RMTL");
    assert_eq!(data[4], TILE_VERSION);
    assert_eq!(&data[5..9], &2u32.to_le_bytes());
    assert_eq!(data.len(), 9 + 24 + 2);
    let header = parse_tile_content_header(&data).unwrap();
    let e8 = header.entry_for_subject(8).unwrap();
    assert_eq!(e8.blob_size, 0);
    assert_eq!(e8.blob_offset as usize, data.len());
}

#[test]
fn tile_header_wrong_version_is_rejected() {
    let mut data = write_tile_content_file(&[]);
    data[4] = TILE_VERSION + 1;
    assert!(parse_tile_content_header(&data).is_err());
}
