use ros_madair::page_file::{
    binary_search_object, full_header_size, page_predicate_records, page_resource_meta,
    parse_page_header, parse_records, parse_resource_meta, range_search_object,
    serialize_resource_meta, write_page_file, PageReadError, PredicateBlock, ResourceMeta,
    MIN_HEADER_PROBE,
};
use ros_madair::quantize::PageRecord;

#[test]
fn test_write_and_parse_roundtrip() {
    let mut blocks = vec![
        PredicateBlock {
            pred_id: 10,
            records: vec![
                PageRecord { subject_id: 1, object_val: 100 },
                PageRecord { subject_id: 2, object_val: 200 },
                PageRecord { subject_id: 3, object_val: 200 },
            ],
        },
        PredicateBlock {
            pred_id: 5,
            records: vec![PageRecord { subject_id: 1, object_val: 50 }],
        },
    ];

    let bytes = write_page_file(&mut blocks, &[]);
    let header = parse_page_header(&bytes).unwrap();

    assert_eq!(header.entries.len(), 2);
    assert_eq!(header.entries[0].pred_id, 5);
    assert_eq!(header.entries[0].record_count, 1);
    assert_eq!(header.entries[1].pred_id, 10);
    assert_eq!(header.entries[1].record_count, 3);

    let (start, end) = header.predicate_byte_range(10).unwrap();
    let records = parse_records(&bytes[start as usize..end as usize]);
    assert_eq!(records.len(), 3);
    assert_eq!(records[0].object_val, 100);
    assert_eq!(records[1].object_val, 200);
}

#[test]
fn test_write_and_parse_with_meta_roundtrip() {
    let mut blocks = vec![PredicateBlock {
        pred_id: 10,
        records: vec![
            PageRecord { subject_id: 1, object_val: 100 },
            PageRecord { subject_id: 2, object_val: 200 },
        ],
    }];

    let meta = vec![
        ResourceMeta {
            dict_id: 42,
            name: "Test Resource".to_string(),
            slug: "test-resource".to_string(),
            model: "Heritage Place".to_string(),
        },
        ResourceMeta {
            dict_id: 99,
            name: "Another".to_string(),
            slug: "another".to_string(),
            model: "Monument".to_string(),
        },
    ];

    let bytes = write_page_file(&mut blocks, &meta);
    let header = parse_page_header(&bytes).unwrap();

    assert_eq!(header.entries.len(), 1);
    assert_eq!(header.entries[0].pred_id, 10);
    assert_eq!(header.entries[0].record_count, 2);

    let (start, end) = header.predicate_byte_range(10).unwrap();
    let records = parse_records(&bytes[start as usize..end as usize]);
    assert_eq!(records.len(), 2);
    assert_eq!(records[0].object_val, 100);

    let (meta_offset, meta_size) = header.resource_meta_range.unwrap();
    let meta_data = &bytes[meta_offset as usize..(meta_offset + meta_size) as usize];
    let parsed_meta = parse_resource_meta(meta_data).unwrap();
    assert_eq!(parsed_meta.len(), 2);
    assert_eq!(parsed_meta[0].dict_id, 42);
    assert_eq!(parsed_meta[0].name, "Test Resource");
    assert_eq!(parsed_meta[0].slug, "test-resource");
    assert_eq!(parsed_meta[0].model, "Heritage Place");
    assert_eq!(parsed_meta[1].dict_id, 99);
    assert_eq!(parsed_meta[1].name, "Another");
}

#[test]
fn test_v3_empty_metadata() {
    let mut blocks = vec![PredicateBlock {
        pred_id: 1,
        records: vec![PageRecord { subject_id: 0, object_val: 0 }],
    }];

    let bytes = write_page_file(&mut blocks, &[]);
    let header = parse_page_header(&bytes).unwrap();

    let (meta_offset, meta_size) = header.resource_meta_range.unwrap();
    let meta_data = &bytes[meta_offset as usize..(meta_offset + meta_size) as usize];
    let parsed = parse_resource_meta(meta_data).unwrap();
    assert!(parsed.is_empty());
}

#[test]
fn test_resource_meta_roundtrip() {
    let meta = vec![ResourceMeta {
        dict_id: 1,
        name: "Héllo Wörld".to_string(),
        slug: "hello-world".to_string(),
        model: "Test".to_string(),
    }];
    let bytes = serialize_resource_meta(&meta);
    let parsed = parse_resource_meta(&bytes).unwrap();
    assert_eq!(parsed.len(), 1);
    assert_eq!(parsed[0].dict_id, 1);
    assert_eq!(parsed[0].name, "Héllo Wörld");
    assert_eq!(parsed[0].slug, "hello-world");
    assert_eq!(parsed[0].model, "Test");
}

#[test]
fn test_binary_search() {
    let records = vec![
        PageRecord { subject_id: 1, object_val: 10 },
        PageRecord { subject_id: 2, object_val: 20 },
        PageRecord { subject_id: 3, object_val: 20 },
        PageRecord { subject_id: 4, object_val: 30 },
    ];

    let (lo, hi) = binary_search_object(&records, 20);
    assert_eq!((lo, hi), (1, 3));

    let (lo, hi) = binary_search_object(&records, 15);
    assert_eq!((lo, hi), (1, 1));

    let (lo, hi) = range_search_object(&records, 15, 25);
    assert_eq!((lo, hi), (1, 3));
}

#[test]
fn page_file_test_header_probe() {
    let mut blocks = vec![
        PredicateBlock {
            pred_id: 1,
            records: vec![PageRecord { subject_id: 0, object_val: 0 }],
        },
        PredicateBlock { pred_id: 2, records: vec![] },
    ];
    let bytes = write_page_file(&mut blocks, &[]);
    let size = full_header_size(&bytes[..MIN_HEADER_PROBE]).unwrap();
    assert_eq!(size, 15 + 12 * 2);
}

#[test]
fn page_file_records_keep_block_order() {
    let mut blocks = vec![PredicateBlock {
        pred_id: 7,
        records: vec![
            PageRecord { subject_id: 9, object_val: 3 },
            PageRecord { subject_id: 1, object_val: 3 },
            PageRecord { subject_id: 5, object_val: 1 },
        ],
    }];
    let bytes = write_page_file(&mut blocks, &[]);
    let header = parse_page_header(&bytes).unwrap();
    let (start, end) = header.predicate_byte_range(7).unwrap();
    let records = parse_records(&bytes[start as usize..end as usize]);
    let pairs: Vec<(u32, u32)> = records.iter().map(|r| (r.object_val, r.subject_id)).collect();
    assert_eq!(pairs, vec![(3, 9), (3, 1), (1, 5)]);
    assert_eq!(header.predicate_byte_range(8), None);
    assert_eq!(header.header_size() as usize, 15 + 12);
}

#[test]
fn page_file_parse_errors() {
    assert!(parse_page_header(&[]).is_err());
    assert!(parse_page_header(b"XXXX\x03\x00\x00\x00\x00\x00\x00\x00\x00\x00\x00").is_err());
    assert!(full_header_size(&[0u8; 3]).is_err());
    assert!(parse_resource_meta(&[1, 0]).is_err());
    assert!(parse_resource_meta(&[1, 0, 0, 0]).is_err());
}

#[test]
fn page_file_range_search_bounds() {
    let records = vec![
        PageRecord { subject_id: 1, object_val: 10 },
        PageRecord { subject_id: 2, object_val: 20 },
        PageRecord { subject_id: 4, object_val: 30 },
    ];
    assert_eq!(range_search_object(&records, 0, 100), (0, 3));
    assert_eq!(range_search_object(&records, 31, 100), (3, 3));
    assert_eq!(binary_search_object(&records, 5), (0, 0));
    assert_eq!(binary_search_object(&[], 5), (0, 0));
}

fn sample_page(meta: &[ResourceMeta]) -> Vec<u8> {
    let mut blocks = vec![
        PredicateBlock {
            pred_id: 10,
            records: vec![
                PageRecord { subject_id: 1, object_val: 100 },
                PageRecord { subject_id: 2, object_val: 200 },
            ],
        },
        PredicateBlock {
            pred_id: 5,
            records: vec![PageRecord { subject_id: 7, object_val: 50 }],
        },
    ];
    write_page_file(&mut blocks, meta)
}

#[test]
fn page_file_predicate_records_in_request_order() {
    let bytes = sample_page(&[]);
    let blocks = page_predicate_records(&bytes, &[10, 99, 5]).unwrap();
    assert_eq!(blocks.len(), 2);
    assert_eq!(blocks[0].0, 10);
    assert_eq!(
        blocks[0].1,
        vec![
            PageRecord { subject_id: 1, object_val: 100 },
            PageRecord { subject_id: 2, object_val: 200 },
        ]
    );
    assert_eq!(blocks[1].0, 5);
    assert_eq!(blocks[1].1, vec![PageRecord { subject_id: 7, object_val: 50 }]);
    assert!(page_predicate_records(&bytes, &[]).unwrap().is_empty());
}

#[test]
fn page_file_predicate_block_past_end() {
    let bytes = sample_page(&[]);
    // Header of two entries: 15 + 24 bytes; the block of predicate 5 comes
    // first (8 bytes), then the block of predicate 10 (16 bytes).
    let cut = &bytes[..39 + 8 + 8];
    assert!(matches!(
        page_predicate_records(cut, &[5, 10]),
        Err(PageReadError::BlockOutOfRange { pred_id: 10 })
    ));
    assert_eq!(page_predicate_records(cut, &[5]).unwrap().len(), 1);
    assert!(matches!(page_predicate_records(b"nope", &[5]), Err(PageReadError::Malformed(_))));
}

#[test]
fn page_file_resource_meta_section() {
    let meta = vec![ResourceMeta {
        dict_id: 3,
        name: "Castle".to_string(),
        slug: "castle".to_string(),
        model: "Monument".to_string(),
    }];
    let bytes = sample_page(&meta);
    let read = page_resource_meta(&bytes).unwrap();
    assert_eq!(read.len(), 1);
    assert_eq!(read[0].dict_id, 3);
    assert_eq!(read[0].name, "Castle");
    assert_eq!(read[0].model, "Monument");

    let empty = page_resource_meta(&sample_page(&[])).unwrap();
    assert!(empty.is_empty());

    let cut = &bytes[..bytes.len() - 1];
    match page_resource_meta(cut) {
        Err(PageReadError::MetaOutOfRange { end, len, .. }) => {
            assert_eq!(len, cut.len() as u64);
            assert_eq!(end, bytes.len() as u64);
        }
        other => panic!("unexpected {:?}", other),
    }
    assert!(matches!(page_resource_meta(&[0u8; 3]), Err(PageReadError::Malformed(_))));
}
