use ros_madair::quantize::{
    dequantize_date, hilbert_ranges_for_bbox, hilbert_to_xy_u16, quantize_bool, quantize_date,
    quantize_dictionary_id, quantize_type_for_datatype, xy_to_hilbert_u16, PageRecord,
    QuantizeType,
};
use ros_madair::dictionary::Dictionary;
use ros_madair::concept_intervals::{ConceptInterval, ConceptIntervalIndex};
use ros_madair::quantize::quantize_tile_value;
use ros_madair::value_extract::JsonValue;

#[test]
fn test_quantize_bool() {
    assert_eq!(quantize_bool(false), 0);
    assert_eq!(quantize_bool(true), 1);
}

#[test]
fn test_quantize_date_full() {
    let d1 = quantize_date("2026-03-15").unwrap();
    let d2 = quantize_date("2026-12-31").unwrap();
    let d0 = quantize_date("1970-01-01").unwrap();
    assert!(d1 < d2);
    assert!(d0 < d1);
    assert_eq!(d0, 1 << 31);
}

#[test]
fn test_quantize_date_partial() {
    let y = quantize_date("2026").unwrap();
    let ym = quantize_date("2026-03").unwrap();
    assert!(y < ym);
}

#[test]
fn test_quantize_date_roundtrip() {
    let encoded = quantize_date("2026-03-15").unwrap();
    let (y, m, d) = dequantize_date(encoded);
    assert_eq!((y, m, d), (2026, 3, 15));
}

#[test]
fn test_quantize_date_before_epoch() {
    let d = quantize_date("1066-10-14").unwrap();
    let e = quantize_date("1970-01-01").unwrap();
    assert!(d < e);
    let (y, m, day) = dequantize_date(d);
    assert_eq!((y, m, day), (1066, 10, 14));
}

#[test]
fn test_hilbert_roundtrip_u16() {
    for &(x, y) in &[(0, 0), (100, 200), (65535, 65535), (32768, 32768)] {
        let h = xy_to_hilbert_u16(x, y);
        let (rx, ry) = hilbert_to_xy_u16(h);
        assert_eq!((rx, ry), (x, y), "roundtrip failed for ({x}, {y})");
    }
}

#[test]
fn test_hilbert_ranges_small_box() {
    let ranges = hilbert_ranges_for_bbox(100, 100, 102, 102, 8);
    assert!(!ranges.is_empty());
    let total_cells: u32 = ranges.iter().map(|(a, b)| b - a + 1).sum();
    assert!(total_cells >= 9);
}

#[test]
fn test_page_record_roundtrip() {
    let rec = PageRecord { subject_id: 42, object_val: 12345 };
    let bytes = rec.to_bytes();
    let rec2 = PageRecord::from_bytes(&bytes);
    assert_eq!(rec, rec2);
}

#[test]
fn test_page_record_sort_order() {
    let r1 = PageRecord { subject_id: 99, object_val: 1 };
    let r2 = PageRecord { subject_id: 1, object_val: 2 };
    let r3 = PageRecord { subject_id: 50, object_val: 2 };

    let mut recs = [r3, r1, r2];
    recs.sort();
    assert_eq!(recs[0].object_val, 1);
    assert_eq!(recs[1], PageRecord { subject_id: 1, object_val: 2 });
    assert_eq!(recs[2], PageRecord { subject_id: 50, object_val: 2 });
}

#[test]
fn test_quantize_type_classification() {
    assert_eq!(quantize_type_for_datatype("concept"), Some(QuantizeType::ConceptDfs));
    assert_eq!(quantize_type_for_datatype("resource-instance"), Some(QuantizeType::DictionaryId));
    assert_eq!(quantize_type_for_datatype("boolean"), Some(QuantizeType::Boolean));
    assert_eq!(quantize_type_for_datatype("date"), Some(QuantizeType::DaysSinceEpoch));
    assert_eq!(
        quantize_type_for_datatype("geojson-feature-collection"),
        Some(QuantizeType::HilbertGeo)
    );
    assert_eq!(quantize_type_for_datatype("string"), None);
    assert_eq!(quantize_type_for_datatype("number"), None);
}

#[test]
fn quantize_date_exact_values() {
    assert_eq!(quantize_date("1970-01-02"), Some((1u32 << 31) + 1));
    assert_eq!(quantize_date("1969-12-31"), Some((1u32 << 31) - 1));
    assert_eq!(quantize_date("2000-03-01"), Some((1u32 << 31) + 11017));
    assert_eq!(quantize_date("2024"), quantize_date("2024-01-01"));
    assert_eq!(dequantize_date(1u32 << 31), (1970, 1, 1));
}

#[test]
fn quantize_date_rejects_unparseable() {
    assert_eq!(quantize_date(""), None);
    assert_eq!(quantize_date("abcd"), None);
    assert_eq!(quantize_date("2020-13-01"), None);
    assert_eq!(quantize_date("2020-01-32"), None);
    assert_eq!(quantize_date("2020-xx-01"), quantize_date("2020-01-01"));
}

#[test]
fn page_record_bytes_are_little_endian_object_first() {
    let rec = PageRecord { subject_id: 0x0102_0304, object_val: 0x0A0B_0C0D };
    assert_eq!(rec.to_bytes(), [0x0D, 0x0C, 0x0B, 0x0A, 0x04, 0x03, 0x02, 0x01]);
}

#[test]
fn hilbert_u16_first_cells() {
    assert_eq!(xy_to_hilbert_u16(0, 0), 0);
    assert_eq!(hilbert_to_xy_u16(0), (0, 0));
    let a = xy_to_hilbert_u16(1, 0);
    let b = xy_to_hilbert_u16(0, 1);
    assert!(a <= 3 && b <= 3 && a != b);
}

#[test]
fn hilbert_ranges_cover_every_cell() {
    let ranges = hilbert_ranges_for_bbox(10, 20, 13, 22, 3);
    assert!(ranges.len() <= 3);
    for x in 10..=13u16 {
        for y in 20..=22u16 {
            let h = xy_to_hilbert_u16(x, y);
            assert!(ranges.iter().any(|&(lo, hi)| lo <= h && h <= hi));
        }
    }
    for w in ranges.windows(2) {
        assert!(w[0].1 < w[1].0);
    }
}

#[test]
fn dictionary_id_quantizes_by_interning() {
    let mut dict = Dictionary::new();
    let a = quantize_dictionary_id("https://x.org/a", &mut dict);
    let b = quantize_dictionary_id("https://x.org/b", &mut dict);
    assert_eq!(quantize_dictionary_id("https://x.org/a", &mut dict), a);
    assert_ne!(a, b);
    assert_eq!(dict.resolve(b), Some("https://x.org/b"));
}

#[test]
fn tile_values_quantize_by_type() {
    let mut dict = Dictionary::new();
    let arr = JsonValue::Array(vec![
        JsonValue::Str("r1".into()),
        JsonValue::Str("https://other.org/x".into()),
        JsonValue::Str("r1".into()),
    ]);
    let ids = quantize_tile_value(&arr, QuantizeType::DictionaryId, "resource-instance", &mut dict, "https://e.org/", None, None);
    assert_eq!(ids, vec![0, 1, 0]);
    assert_eq!(dict.resolve(0), Some("https://e.org/resource/r1"));
    assert_eq!(dict.resolve(1), Some("https://other.org/x"));

    let ci = ConceptIntervalIndex::from_intervals(vec![ConceptInterval { dict_id: 2, dfs_enter: 40, dfs_leave: 41 }]);
    let c = JsonValue::Str("c9".into());
    let codes = quantize_tile_value(&c, QuantizeType::ConceptDfs, "concept", &mut dict, "https://e.org/", Some(&ci), None);
    assert_eq!(codes, vec![40]);
    assert_eq!(dict.resolve(2), Some("https://e.org/concept/c9"));
    let c2 = JsonValue::Str("c10".into());
    assert_eq!(quantize_tile_value(&c2, QuantizeType::ConceptDfs, "concept", &mut dict, "https://e.org/", Some(&ci), None), vec![3]);

    assert_eq!(quantize_tile_value(&JsonValue::Bool(true), QuantizeType::Boolean, "boolean", &mut dict, "", None, None), vec![1]);
    assert_eq!(quantize_tile_value(&JsonValue::Str("1970-01-01".into()), QuantizeType::DaysSinceEpoch, "date", &mut dict, "", None, None), vec![1u32 << 31]);
    assert_eq!(quantize_tile_value(&JsonValue::Null, QuantizeType::HilbertGeo, "geojson-feature-collection", &mut dict, "", None, Some(77)), vec![77]);
    assert!(quantize_tile_value(&JsonValue::Null, QuantizeType::HilbertGeo, "geojson-feature-collection", &mut dict, "", None, None).is_empty());
    assert_eq!(dict.len(), 4);
}

#[test]
fn hilbert_index_roundtrip_u16() {
    for &d in &[0u32, 1, 2, 3, 4, 12345, 0x8000_0000, 0xdead_beef, u32::MAX] {
        let (x, y) = hilbert_to_xy_u16(d);
        assert_eq!(xy_to_hilbert_u16(x, y), d, "index roundtrip failed for {d}");
    }
}

#[test]
fn hilbert_ranges_cover_a_large_box() {
    let ranges = hilbert_ranges_for_bbox(0, 0, 127, 63, 8);
    for &(x, y) in &[(64u16, 63u16), (64, 32), (0, 0), (127, 63), (100, 7)] {
        let h = xy_to_hilbert_u16(x, y);
        assert!(ranges.iter().any(|&(a, b)| a <= h && h <= b), "cell ({x}, {y}) uncovered");
    }
}
