use ros_madair::value_extract::{
    extract_label_text, extract_localized_strings, extract_reference_ids, extract_url, JsonValue,
};

fn s(x: &str) -> JsonValue {
    JsonValue::Str(x.to_string())
}

fn obj(members: Vec<(&str, JsonValue)>) -> JsonValue {
    JsonValue::Object(members.into_iter().map(|(k, v)| (k.to_string(), v)).collect())
}

#[test]
fn ref_ids_plain_string() {
    assert_eq!(extract_reference_ids(&s("abc-123")), vec!["abc-123"]);
}

#[test]
fn ref_ids_empty_string() {
    assert!(extract_reference_ids(&s("")).is_empty());
}

#[test]
fn ref_ids_array_of_strings() {
    assert_eq!(extract_reference_ids(&JsonValue::Array(vec![s("a"), s("b")])), vec!["a", "b"]);
}

#[test]
fn ref_ids_array_of_objects() {
    let val = JsonValue::Array(vec![
        obj(vec![("resourceId", s("r1"))]),
        obj(vec![("id", s("r2"))]),
        obj(vec![("value", s("r3"))]),
    ]);
    assert_eq!(extract_reference_ids(&val), vec!["r1", "r2", "r3"]);
}

#[test]
fn ref_ids_single_object() {
    assert_eq!(extract_reference_ids(&obj(vec![("resourceId", s("x"))])), vec!["x"]);
}

#[test]
fn ref_ids_null() {
    assert!(extract_reference_ids(&JsonValue::Null).is_empty());
}

#[test]
fn ref_ids_mixed_array() {
    let val = JsonValue::Array(vec![s("plain-id"), obj(vec![("id", s("obj-id"))])]);
    assert_eq!(extract_reference_ids(&val), vec!["plain-id", "obj-id"]);
}

#[test]
fn url_plain_string() {
    assert_eq!(extract_url(&s("https://x.org")), Some("https://x.org".into()));
}

#[test]
fn url_object() {
    assert_eq!(
        extract_url(&obj(vec![("url", s("https://y.org")), ("label", s("Y"))])),
        Some("https://y.org".into()),
    );
}

#[test]
fn url_null() {
    assert_eq!(extract_url(&JsonValue::Null), None);
}

#[test]
fn localized_plain_string() {
    assert_eq!(extract_localized_strings(&s("hello")), vec![(None, "hello".into())]);
}

#[test]
fn localized_language_map() {
    let val = obj(vec![("en", s("hello")), ("ga", s("dia duit"))]);
    let mut result = extract_localized_strings(&val);
    result.sort_by_key(|(lang, _)| lang.clone());
    assert_eq!(
        result,
        vec![(Some("en".into()), "hello".into()), (Some("ga".into()), "dia duit".into())]
    );
}

#[test]
fn localized_direction_objects() {
    let val = obj(vec![("en", obj(vec![("value", s("hello")), ("direction", s("ltr"))]))]);
    assert_eq!(extract_localized_strings(&val), vec![(Some("en".into()), "hello".into())]);
}

#[test]
fn localized_skips_null_and_empty() {
    let val = obj(vec![("en", JsonValue::Null), ("ga", s(""))]);
    assert!(extract_localized_strings(&val).is_empty());
}

#[test]
fn ref_ids_object_key_precedence() {
    // `resourceId` wins even when it is not a string: no fallback to `id`.
    let v = obj(vec![("id", s("b")), ("resourceId", JsonValue::Bool(true))]);
    assert!(extract_reference_ids(&v).is_empty());
    let v = obj(vec![("value", s("c")), ("id", s("b"))]);
    assert_eq!(extract_reference_ids(&v), vec!["b"]);
    let arr = JsonValue::Array(vec![JsonValue::Null, s(""), obj(vec![("other", s("z"))])]);
    assert_eq!(extract_reference_ids(&arr), vec![""]);
}

#[test]
fn url_and_localized_other_shapes() {
    assert_eq!(extract_url(&obj(vec![("url", JsonValue::Bool(false))])), None);
    assert_eq!(extract_url(&JsonValue::Array(vec![s("x")])), None);
    let num = JsonValue::Number { text: "3".into(), integral: true };
    assert!(extract_localized_strings(&num).is_empty());
    let val = obj(vec![("de", obj(vec![("direction", s("ltr"))])), ("fr", s("bonjour"))]);
    assert_eq!(extract_localized_strings(&val), vec![(Some("fr".into()), "bonjour".into())]);
}

#[test]
fn label_text_from_json_or_plain() {
    assert_eq!(extract_label_text(r#"{"id": "x1", "value": "Castle"}"#), "Castle");
    assert_eq!(extract_label_text("Castle"), "Castle");
    assert_eq!(extract_label_text(r#"{"id": "x1"}"#), r#"{"id": "x1"}"#);
    assert_eq!(extract_label_text(r#"{"value": 3}"#), r#"{"value": 3}"#);
    assert_eq!(extract_label_text("{broken"), "{broken");
    assert_eq!(extract_label_text(r#" {"value": "x"}"#), r#" {"value": "x"}"#);
    assert_eq!(extract_label_text(""), "");
}
