use ros_madair::datatype_class::{classify_datatype, DatatypeClass};

#[test]
fn classify_all_known_types() {
    let cases = [
        ("string", DatatypeClass::LocalizedString),
        ("non-localized-string", DatatypeClass::PlainString),
        ("number", DatatypeClass::Number),
        ("date", DatatypeClass::Date),
        ("edtf", DatatypeClass::Date),
        ("boolean", DatatypeClass::Boolean),
        ("url", DatatypeClass::Url),
        ("concept", DatatypeClass::Concept),
        ("concept-value", DatatypeClass::Concept),
        ("concept-list", DatatypeClass::Concept),
        ("resource-instance", DatatypeClass::ResourceInstance),
        ("resource-instance-list", DatatypeClass::ResourceInstance),
        ("domain-value", DatatypeClass::DomainValue),
        ("domain-value-list", DatatypeClass::DomainValue),
        ("geojson-feature-collection", DatatypeClass::GeoJson),
        ("semantic", DatatypeClass::Semantic),
    ];
    for (input, expected) in cases {
        assert_eq!(classify_datatype(input), Some(expected), "failed for {input}");
    }
}

#[test]
fn classify_unknown_returns_none() {
    assert_eq!(classify_datatype("file-list"), None);
    assert_eq!(classify_datatype(""), None);
}

#[test]
fn object_property_flags() {
    assert!(DatatypeClass::Concept.is_object_property());
    assert!(DatatypeClass::ResourceInstance.is_object_property());
    assert!(!DatatypeClass::Number.is_object_property());
    assert!(!DatatypeClass::DomainValue.is_object_property());
    assert!(!DatatypeClass::GeoJson.is_object_property());
}

#[test]
fn classify_is_case_sensitive_and_exact() {
    assert_eq!(classify_datatype("String"), None);
    assert_eq!(classify_datatype("concept "), None);
    assert_eq!(classify_datatype("resource-instance-lists"), None);
}
