use ros_madair::uri::normalize_base_uri;

#[test]
fn base_uri_gets_one_trailing_slash() {
    assert_eq!(normalize_base_uri("https://example.org/"), "https://example.org/");
    assert_eq!(normalize_base_uri("https://example.org"), "https://example.org/");
    assert_eq!(normalize_base_uri(""), "/");
}
