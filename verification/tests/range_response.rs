use ros_madair::range_response::{normalize_range_response, RangeError};

#[test]
fn range_exact_partial_content() {
    assert_eq!(normalize_range_response(206, vec![1, 2, 3], 10, 13).unwrap(), vec![1, 2, 3]);
}

#[test]
fn range_full_file_is_sliced() {
    let file: Vec<u8> = (0..20).collect();
    assert_eq!(normalize_range_response(200, file, 5, 8).unwrap(), vec![5, 6, 7]);
}

#[test]
fn range_full_file_too_small() {
    let file: Vec<u8> = (0..6).collect();
    assert_eq!(
        normalize_range_response(200, file, 5, 8),
        Err(RangeError::FileTooSmall { len: 6, start: 5, end: 8 })
    );
}

#[test]
fn range_longer_reply_is_truncated() {
    assert_eq!(normalize_range_response(206, vec![9, 8, 7, 6, 5], 100, 103).unwrap(), vec![9, 8, 7]);
}

#[test]
fn range_short_reply_is_an_error() {
    assert_eq!(
        normalize_range_response(206, vec![1], 0, 4),
        Err(RangeError::Short { expected: 4, got: 1, status: 206 })
    );
}
