use json2bytes::separator::{parse_separator, SeparatorError};

#[test]
fn hex_separator_with_a_marker_per_byte() {
    assert_eq!(parse_separator("\\x00\\x1e"), Ok(vec![0x00, 0x1e]));
    assert_eq!(parse_separator("\\x00\\X1E"), Ok(vec![0x00, 0x1e]));
}

#[test]
fn hex_separator_with_one_prefix() {
    assert_eq!(parse_separator("\\x001e"), Ok(vec![0x00, 0x1e]));
    assert_eq!(parse_separator("\\x1e"), Ok(vec![0x1e]));
    assert_eq!(parse_separator("\\x00"), Ok(vec![0x00]));
}

#[test]
fn odd_length_hex_is_refused() {
    assert_eq!(parse_separator("\\x0"), Err(SeparatorError::OddLength));
    assert_eq!(parse_separator("\\x1e0"), Err(SeparatorError::OddLength));
    assert_eq!(parse_separator("\\x00\\x1"), Err(SeparatorError::OddLength));
}

#[test]
fn upper_case_prefix_and_digits() {
    assert_eq!(parse_separator("\\XFFa0"), Ok(vec![0xff, 0xa0]));
}

#[test]
fn invalid_hex_pair_reports_its_offset() {
    assert_eq!(parse_separator("\\xzz"), Err(SeparatorError::InvalidHexByte { offset: 2 }));
    assert_eq!(parse_separator("\\x0a1g"), Err(SeparatorError::InvalidHexByte { offset: 4 }));
    assert_eq!(parse_separator("\\x0\\x1"), Err(SeparatorError::InvalidHexByte { offset: 2 }));
    assert_eq!(parse_separator("\\x+f"), Err(SeparatorError::InvalidHexByte { offset: 2 }));
}

#[test]
fn empty_hex_part_gives_no_bytes() {
    assert_eq!(parse_separator("\\x"), Ok(vec![]));
}

#[test]
fn plain_separator_is_its_own_bytes() {
    assert_eq!(parse_separator("\n"), Ok(vec![b'\n']));
    assert_eq!(parse_separator(", "), Ok(vec![b',', b' ']));
    assert_eq!(parse_separator("é"), Ok(vec![0xc3, 0xa9]));
    assert_eq!(parse_separator(""), Ok(vec![]));
    assert_eq!(parse_separator("x1e"), Ok(b"x1e".to_vec()));
}
