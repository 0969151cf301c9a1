use llvmpass::cursor::{expect, expect_str, parse_i32, read_int};

#[test]
fn expect_matches_byte() {
    let src = b"abc";
    assert_eq!(expect(src, 0, b'a'), Some(1));
    assert_eq!(expect(src, 1, b'b'), Some(2));
    assert_eq!(expect(src, 1, b'a'), None);
}

#[test]
fn expect_past_end_is_no_parse() {
    let src = b"a";
    assert_eq!(expect(src, 1, b'a'), None);
    assert_eq!(expect(src, 7, b'a'), None);
}

#[test]
fn expect_str_advances_past_literal() {
    let src = b"[2 x ";
    assert_eq!(expect_str(src, 0, b"[2"), Some(2));
    assert_eq!(expect_str(src, 2, b" x "), Some(5));
    assert_eq!(expect_str(src, 0, b"[3"), None);
    assert_eq!(expect_str(src, 3, b"x  "), None);
}

#[test]
fn read_int_greedy() {
    assert_eq!(read_int(b"204]", 0), Some((3, 204)));
    assert_eq!(read_int(b"7 x", 0), Some((1, 7)));
    assert_eq!(read_int(b"a7", 0), None);
    assert_eq!(read_int(b"90", 0), Some((2, 90)));
    assert_eq!(read_int(b"0", 0), Some((1, 0)));
    assert_eq!(read_int(b"", 0), None);
}

#[test]
fn read_int_value_too_large() {
    assert_eq!(read_int(b"2147483647", 0), Some((10, i32::MAX)));
    assert_eq!(read_int(b"2147483648", 0), None);
    assert_eq!(read_int(b"99999999999", 0), None);
}

#[test]
fn parse_i32_whole_numeral() {
    assert_eq!(parse_i32(b"42"), Some(42));
    assert_eq!(parse_i32(b"0"), Some(0));
    assert_eq!(parse_i32(b""), None);
    assert_eq!(parse_i32(b"4x"), None);
    assert_eq!(parse_i32(b"2147483647"), Some(i32::MAX));
    assert_eq!(parse_i32(b"2147483648"), None);
}
