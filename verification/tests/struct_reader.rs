use llvmpass::struct_lit::{ignore_type, read_and_ignore_struct, read_struct, split_fields};

#[test]
fn read_struct_splits_fields() {
    let src = b"{ ptr @f, i32 12 } rest";
    let (end, fields) = read_struct(src, 0).unwrap();
    assert_eq!(end, 18);
    assert_eq!(fields, vec![b"ptr @f".to_vec(), b"i32 12".to_vec()]);
}

#[test]
fn read_struct_single_field() {
    let (end, fields) = read_struct(b"{ ptr }", 0).unwrap();
    assert_eq!(end, 7);
    assert_eq!(fields, vec![b"ptr".to_vec()]);
}

#[test]
fn read_struct_requires_open_marker() {
    assert_eq!(read_struct(b"ptr }", 0), None);
    assert_eq!(read_struct(b"{ptr}", 0), None);
}

#[test]
fn read_struct_unclosed_is_no_parse() {
    assert_eq!(read_struct(b"{ ptr @f, i32 12", 0), None);
}

#[test]
fn read_and_ignore_struct_advances() {
    assert_eq!(read_and_ignore_struct(b"{ i8 0, i8 1 }]", 0), Some(14));
    assert_eq!(read_and_ignore_struct(b"{ i8 0", 0), None);
}

#[test]
fn split_fields_on_separator() {
    assert_eq!(
        split_fields(b"a, b, c"),
        vec![b"a".to_vec(), b"b".to_vec(), b"c".to_vec()]
    );
    assert_eq!(split_fields(b""), vec![b"".to_vec()]);
    assert_eq!(split_fields(b"a,b"), vec![b"a,b".to_vec()]);
}

#[test]
fn ignore_type_takes_second_token() {
    assert_eq!(ignore_type(b"ptr @f"), Some(b"@f".to_vec()));
    assert_eq!(ignore_type(b"i32 12"), Some(b"12".to_vec()));
    assert_eq!(ignore_type(b"i32 12 junk"), Some(b"12".to_vec()));
    assert_eq!(ignore_type(b"ptr"), None);
    assert_eq!(ignore_type(b""), None);
}
