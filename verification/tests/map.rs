use llvmpass::annotations::{AnnotationMap, AnnotationRecord};

fn record(filename: &[u8], line: i32, strings: &[&[u8]]) -> AnnotationRecord {
    AnnotationRecord {
        filename: filename.to_vec(),
        line,
        strings: strings.iter().map(|s| s.to_vec()).collect(),
    }
}

#[test]
fn map_insert_and_get() {
    let mut map = AnnotationMap::new();
    assert_eq!(map.len(), 0);
    map.insert(b"f".to_vec(), record(b"a.c", 7, &[b"hot"]));
    assert_eq!(map.len(), 1);
    let rec = map.get(b"f").unwrap();
    assert_eq!(rec.line, 7);
    assert!(map.get(b"g").is_none());
}

#[test]
fn map_insert_same_name_overwrites() {
    let mut map = AnnotationMap::new();
    map.insert(b"f".to_vec(), record(b"a.c", 7, &[b"hot"]));
    map.insert(b"g".to_vec(), record(b"a.c", 9, &[]));
    map.insert(b"f".to_vec(), record(b"b.c", 8, &[b"cold"]));
    assert_eq!(map.len(), 2);
    let rec = map.get(b"f").unwrap();
    assert_eq!(rec.filename, b"b.c".to_vec());
    assert_eq!(rec.line, 8);
    assert_eq!(rec.strings, vec![b"cold".to_vec()]);
    assert_eq!(map.get(b"g").unwrap().line, 9);
}
