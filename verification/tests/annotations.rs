use llvmpass::annotations::{parse_global_fn_annotations, ParseError};
use llvmpass::resolver::{GlobalTable, ResolveError};

fn table_for_scenario() -> GlobalTable {
    let mut table = GlobalTable::new();
    table.define(b"s1".to_vec(), b"hot".to_vec());
    table.define(b"fname".to_vec(), b"a.c".to_vec());
    table
}

const SCENARIO: &[u8] = b"[1 x { ptr }] [{ ptr } { ptr @f, ptr @s1, ptr @fname, i32 7, ptr null }]\"";

#[test]
fn concrete_scenario_one_entity() {
    let table = table_for_scenario();
    let map = parse_global_fn_annotations(SCENARIO, &table).unwrap();
    assert_eq!(map.len(), 1);
    let rec = map.get(b"f").unwrap();
    assert_eq!(rec.filename, b"a.c".to_vec());
    assert_eq!(rec.line, 7);
    assert_eq!(rec.strings, vec![b"hot".to_vec()]);
    assert!(map.get(b"g").is_none());
}

#[test]
fn empty_element_list() {
    let table = GlobalTable::new();
    let map = parse_global_fn_annotations(b"[0 x { ptr }] []\"", &table).unwrap();
    assert_eq!(map.len(), 0);
}

#[test]
fn truncated_dump_is_malformed_not_partial() {
    let table = table_for_scenario();
    for cut in 0..SCENARIO.len() {
        let truncated = &SCENARIO[..cut];
        assert_eq!(
            parse_global_fn_annotations(truncated, &table),
            Err(ParseError::MalformedDump),
            "cut at {cut}"
        );
    }
}

#[test]
fn missing_filename_global_aborts_whole_parse() {
    let mut table = GlobalTable::new();
    table.define(b"s1".to_vec(), b"hot".to_vec());
    assert_eq!(
        parse_global_fn_annotations(SCENARIO, &table),
        Err(ParseError::ResolverNotFound)
    );
}

#[test]
fn shape_fault_surfaces_as_resolver_shape_error() {
    let mut faulty = GlobalTable::new();
    faulty.define(b"s1".to_vec(), b"hot".to_vec());
    faulty.define_fault(b"fname".to_vec(), ResolveError::ShapeError);
    assert_eq!(
        parse_global_fn_annotations(SCENARIO, &faulty),
        Err(ParseError::ResolverShapeError)
    );
}

#[test]
fn decode_fault_surfaces_as_decode_error() {
    let mut faulty = GlobalTable::new();
    faulty.define_fault(b"s1".to_vec(), ResolveError::DecodeError);
    faulty.define(b"fname".to_vec(), b"a.c".to_vec());
    assert_eq!(
        parse_global_fn_annotations(SCENARIO, &faulty),
        Err(ParseError::DecodeError)
    );
}

#[test]
fn three_strings_in_declaration_order() {
    let mut table = GlobalTable::new();
    table.define(b"a1".to_vec(), b"one".to_vec());
    table.define(b"a2".to_vec(), b"two".to_vec());
    table.define(b"a3".to_vec(), b"three".to_vec());
    table.define(b"src".to_vec(), b"m.cc".to_vec());
    let dump = b"[1 x { ptr }] [{ ptr } { ptr @g, ptr @a1, ptr @a2, ptr @a3, ptr @src, i32 42, ptr null }]\"";
    let map = parse_global_fn_annotations(dump, &table).unwrap();
    let rec = map.get(b"g").unwrap();
    // Field count: seven fields, three of them annotation strings.
    assert_eq!(rec.strings.len(), 3);
    // Declaration order, as a list, not merely as a set.
    assert_eq!(
        rec.strings,
        vec![b"one".to_vec(), b"two".to_vec(), b"three".to_vec()]
    );
    assert_eq!(rec.filename, b"m.cc".to_vec());
    assert_eq!(rec.line, 42);
}

#[test]
fn location_only_element_yields_no_entry() {
    let table = table_for_scenario();
    let dump = b"[2 x { ptr }] [{ ptr } { ptr @f, ptr @s1, ptr @fname, i32 7, ptr null }, { ptr } { ptr @h, ptr @fname, i32 9, ptr null }]\"";
    let map = parse_global_fn_annotations(dump, &table).unwrap();
    assert_eq!(map.len(), 1);
    assert!(map.get(b"f").is_some());
    assert!(map.get(b"h").is_none());
}

#[test]
fn location_only_element_in_the_middle_is_skipped() {
    let table = table_for_scenario();
    let dump = b"[2 x { ptr }] [{ ptr } { ptr @h, ptr @fname, i32 9, ptr null }, { ptr } { ptr @f, ptr @s1, ptr @fname, i32 7, ptr null }]\"";
    let map = parse_global_fn_annotations(dump, &table).unwrap();
    assert_eq!(map.len(), 1);
    let rec = map.get(b"f").unwrap();
    assert_eq!(rec.strings, vec![b"hot".to_vec()]);
}

#[test]
fn duplicate_entity_last_write_wins() {
    let mut table = table_for_scenario();
    table.define(b"s2".to_vec(), b"cold".to_vec());
    let dump = b"[2 x { ptr }] [{ ptr } { ptr @f, ptr @s1, ptr @fname, i32 7, ptr null }, { ptr } { ptr @f, ptr @s2, ptr @fname, i32 8, ptr null }]\"";
    let map = parse_global_fn_annotations(dump, &table).unwrap();
    assert_eq!(map.len(), 1);
    let rec = map.get(b"f").unwrap();
    assert_eq!(rec.strings, vec![b"cold".to_vec()]);
    assert_eq!(rec.line, 8);
}

#[test]
fn element_with_too_few_fields_is_malformed() {
    let table = table_for_scenario();
    let dump = b"[1 x { ptr }] [{ ptr } { ptr @f, ptr @fname, i32 7, ptr null }]\"";
    // Three fields only: below the fixed-shape minimum of four.
    let dump_short = b"[1 x { ptr }] [{ ptr } { ptr @f, i32 7, ptr null }]\"";
    assert!(parse_global_fn_annotations(dump, &table).is_ok());
    assert_eq!(
        parse_global_fn_annotations(dump_short, &table),
        Err(ParseError::MalformedDump)
    );
}

#[test]
fn bad_line_number_is_malformed() {
    let table = table_for_scenario();
    let dump = b"[1 x { ptr }] [{ ptr } { ptr @f, ptr @s1, ptr @fname, i32 x7, ptr null }]\"";
    assert_eq!(
        parse_global_fn_annotations(dump, &table),
        Err(ParseError::MalformedDump)
    );
}

#[test]
fn trailing_text_after_close_marker_is_accepted() {
    let table = table_for_scenario();
    let mut dump = SCENARIO.to_vec();
    dump.extend_from_slice(b" trailing");
    assert!(parse_global_fn_annotations(&dump, &table).is_ok());
}
