use llvmpass::resolver::{bytes_eq, GlobalTable, ResolveError};

#[test]
fn resolve_returns_defined_text() {
    let mut table = GlobalTable::new();
    table.define(b"fname".to_vec(), b"a.c".to_vec());
    assert_eq!(table.resolve(b"fname"), Ok(b"a.c".to_vec()));
}

#[test]
fn resolve_unknown_name_is_not_found() {
    let mut table = GlobalTable::new();
    table.define(b"fname".to_vec(), b"a.c".to_vec());
    assert_eq!(table.resolve(b"other"), Err(ResolveError::NotFound));
    assert_eq!(GlobalTable::new().resolve(b"fname"), Err(ResolveError::NotFound));
}

#[test]
fn resolve_first_entry_wins() {
    let mut table = GlobalTable::new();
    table.define(b"g".to_vec(), b"first".to_vec());
    table.define(b"g".to_vec(), b"second".to_vec());
    assert_eq!(table.resolve(b"g"), Ok(b"first".to_vec()));
}

#[test]
fn resolve_recorded_fault_is_returned() {
    let mut table = GlobalTable::new();
    table.define_fault(b"g".to_vec(), ResolveError::ShapeError);
    assert_eq!(table.resolve(b"g"), Err(ResolveError::ShapeError));
}

#[test]
fn bytes_eq_compares_contents() {
    assert!(bytes_eq(b"abc", b"abc"));
    assert!(!bytes_eq(b"abc", b"abd"));
    assert!(!bytes_eq(b"abc", b"ab"));
    assert!(bytes_eq(b"", b""));
}
