//! Recovery of structured annotation metadata from the textual rendering of a
//! compiler's global-annotations constant.
//!
//! The library has two layers: a small recursive-descent reader for the
//! aggregate-literal syntax the compiler's pretty-printer emits (`cursor`,
//! `struct_lit`), and an extractor that walks the fixed-shape array of
//! annotation structs, resolving string-constant references through an
//! injected table of global string constants (`resolver`, `annotations`).
//! The `laws` module states and proves the library's global guarantees: the
//! shape of the recovered map, per-record field counts and string order, the
//! uniqueness of entity names, and the all-or-nothing failure policy.

pub mod annotations;
pub mod cursor;
pub mod laws;
pub mod resolver;
pub mod struct_lit;
