//! The annotation extractor: walks the textual rendering of the compiler's
//! global-annotations array constant, splits each element into its typed-value
//! fields, classifies the trailing fields as source location and the leading
//! fields as entity name and annotation-string pointers, and resolves every
//! string pointer through the injected global-string table.
//!
//! The dump has the fixed shape `[N x <elem-type>] [ <elem1>, ..., <elemN> ]"`,
//! ending in the closing `]"` marker whose escaping quote belongs to the dump
//! format, not the data. Any structural mismatch is
//! fatal to the whole parse: the input is machine-generated by the same
//! toolchain, so a mismatch means version skew, and no partial map is ever
//! returned.

use vstd::prelude::*;

use crate::cursor::{
    expect, parse_i32, read_int, spec_expect, spec_parse_i32, spec_read_int,
};
use crate::resolver::{spec_resolve, GlobalTable, ResolveError};
use crate::struct_lit::{
    ignore_type, read_and_ignore_struct, read_struct, spec_ignore_type,
    spec_read_and_ignore_struct, spec_read_struct, views_of, COMMA, SPACE,
};

verus! {

/// Byte value of ASCII `'"'`.
pub const QUOTE: u8 = 34;

/// Byte value of ASCII `'['`.
pub const OPEN_BRACKET: u8 = 91;

/// Byte value of ASCII `']'`.
pub const CLOSE_BRACKET: u8 = 93;

/// Byte value of ASCII `'x'`.
pub const LOWER_X: u8 = 120;

/// How recovering the annotation map can fail.
#[derive(Clone, Copy, PartialEq, Eq, Debug)]
pub enum ParseError {
    /// A structural mismatch against the expected dump grammar: wrong literal,
    /// unexpected byte, premature end of input, or a missing count or field.
    MalformedDump,
    /// A referenced global constant does not exist.
    ResolverNotFound,
    /// A referenced global constant is not shaped as expected.
    ResolverShapeError,
    /// A referenced global constant's bytes do not decode as text.
    DecodeError,
}

/// The parse failure a resolver failure surfaces as.
pub open spec fn spec_resolver_error(e: ResolveError) -> ParseError {
    match e {
        ResolveError::NotFound => ParseError::ResolverNotFound,
        ResolveError::ShapeError => ParseError::ResolverShapeError,
        ResolveError::DecodeError => ParseError::DecodeError,
    }
}

/// Maps a resolver failure to the parse failure it surfaces as.
pub fn resolver_error(e: ResolveError) -> (r: ParseError)
    ensures
        r == spec_resolver_error(e),
{
    match e {
        ResolveError::NotFound => ParseError::ResolverNotFound,
        ResolveError::ShapeError => ParseError::ResolverShapeError,
        ResolveError::DecodeError => ParseError::DecodeError,
    }
}

/// The annotations recovered for one entity: exactly one source location and
/// the entity's annotation payload strings in source declaration order.
#[derive(Debug, Clone, PartialEq, Eq)]
pub struct AnnotationRecord {
    /// Resolved text of the source filename constant.
    pub filename: Vec<u8>,
    /// Source line number.
    pub line: i32,
    /// Resolved annotation payload strings, in declaration order.
    pub strings: Vec<Vec<u8>>,
}

/// Mathematical content of an `AnnotationRecord`.
pub ghost struct RecordView {
    pub filename: Seq<u8>,
    pub line: i32,
    pub strings: Seq<Seq<u8>>,
}

impl View for AnnotationRecord {
    type V = RecordView;

    open spec fn view(&self) -> RecordView {
        RecordView {
            filename: self.filename@,
            line: self.line,
            strings: views_of(self.strings@),
        }
    }
}

/// View of the table the resolver works over.
pub type TableView = Seq<(Seq<u8>, Result<Seq<u8>, ResolveError>)>;

/// View of the annotation map: entity-keyed records in insertion order.
pub type MapView = Seq<(Seq<u8>, RecordView)>;

/// Looking a name up among the map's entries.
pub open spec fn spec_get(m: MapView, name: Seq<u8>) -> Option<RecordView>
    decreases m.len(),
{
    if m.len() == 0 {
        None
    } else if m[0].0 == name {
        Some(m[0].1)
    } else {
        spec_get(m.drop_first(), name)
    }
}

/// Inserting a record: an existing entry of the same name is replaced in
/// place (last write wins), otherwise the record is appended.
pub open spec fn spec_insert(m: MapView, name: Seq<u8>, rec: RecordView) -> MapView
    decreases m.len(),
{
    if m.len() == 0 {
        seq![(name, rec)]
    } else if m[0].0 == name {
        seq![(name, rec)] + m.drop_first()
    } else {
        seq![m[0]] + spec_insert(m.drop_first(), name, rec)
    }
}

/// The map holds an entry of this name.
pub open spec fn has_key(m: MapView, name: Seq<u8>) -> bool {
    exists|i: int| 0 <= i < m.len() && m[i].0 == name
}

/// Entity names are unique among the map's entries.
pub open spec fn map_wf(m: MapView) -> bool {
    forall|i: int, j: int| 0 <= i < j < m.len() ==> m[i].0 != m[j].0
}

/// Inserting a fresh name appends its entry.
pub proof fn lemma_spec_insert_fresh(m: MapView, name: Seq<u8>, rec: RecordView)
    requires
        !has_key(m, name),
    ensures
        spec_insert(m, name, rec) == m.push((name, rec)),
    decreases m.len(),
{
    if m.len() == 0 {
        assert(spec_insert(m, name, rec) =~= m.push((name, rec)));
    } else {
        assert(m[0].0 != name);
        assert(!has_key(m.drop_first(), name)) by {
            if has_key(m.drop_first(), name) {
                let i = choose|i: int|
                    0 <= i < m.drop_first().len() && m.drop_first()[i].0 == name;
                assert(m[i + 1].0 == name);
            }
        }
        lemma_spec_insert_fresh(m.drop_first(), name, rec);
        assert(seq![m[0]] + m.drop_first().push((name, rec)) =~= m.push((name, rec)));
    }
}

/// Inserting an existing name replaces its entry in place.
pub proof fn lemma_spec_insert_found(m: MapView, name: Seq<u8>, rec: RecordView, i: int)
    requires
        0 <= i < m.len(),
        m[i].0 == name,
        forall|j: int| 0 <= j < i ==> m[j].0 != name,
    ensures
        spec_insert(m, name, rec) == m.update(i, (name, rec)),
    decreases i,
{
    if i == 0 {
        assert(spec_insert(m, name, rec) =~= m.update(0, (name, rec)));
    } else {
        assert(m.drop_first()[i - 1].0 == name);
        assert(forall|j: int| 0 <= j < i - 1 ==> m.drop_first()[j].0 != name);
        lemma_spec_insert_found(m.drop_first(), name, rec, i - 1);
        assert(seq![m[0]] + m.drop_first().update(i - 1, (name, rec)) =~= m.update(
            i,
            (name, rec),
        ));
    }
}

/// Insertion keeps entity names unique.
pub proof fn lemma_spec_insert_preserves_wf(m: MapView, name: Seq<u8>, rec: RecordView)
    requires
        map_wf(m),
    ensures
        map_wf(spec_insert(m, name, rec)),
{
    if has_key(m, name) {
        let i = choose|i: int| 0 <= i < m.len() && m[i].0 == name;
        assert(forall|j: int| 0 <= j < i ==> m[j].0 != name);
        lemma_spec_insert_found(m, name, rec, i);
        let r = m.update(i, (name, rec));
        assert forall|a: int, b: int| 0 <= a < b < r.len() implies r[a].0 != r[b].0 by {
            if a != i && b != i {
                assert(r[a] == m[a] && r[b] == m[b]);
            } else if a == i {
                assert(r[b] == m[b] && m[i].0 == name);
            } else {
                assert(r[a] == m[a] && m[i].0 == name);
            }
        }
    } else {
        lemma_spec_insert_fresh(m, name, rec);
        let r = m.push((name, rec));
        assert forall|a: int, b: int| 0 <= a < b < r.len() implies r[a].0 != r[b].0 by {
            if b < m.len() {
                assert(r[a] == m[a] && r[b] == m[b]);
            } else {
                assert(r[a] == m[a]);
            }
        }
    }
}

/// The annotation map recovered from one dump: entity name to record, built
/// fresh per parse and immutable once built.
#[derive(Debug, PartialEq, Eq)]
pub struct AnnotationMap {
    entries: Vec<(Vec<u8>, AnnotationRecord)>,
}

impl View for AnnotationMap {
    type V = MapView;

    closed spec fn view(&self) -> MapView {
        Seq::new(self.entries@.len(), |i: int| (self.entries@[i].0@, self.entries@[i].1@))
    }
}

impl AnnotationMap {
    /// An empty map.
    pub fn new() -> (r: AnnotationMap)
        ensures
            r@ == Seq::<(Seq<u8>, RecordView)>::empty(),
    {
        let r = AnnotationMap { entries: Vec::new() };
        proof {
            assert(r@ =~= Seq::<(Seq<u8>, RecordView)>::empty());
        }
        r
    }

    /// Number of annotated entities recorded.
    pub fn len(&self) -> (r: usize)
        ensures
            r == self@.len(),
    {
        self.entries.len()
    }

    /// The record of the entity called `name`, if any.
    pub fn get(&self, name: &[u8]) -> (r: Option<&AnnotationRecord>)
        ensures
            match r {
                Some(rec) => spec_get(self@, name@) == Some(rec@),
                None => spec_get(self@, name@) is None,
            },
    {
        let mut k: usize = 0;
        proof {
            assert(self@.skip(0) =~= self@);
        }
        while k < self.entries.len()
            invariant
                k <= self.entries.len(),
                self@.len() == self.entries.len(),
                spec_get(self@, name@) == spec_get(self@.skip(k as int), name@),
            decreases self.entries.len() - k,
        {
            proof {
                assert(self@.skip(k as int)[0] == self@[k as int]);
                assert(self@.skip(k as int).drop_first() =~= self@.skip(k as int + 1));
            }
            if crate::resolver::bytes_eq(self.entries[k].0.as_slice(), name) {
                return Some(&self.entries[k].1);
            }
            k = k + 1;
        }
        proof {
            assert(self@.skip(k as int) =~= Seq::<(Seq<u8>, RecordView)>::empty());
        }
        None
    }

    /// Records `record` under `name`; a previous record of the same entity is
    /// overwritten (last write wins).
    pub fn insert(&mut self, name: Vec<u8>, record: AnnotationRecord)
        ensures
            final(self)@ == spec_insert(old(self)@, name@, record@),
    {
        let ghost m = old(self)@;
        let ghost n = name@;
        let ghost rv = record@;
        let mut k: usize = 0;
        while k < self.entries.len()
            invariant
                k <= self.entries.len(),
                m == old(self)@,
                self@ == m,
                self@.len() == self.entries.len(),
                n == name@,
                rv == record@,
                forall|j: int| 0 <= j < k ==> m[j].0 != n,
            decreases self.entries.len() - k,
        {
            if crate::resolver::bytes_eq(self.entries[k].0.as_slice(), name.as_slice()) {
                let ghost old_entries = self.entries@;
                let pair = (name, record);
                let ghost gpair = pair;
                self.entries.remove(k);
                self.entries.insert(k, pair);
                proof {
                    assert(self.entries@ =~= old_entries.update(k as int, gpair));
                    lemma_spec_insert_found(m, n, rv, k as int);
                    assert(self@ =~= m.update(k as int, (n, rv)));
                }
                return ;
            }
            k = k + 1;
        }
        self.entries.push((name, record));
        proof {
            assert(!has_key(m, n));
            lemma_spec_insert_fresh(m, n, rv);
            assert(self@ =~= m.push((n, rv)));
        }
    }
}

/// A reference value with its leading sigil byte stripped: the bare name.
pub open spec fn spec_strip_sigil(t: Seq<u8>) -> Seq<u8> {
    t.subrange(1, t.len() as int)
}

/// Strips the leading sigil byte of a reference value.
pub fn strip_sigil(t: &[u8]) -> (r: Vec<u8>)
    requires
        t@.len() >= 1,
    ensures
        r@ == spec_strip_sigil(t@),
{
    vstd::slice::slice_to_vec(vstd::slice::slice_subrange(t, 1, t.len()))
}

/// Resolves a run of annotation-string pointer fields, in order: each field's
/// type prefix is dropped, its sigil stripped, and the bare name resolved.
pub open spec fn spec_resolve_fields(fs: Seq<Seq<u8>>, table: TableView) -> Result<
    Seq<Seq<u8>>,
    ParseError,
>
    decreases fs.len(),
{
    if fs.len() == 0 {
        Ok(Seq::empty())
    } else {
        match spec_ignore_type(fs[0]) {
            None => Err(ParseError::MalformedDump),
            Some(tok) => match spec_resolve(table, spec_strip_sigil(tok)) {
                Err(e) => Err(spec_resolver_error(e)),
                Ok(s) => match spec_resolve_fields(fs.drop_first(), table) {
                    Err(e) => Err(e),
                    Ok(rest) => Ok(seq![s] + rest),
                },
            },
        }
    }
}

/// Resolves the pointer fields `fields[from .. to]` in order.
fn resolve_string_fields(fields: &Vec<Vec<u8>>, from: usize, to: usize, table: &GlobalTable) -> (r:
    Result<Vec<Vec<u8>>, ParseError>)
    requires
        from <= to <= fields@.len(),
    ensures
        match r {
            Ok(v) => spec_resolve_fields(
                views_of(fields@).subrange(from as int, to as int),
                table@,
            ) == Ok::<Seq<Seq<u8>>, ParseError>(views_of(v@)),
            Err(e) => spec_resolve_fields(
                views_of(fields@).subrange(from as int, to as int),
                table@,
            ) == Err::<Seq<Seq<u8>>, ParseError>(e),
        },
{
    let ghost fv = views_of(fields@);
    let mut out: Vec<Vec<u8>> = Vec::new();
    let mut k = from;
    proof {
        assert(views_of(out@) + fv.subrange(from as int, to as int) =~= fv.subrange(
            from as int,
            to as int,
        ));
    }
    while k < to
        invariant
            from <= k <= to <= fields@.len(),
            fv == views_of(fields@),
            match spec_resolve_fields(fv.subrange(k as int, to as int), table@) {
                Ok(rest) => spec_resolve_fields(fv.subrange(from as int, to as int), table@)
                    == Ok::<Seq<Seq<u8>>, ParseError>(views_of(out@) + rest),
                Err(e) => spec_resolve_fields(fv.subrange(from as int, to as int), table@)
                    == Err::<Seq<Seq<u8>>, ParseError>(e),
            },
        decreases to - k,
    {
        let ghost sub = fv.subrange(k as int, to as int);
        proof {
            assert(sub[0] == fv[k as int]);
            assert(sub.drop_first() =~= fv.subrange(k as int + 1, to as int));
        }
        let tok = match ignore_type(fields[k].as_slice()) {
            Some(t) => t,
            None => {
                return Err(ParseError::MalformedDump);
            },
        };
        let s = match table.resolve(vstd::slice::slice_subrange(tok.as_slice(), 1, tok.len())) {
            Ok(v) => v,
            Err(e) => {
                return Err(resolver_error(e));
            },
        };
        let ghost old_out = out@;
        let ghost sv = s@;
        out.push(s);
        proof {
            crate::struct_lit::lemma_views_of_push(old_out, out@.last());
            assert((views_of(old_out) + seq![sv]) + spec_resolve_fields(
                fv.subrange(k as int + 1, to as int),
                table@,
            )->Ok_0 =~= views_of(old_out) + (seq![sv] + spec_resolve_fields(
                fv.subrange(k as int + 1, to as int),
                table@,
            )->Ok_0));
        }
        k = k + 1;
    }
    proof {
        assert(fv.subrange(k as int, k as int) =~= Seq::<Seq<u8>>::empty());
        assert(views_of(out@) + Seq::<Seq<u8>>::empty() =~= views_of(out@));
    }
    Ok(out)
}

/// Interpreting one element's payload field list: field 0 names the entity,
/// the two fields before the trailing null carry the source location, and the
/// fields between are annotation-string pointers. A list of exactly four
/// fields (entity, filename, line, trailing null) carries a location but no
/// payload strings, and yields no record; fewer than four is malformed.
pub open spec fn spec_extract(fields: Seq<Seq<u8>>, table: TableView) -> Result<
    Option<(Seq<u8>, RecordView)>,
    ParseError,
> {
    if fields.len() < 4 {
        Err(ParseError::MalformedDump)
    } else if fields.len() == 4 {
        Ok(None)
    } else {
        let ae = fields.len() - 3;
        match spec_ignore_type(fields[ae as int]) {
            None => Err(ParseError::MalformedDump),
            Some(ft) => match spec_resolve(table, spec_strip_sigil(ft)) {
                Err(e) => Err(spec_resolver_error(e)),
                Ok(filename) => match spec_ignore_type(fields[ae as int + 1]) {
                    None => Err(ParseError::MalformedDump),
                    Some(lt) => match spec_parse_i32(lt) {
                        None => Err(ParseError::MalformedDump),
                        Some(line) => match spec_resolve_fields(
                            fields.subrange(1, ae as int),
                            table,
                        ) {
                            Err(e) => Err(e),
                            Ok(strs) => match spec_ignore_type(fields[0]) {
                                None => Err(ParseError::MalformedDump),
                                Some(et) => Ok(
                                    Some(
                                        (
                                            spec_strip_sigil(et),
                                            RecordView { filename, line, strings: strs },
                                        ),
                                    ),
                                ),
                            },
                        },
                    },
                },
            },
        }
    }
}

/// Splits one element's payload fields into entity name, annotation strings
/// and source location, resolving every pointer reference through `table`.
pub fn extract_record(fields: &Vec<Vec<u8>>, table: &GlobalTable) -> (r: Result<
    Option<(Vec<u8>, AnnotationRecord)>,
    ParseError,
>)
    ensures
        match r {
            Ok(Some((name, rec))) => spec_extract(views_of(fields@), table@) == Ok::<
                Option<(Seq<u8>, RecordView)>,
                ParseError,
            >(Some((name@, rec@))),
            Ok(None) => spec_extract(views_of(fields@), table@) == Ok::<
                Option<(Seq<u8>, RecordView)>,
                ParseError,
            >(None),
            Err(e) => spec_extract(views_of(fields@), table@) == Err::<
                Option<(Seq<u8>, RecordView)>,
                ParseError,
            >(e),
        },
{
    let ghost fv = views_of(fields@);
    if fields.len() < 4 {
        return Err(ParseError::MalformedDump);
    }
    if fields.len() == 4 {
        return Ok(None);
    }
    let annotations_end = fields.len() - 3;
    let ft = match ignore_type(fields[annotations_end].as_slice()) {
        Some(t) => t,
        None => {
            return Err(ParseError::MalformedDump);
        },
    };
    let filename = match table.resolve(
        vstd::slice::slice_subrange(ft.as_slice(), 1, ft.len()),
    ) {
        Ok(v) => v,
        Err(e) => {
            return Err(resolver_error(e));
        },
    };
    let lt = match ignore_type(fields[annotations_end + 1].as_slice()) {
        Some(t) => t,
        None => {
            return Err(ParseError::MalformedDump);
        },
    };
    let line = match parse_i32(lt.as_slice()) {
        Some(v) => v,
        None => {
            return Err(ParseError::MalformedDump);
        },
    };
    let strings = match resolve_string_fields(fields, 1, annotations_end, table) {
        Ok(v) => v,
        Err(e) => {
            return Err(e);
        },
    };
    let et = match ignore_type(fields[0].as_slice()) {
        Some(t) => t,
        None => {
            return Err(ParseError::MalformedDump);
        },
    };
    let name = strip_sigil(et.as_slice());
    let record = AnnotationRecord { filename, line, strings };
    Ok(Some((name, record)))
}

/// The fixed text before the element list: the opening bracket, the element
/// count, `" x "`, the discarded element-type struct, and `"] ["`. Yields
/// the offset of the first element and the count.
pub open spec fn spec_parse_prefix(s: Seq<u8>) -> Option<(int, i32)> {
    match spec_expect(s, 0, OPEN_BRACKET) {
        None => None,
        Some(b) => match spec_read_int(s, b) {
            None => None,
            Some((c, n)) => match spec_expect(s, c, SPACE) {
                None => None,
                Some(d) => match spec_expect(s, d, LOWER_X) {
                    None => None,
                    Some(e) => match spec_expect(s, e, SPACE) {
                        None => None,
                        Some(f) => match spec_read_and_ignore_struct(s, f) {
                            None => None,
                            Some(g) => match spec_expect(s, g, CLOSE_BRACKET) {
                                None => None,
                                Some(h) => match spec_expect(s, h, SPACE) {
                                    None => None,
                                    Some(i) => match spec_expect(s, i, OPEN_BRACKET) {
                                        None => None,
                                        Some(j) => Some((j, n)),
                                    },
                                },
                            },
                        },
                    },
                },
            },
        },
    }
}

/// The element list: for each of the `rem` remaining elements, a discarded
/// inner type wrapper, a space, and the payload struct whose extracted record
/// (if any) is inserted into the map; elements are separated by `", "`.
pub open spec fn spec_parse_elems(
    s: Seq<u8>,
    i: int,
    rem: nat,
    table: TableView,
    acc: MapView,
) -> Result<(int, MapView), ParseError>
    decreases rem,
{
    if rem == 0 {
        Ok((i, acc))
    } else {
        match spec_read_and_ignore_struct(s, i) {
            None => Err(ParseError::MalformedDump),
            Some(j1) => match spec_expect(s, j1, SPACE) {
                None => Err(ParseError::MalformedDump),
                Some(j2) => match spec_read_struct(s, j2) {
                    None => Err(ParseError::MalformedDump),
                    Some((j3, fields)) => match spec_extract(fields, table) {
                        Err(e) => Err(e),
                        Ok(opt) => {
                            let acc2 = match opt {
                                Some(pair) => spec_insert(acc, pair.0, pair.1),
                                None => acc,
                            };
                            if rem > 1 {
                                match spec_expect(s, j3, COMMA) {
                                    None => Err(ParseError::MalformedDump),
                                    Some(j4) => match spec_expect(s, j4, SPACE) {
                                        None => Err(ParseError::MalformedDump),
                                        Some(j5) => spec_parse_elems(
                                            s,
                                            j5,
                                            (rem - 1) as nat,
                                            table,
                                            acc2,
                                        ),
                                    },
                                }
                            } else {
                                spec_parse_elems(s, j3, (rem - 1) as nat, table, acc2)
                            }
                        },
                    },
                },
            },
        }
    }
}

/// Parsing the whole dump: the prefix, the element list, and the closing
/// `"]\""` marker. Any structural mismatch or resolver failure is fatal and
/// no partial map is returned.
pub open spec fn spec_parse(s: Seq<u8>, table: TableView) -> Result<MapView, ParseError> {
    match spec_parse_prefix(s) {
        None => Err(ParseError::MalformedDump),
        Some((i, n)) => match spec_parse_elems(s, i, n as nat, table, Seq::empty()) {
            Err(e) => Err(e),
            Ok((j, m)) => match spec_expect(s, j, CLOSE_BRACKET) {
                None => Err(ParseError::MalformedDump),
                Some(j1) => match spec_expect(s, j1, QUOTE) {
                    None => Err(ParseError::MalformedDump),
                    Some(_) => Ok(m),
                },
            },
        },
    }
}

/// Parses the textual rendering of the global-annotations array constant into
/// the annotation map, resolving every referenced string constant through
/// `table`.
pub fn parse_global_fn_annotations(src: &[u8], table: &GlobalTable) -> (r: Result<
    AnnotationMap,
    ParseError,
>)
    ensures
        match r {
            Ok(m) => spec_parse(src@, table@) == Ok::<MapView, ParseError>(m@),
            Err(e) => spec_parse(src@, table@) == Err::<MapView, ParseError>(e),
        },
{
    let mut idx = match expect(src, 0, OPEN_BRACKET) {
        Some(i) => i,
        None => {
            return Err(ParseError::MalformedDump);
        },
    };
    let ghost d0 = idx as int;
    let n = match read_int(src, idx) {
        Some((j, n)) => {
            idx = j;
            n
        },
        None => {
            return Err(ParseError::MalformedDump);
        },
    };
    proof {
        crate::cursor::lemma_digit_run_end(src@, d0);
        let run = src@.subrange(d0, crate::cursor::digit_run_end(src@, d0));
        assert(crate::cursor::all_digits(run));
        crate::cursor::lemma_digits_val_nonneg(run);
    }
    idx = match expect(src, idx, SPACE) {
        Some(i) => i,
        None => {
            return Err(ParseError::MalformedDump);
        },
    };
    idx = match expect(src, idx, LOWER_X) {
        Some(i) => i,
        None => {
            return Err(ParseError::MalformedDump);
        },
    };
    idx = match expect(src, idx, SPACE) {
        Some(i) => i,
        None => {
            return Err(ParseError::MalformedDump);
        },
    };
    idx = match read_and_ignore_struct(src, idx) {
        Some(i) => i,
        None => {
            return Err(ParseError::MalformedDump);
        },
    };
    idx = match expect(src, idx, CLOSE_BRACKET) {
        Some(i) => i,
        None => {
            return Err(ParseError::MalformedDump);
        },
    };
    idx = match expect(src, idx, SPACE) {
        Some(i) => i,
        None => {
            return Err(ParseError::MalformedDump);
        },
    };
    idx = match expect(src, idx, OPEN_BRACKET) {
        Some(i) => i,
        None => {
            return Err(ParseError::MalformedDump);
        },
    };
    let ghost i0 = idx as int;
    assert(spec_parse_prefix(src@) == Some((i0, n)));
    let mut map = AnnotationMap::new();
    let mut rem = n;
    while rem > 0
        invariant
            0 <= rem,
            spec_parse_prefix(src@) == Some((i0, n)),
            spec_parse_elems(src@, i0, n as nat, table@, Seq::<(Seq<u8>, RecordView)>::empty())
                == spec_parse_elems(src@, idx as int, rem as nat, table@, map@),
        decreases rem,
    {
        idx = match read_and_ignore_struct(src, idx) {
            Some(i) => i,
            None => {
                return Err(ParseError::MalformedDump);
            },
        };
        idx = match expect(src, idx, SPACE) {
            Some(i) => i,
            None => {
                return Err(ParseError::MalformedDump);
            },
        };
        let fields = match read_struct(src, idx) {
            Some((j, fields)) => {
                idx = j;
                fields
            },
            None => {
                return Err(ParseError::MalformedDump);
            },
        };
        match extract_record(&fields, table) {
            Err(e) => {
                return Err(e);
            },
            Ok(Some((name, record))) => {
                map.insert(name, record);
            },
            Ok(None) => {},
        }
        if rem > 1 {
            idx = match expect(src, idx, COMMA) {
                Some(i) => i,
                None => {
                    return Err(ParseError::MalformedDump);
                },
            };
            idx = match expect(src, idx, SPACE) {
                Some(i) => i,
                None => {
                    return Err(ParseError::MalformedDump);
                },
            };
        }
        rem = rem - 1;
    }
    idx = match expect(src, idx, CLOSE_BRACKET) {
        Some(i) => i,
        None => {
            return Err(ParseError::MalformedDump);
        },
    };
    match expect(src, idx, QUOTE) {
        Some(_) => Ok(map),
        None => Err(ParseError::MalformedDump),
    }
}

} // verus!
