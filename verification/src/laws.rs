//! Laws of the extractor, stated over the specification-level parser and
//! proved once and for all: the shape of the recovered map, the field-count
//! and ordering guarantees of each record, and the all-or-nothing failure
//! policy.

use vstd::prelude::*;

use crate::annotations::{
    has_key, lemma_spec_insert_fresh, lemma_spec_insert_preserves_wf, map_wf, spec_extract,
    spec_insert, spec_parse, spec_parse_elems, spec_parse_prefix, spec_resolve_fields,
    spec_strip_sigil, MapView, ParseError, RecordView, TableView,
};
use crate::resolver::spec_resolve;
use crate::struct_lit::spec_ignore_type;

verus! {

/// A successful field resolution keeps one string per field.
proof fn lemma_resolve_fields_index(fs: Seq<Seq<u8>>, table: TableView)
    requires
        spec_resolve_fields(fs, table) is Ok,
    ensures
        spec_resolve_fields(fs, table)->Ok_0.len() == fs.len(),
        forall|i: int|
            0 <= i < fs.len() ==> #[trigger] spec_ignore_type(fs[i]) is Some && spec_resolve(
                table,
                spec_strip_sigil(spec_ignore_type(fs[i])->Some_0),
            ) == Ok::<Seq<u8>, crate::resolver::ResolveError>(
                spec_resolve_fields(fs, table)->Ok_0[i],
            ),
    decreases fs.len(),
{
    if fs.len() > 0 {
        lemma_resolve_fields_index(fs.drop_first(), table);
        let r = spec_resolve_fields(fs, table)->Ok_0;
        let rest = spec_resolve_fields(fs.drop_first(), table)->Ok_0;
        assert forall|i: int|
            0 <= i < fs.len() implies #[trigger] spec_ignore_type(fs[i]) is Some && spec_resolve(
            table,
            spec_strip_sigil(spec_ignore_type(fs[i])->Some_0),
        ) == Ok::<Seq<u8>, crate::resolver::ResolveError>(r[i]) by {
            if i > 0 {
                assert(fs.drop_first()[i - 1] == fs[i]);
                assert(r[i] == rest[i - 1]);
            }
        }
    }
}

/// Field-count invariant: every produced record holds exactly
/// `fields.len() - 4` annotation strings — one per field between the entity
/// reference and the trailing location and null fields.
pub proof fn lemma_field_count_invariant(
    fields: Seq<Seq<u8>>,
    table: TableView,
    name: Seq<u8>,
    rec: RecordView,
)
    requires
        spec_extract(fields, table) == Ok::<Option<(Seq<u8>, RecordView)>, ParseError>(
            Some((name, rec)),
        ),
    ensures
        fields.len() > 4,
        rec.strings.len() == fields.len() - 4,
{
    lemma_resolve_fields_index(fields.subrange(1, fields.len() - 3), table);
}

/// Order preservation: the record's strings stand in source declaration
/// order — the string at position `i` is the resolution of pointer field
/// `i + 1`, for every position.
pub proof fn lemma_order_preservation(
    fields: Seq<Seq<u8>>,
    table: TableView,
    name: Seq<u8>,
    rec: RecordView,
)
    requires
        spec_extract(fields, table) == Ok::<Option<(Seq<u8>, RecordView)>, ParseError>(
            Some((name, rec)),
        ),
    ensures
        rec.strings.len() == fields.len() - 4,
        forall|i: int|
            0 <= i < rec.strings.len() ==> #[trigger] spec_ignore_type(fields[i + 1]) is Some
                && spec_resolve(
                table,
                spec_strip_sigil(spec_ignore_type(fields[i + 1])->Some_0),
            ) == Ok::<Seq<u8>, crate::resolver::ResolveError>(rec.strings[i]),
{
    let fs = fields.subrange(1, fields.len() - 3);
    lemma_resolve_fields_index(fs, table);
    let r = spec_resolve_fields(fs, table)->Ok_0;
    assert forall|i: int|
        0 <= i < rec.strings.len() implies #[trigger] spec_ignore_type(fields[i + 1]) is Some
        && spec_resolve(
        table,
        spec_strip_sigil(spec_ignore_type(fields[i + 1])->Some_0),
    ) == Ok::<Seq<u8>, crate::resolver::ResolveError>(rec.strings[i]) by {
        assert(fs[i] == fields[i + 1]);
        assert(rec.strings == r);
    }
}

/// The payload field lists of the dump's elements, in order, read without
/// extracting: the pure syntax of the element list.
pub open spec fn spec_elems_syntax(s: Seq<u8>, i: int, rem: nat) -> Option<
    (int, Seq<Seq<Seq<u8>>>),
>
    decreases rem,
{
    if rem == 0 {
        Some((i, Seq::empty()))
    } else {
        match crate::struct_lit::spec_read_and_ignore_struct(s, i) {
            None => None,
            Some(j1) => match crate::cursor::spec_expect(s, j1, crate::struct_lit::SPACE) {
                None => None,
                Some(j2) => match crate::struct_lit::spec_read_struct(s, j2) {
                    None => None,
                    Some((j3, fields)) => {
                        let after = if rem > 1 {
                            match crate::cursor::spec_expect(s, j3, crate::struct_lit::COMMA) {
                                None => None,
                                Some(j4) => match crate::cursor::spec_expect(
                                    s,
                                    j4,
                                    crate::struct_lit::SPACE,
                                ) {
                                    None => None,
                                    Some(j5) => Some(j5),
                                },
                            }
                        } else {
                            Some(j3)
                        };
                        match after {
                            None => None,
                            Some(j) => match spec_elems_syntax(s, j, (rem - 1) as nat) {
                                None => None,
                                Some((end, rest)) => Some((end, seq![fields] + rest)),
                            },
                        }
                    },
                },
            },
        }
    }
}

/// The payload field lists of a whole dump, when its structure is well
/// formed.
pub open spec fn spec_dump_elems(s: Seq<u8>) -> Option<Seq<Seq<Seq<u8>>>> {
    match spec_parse_prefix(s) {
        None => None,
        Some((i, n)) => match spec_elems_syntax(s, i, n as nat) {
            None => None,
            Some((_j, elems)) => Some(elems),
        },
    }
}

/// Building the map from the element field lists alone: each element's
/// record, if any, inserted in order.
pub open spec fn spec_build(elems: Seq<Seq<Seq<u8>>>, table: TableView, acc: MapView) -> Result<
    MapView,
    ParseError,
>
    decreases elems.len(),
{
    if elems.len() == 0 {
        Ok(acc)
    } else {
        match spec_extract(elems[0], table) {
            Err(e) => Err(e),
            Ok(None) => spec_build(elems.drop_first(), table, acc),
            Ok(Some(pair)) => spec_build(
                elems.drop_first(),
                table,
                spec_insert(acc, pair.0, pair.1),
            ),
        }
    }
}

/// Parsing the element list is reading its syntax and then building the map.
proof fn lemma_parse_elems_as_build(
    s: Seq<u8>,
    i: int,
    rem: nat,
    table: TableView,
    acc: MapView,
)
    ensures
        spec_parse_elems(s, i, rem, table, acc) is Ok ==> spec_elems_syntax(s, i, rem) is Some,
        spec_elems_syntax(s, i, rem) matches Some((j, elems)) ==> elems.len() == rem
            && spec_parse_elems(s, i, rem, table, acc) == (match spec_build(elems, table, acc) {
            Ok(m) => Ok::<(int, MapView), ParseError>((j, m)),
            Err(e) => Err::<(int, MapView), ParseError>(e),
        }),
    decreases rem,
{
    if rem > 0 {
        match crate::struct_lit::spec_read_and_ignore_struct(s, i) {
            None => {},
            Some(j1) => match crate::cursor::spec_expect(s, j1, crate::struct_lit::SPACE) {
                None => {},
                Some(j2) => match crate::struct_lit::spec_read_struct(s, j2) {
                    None => {},
                    Some((j3, fields)) => {
                        let after = if rem > 1 {
                            match crate::cursor::spec_expect(s, j3, crate::struct_lit::COMMA) {
                                None => None,
                                Some(j4) => match crate::cursor::spec_expect(
                                    s,
                                    j4,
                                    crate::struct_lit::SPACE,
                                ) {
                                    None => None,
                                    Some(j5) => Some(j5),
                                },
                            }
                        } else {
                            Some(j3)
                        };
                        match after {
                            None => {},
                            Some(j) => {
                                match spec_extract(fields, table) {
                                    Err(_e) => {
                                        lemma_parse_elems_as_build(s, j, (rem - 1) as nat, table, acc);
                                        if spec_elems_syntax(s, i, rem) is Some {
                                            let elems = spec_elems_syntax(s, i, rem)->Some_0.1;
                                            let rest = spec_elems_syntax(
                                                s,
                                                j,
                                                (rem - 1) as nat,
                                            )->Some_0.1;
                                            assert(elems == seq![fields] + rest);
                                            assert(elems.drop_first() =~= rest);
                                            assert(elems[0] == fields);
                                        }
                                    },
                                    Ok(opt) => {
                                        let acc2 = match opt {
                                            Some(pair) => spec_insert(acc, pair.0, pair.1),
                                            None => acc,
                                        };
                                        lemma_parse_elems_as_build(
                                            s,
                                            j,
                                            (rem - 1) as nat,
                                            table,
                                            acc2,
                                        );
                                        if spec_elems_syntax(s, i, rem) is Some {
                                            let elems = spec_elems_syntax(s, i, rem)->Some_0.1;
                                            let rest = spec_elems_syntax(
                                                s,
                                                j,
                                                (rem - 1) as nat,
                                            )->Some_0.1;
                                            assert(elems == seq![fields] + rest);
                                            assert(elems.drop_first() =~= rest);
                                            assert(elems[0] == fields);
                                        }
                                    },
                                }
                            },
                        }
                    },
                },
            },
        }
    }
}

/// Number of elements whose field list has more than four fields: those are
/// the elements that produce a map entry.
pub open spec fn count_big(elems: Seq<Seq<Seq<u8>>>) -> nat
    decreases elems.len(),
{
    if elems.len() == 0 {
        0
    } else {
        (if elems[0].len() > 4 {
            1nat
        } else {
            0nat
        }) + count_big(elems.drop_first())
    }
}

/// The entity names extracted from distinct elements are pairwise distinct.
pub open spec fn distinct_entity_names(elems: Seq<Seq<Seq<u8>>>, table: TableView) -> bool {
    forall|i: int, j: int|
        0 <= i < j < elems.len() ==> match (
            #[trigger] spec_extract(elems[i], table),
            #[trigger] spec_extract(elems[j], table),
        ) {
            (Ok(Some(p)), Ok(Some(q))) => p.0 != q.0,
            _ => true,
        }
}

/// A successful build with pairwise-distinct entity names grows the map by
/// exactly one entry per element with more than four fields.
proof fn lemma_build_count(elems: Seq<Seq<Seq<u8>>>, table: TableView, acc: MapView)
    requires
        spec_build(elems, table, acc) is Ok,
        distinct_entity_names(elems, table),
        forall|i: int|
            0 <= i < elems.len() ==> match #[trigger] spec_extract(elems[i], table) {
                Ok(opt) => match opt {
                    Some(pair) => !has_key(acc, pair.0),
                    None => true,
                },
                Err(_) => true,
            },
    ensures
        spec_build(elems, table, acc)->Ok_0.len() == acc.len() + count_big(elems),
    decreases elems.len(),
{
    if elems.len() > 0 {
        assert(forall|i: int|
            0 <= i < elems.drop_first().len() ==> elems.drop_first()[i] == elems[i + 1]);
        match spec_extract(elems[0], table) {
            Err(_e) => {},
            Ok(None) => {
                assert(elems[0].len() == 4);
                lemma_build_count(elems.drop_first(), table, acc);
            },
            Ok(Some(pair)) => {
                lemma_field_count_invariant(elems[0], table, pair.0, pair.1);
                assert(!has_key(acc, pair.0));
                lemma_spec_insert_fresh(acc, pair.0, pair.1);
                let acc2 = acc.push((pair.0, pair.1));
                assert(spec_insert(acc, pair.0, pair.1) == acc2);
                assert forall|i: int| 0 <= i < elems.drop_first().len() implies match #[trigger] spec_extract(
                    elems.drop_first()[i],
                    table,
                ) {
                    Ok(opt) => match opt {
                        Some(q) => !has_key(acc2, q.0),
                        None => true,
                    },
                    Err(_) => true,
                } by {
                    match spec_extract(elems[i + 1], table) {
                        Ok(Some(q)) => {
                            assert(q.0 != pair.0);
                            assert(!has_key(acc, q.0));
                            if has_key(acc2, q.0) {
                                let w = choose|w: int|
                                    0 <= w < acc2.len() && acc2[w].0 == q.0;
                                if w < acc.len() {
                                    assert(acc[w].0 == q.0);
                                } else {
                                    assert(acc2[w] == (pair.0, pair.1));
                                }
                            }
                        },
                        _ => {},
                    }
                }
                lemma_build_count(elems.drop_first(), table, acc2);
            },
        }
    }
}

/// Round-trip shape: a dump whose parse succeeds yields a map with exactly
/// one entry per element whose field list has more than four fields, when
/// the extracted entity names are pairwise distinct. Location-only elements
/// (exactly four fields) are excluded.
pub proof fn lemma_round_trip_shape(s: Seq<u8>, table: TableView)
    requires
        spec_parse(s, table) is Ok,
        distinct_entity_names(
            match spec_dump_elems(s) {
                Some(elems) => elems,
                None => Seq::empty(),
            },
            table,
        ),
    ensures
        spec_dump_elems(s) is Some,
        spec_parse(s, table)->Ok_0.len() == count_big(
            match spec_dump_elems(s) {
                Some(elems) => elems,
                None => Seq::empty(),
            },
        ),
{
    let (i0, n) = spec_parse_prefix(s)->Some_0;
    lemma_parse_elems_as_build(s, i0, n as nat, table, Seq::empty());
    let elems = spec_elems_syntax(s, i0, n as nat)->Some_0.1;
    assert forall|i: int| 0 <= i < elems.len() implies match #[trigger] spec_extract(
        elems[i],
        table,
    ) {
        Ok(opt) => match opt {
            Some(pair) => !has_key(Seq::empty(), pair.0),
            None => true,
        },
        Err(_) => true,
    } by {
        assert(Seq::<(Seq<u8>, RecordView)>::empty().len() == 0);
    }
    lemma_build_count(elems, table, Seq::empty());
}

/// Resolver fault isolation under the all-or-nothing policy: when the dump's
/// structure is well formed but building the records fails — for instance a
/// filename pointer that resolves to no existing global — the whole parse
/// reports exactly that failure kind, and no partial map is returned.
pub proof fn lemma_resolver_fault_aborts(s: Seq<u8>, table: TableView, e: ParseError)
    requires
        spec_dump_elems(s) is Some,
        spec_build(
            spec_dump_elems(s)->Some_0,
            table,
            Seq::empty(),
        ) == Err::<MapView, ParseError>(e),
    ensures
        spec_parse(s, table) == Err::<MapView, ParseError>(e),
{
    let (i0, n) = spec_parse_prefix(s)->Some_0;
    lemma_parse_elems_as_build(s, i0, n as nat, table, Seq::empty());
}

/// A successful build keeps entity names unique.
proof fn lemma_build_wf(elems: Seq<Seq<Seq<u8>>>, table: TableView, acc: MapView)
    requires
        spec_build(elems, table, acc) is Ok,
        map_wf(acc),
    ensures
        map_wf(spec_build(elems, table, acc)->Ok_0),
    decreases elems.len(),
{
    if elems.len() > 0 {
        match spec_extract(elems[0], table) {
            Err(_e) => {},
            Ok(None) => {
                lemma_build_wf(elems.drop_first(), table, acc);
            },
            Ok(Some(pair)) => {
                lemma_spec_insert_preserves_wf(acc, pair.0, pair.1);
                lemma_build_wf(elems.drop_first(), table, spec_insert(acc, pair.0, pair.1));
            },
        }
    }
}

/// Matching a byte in a prefix of `s` agrees with matching it in `s` while
/// the advanced offset stays inside the prefix, and fails past its end.
proof fn lemma_expect_prefix(s: Seq<u8>, cut: int, i: int, b: u8)
    requires
        0 <= cut <= s.len(),
    ensures
        i + 1 <= cut ==> crate::cursor::spec_expect(s.subrange(0, cut), i, b)
            == crate::cursor::spec_expect(s, i, b),
        i + 1 > cut ==> crate::cursor::spec_expect(s.subrange(0, cut), i, b) is None,
{
}

/// Reading an integer in a prefix of `s`: inside the prefix it agrees with
/// reading in `s`; a digit run cut by the prefix's end still reads, ending
/// exactly at the cut.
proof fn lemma_read_int_prefix(s: Seq<u8>, cut: int, i: int)
    requires
        0 <= cut <= s.len(),
        crate::cursor::spec_read_int(s, i) is Some,
    ensures
        crate::cursor::spec_read_int(s, i)->Some_0.0 <= cut ==> crate::cursor::spec_read_int(
            s.subrange(0, cut),
            i,
        ) == crate::cursor::spec_read_int(s, i),
        crate::cursor::spec_read_int(s, i)->Some_0.0 > cut && i < cut
            ==> crate::cursor::spec_read_int(s.subrange(0, cut), i) is Some
            && crate::cursor::spec_read_int(s.subrange(0, cut), i)->Some_0.0 == cut,
        i >= cut ==> crate::cursor::spec_read_int(s.subrange(0, cut), i) is None,
{
    let t = s.subrange(0, cut);
    let j = crate::cursor::digit_run_end(s, i);
    crate::cursor::lemma_digit_run_end(s, i);
    if i < cut {
        crate::cursor::lemma_digit_run_end(t, i);
        let jt = crate::cursor::digit_run_end(t, i);
        if j <= cut {
            assert(jt == j) by {
                if jt < j {
                    assert(crate::cursor::is_digit(s[jt]));
                    assert(t[jt] == s[jt]);
                }
                if jt > j {
                    assert(crate::cursor::is_digit(t[j]));
                    assert(t[j] == s[j]);
                }
            }
            assert(t.subrange(i, j) =~= s.subrange(i, j));
        } else {
            assert(jt == cut) by {
                if jt < cut {
                    assert(crate::cursor::is_digit(s[jt]));
                    assert(t[jt] == s[jt]);
                }
            }
            assert(t.subrange(i, cut) =~= s.subrange(i, cut));
            crate::cursor::lemma_digits_val_mono(s, i, cut, j);
            assert(crate::cursor::all_digits(s.subrange(i, cut)));
            crate::cursor::lemma_digits_val_nonneg(s.subrange(i, cut));
        }
    }
}

/// A struct literal read never ends at or before its opening marker.
proof fn lemma_read_struct_advances(s: Seq<u8>, i: int)
    requires
        crate::struct_lit::spec_read_struct(s, i) is Some,
    ensures
        crate::struct_lit::spec_read_struct(s, i)->Some_0.0 > i + 2,
{
    crate::struct_lit::lemma_scan_to_close(s, i + 2);
}

/// Reading a struct literal in a prefix of `s` agrees with reading it in `s`
/// while it closes inside the prefix, and is no parse when the prefix cuts
/// it.
proof fn lemma_read_struct_prefix(s: Seq<u8>, cut: int, i: int)
    requires
        0 <= cut <= s.len(),
        crate::struct_lit::spec_read_struct(s, i) is Some,
    ensures
        crate::struct_lit::spec_read_struct(s, i)->Some_0.0 <= cut
            ==> crate::struct_lit::spec_read_struct(s.subrange(0, cut), i)
            == crate::struct_lit::spec_read_struct(s, i),
        crate::struct_lit::spec_read_struct(s, i)->Some_0.0 > cut
            ==> crate::struct_lit::spec_read_struct(s.subrange(0, cut), i) is None,
{
    let t = s.subrange(0, cut);
    let start = i + 2;
    let close = crate::struct_lit::scan_to_close(s, start);
    crate::struct_lit::lemma_scan_to_close(s, start);
    if start <= cut {
        crate::struct_lit::lemma_scan_to_close(t, start);
        let ct = crate::struct_lit::scan_to_close(t, start);
        if close + 1 <= cut {
            assert(ct == close) by {
                if ct < close {
                    assert(t[ct] == s[ct]);
                } else if ct > close {
                    assert(t[close] == s[close]);
                }
            }
            assert(t.subrange(start, close - 1) =~= s.subrange(start, close - 1));
        } else {
            assert(ct == cut) by {
                if ct < cut {
                    assert(t[ct] == s[ct]);
                }
            }
        }
    }
}

/// Parsing the element list in a prefix of `s`: while it ends inside the
/// prefix it agrees with parsing in `s`; when the prefix cuts it, the parse
/// of the prefix is a structural failure, never a partial result.
proof fn lemma_parse_elems_prefix(
    s: Seq<u8>,
    cut: int,
    i: int,
    rem: nat,
    table: TableView,
    acc: MapView,
)
    requires
        0 <= cut <= s.len(),
        0 <= i,
        spec_parse_elems(s, i, rem, table, acc) is Ok,
    ensures
        spec_parse_elems(s, i, rem, table, acc)->Ok_0.0 >= i,
        spec_parse_elems(s, i, rem, table, acc)->Ok_0.0 <= cut ==> spec_parse_elems(
            s.subrange(0, cut),
            i,
            rem,
            table,
            acc,
        ) == spec_parse_elems(s, i, rem, table, acc),
        spec_parse_elems(s, i, rem, table, acc)->Ok_0.0 > cut && i <= cut ==> spec_parse_elems(
            s.subrange(0, cut),
            i,
            rem,
            table,
            acc,
        ) == Err::<(int, MapView), ParseError>(ParseError::MalformedDump),
    decreases rem,
{
    if rem > 0 {
        let t = s.subrange(0, cut);
        let j1 = crate::struct_lit::spec_read_and_ignore_struct(s, i)->Some_0;
        let j2 = crate::cursor::spec_expect(s, j1, crate::struct_lit::SPACE)->Some_0;
        let (j3, fields) = crate::struct_lit::spec_read_struct(s, j2)->Some_0;
        lemma_read_struct_advances(s, i);
        lemma_read_struct_advances(s, j2);
        lemma_read_struct_prefix(s, cut, i);
        lemma_expect_prefix(s, cut, j1, crate::struct_lit::SPACE);
        lemma_read_struct_prefix(s, cut, j2);
        let opt = spec_extract(fields, table)->Ok_0;
        let acc2 = match opt {
            Some(pair) => spec_insert(acc, pair.0, pair.1),
            None => acc,
        };
        if rem > 1 {
            let j4 = crate::cursor::spec_expect(s, j3, crate::struct_lit::COMMA)->Some_0;
            let j5 = crate::cursor::spec_expect(s, j4, crate::struct_lit::SPACE)->Some_0;
            lemma_expect_prefix(s, cut, j3, crate::struct_lit::COMMA);
            lemma_expect_prefix(s, cut, j4, crate::struct_lit::SPACE);
            lemma_parse_elems_prefix(s, cut, j5, (rem - 1) as nat, table, acc2);
        } else {
            lemma_parse_elems_prefix(s, cut, j3, (rem - 1) as nat, table, acc2);
        }
    }
}

/// Reading the dump's fixed prefix in a prefix of `s` agrees with reading it
/// in `s` while it ends inside the prefix, and fails when the prefix cuts
/// it.
proof fn lemma_parse_prefix_prefix(s: Seq<u8>, cut: int)
    requires
        0 <= cut <= s.len(),
        spec_parse_prefix(s) is Some,
    ensures
        spec_parse_prefix(s)->Some_0.0 <= cut ==> spec_parse_prefix(s.subrange(0, cut))
            == spec_parse_prefix(s),
        spec_parse_prefix(s)->Some_0.0 > cut ==> spec_parse_prefix(s.subrange(0, cut)) is None,
{
    let t = s.subrange(0, cut);
    let b = crate::cursor::spec_expect(s, 0, crate::annotations::OPEN_BRACKET)->Some_0;
    let (c, _n) = crate::cursor::spec_read_int(s, b)->Some_0;
    let d = crate::cursor::spec_expect(s, c, crate::struct_lit::SPACE)->Some_0;
    let e = crate::cursor::spec_expect(s, d, crate::annotations::LOWER_X)->Some_0;
    let f = crate::cursor::spec_expect(s, e, crate::struct_lit::SPACE)->Some_0;
    let g = crate::struct_lit::spec_read_struct(s, f)->Some_0.0;
    let h = crate::cursor::spec_expect(s, g, crate::annotations::CLOSE_BRACKET)->Some_0;
    let i = crate::cursor::spec_expect(s, h, crate::struct_lit::SPACE)->Some_0;
    lemma_expect_prefix(s, cut, 0, crate::annotations::OPEN_BRACKET);
    lemma_read_int_prefix(s, cut, b);
    lemma_expect_prefix(s, cut, c, crate::struct_lit::SPACE);
    if crate::cursor::spec_read_int(t, b) is Some {
        let c2 = crate::cursor::spec_read_int(t, b)->Some_0.0;
        lemma_expect_prefix(s, cut, c2, crate::struct_lit::SPACE);
        assert(c2 == cut || c2 == c);
        if c2 == cut {
            assert(crate::cursor::spec_expect(t, c2, crate::struct_lit::SPACE) is None);
        }
    }
    lemma_expect_prefix(s, cut, d, crate::annotations::LOWER_X);
    lemma_expect_prefix(s, cut, e, crate::struct_lit::SPACE);
    lemma_read_struct_advances(s, f);
    lemma_read_struct_prefix(s, cut, f);
    lemma_expect_prefix(s, cut, g, crate::annotations::CLOSE_BRACKET);
    lemma_expect_prefix(s, cut, h, crate::struct_lit::SPACE);
    lemma_expect_prefix(s, cut, i, crate::annotations::OPEN_BRACKET);
}

/// Malformed input: truncating a well-formed dump anywhere before the end of
/// its closing `"]\""` marker yields `MalformedDump` — never a partial map,
/// and never a quieter failure kind.
pub proof fn lemma_truncation_is_malformed(s: Seq<u8>, table: TableView, cut: int)
    requires
        spec_parse(s, table) is Ok,
        0 <= cut < spec_close_marker(s, table) + 2,
    ensures
        spec_parse(s.subrange(0, cut), table) == Err::<MapView, ParseError>(
            ParseError::MalformedDump,
        ),
{
    let t = s.subrange(0, cut);
    let (i0, n) = spec_parse_prefix(s)->Some_0;
    let (j, _m) = spec_parse_elems(s, i0, n as nat, table, Seq::empty())->Ok_0;
    assert(j + 2 <= s.len()) by {
        assert(crate::cursor::spec_expect(s, j + 1, crate::annotations::QUOTE) is Some);
    }
    lemma_parse_prefix_prefix(s, cut);
    if i0 <= cut {
        lemma_parse_elems_prefix(s, cut, i0, n as nat, table, Seq::empty());
        if j <= cut {
            lemma_expect_prefix(s, cut, j, crate::annotations::CLOSE_BRACKET);
            lemma_expect_prefix(s, cut, j + 1, crate::annotations::QUOTE);
        }
    }
}

/// Offset of the closing `"]\""` marker: the byte one past the element
/// list, where the two marker bytes stand.
pub open spec fn spec_close_marker(s: Seq<u8>, table: TableView) -> int {
    match spec_parse_prefix(s) {
        None => 0,
        Some((i, n)) => match spec_parse_elems(s, i, n as nat, table, Seq::empty()) {
            Err(_e) => 0,
            Ok((j, _m)) => j,
        },
    }
}

/// Uniqueness invariant: within one parse, every entity name keys at most
/// one entry of the recovered map.
pub proof fn lemma_entity_names_unique(s: Seq<u8>, table: TableView)
    requires
        spec_parse(s, table) is Ok,
    ensures
        map_wf(spec_parse(s, table)->Ok_0),
{
    let (i0, n) = spec_parse_prefix(s)->Some_0;
    lemma_parse_elems_as_build(s, i0, n as nat, table, Seq::empty());
    let elems = spec_elems_syntax(s, i0, n as nat)->Some_0.1;
    lemma_build_wf(elems, table, Seq::empty());
}

} // verus!
