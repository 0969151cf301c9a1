//! Reader for one struct literal of the form `"{ field1, field2, ..., fieldN }"`
//! as the compiler's pretty-printer renders it, and the field-string helpers.
//!
//! The reader scans to the first closing brace, so it assumes the struct's own
//! fields are simple scalar-typed values: no nested `'}'` and no `", "` inside
//! a field at the level being split. That holds for the fixed shape of the
//! annotation table, but it is not a general aggregate-literal parser.

use vstd::prelude::*;

use crate::cursor::{expect, spec_expect};

verus! {

/// Byte value of ASCII `'{'`.
pub const OPEN_BRACE: u8 = 123;

/// Byte value of ASCII `'}'`.
pub const CLOSE_BRACE: u8 = 125;

/// Byte value of ASCII `' '`.
pub const SPACE: u8 = 32;

/// Byte value of ASCII `','`.
pub const COMMA: u8 = 44;

/// The views of a sequence of byte vectors.
pub open spec fn views_of(vs: Seq<Vec<u8>>) -> Seq<Seq<u8>> {
    Seq::new(vs.len(), |i: int| vs[i]@)
}

/// Appending one vector appends its view.
pub proof fn lemma_views_of_push(vs: Seq<Vec<u8>>, x: Vec<u8>)
    ensures
        views_of(vs.push(x)) == views_of(vs) + seq![x@],
{
    assert(views_of(vs.push(x)) =~= views_of(vs) + seq![x@]);
}

/// First offset at or after `i` holding a closing brace, or the end of `s`.
pub open spec fn scan_to_close(s: Seq<u8>, i: int) -> int
    decreases s.len() - i,
{
    if 0 <= i < s.len() && s[i] != CLOSE_BRACE {
        scan_to_close(s, i + 1)
    } else {
        i
    }
}

pub proof fn lemma_scan_to_close(s: Seq<u8>, i: int)
    requires
        0 <= i <= s.len(),
    ensures
        i <= scan_to_close(s, i) <= s.len(),
        forall|k: int| i <= k < scan_to_close(s, i) ==> #[trigger] s[k] != CLOSE_BRACE,
        scan_to_close(s, i) < s.len() ==> s[scan_to_close(s, i)] == CLOSE_BRACE,
    decreases s.len() - i,
{
    if i < s.len() && s[i] != CLOSE_BRACE {
        lemma_scan_to_close(s, i + 1);
    }
}

/// Splitting on the separator `", "`, scanning left to right; `cur` holds the
/// piece gathered so far.
pub open spec fn split_scan(s: Seq<u8>, cur: Seq<u8>, i: int) -> Seq<Seq<u8>>
    decreases s.len() - i,
{
    if 0 <= i && i + 2 <= s.len() && s[i] == COMMA && s[i + 1] == SPACE {
        seq![cur] + split_scan(s, Seq::empty(), i + 2)
    } else if 0 <= i && i < s.len() {
        split_scan(s, cur.push(s[i]), i + 1)
    } else {
        seq![cur]
    }
}

/// The pieces of `s` between occurrences of the separator `", "`.
pub open spec fn spec_split_fields(s: Seq<u8>) -> Seq<Seq<u8>> {
    split_scan(s, Seq::empty(), 0)
}

/// Splits `content` on the literal separator `", "`.
pub fn split_fields(content: &[u8]) -> (r: Vec<Vec<u8>>)
    ensures
        views_of(r@) == spec_split_fields(content@),
{
    let mut fields: Vec<Vec<u8>> = Vec::new();
    let mut cur: Vec<u8> = Vec::new();
    let mut i: usize = 0;
    while i < content.len()
        invariant
            i <= content.len(),
            spec_split_fields(content@) == views_of(fields@) + split_scan(
                content@,
                cur@,
                i as int,
            ),
        decreases content.len() - i,
    {
        if i + 1 < content.len() && content[i] == COMMA && content[i + 1] == SPACE {
            let ghost old_fields = fields@;
            let ghost old_cur = cur@;
            fields.push(cur);
            cur = Vec::new();
            i = i + 2;
            proof {
                lemma_views_of_push(old_fields, fields@.last());
                assert(views_of(old_fields) + (seq![old_cur] + split_scan(content@, cur@, i as int))
                    =~= views_of(fields@) + split_scan(content@, cur@, i as int));
            }
        } else {
            let ghost old_cur = cur@;
            cur.push(content[i]);
            i = i + 1;
            proof {
                assert(split_scan(content@, old_cur, i - 1) == split_scan(content@, cur@, i as int));
            }
        }
    }
    let ghost old_fields = fields@;
    let ghost old_cur = cur@;
    fields.push(cur);
    proof {
        lemma_views_of_push(old_fields, fields@.last());
        assert(split_scan(content@, old_cur, i as int) =~= seq![old_cur]);
        assert(views_of(fields@) =~= views_of(old_fields) + seq![old_cur]);
    }
    fields
}

/// Reading a struct literal: match `"{ "`, scan to the first `'}'`, split the
/// raw text between them (short of the byte before the brace) on `", "`, and
/// consume the brace.
pub open spec fn spec_read_struct(s: Seq<u8>, i: int) -> Option<(int, Seq<Seq<u8>>)> {
    match spec_expect(s, i, OPEN_BRACE) {
        None => None,
        Some(i1) => match spec_expect(s, i1, SPACE) {
            None => None,
            Some(start) => {
                let j = scan_to_close(s, start);
                if j < s.len() && start < j {
                    Some((j + 1, spec_split_fields(s.subrange(start, j - 1))))
                } else {
                    None
                }
            },
        },
    }
}

/// Consuming a struct literal without keeping its fields.
pub open spec fn spec_read_and_ignore_struct(s: Seq<u8>, i: int) -> Option<int> {
    match spec_read_struct(s, i) {
        None => None,
        Some((j, _fields)) => Some(j),
    }
}

/// Reads one struct literal starting at `idx` and returns the offset one past
/// its closing brace together with the ordered raw field strings, each still
/// carrying its textual type prefix.
pub fn read_struct(src: &[u8], idx: usize) -> (r: Option<(usize, Vec<Vec<u8>>)>)
    ensures
        match r {
            Some((j, fields)) => spec_read_struct(src@, idx as int) == Some(
                (j as int, views_of(fields@)),
            ),
            None => spec_read_struct(src@, idx as int) is None,
        },
{
    let i1 = match expect(src, idx, OPEN_BRACE) {
        Some(i1) => i1,
        None => {
            return None;
        },
    };
    let start = match expect(src, i1, SPACE) {
        Some(start) => start,
        None => {
            return None;
        },
    };
    proof {
        lemma_scan_to_close(src@, start as int);
    }
    let ghost close = scan_to_close(src@, start as int);
    let mut j = start;
    while j < src.len() && src[j] != CLOSE_BRACE
        invariant
            start <= j <= src.len(),
            close == scan_to_close(src@, start as int),
            close == scan_to_close(src@, j as int),
            j <= close,
        decreases src.len() - j,
    {
        proof {
            lemma_scan_to_close(src@, j + 1);
        }
        j = j + 1;
    }
    assert(j == close);
    if j >= src.len() {
        return None;
    }
    if j == start {
        return None;
    }
    let content = vstd::slice::slice_subrange(src, start, j - 1);
    let fields = split_fields(content);
    Some((j + 1, fields))
}

/// First offset at or after `i` that does not hold a space.
pub open spec fn skip_spaces(s: Seq<u8>, i: int) -> int
    decreases s.len() - i,
{
    if 0 <= i < s.len() && s[i] == SPACE {
        skip_spaces(s, i + 1)
    } else {
        i
    }
}

/// First offset at or after `i` that holds a space, or the end of `s`.
pub open spec fn skip_token(s: Seq<u8>, i: int) -> int
    decreases s.len() - i,
{
    if 0 <= i < s.len() && s[i] != SPACE {
        skip_token(s, i + 1)
    } else {
        i
    }
}

pub proof fn lemma_skip_spaces(s: Seq<u8>, i: int)
    requires
        0 <= i <= s.len(),
    ensures
        i <= skip_spaces(s, i) <= s.len(),
        skip_spaces(s, i) < s.len() ==> s[skip_spaces(s, i)] != SPACE,
    decreases s.len() - i,
{
    if i < s.len() && s[i] == SPACE {
        lemma_skip_spaces(s, i + 1);
    }
}

pub proof fn lemma_skip_token(s: Seq<u8>, i: int)
    requires
        0 <= i <= s.len(),
    ensures
        i <= skip_token(s, i) <= s.len(),
        skip_token(s, i) < s.len() ==> s[skip_token(s, i)] == SPACE,
    decreases s.len() - i,
{
    if i < s.len() && s[i] != SPACE {
        lemma_skip_token(s, i + 1);
    }
}

/// The second whitespace-separated token of a field string `"<type> <value>"`:
/// the type prefix is dropped and `<value>` kept. `None` when the field has no
/// second token.
pub open spec fn spec_ignore_type(f: Seq<u8>) -> Option<Seq<u8>> {
    let a = skip_spaces(f, 0);
    let b = skip_token(f, a);
    let c = skip_spaces(f, b);
    let d = skip_token(f, c);
    if c < d {
        Some(f.subrange(c, d))
    } else {
        None
    }
}

/// Advances past any spaces starting at `idx`.
fn scan_spaces(src: &[u8], idx: usize) -> (r: usize)
    requires
        idx <= src.len(),
    ensures
        r == skip_spaces(src@, idx as int),
        idx <= r <= src.len(),
{
    proof {
        lemma_skip_spaces(src@, idx as int);
    }
    let mut i = idx;
    while i < src.len() && src[i] == SPACE
        invariant
            idx <= i <= src.len(),
            skip_spaces(src@, idx as int) == skip_spaces(src@, i as int),
            i <= skip_spaces(src@, idx as int),
        decreases src.len() - i,
    {
        proof {
            lemma_skip_spaces(src@, i + 1);
        }
        i = i + 1;
    }
    i
}

/// Advances past the non-space bytes starting at `idx`.
fn scan_token(src: &[u8], idx: usize) -> (r: usize)
    requires
        idx <= src.len(),
    ensures
        r == skip_token(src@, idx as int),
        idx <= r <= src.len(),
{
    proof {
        lemma_skip_token(src@, idx as int);
    }
    let mut i = idx;
    while i < src.len() && src[i] != SPACE
        invariant
            idx <= i <= src.len(),
            skip_token(src@, idx as int) == skip_token(src@, i as int),
            i <= skip_token(src@, idx as int),
        decreases src.len() - i,
    {
        proof {
            lemma_skip_token(src@, i + 1);
        }
        i = i + 1;
    }
    i
}

/// Converts a field string `"<type> <value>"` into `<value>`: splits on
/// whitespace and takes the second token, dropping the textual type prefix.
pub fn ignore_type(field: &[u8]) -> (r: Option<Vec<u8>>)
    ensures
        match r {
            Some(v) => spec_ignore_type(field@) == Some(v@) && v@.len() >= 1,
            None => spec_ignore_type(field@) is None,
        },
{
    let a = scan_spaces(field, 0);
    let b = scan_token(field, a);
    let c = scan_spaces(field, b);
    let d = scan_token(field, c);
    if c < d {
        Some(vstd::slice::slice_to_vec(vstd::slice::slice_subrange(field, c, d)))
    } else {
        None
    }
}

/// Reads a struct literal and discards its field list; used to skip
/// structurally required but semantically unused aggregates.
pub fn read_and_ignore_struct(src: &[u8], idx: usize) -> (r: Option<usize>)
    ensures
        crate::cursor::opt_off(r) == spec_read_and_ignore_struct(src@, idx as int),
{
    match read_struct(src, idx) {
        Some((j, _fields)) => Some(j),
        None => None,
    }
}

} // verus!
