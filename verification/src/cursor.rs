//! Primitive cursor operations over the dump text: single-byte matching,
//! literal matching, and greedy decimal integer reading.
//!
//! Every operation is a pure function of `(input, offset)`; failure is the
//! recoverable "no parse" signal `None`, never a panic, so a caller can
//! backtrack by discarding the failed offset.

use vstd::prelude::*;

verus! {

/// View of an optional exec offset as a mathematical offset.
pub open spec fn opt_off(o: Option<usize>) -> Option<int> {
    match o {
        Some(i) => Some(i as int),
        None => None,
    }
}

/// The byte `expected` stands at offset `i` of `s`; the cursor then moves one
/// byte forward.
pub open spec fn spec_expect(s: Seq<u8>, i: int, expected: u8) -> Option<int> {
    if 0 <= i < s.len() && s[i] == expected {
        Some(i + 1)
    } else {
        None
    }
}

/// Succeeds and advances by one iff the byte at `idx` equals `expected`.
pub fn expect(src: &[u8], idx: usize, expected: u8) -> (r: Option<usize>)
    ensures
        opt_off(r) == spec_expect(src@, idx as int, expected),
{
    if idx < src.len() && src[idx] == expected {
        Some(idx + 1)
    } else {
        None
    }
}

/// The literal `lit` stands at offset `i` of `s`, byte for byte.
pub open spec fn matches_at(s: Seq<u8>, i: int, lit: Seq<u8>) -> bool {
    &&& 0 <= i
    &&& lit.len() == 0 || i + lit.len() <= s.len()
    &&& forall|k: int| 0 <= k < lit.len() ==> s[i + k] == #[trigger] lit[k]
}

/// Matching a whole literal advances the cursor past it.
pub open spec fn spec_expect_str(s: Seq<u8>, i: int, lit: Seq<u8>) -> Option<int> {
    if matches_at(s, i, lit) {
        Some(i + lit.len() as int)
    } else {
        None
    }
}

/// Succeeds iff `expected` matches at `idx` byte for byte, advancing past it;
/// composed from repeated `expect`.
pub fn expect_str(src: &[u8], idx: usize, expected: &[u8]) -> (r: Option<usize>)
    ensures
        opt_off(r) == spec_expect_str(src@, idx as int, expected@),
{
    let mut i = idx;
    let mut k: usize = 0;
    while k < expected.len()
        invariant
            k <= expected.len(),
            i == idx + k,
            i <= src.len() || k == 0,
            forall|m: int| 0 <= m < k ==> src@[idx + m] == #[trigger] expected@[m],
        decreases expected.len() - k,
    {
        match expect(src, i, expected[k]) {
            Some(j) => {
                i = j;
            },
            None => {
                assert(!matches_at(src@, idx as int, expected@)) by {
                    if matches_at(src@, idx as int, expected@) {
                        assert(src@[idx + k] == expected@[k as int]);
                    }
                }
                return None;
            },
        }
        k = k + 1;
    }
    Some(i)
}


/// Byte value of ASCII `'0'`.
pub const DIGIT_ZERO: u8 = 48;

/// Byte value of ASCII `'9'`.
pub const DIGIT_NINE: u8 = 57;

/// ASCII decimal digit.
pub open spec fn is_digit(b: u8) -> bool {
    DIGIT_ZERO <= b && b <= DIGIT_NINE
}

/// First offset at or after `i` that ends the run of digit bytes.
pub open spec fn digit_run_end(s: Seq<u8>, i: int) -> int
    decreases s.len() - i,
{
    if 0 <= i < s.len() && is_digit(s[i]) {
        digit_run_end(s, i + 1)
    } else {
        i
    }
}

/// Value of a sequence of ASCII digit bytes read as a decimal numeral.
pub open spec fn digits_val(ds: Seq<u8>) -> int
    decreases ds.len(),
{
    if ds.len() == 0 {
        0
    } else {
        10 * digits_val(ds.drop_last()) + (ds.last() - DIGIT_ZERO)
    }
}

/// Every byte of `ds` is an ASCII digit.
pub open spec fn all_digits(ds: Seq<u8>) -> bool {
    forall|k: int| 0 <= k < ds.len() ==> is_digit(#[trigger] ds[k])
}

/// Reading an integer consumes the maximal digit run and yields its decimal
/// value; it fails when no digit stands at `i` or the value does not fit.
pub open spec fn spec_read_int(s: Seq<u8>, i: int) -> Option<(int, i32)> {
    if 0 <= i < s.len() && is_digit(s[i]) {
        let end = digit_run_end(s, i);
        let v = digits_val(s.subrange(i, end));
        if v <= i32::MAX {
            Some((end, v as i32))
        } else {
            None
        }
    } else {
        None
    }
}

pub proof fn lemma_digit_run_end(s: Seq<u8>, i: int)
    requires
        0 <= i <= s.len(),
    ensures
        i <= digit_run_end(s, i) <= s.len(),
        forall|k: int| i <= k < digit_run_end(s, i) ==> is_digit(#[trigger] s[k]),
        digit_run_end(s, i) == s.len() || !is_digit(s[digit_run_end(s, i)]),
    decreases s.len() - i,
{
    if i < s.len() && is_digit(s[i]) {
        lemma_digit_run_end(s, i + 1);
    }
}

pub proof fn lemma_digits_val_nonneg(ds: Seq<u8>)
    requires
        all_digits(ds),
    ensures
        digits_val(ds) >= 0,
    decreases ds.len(),
{
    if ds.len() > 0 {
        assert(all_digits(ds.drop_last()));
        lemma_digits_val_nonneg(ds.drop_last());
    }
}

/// Extending a digit numeral by one digit multiplies its value by ten and
/// adds the digit.
pub proof fn lemma_digits_val_step(s: Seq<u8>, i: int, j: int)
    requires
        0 <= i <= j < s.len(),
    ensures
        digits_val(s.subrange(i, j + 1)) == 10 * digits_val(s.subrange(i, j)) + (s[j] - DIGIT_ZERO),
{
    let ext = s.subrange(i, j + 1);
    assert(ext.drop_last() =~= s.subrange(i, j));
    assert(ext.last() == s[j]);
}

/// A longer digit numeral never has a smaller value.
pub proof fn lemma_digits_val_mono(s: Seq<u8>, i: int, j: int, k: int)
    requires
        0 <= i <= j <= k <= s.len(),
        forall|m: int| i <= m < k ==> is_digit(#[trigger] s[m]),
    ensures
        digits_val(s.subrange(i, j)) <= digits_val(s.subrange(i, k)),
    decreases k - j,
{
    if j < k {
        assert(all_digits(s.subrange(i, j))) by {
            assert(forall|m: int| 0 <= m < j - i ==> s.subrange(i, j)[m] == s[i + m]);
        }
        lemma_digits_val_nonneg(s.subrange(i, j));
        lemma_digits_val_step(s, i, j);
        lemma_digits_val_mono(s, i, j + 1, k);
    }
}

/// A whole byte string read as a decimal numeral: defined exactly when it is
/// nonempty, all digits, and its value fits in an `i32`.
pub open spec fn spec_parse_i32(ds: Seq<u8>) -> Option<i32> {
    if ds.len() > 0 && all_digits(ds) && digits_val(ds) <= i32::MAX {
        Some(digits_val(ds) as i32)
    } else {
        None
    }
}

/// Parses the whole of `ds` as a decimal integer.
pub fn parse_i32(ds: &[u8]) -> (r: Option<i32>)
    ensures
        r == spec_parse_i32(ds@),
{
    if ds.len() == 0 {
        return None;
    }
    let mut i: usize = 0;
    let mut res: i32 = 0;
    while i < ds.len()
        invariant
            i <= ds.len(),
            forall|k: int| 0 <= k < i ==> is_digit(#[trigger] ds@[k]),
            0 <= res <= i32::MAX,
            res == digits_val(ds@.subrange(0, i as int)),
        decreases ds.len() - i,
    {
        if ds[i] < DIGIT_ZERO || ds[i] > DIGIT_NINE {
            assert(!all_digits(ds@));
            return None;
        }
        let d = ds[i] - DIGIT_ZERO;
        proof {
            lemma_digits_val_step(ds@, 0, i as int);
        }
        let wide: i64 = res as i64 * 10 + d as i64;
        if wide > i32::MAX as i64 {
            assert(spec_parse_i32(ds@) is None) by {
                if all_digits(ds@) {
                    lemma_digits_val_mono(ds@, 0, i as int + 1, ds@.len() as int);
                    assert(ds@.subrange(0, ds@.len() as int) =~= ds@);
                }
            }
            return None;
        }
        res = wide as i32;
        i = i + 1;
    }
    assert(ds@.subrange(0, ds@.len() as int) =~= ds@);
    Some(res)
}

/// Succeeds iff the byte at `idx` is an ASCII digit; greedily consumes the
/// digit run and returns its decimal value, failing when it exceeds `i32`.
pub fn read_int(src: &[u8], idx: usize) -> (r: Option<(usize, i32)>)
    ensures
        match r {
            Some((j, v)) => spec_read_int(src@, idx as int) == Some((j as int, v)),
            None => spec_read_int(src@, idx as int) is None,
        },
{
    if idx >= src.len() || src[idx] < DIGIT_ZERO || src[idx] > DIGIT_NINE {
        return None;
    }
    proof {
        lemma_digit_run_end(src@, idx as int);
    }
    let ghost end = digit_run_end(src@, idx as int);
    let mut i = idx;
    let mut res: i32 = 0;
    while i < src.len() && src[i] >= DIGIT_ZERO && src[i] <= DIGIT_NINE
        invariant
            idx <= i <= src.len(),
            end == digit_run_end(src@, idx as int),
            idx < src@.len() && is_digit(src@[idx as int]),
            i <= end <= src@.len(),
            forall|k: int| idx <= k < end ==> is_digit(#[trigger] src@[k]),
            end == src@.len() || !is_digit(src@[end]),
            i < end ==> is_digit(src@[i as int]),
            0 <= res <= i32::MAX,
            res == digits_val(src@.subrange(idx as int, i as int)),
        decreases src.len() - i,
    {
        assert(i < end) by {
            if i >= end {
                assert(end < src@.len() && is_digit(src@[end as int]));
            }
        }
        let d = src[i] - DIGIT_ZERO;
        proof {
            lemma_digits_val_step(src@, idx as int, i as int);
        }
        let wide: i64 = res as i64 * 10 + d as i64;
        if wide > i32::MAX as i64 {
            assert(digits_val(src@.subrange(idx as int, end)) > i32::MAX) by {
                lemma_digits_val_mono(src@, idx as int, i as int + 1, end);
            }
            return None;
        }
        res = wide as i32;
        i = i + 1;
    }
    assert(i == end) by {
        if i < end {
            assert(is_digit(src@[i as int]));
        }
    }
    Some((i, res))
}

} // verus!
