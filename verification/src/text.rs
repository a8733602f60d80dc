//! Verified text utilities: line splitting, separator splitting and
//! decimal parsing over byte slices.
//!
//! Every executable function here is pinned to a spec function, so the day
//! modules can state their contracts directly over the raw input bytes.

use vstd::prelude::*;

use crate::error::Error;

verus! {

pub const NEWLINE: u8 = 10;
pub const MINUS: u8 = 45;

/// The byte is an ASCII decimal digit.
pub open spec fn is_digit(b: u8) -> bool {
    48 <= b <= 57
}

/// Every byte of `s` is an ASCII decimal digit.
pub open spec fn all_digits(s: Seq<u8>) -> bool {
    forall|i: int| 0 <= i < s.len() ==> is_digit(#[trigger] s[i])
}

/// The value of `s` read as a big-endian decimal numeral.
pub open spec fn digits_val(s: Seq<u8>) -> int
    decreases s.len(),
{
    if s.len() == 0 {
        0
    } else {
        digits_val(s.drop_last()) * 10 + (s.last() - 48)
    }
}

/// What parsing an unsigned decimal numeral yields: the numeral's value if
/// `s` is a non-empty digit string whose value fits in a `u64`.
pub open spec fn parse_u64_spec(s: Seq<u8>) -> Result<u64, Error> {
    if s.len() > 0 && all_digits(s) {
        if digits_val(s) <= u64::MAX {
            Ok(digits_val(s) as u64)
        } else {
            Err(Error::Overflow)
        }
    } else {
        Err(Error::MalformedInput)
    }
}

/// What parsing a signed decimal numeral yields: an optional leading minus
/// sign followed by a non-empty digit string, with the value in `i64` range.
pub open spec fn parse_i64_spec(s: Seq<u8>) -> Result<i64, Error> {
    if s.len() > 0 && s[0] == MINUS {
        let ds = s.subrange(1, s.len() as int);
        if ds.len() > 0 && all_digits(ds) {
            if -digits_val(ds) >= i64::MIN {
                Ok((-digits_val(ds)) as i64)
            } else {
                Err(Error::Overflow)
            }
        } else {
            Err(Error::MalformedInput)
        }
    } else {
        if s.len() > 0 && all_digits(s) {
            if digits_val(s) <= i64::MAX {
                Ok(digits_val(s) as i64)
            } else {
                Err(Error::Overflow)
            }
        } else {
            Err(Error::MalformedInput)
        }
    }
}

/// The value of a numeral never shrinks when more digits are appended.
pub proof fn lemma_digits_val_nonneg(s: Seq<u8>)
    requires
        all_digits(s),
    ensures
        digits_val(s) >= 0,
    decreases s.len(),
{
    if s.len() > 0 {
        assert(all_digits(s.drop_last())) by {
            assert(forall|i: int|
                0 <= i < s.len() - 1 ==> #[trigger] s.drop_last()[i] == s[i]);
        }
        lemma_digits_val_nonneg(s.drop_last());
    }
}

/// Index of the first occurrence of `b` in `s`, or `s.len()` if none.
pub open spec fn find_byte(s: Seq<u8>, b: u8) -> int
    decreases s.len(),
{
    if s.len() == 0 {
        0
    } else if s[0] == b {
        0
    } else {
        1 + find_byte(s.subrange(1, s.len() as int), b)
    }
}

pub proof fn lemma_find_byte_range(s: Seq<u8>, b: u8)
    ensures
        0 <= find_byte(s, b) <= s.len(),
    decreases s.len(),
{
    if s.len() > 0 && s[0] != b {
        lemma_find_byte_range(s.subrange(1, s.len() as int), b);
    }
}

pub proof fn lemma_find_sub_range(s: Seq<u8>, sep: Seq<u8>)
    ensures
        0 <= find_sub(s, sep) <= s.len(),
    decreases s.len(),
{
    if s.len() >= sep.len() && s.subrange(0, sep.len() as int) != sep && s.len() > 0 {
        lemma_find_sub_range(s.subrange(1, s.len() as int), sep);
    }
}

pub proof fn lemma_find_byte_is(s: Seq<u8>, b: u8, i: int)
    requires
        0 <= i <= s.len(),
        forall|j: int| 0 <= j < i ==> s[j] != b,
        i < s.len() ==> s[i] == b,
    ensures
        find_byte(s, b) == i,
    decreases i,
{
    if i == 0 {
        if s.len() > 0 && s[0] != b {
            assert(false);
        }
    } else {
        let t = s.subrange(1, s.len() as int);
        assert(forall|j: int| 0 <= j < i - 1 ==> #[trigger] t[j] == s[j + 1]);
        lemma_find_byte_is(t, b, i - 1);
    }
}

/// The input split at every newline byte; a trailing newline does not
/// produce a final empty line.
pub open spec fn lines_spec(s: Seq<u8>) -> Seq<Seq<u8>>
    decreases s.len(),
    via lines_spec_decreases
{
    if s.len() == 0 {
        Seq::empty()
    } else {
        let i = find_byte(s, NEWLINE);
        if i == s.len() {
            seq![s]
        } else {
            seq![s.subrange(0, i)] + lines_spec(s.subrange(i + 1, s.len() as int))
        }
    }
}

#[via_fn]
proof fn lines_spec_decreases(s: Seq<u8>) {
    lemma_find_byte_range(s, NEWLINE);
}

/// Splits `input` at every newline byte, like the lines of a text file:
/// a trailing newline ends the last line rather than opening a new one.
pub fn split_lines(input: &[u8]) -> (r: Vec<Vec<u8>>)
    ensures
        r.deep_view() == lines_spec(input@),
{
    let mut r: Vec<Vec<u8>> = Vec::new();
    let mut start: usize = 0;
    let mut i: usize = 0;
    proof {
        assert(input@.subrange(0, input@.len() as int) =~= input@);
        assert(lines_spec(input@) =~~= r.deep_view() + lines_spec(input@));
    }
    while i < input.len()
        invariant
            0 <= start <= i <= input.len(),
            forall|j: int| start <= j < i ==> input@[j] != NEWLINE,
            lines_spec(input@) =~~= r.deep_view() + lines_spec(
                input@.subrange(start as int, input@.len() as int),
            ),
        decreases input.len() - i,
    {
        if input[i] == NEWLINE {
            let ghost suf = input@.subrange(start as int, input@.len() as int);
            let ghost r_prev = r.deep_view();
            proof {
                assert(forall|j: int|
                    0 <= j < i - start ==> #[trigger] suf[j] == input@[start + j]);
                lemma_find_byte_is(suf, NEWLINE, i - start);
                assert(suf.subrange(0, i - start) =~= input@.subrange(start as int, i as int));
                assert(suf.subrange(i - start + 1, suf.len() as int) =~= input@.subrange(
                    i as int + 1,
                    input@.len() as int,
                ));
            }
            let line = vstd::slice::slice_subrange(input, start, i);
            let line_vec = vstd::slice::slice_to_vec(line);
            r.push(line_vec);
            proof {
                assert(r.deep_view() =~~= r_prev.push(input@.subrange(start as int, i as int)));
                assert(lines_spec(suf) =~~= seq![input@.subrange(start as int, i as int)]
                    + lines_spec(input@.subrange(i as int + 1, input@.len() as int)));
                assert(lines_spec(input@) =~~= r.deep_view() + lines_spec(
                    input@.subrange(i as int + 1, input@.len() as int),
                ));
            }
            start = i + 1;
        }
        i += 1;
    }
    if start < input.len() {
        let ghost suf = input@.subrange(start as int, input@.len() as int);
        let ghost r_prev = r.deep_view();
        proof {
            assert(forall|j: int|
                0 <= j < suf.len() ==> #[trigger] suf[j] == input@[start + j]);
            lemma_find_byte_is(suf, NEWLINE, suf.len() as int);
        }
        let line = vstd::slice::slice_subrange(input, start, input.len());
        let line_vec = vstd::slice::slice_to_vec(line);
        r.push(line_vec);
        proof {
            assert(r.deep_view() =~~= r_prev.push(suf));
            assert(lines_spec(suf) =~~= seq![suf]);
            assert(lines_spec(input@) =~~= r.deep_view());
        }
    } else {
        proof {
            assert(input@.subrange(start as int, input@.len() as int).len() == 0);
            assert(lines_spec(input@) =~~= r.deep_view());
        }
    }
    proof {
        assert(r.deep_view() =~~= lines_spec(input@));
    }
    r
}

/// The separator `sep` occurs in `s` at offset `i`.
pub open spec fn is_match(s: Seq<u8>, sep: Seq<u8>, i: int) -> bool {
    0 <= i && i + sep.len() <= s.len() && s.subrange(i, i + sep.len() as int) == sep
}

/// Offset of the first occurrence of `sep` in `s`, or `s.len()` if none.
pub open spec fn find_sub(s: Seq<u8>, sep: Seq<u8>) -> int
    decreases s.len(),
{
    if s.len() < sep.len() {
        s.len() as int
    } else if s.subrange(0, sep.len() as int) == sep {
        0
    } else if s.len() == 0 {
        0
    } else {
        1 + find_sub(s.subrange(1, s.len() as int), sep)
    }
}

pub proof fn lemma_find_sub_is(s: Seq<u8>, sep: Seq<u8>, i: int)
    requires
        sep.len() >= 1,
        0 <= i <= s.len(),
        forall|j: int| 0 <= j < i ==> !is_match(s, sep, j),
        i < s.len() ==> is_match(s, sep, i),
    ensures
        find_sub(s, sep) == i,
    decreases i,
{
    if i == 0 {
        if s.len() < sep.len() {
            assert(!is_match(s, sep, 0));
            assert(i == s.len());
        } else if i < s.len() {
            assert(is_match(s, sep, 0));
            assert(s.subrange(0, sep.len() as int) == sep);
        } else {
            assert(s.len() == 0 && sep.len() >= 1);
        }
    } else {
        assert(!is_match(s, sep, 0));
        assert(s.len() >= i >= 1);
        if s.len() >= sep.len() {
            assert(s.subrange(0, sep.len() as int) != sep);
        }
        let t = s.subrange(1, s.len() as int);
        assert forall|j: int| 0 <= j < i - 1 implies !is_match(t, sep, j) by {
            if is_match(t, sep, j) {
                assert(t.subrange(j, j + sep.len() as int) =~= s.subrange(
                    j + 1,
                    j + 1 + sep.len() as int,
                ));
                assert(is_match(s, sep, j + 1));
            }
        }
        if i - 1 < t.len() {
            assert(is_match(s, sep, i));
            assert(s.subrange(i, i + sep.len() as int) =~= t.subrange(
                i - 1,
                i - 1 + sep.len() as int,
            ));
            assert(is_match(t, sep, i - 1));
        }
        lemma_find_sub_is(t, sep, i - 1);
    }
}

/// The pieces of `s` between non-overlapping occurrences of `sep`,
/// scanning left to right; empty pieces are kept.
pub open spec fn split_spec(s: Seq<u8>, sep: Seq<u8>) -> Seq<Seq<u8>>
    decreases s.len(),
    via split_spec_decreases
{
    if sep.len() == 0 {
        seq![s]
    } else {
        let i = find_sub(s, sep);
        if i == s.len() {
            seq![s]
        } else {
            seq![s.subrange(0, i)] + split_spec(
                s.subrange(i + sep.len() as int, s.len() as int),
                sep,
            )
        }
    }
}

#[via_fn]
proof fn split_spec_decreases(s: Seq<u8>, sep: Seq<u8>) {
    lemma_find_sub_range(s, sep);
    if sep.len() >= 1 {
        lemma_find_sub_match(s, sep);
    }
}

/// When `find_sub` points inside `s`, a genuine occurrence of `sep` is there.
pub proof fn lemma_find_sub_match(s: Seq<u8>, sep: Seq<u8>)
    requires
        sep.len() >= 1,
    ensures
        find_sub(s, sep) < s.len() ==> is_match(s, sep, find_sub(s, sep)),
    decreases s.len(),
{
    lemma_find_sub_range(s, sep);
    if s.len() >= sep.len() && s.subrange(0, sep.len() as int) != sep {
        let t = s.subrange(1, s.len() as int);
        lemma_find_sub_match(t, sep);
        lemma_find_sub_range(t, sep);
        let i = find_sub(t, sep);
        if i < t.len() {
            assert(t.subrange(i, i + sep.len() as int) =~= s.subrange(
                i + 1,
                i + 1 + sep.len() as int,
            ));
        }
    }
}

/// `sep` occurs in `s` at offset `i` (executable form).
pub fn match_at(s: &[u8], sep: &[u8], i: usize) -> (r: bool)
    requires
        i <= s@.len(),
    ensures
        r == is_match(s@, sep@, i as int),
{
    let n = s.len();
    if n - i < sep.len() {
        return false;
    }
    assert(s@.len() == n <= usize::MAX);
    let mut k: usize = 0;
    while k < sep.len()
        invariant
            0 <= k <= sep@.len(),
            i + sep@.len() <= s@.len() <= usize::MAX,
            forall|j: int| 0 <= j < k ==> s@[i + j] == sep@[j],
        decreases sep.len() - k,
    {
        assert(i + k < s@.len());
        if s[i + k] != sep[k] {
            assert(s@.subrange(i as int, i + sep@.len() as int)[k as int] != sep@[k as int]);
            return false;
        }
        k += 1;
    }
    proof {
        assert(s@.subrange(i as int, i + sep@.len() as int) =~= sep@);
    }
    true
}

/// Splits `s` at every non-overlapping occurrence of `sep`, left to right,
/// keeping empty pieces; the whole input if `sep` never occurs.
pub fn split_on(s: &[u8], sep: &[u8]) -> (r: Vec<Vec<u8>>)
    requires
        sep@.len() >= 1,
    ensures
        r.deep_view() == split_spec(s@, sep@),
{
    let mut r: Vec<Vec<u8>> = Vec::new();
    let mut start: usize = 0;
    let mut i: usize = 0;
    proof {
        assert(s@.subrange(0, s@.len() as int) =~= s@);
        assert(split_spec(s@, sep@) =~~= r.deep_view() + split_spec(s@, sep@));
    }
    loop
        invariant
            sep@.len() >= 1,
            0 <= start <= i <= s@.len(),
            forall|j: int| start <= j < i ==> !is_match(s@, sep@, j),
            split_spec(s@, sep@) =~~= r.deep_view() + split_spec(
                s@.subrange(start as int, s@.len() as int),
                sep@,
            ),
        decreases s@.len() - i,
    {
        if i >= s.len() || match_at(s, sep, i) {
            let ghost suf = s@.subrange(start as int, s@.len() as int);
            proof {
                assert forall|j: int| 0 <= j < i - start implies !is_match(suf, sep@, j) by {
                    if is_match(suf, sep@, j) {
                        assert(suf.subrange(j, j + sep@.len() as int) =~= s@.subrange(
                            start + j,
                            start + j + sep@.len() as int,
                        ));
                        assert(is_match(s@, sep@, start + j));
                    }
                }
                if i < s@.len() {
                    assert(is_match(s@, sep@, i as int));
                    assert(suf.subrange(i - start, i - start + sep@.len() as int) =~= s@.subrange(
                        i as int,
                        i + sep@.len() as int,
                    ));
                    assert(is_match(suf, sep@, i - start));
                    lemma_find_sub_is(suf, sep@, i - start);
                } else {
                    assert forall|j: int| 0 <= j < suf.len() implies !is_match(suf, sep@, j) by {
                        if is_match(suf, sep@, j) {
                            assert(suf.subrange(j, j + sep@.len() as int) =~= s@.subrange(
                                start + j,
                                start + j + sep@.len() as int,
                            ));
                            assert(is_match(s@, sep@, start + j));
                        }
                    }
                    lemma_find_sub_is(suf, sep@, suf.len() as int);
                }
            }
            if i >= s.len() {
                let ghost r_prev = r.deep_view();
                let piece = vstd::slice::slice_subrange(s, start, s.len());
                r.push(vstd::slice::slice_to_vec(piece));
                proof {
                    assert(r.deep_view() =~~= r_prev.push(suf));
                    assert(split_spec(suf, sep@) =~~= seq![suf]);
                    assert(r.deep_view() =~~= split_spec(s@, sep@));
                }
                return r;
            }
            let ghost r_prev = r.deep_view();
            proof {
                assert(suf.subrange(0, i - start) =~= s@.subrange(start as int, i as int));
                assert(suf.subrange(
                    i - start + sep@.len() as int,
                    suf.len() as int,
                ) =~= s@.subrange(i + sep@.len() as int, s@.len() as int));
            }
            let piece = vstd::slice::slice_subrange(s, start, i);
            r.push(vstd::slice::slice_to_vec(piece));
            proof {
                assert(r.deep_view() =~~= r_prev.push(s@.subrange(start as int, i as int)));
                assert(split_spec(suf, sep@) =~~= seq![s@.subrange(start as int, i as int)]
                    + split_spec(s@.subrange(i + sep@.len() as int, s@.len() as int), sep@));
                assert(split_spec(s@, sep@) =~~= r.deep_view() + split_spec(
                    s@.subrange(i + sep@.len() as int, s@.len() as int),
                    sep@,
                ));
            }
            start = i + sep.len();
            i = start;
        } else {
            i += 1;
        }
    }
}

/// Parses a non-empty unsigned decimal numeral.
pub fn parse_u64(s: &[u8]) -> (r: Result<u64, Error>)
    ensures
        r == parse_u64_spec(s@),
{
    if s.len() == 0 {
        return Err(Error::MalformedInput);
    }
    let mut i: usize = 0;
    while i < s.len()
        invariant
            0 <= i <= s@.len(),
            forall|j: int| 0 <= j < i ==> is_digit(#[trigger] s@[j]),
        decreases s.len() - i,
    {
        let b = s[i];
        if !(48 <= b && b <= 57) {
            assert(!all_digits(s@));
            return Err(Error::MalformedInput);
        }
        i += 1;
    }
    assert(all_digits(s@));
    let mut acc: u64 = 0;
    let mut i: usize = 0;
    while i < s.len()
        invariant
            0 <= i <= s@.len(),
            all_digits(s@),
            acc == digits_val(s@.subrange(0, i as int)),
        decreases s.len() - i,
    {
        let b = s[i];
        let d = (b - 48) as u64;
        let ghost pre = s@.subrange(0, i as int);
        let ghost cur = s@.subrange(0, i + 1);
        proof {
            assert(cur.drop_last() =~= pre);
            assert(cur.last() == s@[i as int]);
            assert(all_digits(pre)) by {
                assert(forall|j: int| 0 <= j < pre.len() ==> pre[j] == s@[j]);
            }
            lemma_digits_val_nonneg(pre);
        }
        if acc > (u64::MAX - d) / 10 {
            proof {
                assert(digits_val(cur) == acc * 10 + d);
                assert(digits_val(cur) > u64::MAX) by {
                    assert(acc >= (u64::MAX - d) / 10 + 1);
                    assert(((u64::MAX - d) / 10 + 1) * 10 + d > u64::MAX) by (nonlinear_arith)
                        requires
                            0 <= d <= 9,
                    ;
                    assert(acc * 10 >= ((u64::MAX - d) / 10 + 1) * 10) by (nonlinear_arith)
                        requires
                            acc >= (u64::MAX - d) / 10 + 1,
                    ;
                }
                lemma_digits_val_grows(s@, i + 1);
            }
            return Err(Error::Overflow);
        }
        proof {
            assert(acc * 10 + d <= u64::MAX) by {
                assert(acc <= (u64::MAX - d) / 10);
                assert(acc * 10 <= ((u64::MAX - d) / 10) * 10) by (nonlinear_arith)
                    requires
                        acc <= (u64::MAX - d) / 10,
                ;
                assert(((u64::MAX - d) / 10) * 10 + d <= u64::MAX) by (nonlinear_arith)
                    requires
                        0 <= d <= 9,
                ;
            }
        }
        acc = acc * 10 + d;
        i += 1;
    }
    proof {
        assert(s@.subrange(0, s@.len() as int) =~= s@);
    }
    Ok(acc)
}

/// Once a numeral's prefix exceeds `u64::MAX`, the whole numeral does.
proof fn lemma_digits_val_grows(s: Seq<u8>, i: int)
    requires
        0 <= i <= s.len(),
        all_digits(s),
    ensures
        digits_val(s) >= digits_val(s.subrange(0, i)),
    decreases s.len() - i,
{
    if i < s.len() {
        let a = s.subrange(0, i);
        let b = s.subrange(0, i + 1);
        assert(b.drop_last() =~= a);
        assert(all_digits(a)) by {
            assert(forall|j: int| 0 <= j < a.len() ==> a[j] == s[j]);
        }
        lemma_digits_val_nonneg(a);
        assert(digits_val(b) == digits_val(a) * 10 + (b.last() - 48));
        assert(digits_val(a) * 10 >= digits_val(a)) by (nonlinear_arith)
            requires
                digits_val(a) >= 0,
        ;
        lemma_digits_val_grows(s, i + 1);
    } else {
        assert(s.subrange(0, i) =~= s);
    }
}

/// Parses a signed decimal numeral: an optional leading minus sign
/// followed by a non-empty digit string.
pub fn parse_i64(s: &[u8]) -> (r: Result<i64, Error>)
    ensures
        r == parse_i64_spec(s@),
{
    if s.len() > 0 && s[0] == MINUS {
        let rest = vstd::slice::slice_subrange(s, 1, s.len());
        match parse_u64(rest) {
            Ok(v) => {
                proof {
                    lemma_digits_val_nonneg(rest@);
                    assert(rest@ =~= s@.subrange(1, s@.len() as int));
                    assert(v == digits_val(s@.subrange(1, s@.len() as int)));
                }
                if v <= i64::MAX as u64 {
                    assert(parse_i64_spec(s@) == Ok::<i64, Error>((-(v as int)) as i64));
                    Ok(-(v as i64))
                } else if v == 9223372036854775808u64 {
                    assert(parse_i64_spec(s@) == Ok::<i64, Error>(i64::MIN));
                    Ok(i64::MIN)
                } else {
                    Err(Error::Overflow)
                }
            },
            Err(e) => Err(e),
        }
    } else {
        match parse_u64(s) {
            Ok(v) => {
                proof {
                    lemma_digits_val_nonneg(s@);
                }
                if v <= i64::MAX as u64 {
                    assert(parse_i64_spec(s@) == Ok::<i64, Error>(v as i64));
                    Ok(v as i64)
                } else {
                    Err(Error::Overflow)
                }
            },
            Err(e) => Err(e),
        }
    }
}


/// Total number of bytes across a sequence of pieces.
pub open spec fn sum_lens(ps: Seq<Seq<u8>>) -> int
    decreases ps.len(),
{
    if ps.len() == 0 {
        0
    } else {
        sum_lens(ps.drop_last()) + ps.last().len()
    }
}

/// There are at most as many lines as bytes, no line is longer than the
/// input, and the lines' bytes never total more than the input's.
pub proof fn lemma_lines_bounds(s: Seq<u8>)
    ensures
        lines_spec(s).len() <= s.len(),
        forall|i: int| 0 <= i < lines_spec(s).len() ==> (#[trigger] lines_spec(s)[i]).len()
            <= s.len(),
        sum_lens(lines_spec(s)) <= s.len(),
    decreases s.len(),
{
    if s.len() > 0 {
        lemma_find_byte_range(s, NEWLINE);
        let i = find_byte(s, NEWLINE);
        if i == s.len() {
            assert(lines_spec(s) =~= seq![s]);
            lemma_sum_lens_singleton(s);
        } else {
            let suf = s.subrange(i + 1, s.len() as int);
            lemma_lines_bounds(suf);
            lemma_sum_lens_prepend(s.subrange(0, i), lines_spec(suf));
        }
    }
}

pub proof fn lemma_sum_lens_singleton(x: Seq<u8>)
    ensures
        sum_lens(seq![x]) == x.len(),
{
    let s1 = seq![x];
    assert(s1.len() == 1);
    assert(s1.last() == x);
    assert(s1.drop_last() =~= Seq::<Seq<u8>>::empty());
    assert(sum_lens(s1.drop_last()) == 0);
    assert(sum_lens(s1) == sum_lens(s1.drop_last()) + s1.last().len());
}

pub proof fn lemma_sum_lens_prepend(x: Seq<u8>, ps: Seq<Seq<u8>>)
    ensures
        sum_lens(seq![x] + ps) == x.len() + sum_lens(ps),
    decreases ps.len(),
{
    if ps.len() == 0 {
        assert(seq![x] + ps =~= seq![x]);
        lemma_sum_lens_singleton(x);
    } else {
        assert((seq![x] + ps).drop_last() =~= seq![x] + ps.drop_last());
        assert((seq![x] + ps).last() == ps.last());
        lemma_sum_lens_prepend(x, ps.drop_last());
    }
}

/// A prefix of a piece list never totals more bytes than the whole list.
pub proof fn lemma_sum_lens_prefix(ps: Seq<Seq<u8>>, i: int)
    requires
        0 <= i <= ps.len(),
    ensures
        sum_lens(ps.subrange(0, i)) <= sum_lens(ps),
    decreases ps.len() - i,
{
    if i < ps.len() {
        lemma_sum_lens_prefix(ps, i + 1);
        let a = ps.subrange(0, i);
        let b = ps.subrange(0, i + 1);
        assert(b.drop_last() =~= a);
        assert(sum_lens(b) == sum_lens(a) + ps[i].len());
    } else {
        assert(ps.subrange(0, i) =~= ps);
    }
}

/// Any middle stretch of pieces totals at most the whole list's bytes.
pub proof fn lemma_sum_lens_between(ps: Seq<Seq<u8>>, lo: int, hi: int)
    requires
        0 <= lo <= hi <= ps.len(),
    ensures
        0 <= sum_lens(ps.subrange(lo, hi)) <= sum_lens(ps),
    decreases lo,
{
    if lo == 0 {
        lemma_sum_lens_prefix(ps, hi);
        lemma_sum_lens_nonneg(ps.subrange(0, hi));
    } else {
        lemma_sum_lens_between(ps, lo - 1, hi);
        assert(ps.subrange(lo - 1, hi) =~= seq![ps[lo - 1]] + ps.subrange(lo, hi));
        lemma_sum_lens_prepend(ps[lo - 1], ps.subrange(lo, hi));
        lemma_sum_lens_nonneg(ps.subrange(lo, hi));
    }
}

pub proof fn lemma_sum_lens_nonneg(ps: Seq<Seq<u8>>)
    ensures
        sum_lens(ps) >= 0,
    decreases ps.len(),
{
    if ps.len() > 0 {
        lemma_sum_lens_nonneg(ps.drop_last());
    }
}

/// Splitting yields at most one more piece than there are bytes, and no
/// piece longer than the input.
pub proof fn lemma_split_bounds(s: Seq<u8>, sep: Seq<u8>)
    requires
        sep.len() >= 1,
    ensures
        split_spec(s, sep).len() <= s.len() + 1,
        forall|i: int| 0 <= i < split_spec(s, sep).len() ==> (#[trigger] split_spec(s, sep)[i]).len()
            <= s.len(),
    decreases s.len(),
{
    lemma_find_sub_range(s, sep);
    lemma_find_sub_match(s, sep);
    let i = find_sub(s, sep);
    if i < s.len() {
        let suf = s.subrange(i + sep.len() as int, s.len() as int);
        lemma_split_bounds(suf, sep);
    }
}

/// The non-empty pieces of a piece list, in order.
pub open spec fn fields_of(ps: Seq<Seq<u8>>) -> Seq<Seq<u8>>
    decreases ps.len(),
{
    if ps.len() == 0 {
        Seq::empty()
    } else {
        fields_of(ps.drop_last()) + (if ps.last().len() > 0 {
            seq![ps.last()]
        } else {
            Seq::empty()
        })
    }
}

pub proof fn lemma_fields_of_bounds(ps: Seq<Seq<u8>>)
    ensures
        fields_of(ps).len() <= ps.len(),
        forall|i: int| 0 <= i < fields_of(ps).len() ==> exists|j: int|
            0 <= j < ps.len() && #[trigger] fields_of(ps)[i] == ps[j],
    decreases ps.len(),
{
    if ps.len() > 0 {
        lemma_fields_of_bounds(ps.drop_last());
        assert forall|i: int| 0 <= i < fields_of(ps).len() implies exists|j: int|
            0 <= j < ps.len() && #[trigger] fields_of(ps)[i] == ps[j] by {
            if i < fields_of(ps.drop_last()).len() {
                let j = choose|j: int|
                    0 <= j < ps.drop_last().len() && #[trigger] fields_of(ps.drop_last())[i]
                        == ps.drop_last()[j];
                assert(fields_of(ps)[i] == ps[j]);
            } else {
                assert(fields_of(ps)[i] == ps[ps.len() - 1]);
            }
        }
    }
}

/// The maximal runs of non-space bytes of `s`, in order.
pub open spec fn fields_spec(s: Seq<u8>) -> Seq<Seq<u8>> {
    fields_of(split_spec(s, seq![32u8]))
}

/// Splits `s` into its space-separated fields, dropping empty ones, as
/// splitting on ASCII whitespace does for space-separated text.
pub fn split_fields(s: &[u8]) -> (r: Vec<Vec<u8>>)
    ensures
        r.deep_view() == fields_spec(s@),
{
    let sep: Vec<u8> = vec![32u8];
    proof {
        assert(sep@ =~= seq![32u8]);
    }
    let pieces = split_on(s, sep.as_slice());
    let ghost ps = split_spec(s@, seq![32u8]);
    let mut r: Vec<Vec<u8>> = Vec::new();
    let mut i: usize = 0;
    proof {
        assert(pieces.deep_view() == ps);
        assert(forall|k: int| 0 <= k < pieces@.len() ==> pieces@[k]@ == ps[k]);
        assert(r.deep_view() =~~= fields_of(ps.subrange(0, 0)));
    }
    while i < pieces.len()
        invariant
            0 <= i <= pieces@.len(),
            pieces@.len() == ps.len(),
            forall|k: int| 0 <= k < pieces@.len() ==> pieces@[k]@ == ps[k],
            r.deep_view() =~~= fields_of(ps.subrange(0, i as int)),
        decreases pieces@.len() - i,
    {
        let ghost pre = ps.subrange(0, i as int);
        let ghost cur = ps.subrange(0, i + 1);
        proof {
            assert(cur.drop_last() =~= pre);
            assert(cur.last() == ps[i as int]);
        }
        if pieces[i].len() > 0 {
            let ghost r_prev = r.deep_view();
            let piece = pieces[i].clone();
            proof {
                assert(piece@ == ps[i as int]);
            }
            r.push(piece);
            proof {
                assert(r.deep_view() =~~= r_prev.push(ps[i as int]));
                assert(fields_of(cur) =~= fields_of(pre) + seq![ps[i as int]]);
                assert(r.deep_view() =~~= fields_of(cur));
            }
        } else {
            proof {
                assert(fields_of(cur) =~= fields_of(pre));
            }
        }
        i += 1;
    }
    proof {
        assert(ps.subrange(0, ps.len() as int) =~= ps);
    }
    r
}


/// A sequence of machine integers read as mathematical integers.
pub open spec fn ints(s: Seq<i64>) -> Seq<int> {
    s.map_values(|x: i64| x as int)
}

/// What parsing every piece as a signed numeral yields: the values in
/// order, or the first error, scanning left to right.
pub open spec fn parse_i64_list(fs: Seq<Seq<u8>>) -> Result<Seq<int>, Error>
    decreases fs.len(),
{
    if fs.len() == 0 {
        Ok(Seq::empty())
    } else {
        match parse_i64_spec(fs[0]) {
            Err(e) => Err(e),
            Ok(v) => match parse_i64_list(fs.subrange(1, fs.len() as int)) {
                Err(e) => Err(e),
                Ok(rest) => Ok(seq![v as int] + rest),
            },
        }
    }
}

/// Parses every piece as a signed numeral, returning the first error.
pub fn parse_i64_all(fs: &Vec<Vec<u8>>) -> (r: Result<Vec<i64>, Error>)
    ensures
        r is Ok <==> parse_i64_list(fs.deep_view()) is Ok,
        r is Ok ==> ints(r.unwrap()@) == parse_i64_list(fs.deep_view()).unwrap(),
        r is Err ==> Err::<Seq<int>, Error>(r.unwrap_err()) == parse_i64_list(fs.deep_view()),
{
    let ghost fs0 = fs.deep_view();
    let mut acc: Vec<i64> = Vec::new();
    let mut j: usize = 0;
    proof {
        assert(fs0.subrange(0, fs0.len() as int) =~= fs0);
        assert(ints(acc@) =~= Seq::<int>::empty());
    }
    while j < fs.len()
        invariant
            0 <= j <= fs@.len(),
            fs@.len() == fs0.len(),
            fs0 == fs.deep_view(),
            forall|k: int| 0 <= k < fs@.len() ==> fs@[k]@ == fs0[k],
            ints(acc@).len() == j,
            parse_i64_list(fs0) == (match parse_i64_list(fs0.subrange(j as int, fs0.len() as int)) {
                Err(e) => Err::<Seq<int>, Error>(e),
                Ok(rest) => Ok(ints(acc@) + rest),
            }),
        decreases fs@.len() - j,
    {
        let ghost suf = fs0.subrange(j as int, fs0.len() as int);
        proof {
            assert(suf[0] == fs0[j as int]);
            assert(suf.subrange(1, suf.len() as int) =~= fs0.subrange(
                j + 1,
                fs0.len() as int,
            ));
        }
        match parse_i64(fs[j].as_slice()) {
            Err(e) => {
                return Err(e);
            },
            Ok(v) => {
                let ghost acc_prev = ints(acc@);
                acc.push(v);
                proof {
                    assert(ints(acc@) =~= acc_prev.push(v as int));
                    assert forall|rest: Seq<int>| true implies acc_prev + (seq![v as int] + rest)
                        =~= ints(acc@) + rest by {}
                }
            },
        }
        j += 1;
    }
    proof {
        assert(fs0.subrange(fs0.len() as int, fs0.len() as int).len() == 0);
        assert(parse_i64_list(fs0) == Ok::<Seq<int>, Error>(ints(acc@) + Seq::<int>::empty()));
        assert(ints(acc@) + Seq::<int>::empty() =~= ints(acc@));
    }
    Ok(acc)
}

} // verus!
