//! Calibration values: each line contributes ten times its first digit
//! plus its last digit; the answer is the sum over all lines.

use vstd::prelude::*;
use vstd::string::StringSliceAdditionalSpecFns;

use crate::error::Error;
use crate::text;

verus! {

/// The line holds at least one decimal digit.
pub open spec fn has_digit(s: Seq<u8>) -> bool {
    exists|i: int| 0 <= i < s.len() && text::is_digit(#[trigger] s[i])
}

/// Value of the first decimal digit of `s`.
pub open spec fn first_digit(s: Seq<u8>) -> int
    decreases s.len(),
{
    if s.len() == 0 {
        -1
    } else if text::is_digit(s[0]) {
        s[0] - 48
    } else {
        first_digit(s.subrange(1, s.len() as int))
    }
}

/// Value of the last decimal digit of `s`.
pub open spec fn last_digit(s: Seq<u8>) -> int
    decreases s.len(),
{
    if s.len() == 0 {
        -1
    } else if text::is_digit(s.last()) {
        s.last() - 48
    } else {
        last_digit(s.drop_last())
    }
}

/// Every line holds a digit.
pub open spec fn day01_ok(ls: Seq<Seq<u8>>) -> bool {
    forall|i: int| 0 <= i < ls.len() ==> has_digit(#[trigger] ls[i])
}

/// Sum of the lines' calibration values.
pub open spec fn day01_sum(ls: Seq<Seq<u8>>) -> int
    decreases ls.len(),
{
    if ls.len() == 0 {
        0
    } else {
        day01_sum(ls.drop_last()) + 10 * first_digit(ls.last()) + last_digit(ls.last())
    }
}

proof fn lemma_digit_vals(s: Seq<u8>)
    requires
        has_digit(s),
    ensures
        0 <= first_digit(s) <= 9,
        0 <= last_digit(s) <= 9,
    decreases s.len(),
{
    if !text::is_digit(s[0]) || !text::is_digit(s.last()) {
        if !text::is_digit(s[0]) {
            let t = s.subrange(1, s.len() as int);
            assert(has_digit(t)) by {
                let i = choose|i: int| 0 <= i < s.len() && text::is_digit(#[trigger] s[i]);
                assert(t[i - 1] == s[i]);
            }
            lemma_digit_vals(t);
        }
        if !text::is_digit(s.last()) {
            let t = s.drop_last();
            assert(has_digit(t)) by {
                let i = choose|i: int| 0 <= i < s.len() && text::is_digit(#[trigger] s[i]);
                assert(t[i] == s[i]);
            }
            lemma_digit_vals(t);
        }
    }
}

/// Finds the value of the first digit of `s`, scanning left to right.
fn scan_first(s: &[u8]) -> (r: Option<u64>)
    ensures
        r is Some <==> has_digit(s@),
        r is Some ==> r.unwrap() == first_digit(s@),
{
    let mut j: usize = 0;
    proof {
        assert(s@.subrange(0, s@.len() as int) =~= s@);
    }
    while j < s.len()
        invariant
            0 <= j <= s@.len(),
            forall|k: int| 0 <= k < j ==> !text::is_digit(#[trigger] s@[k]),
            first_digit(s@) == first_digit(s@.subrange(j as int, s@.len() as int)),
        decreases s@.len() - j,
    {
        let b = s[j];
        let ghost suf = s@.subrange(j as int, s@.len() as int);
        if 48 <= b && b <= 57 {
            proof {
                assert(suf[0] == b);
                assert(first_digit(suf) == b - 48);
            }
            return Some((b - 48) as u64);
        }
        proof {
            assert(suf[0] == s@[j as int]);
            assert(suf.subrange(1, suf.len() as int) =~= s@.subrange(
                j + 1,
                s@.len() as int,
            ));
        }
        j += 1;
    }
    proof {
        assert(s@.subrange(s@.len() as int, s@.len() as int).len() == 0);
        if has_digit(s@) {
            let i = choose|i: int| 0 <= i < s@.len() && text::is_digit(#[trigger] s@[i]);
            assert(false);
        }
    }
    None
}

/// Finds the value of the last digit of `s`, scanning right to left.
fn scan_last(s: &[u8]) -> (r: Option<u64>)
    ensures
        r is Some <==> has_digit(s@),
        r is Some ==> r.unwrap() == last_digit(s@),
{
    let mut j: usize = s.len();
    proof {
        assert(s@.subrange(0, s@.len() as int) =~= s@);
    }
    while j > 0
        invariant
            0 <= j <= s@.len(),
            forall|k: int| j <= k < s@.len() ==> !text::is_digit(#[trigger] s@[k]),
            last_digit(s@) == last_digit(s@.subrange(0, j as int)),
        decreases j,
    {
        let b = s[j - 1];
        let ghost pre = s@.subrange(0, j as int);
        if 48 <= b && b <= 57 {
            proof {
                assert(pre.last() == b);
                assert(last_digit(pre) == b - 48);
            }
            return Some((b - 48) as u64);
        }
        proof {
            assert(pre.last() == s@[j - 1]);
            assert(pre.drop_last() =~= s@.subrange(0, j - 1));
        }
        j -= 1;
    }
    proof {
        if has_digit(s@) {
            let i = choose|i: int| 0 <= i < s@.len() && text::is_digit(#[trigger] s@[i]);
            assert(false);
        }
    }
    None
}

/// Sum of the lines' calibration values: ten times the first digit of each
/// line plus its last.  `MalformedInput` exactly when a line has no digit;
/// `Overflow` only when the mathematical sum does not fit in a `u64`.
pub fn part_1(input: &str) -> (r: Result<u64, Error>)
    ensures
        ({
            let ls = text::lines_spec(input.spec_bytes());
            &&& (!day01_ok(ls) ==> r == Err::<u64, Error>(Error::MalformedInput))
            &&& (day01_ok(ls) ==> r == (if day01_sum(ls) <= u64::MAX {
                Ok::<u64, Error>(day01_sum(ls) as u64)
            } else {
                Err::<u64, Error>(Error::Overflow)
            }))
        }),
{
    let bytes = input.as_bytes();
    let lines = text::split_lines(bytes);
    let ghost ls = text::lines_spec(input.spec_bytes());
    proof {
        assert(lines.deep_view() == ls);
        assert(forall|k: int| 0 <= k < lines@.len() ==> lines@[k]@ == ls[k]);
        assert(ls.subrange(0, 0) =~= Seq::<Seq<u8>>::empty());
    }
    let mut total: u128 = 0;
    let mut i: usize = 0;
    while i < lines.len()
        invariant
            0 <= i <= lines@.len(),
            lines@.len() == ls.len(),
            ls == text::lines_spec(input.spec_bytes()),
            forall|k: int| 0 <= k < lines@.len() ==> lines@[k]@ == ls[k],
            forall|k: int| 0 <= k < i ==> has_digit(#[trigger] ls[k]),
            total == day01_sum(ls.subrange(0, i as int)),
            total <= 99 * (i as int),
        decreases lines@.len() - i,
    {
        let ghost pre = ls.subrange(0, i as int);
        let ghost cur = ls.subrange(0, i + 1);
        proof {
            assert(cur.drop_last() =~= pre);
            assert(cur.last() == ls[i as int]);
        }
        let a = match scan_first(lines[i].as_slice()) {
            Some(a) => a,
            None => {
                assert(!day01_ok(ls));
                return Err(Error::MalformedInput);
            },
        };
        let b = match scan_last(lines[i].as_slice()) {
            Some(b) => b,
            None => {
                assert(!day01_ok(ls));
                return Err(Error::MalformedInput);
            },
        };
        proof {
            lemma_digit_vals(ls[i as int]);
        }
        total = total + (10 * a + b) as u128;
        i += 1;
    }
    proof {
        assert(ls.subrange(0, ls.len() as int) =~= ls);
        assert(day01_ok(ls));
    }
    if total <= u64::MAX as u128 {
        Ok(total as u64)
    } else {
        Err(Error::Overflow)
    }
}


/// The spelled-out name of digit `n`, as bytes.
pub open spec fn spelled(n: int) -> Seq<u8> {
    if n == 0 {
        seq![122u8, 101u8, 114u8, 111u8]
    } else if n == 1 {
        seq![111u8, 110u8, 101u8]
    } else if n == 2 {
        seq![116u8, 119u8, 111u8]
    } else if n == 3 {
        seq![116u8, 104u8, 114u8, 101u8, 101u8]
    } else if n == 4 {
        seq![102u8, 111u8, 117u8, 114u8]
    } else if n == 5 {
        seq![102u8, 105u8, 118u8, 101u8]
    } else if n == 6 {
        seq![115u8, 105u8, 120u8]
    } else if n == 7 {
        seq![115u8, 101u8, 118u8, 101u8, 110u8]
    } else if n == 8 {
        seq![101u8, 105u8, 103u8, 104u8, 116u8]
    } else {
        seq![110u8, 105u8, 110u8, 101u8]
    }
}

/// The smallest digit whose name starts at offset `i` of `s`, or -1.
pub open spec fn word_at(s: Seq<u8>, i: int) -> int {
    if text::is_match(s, spelled(0), i) {
        0
    } else if text::is_match(s, spelled(1), i) {
        1
    } else if text::is_match(s, spelled(2), i) {
        2
    } else if text::is_match(s, spelled(3), i) {
        3
    } else if text::is_match(s, spelled(4), i) {
        4
    } else if text::is_match(s, spelled(5), i) {
        5
    } else if text::is_match(s, spelled(6), i) {
        6
    } else if text::is_match(s, spelled(7), i) {
        7
    } else if text::is_match(s, spelled(8), i) {
        8
    } else if text::is_match(s, spelled(9), i) {
        9
    } else {
        -1
    }
}

/// The smallest digit whose name ends at offset `j` of `s`, or -1.
pub open spec fn word_ending(s: Seq<u8>, j: int) -> int {
    if text::is_match(s, spelled(0), j + 1 - spelled(0).len()) {
        0
    } else if text::is_match(s, spelled(1), j + 1 - spelled(1).len()) {
        1
    } else if text::is_match(s, spelled(2), j + 1 - spelled(2).len()) {
        2
    } else if text::is_match(s, spelled(3), j + 1 - spelled(3).len()) {
        3
    } else if text::is_match(s, spelled(4), j + 1 - spelled(4).len()) {
        4
    } else if text::is_match(s, spelled(5), j + 1 - spelled(5).len()) {
        5
    } else if text::is_match(s, spelled(6), j + 1 - spelled(6).len()) {
        6
    } else if text::is_match(s, spelled(7), j + 1 - spelled(7).len()) {
        7
    } else if text::is_match(s, spelled(8), j + 1 - spelled(8).len()) {
        8
    } else if text::is_match(s, spelled(9), j + 1 - spelled(9).len()) {
        9
    } else {
        -1
    }
}

/// Value of the first digit or spelled digit starting at or after `i`.
pub open spec fn first_val2(s: Seq<u8>, i: int) -> int
    decreases s.len() - i,
{
    if i < 0 || i >= s.len() {
        -1
    } else if text::is_digit(s[i]) {
        s[i] - 48
    } else if word_at(s, i) >= 0 {
        word_at(s, i)
    } else {
        first_val2(s, i + 1)
    }
}

/// Value of the last digit or spelled digit ending at or before `j`.
pub open spec fn last_val2(s: Seq<u8>, j: int) -> int
    decreases j + 1,
{
    if j < 0 || j >= s.len() {
        -1
    } else if text::is_digit(s[j]) {
        s[j] - 48
    } else if word_ending(s, j) >= 0 {
        word_ending(s, j)
    } else {
        last_val2(s, j - 1)
    }
}

/// Every line holds a digit or a spelled digit.
pub open spec fn day01b_ok(ls: Seq<Seq<u8>>) -> bool {
    forall|i: int|
        0 <= i < ls.len() ==> first_val2(#[trigger] ls[i], 0) >= 0 && last_val2(
            ls[i],
            ls[i].len() - 1,
        ) >= 0
}

/// Sum of the lines' calibration values when words count as digits.
pub open spec fn day01b_sum(ls: Seq<Seq<u8>>) -> int
    decreases ls.len(),
{
    if ls.len() == 0 {
        0
    } else {
        day01b_sum(ls.drop_last()) + 10 * first_val2(ls.last(), 0) + last_val2(
            ls.last(),
            ls.last().len() - 1,
        )
    }
}

fn spelled_words() -> (r: Vec<Vec<u8>>)
    ensures
        r@.len() == 10,
        forall|n: int| 0 <= n < 10 ==> (#[trigger] r@[n])@ == spelled(n),
        forall|n: int| 0 <= n < 10 ==> 1 <= (#[trigger] r@[n])@.len() <= 5,
{
    let words: Vec<Vec<u8>> = vec![
        vec![122u8, 101u8, 114u8, 111u8],
        vec![111u8, 110u8, 101u8],
        vec![116u8, 119u8, 111u8],
        vec![116u8, 104u8, 114u8, 101u8, 101u8],
        vec![102u8, 111u8, 117u8, 114u8],
        vec![102u8, 105u8, 118u8, 101u8],
        vec![115u8, 105u8, 120u8],
        vec![115u8, 101u8, 118u8, 101u8, 110u8],
        vec![101u8, 105u8, 103u8, 104u8, 116u8],
        vec![110u8, 105u8, 110u8, 101u8],
    ];
    proof {
        assert(words@[0]@ =~= spelled(0));
        assert(words@[1]@ =~= spelled(1));
        assert(words@[2]@ =~= spelled(2));
        assert(words@[3]@ =~= spelled(3));
        assert(words@[4]@ =~= spelled(4));
        assert(words@[5]@ =~= spelled(5));
        assert(words@[6]@ =~= spelled(6));
        assert(words@[7]@ =~= spelled(7));
        assert(words@[8]@ =~= spelled(8));
        assert(words@[9]@ =~= spelled(9));
    }
    words
}

/// The smallest digit whose name starts at offset `i`, if any.
fn word_at_exec(s: &[u8], words: &Vec<Vec<u8>>, i: usize) -> (r: Option<u64>)
    requires
        i <= s@.len(),
        words@.len() == 10,
        forall|n: int| 0 <= n < 10 ==> (#[trigger] words@[n])@ == spelled(n),
    ensures
        r is Some <==> word_at(s@, i as int) >= 0,
        r is Some ==> r.unwrap() == word_at(s@, i as int),
{
    let mut n: usize = 0;
    while n < 10
        invariant
            0 <= n <= 10,
            i <= s@.len(),
            words@.len() == 10,
            forall|m: int| 0 <= m < 10 ==> (#[trigger] words@[m])@ == spelled(m),
            forall|m: int| 0 <= m < n ==> !text::is_match(s@, spelled(m), i as int),
        decreases 10 - n,
    {
        if text::match_at(s, words[n].as_slice(), i) {
            return Some(n as u64);
        }
        n += 1;
    }
    None
}

/// The smallest digit whose name ends at offset `j`, if any.
fn word_ending_exec(s: &[u8], words: &Vec<Vec<u8>>, j: usize) -> (r: Option<u64>)
    requires
        j < s@.len(),
        words@.len() == 10,
        forall|n: int| 0 <= n < 10 ==> (#[trigger] words@[n])@ == spelled(n),
        forall|n: int| 0 <= n < 10 ==> 1 <= (#[trigger] words@[n])@.len() <= 5,
    ensures
        r is Some <==> word_ending(s@, j as int) >= 0,
        r is Some ==> r.unwrap() == word_ending(s@, j as int),
{
    let slen = s.len();
    let mut n: usize = 0;
    while n < 10
        invariant
            0 <= n <= 10,
            j < s@.len(),
            s@.len() == slen <= usize::MAX,
            words@.len() == 10,
            forall|m: int| 0 <= m < 10 ==> (#[trigger] words@[m])@ == spelled(m),
            forall|m: int| 0 <= m < 10 ==> 1 <= (#[trigger] words@[m])@.len() <= 5,
            forall|m: int|
                0 <= m < n ==> !text::is_match(s@, spelled(m), j + 1 - spelled(m).len()),
        decreases 10 - n,
    {
        let w = words[n].as_slice();
        if w.len() <= j + 1 {
            if text::match_at(s, w, j + 1 - w.len()) {
                return Some(n as u64);
            }
        } else {
            proof {
                assert(!text::is_match(s@, spelled(n as int), j + 1 - spelled(n as int).len()));
            }
        }
        n += 1;
    }
    None
}

/// Value of the first digit or spelled digit of the line, if any.
fn scan_first2(s: &[u8], words: &Vec<Vec<u8>>) -> (r: Option<u64>)
    requires
        words@.len() == 10,
        forall|n: int| 0 <= n < 10 ==> (#[trigger] words@[n])@ == spelled(n),
        forall|n: int| 0 <= n < 10 ==> 1 <= (#[trigger] words@[n])@.len() <= 5,
    ensures
        r is Some <==> first_val2(s@, 0) >= 0,
        r is Some ==> r.unwrap() == first_val2(s@, 0) && r.unwrap() <= 9,
{
    let mut i: usize = 0;
    while i < s.len()
        invariant
            0 <= i <= s@.len(),
            words@.len() == 10,
            forall|n: int| 0 <= n < 10 ==> (#[trigger] words@[n])@ == spelled(n),
            forall|n: int| 0 <= n < 10 ==> 1 <= (#[trigger] words@[n])@.len() <= 5,
            first_val2(s@, 0) == first_val2(s@, i as int),
        decreases s@.len() - i,
    {
        let b = s[i];
        if 48 <= b && b <= 57 {
            return Some((b - 48) as u64);
        }
        match word_at_exec(s, words, i) {
            Some(n) => {
                return Some(n);
            },
            None => {},
        }
        i += 1;
    }
    None
}

/// Value of the last digit or spelled digit of the line, if any.
fn scan_last2(s: &[u8], words: &Vec<Vec<u8>>) -> (r: Option<u64>)
    requires
        words@.len() == 10,
        forall|n: int| 0 <= n < 10 ==> (#[trigger] words@[n])@ == spelled(n),
        forall|n: int| 0 <= n < 10 ==> 1 <= (#[trigger] words@[n])@.len() <= 5,
    ensures
        r is Some <==> last_val2(s@, s@.len() - 1) >= 0,
        r is Some ==> r.unwrap() == last_val2(s@, s@.len() - 1) && r.unwrap() <= 9,
{
    let mut j: usize = s.len();
    while j > 0
        invariant
            0 <= j <= s@.len(),
            words@.len() == 10,
            forall|n: int| 0 <= n < 10 ==> (#[trigger] words@[n])@ == spelled(n),
            forall|n: int| 0 <= n < 10 ==> 1 <= (#[trigger] words@[n])@.len() <= 5,
            last_val2(s@, s@.len() - 1) == last_val2(s@, j - 1),
        decreases j,
    {
        let b = s[j - 1];
        if 48 <= b && b <= 57 {
            return Some((b - 48) as u64);
        }
        match word_ending_exec(s, words, j - 1) {
            Some(n) => {
                return Some(n);
            },
            None => {},
        }
        j -= 1;
    }
    None
}

/// Sum of the lines' calibration values, where the first and last digit of
/// a line may also be spelled out (`one` through `nine`, and `zero`).
/// `MalformedInput` exactly when a line has neither; `Overflow` only when
/// the mathematical sum does not fit in a `u64`.
pub fn part_2(input: &str) -> (r: Result<u64, Error>)
    ensures
        ({
            let ls = text::lines_spec(input.spec_bytes());
            &&& (!day01b_ok(ls) ==> r == Err::<u64, Error>(Error::MalformedInput))
            &&& (day01b_ok(ls) ==> r == (if day01b_sum(ls) <= u64::MAX {
                Ok::<u64, Error>(day01b_sum(ls) as u64)
            } else {
                Err::<u64, Error>(Error::Overflow)
            }))
        }),
{
    let bytes = input.as_bytes();
    let lines = text::split_lines(bytes);
    let words = spelled_words();
    let ghost ls = text::lines_spec(input.spec_bytes());
    proof {
        assert(lines.deep_view() == ls);
        assert(forall|k: int| 0 <= k < lines@.len() ==> lines@[k]@ == ls[k]);
        assert(ls.subrange(0, 0) =~= Seq::<Seq<u8>>::empty());
    }
    let mut total: u128 = 0;
    let mut i: usize = 0;
    while i < lines.len()
        invariant
            0 <= i <= lines@.len(),
            lines@.len() == ls.len(),
            ls == text::lines_spec(input.spec_bytes()),
            forall|k: int| 0 <= k < lines@.len() ==> lines@[k]@ == ls[k],
            words@.len() == 10,
            forall|n: int| 0 <= n < 10 ==> (#[trigger] words@[n])@ == spelled(n),
            forall|n: int| 0 <= n < 10 ==> 1 <= (#[trigger] words@[n])@.len() <= 5,
            forall|k: int|
                0 <= k < i ==> first_val2(#[trigger] ls[k], 0) >= 0 && last_val2(
                    ls[k],
                    ls[k].len() - 1,
                ) >= 0,
            total == day01b_sum(ls.subrange(0, i as int)),
            total <= 99 * (i as int),
        decreases lines@.len() - i,
    {
        let ghost pre = ls.subrange(0, i as int);
        let ghost cur = ls.subrange(0, i + 1);
        proof {
            assert(cur.drop_last() =~= pre);
            assert(cur.last() == ls[i as int]);
        }
        let a = match scan_first2(lines[i].as_slice(), &words) {
            Some(a) => a,
            None => {
                assert(!day01b_ok(ls));
                return Err(Error::MalformedInput);
            },
        };
        let b = match scan_last2(lines[i].as_slice(), &words) {
            Some(b) => b,
            None => {
                assert(!day01b_ok(ls));
                return Err(Error::MalformedInput);
            },
        };
        total = total + (10 * a + b) as u128;
        i += 1;
    }
    proof {
        assert(ls.subrange(0, ls.len() as int) =~= ls);
        assert(day01b_ok(ls));
    }
    if total <= u64::MAX as u128 {
        Ok(total as u64)
    } else {
        Err(Error::Overflow)
    }
}

} // verus!
