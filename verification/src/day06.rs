//! Toy boat races: holding the button for `k` of the `t` race milliseconds
//! covers `k * (t - k)` distance.  The answer multiplies, over all races,
//! the number of hold times that beat the record distance.

use vstd::prelude::*;
use vstd::string::StringSliceAdditionalSpecFns;

use crate::error::Error;
use crate::text;

verus! {

/// Number of hold times below `i` that beat distance `d` in a `t`-long race.
pub open spec fn wins_upto(t: int, d: int, i: int) -> int
    decreases i,
{
    if i <= 0 {
        0
    } else {
        wins_upto(t, d, i - 1) + if (i - 1) * (t - (i - 1)) > d {
            1int
        } else {
            0int
        }
    }
}

/// Number of winning hold times for a race of time `t` and record `d`.
pub open spec fn race_wins(t: int, d: int) -> int {
    wins_upto(t, d, t)
}

proof fn lemma_wins_bounds(t: int, d: int, i: int)
    requires
        i >= 0,
    ensures
        0 <= wins_upto(t, d, i) <= i,
    decreases i,
{
    if i > 0 {
        lemma_wins_bounds(t, d, i - 1);
    }
}

/// Counts the hold times that beat the record, exactly.
pub fn count_wins(t: u64, d: u64) -> (r: u64)
    ensures
        r == race_wins(t as int, d as int),
{
    let mut cnt: u64 = 0;
    let mut k: u64 = 0;
    while k < t
        invariant
            0 <= k <= t,
            cnt == wins_upto(t as int, d as int, k as int),
            cnt <= k,
        decreases t - k,
    {
        proof {
            lemma_wins_bounds(t as int, d as int, k as int);
            assert((k as int) * ((t - k) as int) <= 0xffffffffffffffff * 0xffffffffffffffff)
                by (nonlinear_arith)
                requires
                    0 <= k as int <= 0xffffffffffffffff,
                    0 <= (t - k) as int <= 0xffffffffffffffff,
            ;
        }
        if (k as u128) * ((t - k) as u128) > d as u128 {
            proof {
                assert((k as int) * (t - k) as int > d);
            }
            cnt = cnt + 1;
        }
        k = k + 1;
    }
    cnt
}

/// The digit value of field `i` of a field list.
pub open spec fn fval(fs: Seq<Seq<u8>>, i: int) -> int {
    text::digits_val(fs[i])
}

/// The `i`-th fields of both lines are non-empty digit strings.
pub open spec fn numeral_pair(f0: Seq<Seq<u8>>, f1: Seq<Seq<u8>>, i: int) -> bool {
    f0[i].len() > 0 && text::all_digits(f0[i]) && f1[i].len() > 0 && text::all_digits(f1[i])
}

/// Fields `1..n` of both lines are non-empty digit strings.
pub open spec fn day06_digits_ok(f0: Seq<Seq<u8>>, f1: Seq<Seq<u8>>, n: int) -> bool {
    forall|i: int| 1 <= i < n ==> #[trigger] numeral_pair(f0, f1, i)
}

/// The `i`-th values of both lines fit in a `u64`.
pub open spec fn pair_fits(f0: Seq<Seq<u8>>, f1: Seq<Seq<u8>>, i: int) -> bool {
    fval(f0, i) <= u64::MAX && fval(f1, i) <= u64::MAX
}

/// The parsed race times and records all fit in a `u64`.
pub open spec fn day06_fits_ok(f0: Seq<Seq<u8>>, f1: Seq<Seq<u8>>, n: int) -> bool {
    forall|i: int| 1 <= i < n ==> #[trigger] pair_fits(f0, f1, i)
}

/// Product of the win counts of races `1 .. i`.
pub open spec fn prefix_prod(f0: Seq<Seq<u8>>, f1: Seq<Seq<u8>>, i: int) -> int
    decreases i,
{
    if i <= 1 {
        1
    } else {
        prefix_prod(f0, f1, i - 1) * race_wins(fval(f0, i - 1), fval(f1, i - 1))
    }
}

proof fn lemma_prod_nonneg(f0: Seq<Seq<u8>>, f1: Seq<Seq<u8>>, i: int)
    ensures
        prefix_prod(f0, f1, i) >= 0,
    decreases i,
{
    if i > 1 {
        lemma_prod_nonneg(f0, f1, i - 1);
        let w = race_wins(fval(f0, i - 1), fval(f1, i - 1));
        if fval(f0, i - 1) >= 0 {
            lemma_wins_bounds(fval(f0, i - 1), fval(f1, i - 1), fval(f0, i - 1));
        } else {
            assert(w == 0);
        }
        assert(prefix_prod(f0, f1, i - 1) * w >= 0) by (nonlinear_arith)
            requires
                prefix_prod(f0, f1, i - 1) >= 0,
                w >= 0,
        ;
    }
}

proof fn lemma_prod_zero(f0: Seq<Seq<u8>>, f1: Seq<Seq<u8>>, z: int, i: int)
    requires
        1 <= z < i,
        race_wins(fval(f0, z), fval(f1, z)) == 0,
    ensures
        prefix_prod(f0, f1, i) == 0,
    decreases i,
{
    if i - 1 == z {
    } else {
        lemma_prod_zero(f0, f1, z, i - 1);
    }
}

proof fn lemma_prod_monotone(f0: Seq<Seq<u8>>, f1: Seq<Seq<u8>>, i: int, j: int)
    requires
        1 <= i <= j,
        forall|k: int| i <= k < j ==> #[trigger] race_wins(fval(f0, k), fval(f1, k)) >= 1,
    ensures
        prefix_prod(f0, f1, j) >= prefix_prod(f0, f1, i),
    decreases j - i,
{
    if i < j {
        lemma_prod_monotone(f0, f1, i, j - 1);
        lemma_prod_nonneg(f0, f1, i);
        let w = race_wins(fval(f0, j - 1), fval(f1, j - 1));
        assert(prefix_prod(f0, f1, j - 1) * w >= prefix_prod(f0, f1, j - 1)) by (nonlinear_arith)
            requires
                prefix_prod(f0, f1, j - 1) >= 0,
                w >= 1,
        ;
    }
}

/// What the races answer is, over the raw input text.
///
/// The input must be exactly two lines, a label field followed by the race
/// times on the first and the records on the second; race `i` pairs the
/// two lines' `i`-th numeric fields, unpaired trailing fields are ignored.
pub open spec fn day06_result(bytes: Seq<u8>) -> Result<u64, Error> {
    let ls = text::lines_spec(bytes);
    if ls.len() != 2 {
        Err(Error::MalformedInput)
    } else {
        let f0 = text::fields_spec(ls[0]);
        let f1 = text::fields_spec(ls[1]);
        let n = if f0.len() <= f1.len() {
            f0.len() as int
        } else {
            f1.len() as int
        };
        if !day06_digits_ok(f0, f1, n) {
            Err(Error::MalformedInput)
        } else if !day06_fits_ok(f0, f1, n) {
            Err(Error::Overflow)
        } else if prefix_prod(f0, f1, n) > u64::MAX {
            Err(Error::Overflow)
        } else {
            Ok(prefix_prod(f0, f1, n) as u64)
        }
    }
}

/// Product over all races of the number of winning hold times.
pub fn part_1(input: &str) -> (r: Result<u64, Error>)
    ensures
        r == day06_result(input.spec_bytes()),
{
    let bytes = input.as_bytes();
    let lines = text::split_lines(bytes);
    let ghost ls = text::lines_spec(input.spec_bytes());
    proof {
        assert(lines.deep_view() == ls);
        assert(forall|k: int| 0 <= k < lines@.len() ==> lines@[k]@ == ls[k]);
    }
    if lines.len() != 2 {
        return Err(Error::MalformedInput);
    }
    let v0 = text::split_fields(lines[0].as_slice());
    let v1 = text::split_fields(lines[1].as_slice());
    let ghost f0 = text::fields_spec(ls[0]);
    let ghost f1 = text::fields_spec(ls[1]);
    proof {
        assert(v0.deep_view() == f0);
        assert(v1.deep_view() == f1);
        assert(forall|k: int| 0 <= k < v0@.len() ==> v0@[k]@ == f0[k]);
        assert(forall|k: int| 0 <= k < v1@.len() ==> v1@[k]@ == f1[k]);
    }
    let n = if v0.len() <= v1.len() {
        v0.len()
    } else {
        v1.len()
    };
    // first pass: every paired field must be a numeral
    let mut i: usize = 1;
    while i < n
        invariant
            1 <= i <= n || (n < 1 && i == 1),
            ls == text::lines_spec(input.spec_bytes()),
            ls.len() == 2,
            f0 == text::fields_spec(ls[0]),
            f1 == text::fields_spec(ls[1]),
            n as int == (if f0.len() <= f1.len() { f0.len() as int } else { f1.len() as int }),
            n <= v0@.len() && n <= v1@.len(),
            forall|k: int| 0 <= k < v0@.len() ==> v0@[k]@ == f0[k],
            forall|k: int| 0 <= k < v1@.len() ==> v1@[k]@ == f1[k],
            forall|k: int| 1 <= k < i ==> #[trigger] numeral_pair(f0, f1, k),
        decreases n - i,
    {
        let a = v0[i].as_slice();
        let b = v1[i].as_slice();
        let ok0 = all_digits_exec(a);
        let ok1 = all_digits_exec(b);
        proof {
            assert(a@ == f0[i as int]);
            assert(b@ == f1[i as int]);
        }
        if !ok0 || a.len() == 0 || !ok1 || b.len() == 0 {
            proof {
                assert(!numeral_pair(f0, f1, i as int));
                assert(!day06_digits_ok(f0, f1, n as int));
            }
            return Err(Error::MalformedInput);
        }
        proof {
            assert(numeral_pair(f0, f1, i as int));
        }
        i += 1;
    }
    assert(day06_digits_ok(f0, f1, n as int));
    // second pass: parse the values, which may still be too large
    let mut times: Vec<u64> = Vec::new();
    let mut dists: Vec<u64> = Vec::new();
    let mut i: usize = 1;
    while i < n
        invariant
            1 <= i <= n || (n < 1 && i == 1),
            ls == text::lines_spec(input.spec_bytes()),
            ls.len() == 2,
            f0 == text::fields_spec(ls[0]),
            f1 == text::fields_spec(ls[1]),
            n as int == (if f0.len() <= f1.len() { f0.len() as int } else { f1.len() as int }),
            n <= v0@.len() && n <= v1@.len(),
            forall|k: int| 0 <= k < v0@.len() ==> v0@[k]@ == f0[k],
            forall|k: int| 0 <= k < v1@.len() ==> v1@[k]@ == f1[k],
            day06_digits_ok(f0, f1, n as int),
            times@.len() == i - 1 && dists@.len() == i - 1,
            forall|k: int| 1 <= k < i ==> #[trigger] pair_fits(f0, f1, k),
            forall|k: int| 0 <= k < times@.len() ==> #[trigger] times@[k] == fval(f0, k + 1),
            forall|k: int| 0 <= k < dists@.len() ==> #[trigger] dists@[k] == fval(f1, k + 1),
        decreases n - i,
    {
        proof {
            assert(numeral_pair(f0, f1, i as int));
        }
        let t = match text::parse_u64(v0[i].as_slice()) {
            Ok(t) => t,
            Err(_) => {
                proof {
                    text::lemma_digits_val_nonneg(f0[i as int]);
                    assert(!pair_fits(f0, f1, i as int));
                    assert(!day06_fits_ok(f0, f1, n as int));
                }
                return Err(Error::Overflow);
            },
        };
        let d = match text::parse_u64(v1[i].as_slice()) {
            Ok(d) => d,
            Err(_) => {
                proof {
                    text::lemma_digits_val_nonneg(f1[i as int]);
                    assert(!pair_fits(f0, f1, i as int));
                    assert(!day06_fits_ok(f0, f1, n as int));
                }
                return Err(Error::Overflow);
            },
        };
        proof {
            text::lemma_digits_val_nonneg(f0[i as int]);
            text::lemma_digits_val_nonneg(f1[i as int]);
        }
        proof {
            assert(pair_fits(f0, f1, i as int));
        }
        times.push(t);
        dists.push(d);
        i += 1;
    }
    assert(day06_fits_ok(f0, f1, n as int));
    // third pass: count the wins of each race
    let mut wins: Vec<u64> = Vec::new();
    let mut i: usize = 0;
    while i < times.len()
        invariant
            0 <= i <= times@.len(),
            times@.len() == dists@.len(),
            wins@.len() == i,
            forall|k: int|
                0 <= k < i ==> #[trigger] wins@[k] == race_wins(
                    times@[k] as int,
                    dists@[k] as int,
                ),
        decreases times@.len() - i,
    {
        let w = count_wins(times[i], dists[i]);
        wins.push(w);
        i += 1;
    }
    // fourth pass: a race nobody can win makes the whole product zero
    let ghost nn = n as int;
    let mut i: usize = 0;
    while i < wins.len()
        invariant
            0 <= i <= wins@.len(),
            ls == text::lines_spec(input.spec_bytes()),
            ls.len() == 2,
            f0 == text::fields_spec(ls[0]),
            f1 == text::fields_spec(ls[1]),
            nn == (if f0.len() <= f1.len() { f0.len() as int } else { f1.len() as int }),
            day06_digits_ok(f0, f1, nn),
            day06_fits_ok(f0, f1, nn),
            wins@.len() == nn - 1 || (nn < 1 && wins@.len() == 0),
            times@.len() == wins@.len() && dists@.len() == wins@.len(),
            forall|k: int|
                0 <= k < wins@.len() ==> #[trigger] wins@[k] == race_wins(
                    times@[k] as int,
                    dists@[k] as int,
                ),
            forall|k: int| 0 <= k < times@.len() ==> #[trigger] times@[k] == fval(f0, k + 1),
            forall|k: int| 0 <= k < dists@.len() ==> #[trigger] dists@[k] == fval(f1, k + 1),
            forall|k: int| 0 <= k < i ==> #[trigger] wins@[k] >= 1,
        decreases wins@.len() - i,
    {
        if wins[i] == 0 {
            proof {
                lemma_prod_zero(f0, f1, i as int + 1, nn);
            }
            return Ok(0);
        }
        i += 1;
    }
    // fifth pass: multiply, watching for overflow
    let mut acc: u128 = 1;
    let mut i: usize = 0;
    while i < wins.len()
        invariant
            0 <= i <= wins@.len(),
            ls == text::lines_spec(input.spec_bytes()),
            ls.len() == 2,
            f0 == text::fields_spec(ls[0]),
            f1 == text::fields_spec(ls[1]),
            nn == (if f0.len() <= f1.len() { f0.len() as int } else { f1.len() as int }),
            day06_digits_ok(f0, f1, nn),
            day06_fits_ok(f0, f1, nn),
            wins@.len() == nn - 1 || (nn < 1 && wins@.len() == 0),
            times@.len() == wins@.len() && dists@.len() == wins@.len(),
            forall|k: int|
                0 <= k < wins@.len() ==> #[trigger] wins@[k] == race_wins(
                    times@[k] as int,
                    dists@[k] as int,
                ),
            forall|k: int| 0 <= k < times@.len() ==> #[trigger] times@[k] == fval(f0, k + 1),
            forall|k: int| 0 <= k < dists@.len() ==> #[trigger] dists@[k] == fval(f1, k + 1),
            forall|k: int| 0 <= k < wins@.len() ==> #[trigger] wins@[k] >= 1,
            acc == prefix_prod(f0, f1, i as int + 1),
            acc <= u64::MAX,
        decreases wins@.len() - i,
    {
        let w = wins[i];
        proof {
            assert((acc as int) * (w as int) <= 0xffffffffffffffff * 0xffffffffffffffff)
                by (nonlinear_arith)
                requires
                    0 <= acc as int <= 0xffffffffffffffff,
                    0 <= w as int <= 0xffffffffffffffff,
            ;
        }
        let next: u128 = acc * (w as u128);
        proof {
            assert(acc * (w as u128) == prefix_prod(f0, f1, i as int + 2)) by (nonlinear_arith)
                requires
                    acc == prefix_prod(f0, f1, i as int + 1),
                    w == race_wins(fval(f0, i as int + 1), fval(f1, i as int + 1)),
                    next == acc * (w as u128),
            ;
        }
        if next > u64::MAX as u128 {
            proof {
                assert forall|k: int| i as int + 2 <= k < nn implies #[trigger] race_wins(
                    fval(f0, k),
                    fval(f1, k),
                ) >= 1 by {
                    assert(wins@[k - 1] >= 1);
                }
                if prefix_prod(f0, f1, nn) <= u64::MAX {
                    lemma_prod_monotone(f0, f1, i as int + 2, nn);
                    assert(false);
                }
            }
            return Err(Error::Overflow);
        }
        acc = next;
        i += 1;
    }
    proof {
        if nn >= 1 {
            assert(acc == prefix_prod(f0, f1, nn));
        } else {
            assert(acc == 1 && prefix_prod(f0, f1, nn) == 1);
        }
    }
    Ok(acc as u64)
}

fn all_digits_exec(s: &[u8]) -> (r: bool)
    ensures
        r == text::all_digits(s@),
{
    let mut i: usize = 0;
    while i < s.len()
        invariant
            0 <= i <= s@.len(),
            forall|k: int| 0 <= k < i ==> text::is_digit(#[trigger] s@[k]),
        decreases s@.len() - i,
    {
        let b = s[i];
        if !(48 <= b && b <= 57) {
            return false;
        }
        i += 1;
    }
    true
}

/// Concatenation of the numeric fields: the one big race read with the
/// spaces ignored.
pub open spec fn joined(fs: Seq<Seq<u8>>) -> Seq<u8>
    decreases fs.len(),
{
    if fs.len() <= 1 {
        Seq::empty()
    } else {
        joined(fs.drop_last()) + fs.last()
    }
}

/// What the single big race's answer is, over the raw input text.
pub open spec fn day06_part2_result(bytes: Seq<u8>) -> Result<u64, Error> {
    let ls = text::lines_spec(bytes);
    if ls.len() != 2 {
        Err(Error::MalformedInput)
    } else {
        let a = joined(text::fields_spec(ls[0]));
        let b = joined(text::fields_spec(ls[1]));
        match text::parse_u64_spec(a) {
            Err(e) => Err(e),
            Ok(t) => match text::parse_u64_spec(b) {
                Err(e) => Err(e),
                Ok(d) => Ok(race_wins(t as int, d as int) as u64),
            },
        }
    }
}

fn join_fields(v: &Vec<Vec<u8>>) -> (r: Vec<u8>)
    ensures
        r@ == joined(v.deep_view()),
{
    let ghost fs = v.deep_view();
    let mut out: Vec<u8> = Vec::new();
    let mut i: usize = 1;
    proof {
        assert(forall|k: int| 0 <= k < v@.len() ==> v@[k]@ == fs[k]);
        assert(fs.subrange(0, if fs.len() >= 1 { 1int } else { 0int }).len() <= 1);
        assert(out@ =~= joined(fs.subrange(0, if fs.len() >= 1 { 1int } else { 0int })));
    }
    if v.len() <= 1 {
        proof {
            assert(joined(fs).len() == 0);
            assert(out@ =~= joined(fs));
        }
        return out;
    }
    while i < v.len()
        invariant
            1 <= i <= v@.len(),
            fs == v.deep_view(),
            fs.len() == v@.len(),
            forall|k: int| 0 <= k < v@.len() ==> v@[k]@ == fs[k],
            out@ == joined(fs.subrange(0, i as int)),
        decreases v@.len() - i,
    {
        let ghost pre = fs.subrange(0, i as int);
        let ghost cur = fs.subrange(0, i + 1);
        proof {
            assert(cur.drop_last() =~= pre);
            assert(cur.last() == fs[i as int]);
        }
        let ghost out_prev = out@;
        let piece = v[i].clone();
        proof {
            assert(piece@ == fs[i as int]);
        }
        let mut j: usize = 0;
        while j < piece.len()
            invariant
                0 <= j <= piece@.len(),
                out@ == out_prev + piece@.subrange(0, j as int),
            decreases piece@.len() - j,
        {
            out.push(piece[j]);
            proof {
                assert(out@ =~= out_prev + piece@.subrange(0, j + 1));
            }
            j += 1;
        }
        proof {
            assert(piece@.subrange(0, piece@.len() as int) =~= piece@);
            assert(out@ =~= joined(cur));
        }
        i += 1;
    }
    proof {
        assert(fs.subrange(0, fs.len() as int) =~= fs);
    }
    out
}

/// The one big race: all digits of each line read as a single numeral.
pub fn part_2(input: &str) -> (r: Result<u64, Error>)
    ensures
        r == day06_part2_result(input.spec_bytes()),
{
    let bytes = input.as_bytes();
    let lines = text::split_lines(bytes);
    let ghost ls = text::lines_spec(input.spec_bytes());
    proof {
        assert(lines.deep_view() == ls);
        assert(forall|k: int| 0 <= k < lines@.len() ==> lines@[k]@ == ls[k]);
    }
    if lines.len() != 2 {
        return Err(Error::MalformedInput);
    }
    let v0 = text::split_fields(lines[0].as_slice());
    let v1 = text::split_fields(lines[1].as_slice());
    let a = join_fields(&v0);
    let b = join_fields(&v1);
    let t = match text::parse_u64(a.as_slice()) {
        Ok(t) => t,
        Err(e) => {
            return Err(e);
        },
    };
    let d = match text::parse_u64(b.as_slice()) {
        Ok(d) => d,
        Err(e) => {
            return Err(e);
        },
    };
    proof {
        text::lemma_digits_val_nonneg(joined(text::fields_spec(ls[0])));
        lemma_wins_bounds(t as int, d as int, t as int);
    }
    Ok(count_wins(t, d))
}

} // verus!
