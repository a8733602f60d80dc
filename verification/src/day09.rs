//! Extrapolating numeric histories: repeatedly take pairwise differences
//! until a row is constant, then extend every row by one value forwards
//! (the sum of the rows' last elements) or backwards (the alternating
//! difference of the rows' first elements).

use vstd::prelude::*;
use vstd::string::StringSliceAdditionalSpecFns;

use crate::error::Error;
use crate::text;

verus! {

/// The pairwise differences of a row.
pub open spec fn diffs_exact(s: Seq<int>) -> Seq<int> {
    Seq::new((s.len() - 1) as nat, |i: int| s[i + 1] - s[i])
}

/// All elements of the row are equal.
pub open spec fn all_same(s: Seq<int>) -> bool {
    forall|i: int, j: int| 0 <= i < s.len() && 0 <= j < s.len() ==> s[i] == s[j]
}

/// Every element fits in an `i64`.
pub open spec fn in_i64(s: Seq<int>) -> bool {
    forall|i: int| 0 <= i < s.len() ==> i64::MIN <= #[trigger] s[i] <= i64::MAX
}

/// Sum of the last elements of the difference rows from `t` downwards,
/// stopping at the first constant row.
pub open spec fn extra_last(t: Seq<int>) -> int
    decreases t.len(),
    via extra_last_decreases
{
    if t.len() == 0 {
        0
    } else {
        t.last() + if all_same(t) {
            0int
        } else {
            extra_last(diffs_exact(t))
        }
    }
}

#[via_fn]
proof fn extra_last_decreases(t: Seq<int>) {
    lemma_not_all_same_len(t);
}

/// Alternating difference of the first elements of the difference rows
/// from `t` downwards, stopping at the first constant row.
pub open spec fn extra_first(t: Seq<int>) -> int
    decreases t.len(),
    via extra_first_decreases
{
    if t.len() == 0 {
        0
    } else {
        t.first() - if all_same(t) {
            0int
        } else {
            extra_first(diffs_exact(t))
        }
    }
}

#[via_fn]
proof fn extra_first_decreases(t: Seq<int>) {
    lemma_not_all_same_len(t);
}

proof fn lemma_not_all_same_len(t: Seq<int>)
    ensures
        !all_same(t) ==> t.len() >= 2,
{
    if t.len() < 2 {
        assert(all_same(t));
    }
}

/// Every difference row from `t` downwards fits in `i64` rows.
pub open spec fn rows_ok(t: Seq<int>) -> bool
    decreases t.len(),
    via rows_ok_decreases
{
    if t.len() == 0 || all_same(t) {
        true
    } else {
        in_i64(diffs_exact(t)) && rows_ok(diffs_exact(t))
    }
}

#[via_fn]
proof fn rows_ok_decreases(t: Seq<int>) {
    lemma_not_all_same_len(t);
}

/// The pairwise differences of a row; `Overflow` exactly when one of them
/// leaves the `i64` range.
pub fn get_differences(seq: &[i64]) -> (r: Result<Vec<i64>, Error>)
    requires
        seq@.len() >= 1,
    ensures
        r is Ok <==> in_i64(diffs_exact(text::ints(seq@))),
        r is Ok ==> text::ints(r.unwrap()@) == diffs_exact(text::ints(seq@)),
        r is Ok ==> r.unwrap()@.len() == seq@.len() - 1,
        r is Err ==> r == Err::<Vec<i64>, Error>(Error::Overflow),
{
    let ghost sv = text::ints(seq@);
    let mut out: Vec<i64> = Vec::new();
    let mut i: usize = 0;
    while i < seq.len() - 1
        invariant
            0 <= i <= sv.len() - 1,
            sv == text::ints(seq@),
            sv.len() == seq@.len() >= 1,
            out@.len() == i,
            forall|k: int| 0 <= k < i ==> out@[k] as int == diffs_exact(sv)[k],
        decreases seq@.len() - 1 - i,
    {
        let d: i128 = seq[i + 1] as i128 - seq[i] as i128;
        if d < i64::MIN as i128 || d > i64::MAX as i128 {
            proof {
                assert(diffs_exact(sv)[i as int] == sv[i + 1] - sv[i as int]);
                assert(!in_i64(diffs_exact(sv)));
            }
            return Err(Error::Overflow);
        }
        out.push(d as i64);
        i += 1;
    }
    proof {
        assert(text::ints(out@) =~= diffs_exact(sv));
        assert(in_i64(diffs_exact(sv)));
    }
    Ok(out)
}

fn all_same_i64(s: &[i64]) -> (r: bool)
    ensures
        r == all_same(text::ints(s@)),
{
    if s.len() == 0 {
        return true;
    }
    let first = s[0];
    let mut i: usize = 1;
    while i < s.len()
        invariant
            1 <= i <= s@.len(),
            first == s@[0],
            forall|k: int| 0 <= k < i ==> s@[k] == first,
        decreases s@.len() - i,
    {
        if s[i] != first {
            proof {
                let sv = text::ints(s@);
                assert(sv[0] != sv[i as int]);
            }
            return false;
        }
        i += 1;
    }
    proof {
        let sv = text::ints(s@);
        assert forall|a: int, b: int| 0 <= a < sv.len() && 0 <= b < sv.len() implies sv[a]
            == sv[b] by {
            assert(s@[a] == first && s@[b] == first);
        }
    }
    true
}

pub const I64_MAG: i128 = 0x8000_0000_0000_0000;

/// The forward extension of row `t`: the sum of the last elements of its
/// difference rows, stopping at the first constant one.
fn extrap_last(t: &Vec<i64>) -> (r: Result<i128, Error>)
    ensures
        r is Ok <==> rows_ok(text::ints(t@)),
        r is Ok ==> r.unwrap() == extra_last(text::ints(t@)),
        r is Ok ==> -(t@.len() as int) * I64_MAG <= r.unwrap() <= (t@.len() as int) * I64_MAG,
        r is Err ==> r == Err::<i128, Error>(Error::Overflow),
    decreases t@.len(),
{
    let n = t.len();
    if n == 0 {
        return Ok(0);
    }
    if all_same_i64(t.as_slice()) {
        proof {
            assert((1int) * I64_MAG <= (t@.len() as int) * I64_MAG) by (nonlinear_arith)
                requires
                    t@.len() >= 1,
            ;
        }
        return Ok(t[n - 1] as i128);
    }
    let d = match get_differences(t.as_slice()) {
        Ok(d) => d,
        Err(e) => {
            return Err(e);
        },
    };
    match extrap_last(&d) {
        Err(e) => Err(e),
        Ok(sub) => {
            proof {
                assert((t@.len() - 1) * I64_MAG + I64_MAG == (t@.len() as int) * I64_MAG)
                    by (nonlinear_arith)
                ;
            }
            Ok(t[n - 1] as i128 + sub)
        },
    }
}

/// The backward extension of row `t`: the alternating difference of the
/// first elements of its difference rows.
fn extrap_first(t: &Vec<i64>) -> (r: Result<i128, Error>)
    ensures
        r is Ok <==> rows_ok(text::ints(t@)),
        r is Ok ==> r.unwrap() == extra_first(text::ints(t@)),
        r is Ok ==> -(t@.len() as int) * I64_MAG <= r.unwrap() <= (t@.len() as int) * I64_MAG,
        r is Err ==> r == Err::<i128, Error>(Error::Overflow),
    decreases t@.len(),
{
    let n = t.len();
    if n == 0 {
        return Ok(0);
    }
    if all_same_i64(t.as_slice()) {
        proof {
            assert((1int) * I64_MAG <= (t@.len() as int) * I64_MAG) by (nonlinear_arith)
                requires
                    t@.len() >= 1,
            ;
        }
        return Ok(t[0] as i128);
    }
    let d = match get_differences(t.as_slice()) {
        Ok(d) => d,
        Err(e) => {
            return Err(e);
        },
    };
    match extrap_first(&d) {
        Err(e) => Err(e),
        Ok(sub) => {
            proof {
                assert((t@.len() - 1) * I64_MAG + I64_MAG == (t@.len() as int) * I64_MAG)
                    by (nonlinear_arith)
                ;
            }
            Ok(t[0] as i128 - sub)
        },
    }
}

/// What one history line contributes: its parsed values extended by one,
/// or the first error met while reading or extending it.
pub open spec fn line_result(line: Seq<u8>, backward: bool) -> Result<int, Error> {
    match text::parse_i64_list(text::fields_spec(line)) {
        Err(e) => Err(e),
        Ok(vals) => if vals.len() < 2 {
            Err(Error::MalformedInput)
        } else {
            let d = diffs_exact(vals);
            if in_i64(d) && rows_ok(d) {
                let a = if backward {
                    vals.first() - extra_first(d)
                } else {
                    vals.last() + extra_last(d)
                };
                if i64::MIN <= a <= i64::MAX {
                    Ok(a)
                } else {
                    Err(Error::Overflow)
                }
            } else {
                Err(Error::Overflow)
            }
        },
    }
}

/// Sum of the lines' contributions, or the first line's error.
pub open spec fn day09_sum(ls: Seq<Seq<u8>>, backward: bool) -> Result<int, Error>
    decreases ls.len(),
{
    if ls.len() == 0 {
        Ok(0)
    } else {
        match line_result(ls[0], backward) {
            Err(e) => Err(e),
            Ok(v) => match day09_sum(ls.subrange(1, ls.len() as int), backward) {
                Err(e) => Err(e),
                Ok(rest) => Ok(v + rest),
            },
        }
    }
}

fn day09_run(input: &str, backward: bool) -> (r: Result<i64, Error>)
    ensures
        ({
            let t = day09_sum(text::lines_spec(input.spec_bytes()), backward);
            match t {
                Err(e) => r == Err::<i64, Error>(e),
                Ok(total) => r == (if i64::MIN <= total <= i64::MAX {
                    Ok::<i64, Error>(total as i64)
                } else {
                    Err::<i64, Error>(Error::Overflow)
                }),
            }
        }),
{
    let bytes = input.as_bytes();
    let lines = text::split_lines(bytes);
    let ghost ls = text::lines_spec(input.spec_bytes());
    proof {
        assert(lines.deep_view() == ls);
        assert(forall|k: int| 0 <= k < lines@.len() ==> lines@[k]@ == ls[k]);
        assert(ls.subrange(0, ls.len() as int) =~= ls);
    }
    let mut total: i128 = 0;
    let mut i: usize = 0;
    while i < lines.len()
        invariant
            0 <= i <= lines@.len(),
            lines@.len() == ls.len(),
            ls == text::lines_spec(input.spec_bytes()),
            forall|k: int| 0 <= k < lines@.len() ==> lines@[k]@ == ls[k],
            -(i as int) * I64_MAG <= total <= (i as int) * I64_MAG,
            day09_sum(ls, backward) == (match day09_sum(
                ls.subrange(i as int, ls.len() as int),
                backward,
            ) {
                Err(e) => Err::<int, Error>(e),
                Ok(rest) => Ok(total + rest),
            }),
        decreases lines@.len() - i,
    {
        let ghost suf = ls.subrange(i as int, ls.len() as int);
        proof {
            assert(suf[0] == ls[i as int]);
            assert(suf.subrange(1, suf.len() as int) =~= ls.subrange(i + 1, ls.len() as int));
        }
        let fields = text::split_fields(lines[i].as_slice());
        let vals = match text::parse_i64_all(&fields) {
            Ok(vals) => vals,
            Err(e) => {
                return Err(e);
            },
        };
        if vals.len() < 2 {
            return Err(Error::MalformedInput);
        }
        let d = match get_differences(vals.as_slice()) {
            Ok(d) => d,
            Err(e) => {
                return Err(e);
            },
        };
        let sub = if backward {
            match extrap_first(&d) {
                Ok(s) => s,
                Err(e) => {
                    return Err(e);
                },
            }
        } else {
            match extrap_last(&d) {
                Ok(s) => s,
                Err(e) => {
                    return Err(e);
                },
            }
        };
        proof {
            assert(d@.len() < vals@.len());
            assert(-(vals@.len() as int) * I64_MAG <= sub <= (vals@.len() as int) * I64_MAG)
                by (nonlinear_arith)
                requires
                    -(d@.len() as int) * I64_MAG <= sub <= (d@.len() as int) * I64_MAG,
                    d@.len() < vals@.len(),
                    I64_MAG > 0,
            ;
        }
        let a: i128 = if backward {
            vals[0] as i128 - sub
        } else {
            vals[vals.len() - 1] as i128 + sub
        };
        if a < -I64_MAG || a > I64_MAG - 1 {
            return Err(Error::Overflow);
        }
        proof {
            let lr = line_result(ls[i as int], backward);
            assert(text::ints(vals@).first() == vals@[0] as int);
            assert(text::ints(vals@).last() == vals@[vals@.len() - 1] as int);
            assert(lr == Ok::<int, Error>(a as int));
            assert(-(i as int + 1) * I64_MAG <= total + a <= (i as int + 1) * I64_MAG)
                by (nonlinear_arith)
                requires
                    -(i as int) * I64_MAG <= total <= (i as int) * I64_MAG,
                    -I64_MAG <= a <= I64_MAG,
            ;
        }
        total = total + a;
        i += 1;
    }
    proof {
        assert(ls.subrange(ls.len() as int, ls.len() as int).len() == 0);
    }
    if total < -I64_MAG || total > I64_MAG - 1 {
        Err(Error::Overflow)
    } else {
        Ok(total as i64)
    }
}

/// Sum over all lines of the next (forward) extrapolated value.
pub fn part_1(input: &str) -> (r: Result<i64, Error>)
    ensures
        ({
            let t = day09_sum(text::lines_spec(input.spec_bytes()), false);
            match t {
                Err(e) => r == Err::<i64, Error>(e),
                Ok(total) => r == (if i64::MIN <= total <= i64::MAX {
                    Ok::<i64, Error>(total as i64)
                } else {
                    Err::<i64, Error>(Error::Overflow)
                }),
            }
        }),
{
    day09_run(input, false)
}

/// Sum over all lines of the previous (backward) extrapolated value.
pub fn part_2(input: &str) -> (r: Result<i64, Error>)
    ensures
        ({
            let t = day09_sum(text::lines_spec(input.spec_bytes()), true);
            match t {
                Err(e) => r == Err::<i64, Error>(e),
                Ok(total) => r == (if i64::MIN <= total <= i64::MAX {
                    Ok::<i64, Error>(total as i64)
                } else {
                    Err::<i64, Error>(Error::Overflow)
                }),
            }
        }),
{
    day09_run(input, true)
}

} // verus!
