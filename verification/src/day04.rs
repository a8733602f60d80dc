//! Scratchcards: each line lists winning numbers, a bar, and the numbers
//! you have.  A card with `n` distinct winning numbers among yours scores
//! two to the power `n - 1` (nothing for no match); the answer sums the
//! scores.

use vstd::prelude::*;
use vstd::string::StringSliceAdditionalSpecFns;

use crate::error::Error;
use crate::text;

verus! {

/// The field value `x` occurs in the list.
pub open spec fn in_list(fs: Seq<Seq<u8>>, x: Seq<u8>) -> bool {
    exists|k: int| 0 <= k < fs.len() && fs[k] == x
}

/// Number of distinct values among the first `i` winning fields that also
/// occur among ours.
pub open spec fn inter_count(w: Seq<Seq<u8>>, o: Seq<Seq<u8>>, i: int) -> int
    decreases i,
{
    if i <= 0 {
        0
    } else {
        inter_count(w, o, i - 1) + if in_list(o, w[i - 1]) && !in_list(
            w.subrange(0, i - 1),
            w[i - 1],
        ) {
            1int
        } else {
            0int
        }
    }
}

/// How many of a card's distinct winning numbers it holds.
pub open spec fn card_count(line: Seq<u8>) -> Result<int, Error> {
    let pieces = text::split_spec(line, seq![58u8, 32u8]);
    if pieces.len() < 2 {
        Err(Error::MalformedInput)
    } else {
        let sides = text::split_spec(pieces[1], seq![32u8, 124u8, 32u8]);
        if sides.len() != 2 {
            Err(Error::MalformedInput)
        } else {
            let w = text::fields_spec(sides[0]);
            let o = text::fields_spec(sides[1]);
            Ok(inter_count(w, o, w.len() as int))
        }
    }
}

/// Two to the `e`-th power.
pub open spec fn pow2(e: int) -> int
    decreases e,
{
    if e <= 0 {
        1
    } else {
        2 * pow2(e - 1)
    }
}

/// What one card scores: nothing without a match, else a doubling per
/// extra match; more than 64 matches leaves a `u64`.
pub open spec fn card_points(line: Seq<u8>) -> Result<int, Error> {
    match card_count(line) {
        Err(e) => Err(e),
        Ok(n) => if n == 0 {
            Ok(0)
        } else if n > 64 {
            Err(Error::Overflow)
        } else {
            Ok(pow2(n - 1))
        },
    }
}

/// Sum of the first `i` cards' points, or the first card's error.
pub open spec fn day04_sum(ls: Seq<Seq<u8>>, i: int) -> Result<int, Error>
    decreases i,
{
    if i <= 0 {
        Ok(0)
    } else {
        match day04_sum(ls, i - 1) {
            Err(e) => Err(e),
            Ok(acc) => match card_points(ls[i - 1]) {
                Err(e) => Err(e),
                Ok(v) => Ok(acc + v),
            },
        }
    }
}

/// What the scratchcard answer is over the raw input text.
pub open spec fn day04_result(bytes: Seq<u8>) -> Result<u64, Error> {
    let ls = text::lines_spec(bytes);
    match day04_sum(ls, ls.len() as int) {
        Err(e) => Err(e),
        Ok(v) => if v <= u64::MAX {
            Ok(v as u64)
        } else {
            Err(Error::Overflow)
        },
    }
}

fn field_eq(a: &[u8], b: &[u8]) -> (r: bool)
    ensures
        r == (a@ == b@),
{
    if a.len() != b.len() {
        return false;
    }
    let m = text::match_at(a, b, 0);
    proof {
        if text::is_match(a@, b@, 0) {
            assert(a@.subrange(0, b@.len() as int) =~= a@);
        }
        if a@ == b@ {
            assert(a@.subrange(0, b@.len() as int) =~= b@);
        }
    }
    m
}

/// The field occurs in the list (executable).
fn occurs(fs: &Vec<Vec<u8>>, x: &[u8]) -> (r: bool)
    ensures
        r == in_list(fs.deep_view(), x@),
{
    let ghost fv = fs.deep_view();
    proof {
        assert(forall|k: int| 0 <= k < fs@.len() ==> fs@[k]@ == fv[k]);
    }
    let mut k: usize = 0;
    while k < fs.len()
        invariant
            0 <= k <= fs@.len(),
            fv == fs.deep_view(),
            fs@.len() == fv.len(),
            forall|j: int| 0 <= j < fs@.len() ==> fs@[j]@ == fv[j],
            forall|j: int| 0 <= j < k ==> fv[j] != x@,
        decreases fs@.len() - k,
    {
        if field_eq(fs[k].as_slice(), x) {
            proof {
                assert(fv[k as int] == x@);
            }
            return true;
        }
        k += 1;
    }
    false
}

/// A failing card fails the whole sum.
proof fn lemma_day04_err(ls: Seq<Seq<u8>>, i: int, n: int)
    requires
        0 <= i <= n,
        day04_sum(ls, i) is Err,
    ensures
        day04_sum(ls, n) == day04_sum(ls, i),
    decreases n - i,
{
    if i < n {
        lemma_day04_err(ls, i + 1, n);
    }
}

/// Sum of the cards' points.
pub fn part_1(input: &str) -> (r: Result<u64, Error>)
    ensures
        r == day04_result(input.spec_bytes()),
{
    let bytes = input.as_bytes();
    let lines = text::split_lines(bytes);
    let gsep: Vec<u8> = vec![58u8, 32u8];
    let bsep: Vec<u8> = vec![32u8, 124u8, 32u8];
    let ghost ls = text::lines_spec(input.spec_bytes());
    proof {
        assert(gsep@ =~= seq![58u8, 32u8]);
        assert(bsep@ =~= seq![32u8, 124u8, 32u8]);
        assert(lines.deep_view() == ls);
        assert(forall|k: int| 0 <= k < lines@.len() ==> lines@[k]@ == ls[k]);
    }
    let mut total: u128 = 0;
    let mut i: usize = 0;
    while i < lines.len()
        invariant
            0 <= i <= lines@.len(),
            lines@.len() == ls.len(),
            ls == text::lines_spec(input.spec_bytes()),
            forall|k: int| 0 <= k < lines@.len() ==> lines@[k]@ == ls[k],
            gsep@ == seq![58u8, 32u8],
            bsep@ == seq![32u8, 124u8, 32u8],
            day04_sum(ls, i as int) == Ok::<int, Error>(total as int),
            total <= (i as int) * 0xffff_ffff_ffff_ffff,
        decreases lines@.len() - i,
    {
        let pieces = text::split_on(lines[i].as_slice(), gsep.as_slice());
        let ghost pv = text::split_spec(ls[i as int], seq![58u8, 32u8]);
        proof {
            assert(pieces.deep_view() == pv);
            assert(forall|k: int| 0 <= k < pieces@.len() ==> pieces@[k]@ == pv[k]);
        }
        if pieces.len() < 2 {
            proof {
                assert(card_points(ls[i as int]) == Err::<int, Error>(Error::MalformedInput));
                lemma_day04_err(ls, i as int + 1, ls.len() as int);
            }
            return Err(Error::MalformedInput);
        }
        let sides = text::split_on(pieces[1].as_slice(), bsep.as_slice());
        let ghost sv = text::split_spec(pv[1], seq![32u8, 124u8, 32u8]);
        proof {
            assert(sides.deep_view() == sv);
            assert(forall|k: int| 0 <= k < sides@.len() ==> sides@[k]@ == sv[k]);
        }
        if sides.len() != 2 {
            proof {
                assert(card_points(ls[i as int]) == Err::<int, Error>(Error::MalformedInput));
                lemma_day04_err(ls, i as int + 1, ls.len() as int);
            }
            return Err(Error::MalformedInput);
        }
        let w = text::split_fields(sides[0].as_slice());
        let o = text::split_fields(sides[1].as_slice());
        let ghost wv = text::fields_spec(sv[0]);
        let ghost ov = text::fields_spec(sv[1]);
        proof {
            assert(w.deep_view() == wv);
            assert(o.deep_view() == ov);
            assert(forall|k: int| 0 <= k < w@.len() ==> w@[k]@ == wv[k]);
        }
        // count the distinct winning fields we hold
        let mut n: u64 = 0;
        let mut k: usize = 0;
        while k < w.len()
            invariant
                0 <= k <= w@.len(),
                wv == w.deep_view(),
                ov == o.deep_view(),
                w@.len() == wv.len(),
                forall|j: int| 0 <= j < w@.len() ==> w@[j]@ == wv[j],
                n == inter_count(wv, ov, k as int),
                n <= k,
            decreases w@.len() - k,
        {
            let x = w[k].as_slice();
            proof {
                assert(x@ == wv[k as int]);
            }
            let fresh = !occurs_prefix(&w, k, x);
            if fresh && occurs(&o, x) {
                n += 1;
            }
            proof {
                assert(fresh == !in_list(wv.subrange(0, k as int), wv[k as int]));
            }
            k += 1;
        }
        proof {
            assert(n as int == inter_count(wv, ov, wv.len() as int));
        }
        let v: u64;
        if n == 0 {
            v = 0;
        } else if n > 64 {
            proof {
                assert(card_points(ls[i as int]) == Err::<int, Error>(Error::Overflow));
                lemma_day04_err(ls, i as int + 1, ls.len() as int);
            }
            return Err(Error::Overflow);
        } else {
            let mut p: u64 = 1;
            let mut e: u64 = 0;
            while e < n - 1
                invariant
                    0 <= e <= n - 1,
                    1 <= n <= 64,
                    p == pow2(e as int),
                    p <= 0x8000_0000_0000_0000,
                decreases n - e,
            {
                proof {
                    lemma_pow2_bound(e as int + 1);
                }
                p = 2 * p;
                e += 1;
            }
            v = p;
            proof {
                assert(card_points(ls[i as int]) == Ok::<int, Error>(v as int));
            }
        }
        proof {
            assert(card_points(ls[i as int]) == Ok::<int, Error>(v as int));
        }
        total = total + v as u128;
        i += 1;
    }
    proof {
        assert(total == day04_sum(ls, ls.len() as int).unwrap());
    }
    if total <= u64::MAX as u128 {
        Ok(total as u64)
    } else {
        Err(Error::Overflow)
    }
}

/// Two to a power up to 63 fits in a `u64`.
proof fn lemma_pow2_bound(e: int)
    requires
        0 <= e <= 63,
    ensures
        0 < pow2(e) <= 0x8000_0000_0000_0000,
{
    lemma_pow2_pos(e);
    lemma_pow2_mono(e, 63);
    assert(pow2(63) == 0x8000_0000_0000_0000) by {
        reveal_with_fuel(pow2, 64);
    }
}

proof fn lemma_pow2_mono(a: int, b: int)
    requires
        0 <= a <= b,
    ensures
        pow2(a) <= pow2(b),
    decreases b - a,
{
    if a < b {
        lemma_pow2_mono(a, b - 1);
        lemma_pow2_pos(b - 1);
    }
}

proof fn lemma_pow2_pos(e: int)
    ensures
        pow2(e) >= 1,
    decreases e,
{
    if e > 0 {
        lemma_pow2_pos(e - 1);
    }
}

/// The field occurs among the first `k` fields (executable).
fn occurs_prefix(fs: &Vec<Vec<u8>>, k: usize, x: &[u8]) -> (r: bool)
    requires
        k <= fs@.len(),
    ensures
        r == in_list(fs.deep_view().subrange(0, k as int), x@),
{
    let ghost fv = fs.deep_view();
    let ghost pre = fv.subrange(0, k as int);
    proof {
        assert(forall|j: int| 0 <= j < fs@.len() ==> fs@[j]@ == fv[j]);
        assert(forall|j: int| 0 <= j < k ==> pre[j] == fv[j]);
    }
    let mut j: usize = 0;
    while j < k
        invariant
            0 <= j <= k <= fs@.len(),
            fv == fs.deep_view(),
            pre == fv.subrange(0, k as int),
            fs@.len() == fv.len(),
            forall|t: int| 0 <= t < fs@.len() ==> fs@[t]@ == fv[t],
            forall|t: int| 0 <= t < k ==> pre[t] == fv[t],
            forall|t: int| 0 <= t < j ==> pre[t] != x@,
        decreases k - j,
    {
        if field_eq(fs[j].as_slice(), x) {
            proof {
                assert(pre[j as int] == x@);
            }
            return true;
        }
        j += 1;
    }
    proof {
        if in_list(pre, x@) {
            let t = choose|t: int| 0 <= t < pre.len() && pre[t] == x@;
            assert(false);
        }
    }
    false
}

} // verus!
