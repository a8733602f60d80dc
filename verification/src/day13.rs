//! Mirrors in ash-and-rock patterns.  Each blank-line-separated block is a
//! rectangular grid; the answer finds the reflection line whose mirrored
//! halves differ in exactly the wanted number of cells (none for a clean
//! mirror, one for the smudged variant), scoring a horizontal line at a
//! hundred times its row index and a vertical one at its column index.

use vstd::prelude::*;
use vstd::string::StringSliceAdditionalSpecFns;

use crate::error::Error;
use crate::text;

verus! {

/// Largest input accepted; keeps every mismatch count within a `u64`.
pub const DAY13_INPUT_LIMIT: usize = 0x10_0000;

/// Index of the first blank line, or the number of lines if none.
pub open spec fn find_blank(ls: Seq<Seq<u8>>) -> int
    decreases ls.len(),
{
    if ls.len() == 0 {
        0
    } else if ls[0].len() == 0 {
        0
    } else {
        1 + find_blank(ls.subrange(1, ls.len() as int))
    }
}

pub proof fn lemma_find_blank_is(ls: Seq<Seq<u8>>, i: int)
    requires
        0 <= i <= ls.len(),
        forall|j: int| 0 <= j < i ==> (#[trigger] ls[j]).len() > 0,
        i < ls.len() ==> ls[i].len() == 0,
    ensures
        find_blank(ls) == i,
    decreases i,
{
    if i == 0 {
        if ls.len() > 0 && ls[0].len() > 0 {
            assert(false);
        }
    } else {
        let t = ls.subrange(1, ls.len() as int);
        assert(forall|j: int| 0 <= j < i - 1 ==> #[trigger] t[j] == ls[j + 1]);
        lemma_find_blank_is(t, i - 1);
    }
}

proof fn lemma_find_blank_range(ls: Seq<Seq<u8>>)
    ensures
        0 <= find_blank(ls) <= ls.len(),
    decreases ls.len(),
{
    if ls.len() > 0 && ls[0].len() > 0 {
        lemma_find_blank_range(ls.subrange(1, ls.len() as int));
    }
}

/// The blocks of non-blank lines; reading stops at a doubled blank line.
pub open spec fn blocks_of(ls: Seq<Seq<u8>>) -> Seq<Seq<Seq<u8>>>
    decreases ls.len(),
    via blocks_of_decreases
{
    if ls.len() == 0 {
        Seq::empty()
    } else {
        let i = find_blank(ls);
        if i == 0 {
            Seq::empty()
        } else if i == ls.len() {
            seq![ls]
        } else {
            seq![ls.subrange(0, i)] + blocks_of(ls.subrange(i + 1, ls.len() as int))
        }
    }
}

#[via_fn]
proof fn blocks_of_decreases(ls: Seq<Seq<u8>>) {
    lemma_find_blank_range(ls);
}

/// The block is a non-empty rectangle.
pub open spec fn block_ok(b: Seq<Seq<u8>>) -> bool {
    &&& b.len() >= 1
    &&& b[0].len() >= 1
    &&& forall|i: int| 0 <= i < b.len() ==> (#[trigger] b[i]).len() == b[0].len()
}

/// Number of columns `< j` where rows `r1` and `r2` differ.
pub open spec fn row_mismatch_upto(b: Seq<Seq<u8>>, r1: int, r2: int, j: int) -> int
    decreases j,
{
    if j <= 0 {
        0
    } else {
        row_mismatch_upto(b, r1, r2, j - 1) + if b[r1][j - 1] == b[r2][j - 1] {
            0int
        } else {
            1int
        }
    }
}

/// Number of rows `< i` where columns `c1` and `c2` differ.
pub open spec fn col_mismatch_upto(b: Seq<Seq<u8>>, c1: int, c2: int, i: int) -> int
    decreases i,
{
    if i <= 0 {
        0
    } else {
        col_mismatch_upto(b, c1, c2, i - 1) + if b[i - 1][c1] == b[i - 1][c2] {
            0int
        } else {
            1int
        }
    }
}

/// Total mismatches between the rows mirrored around the line above row
/// `c`, pairing rows `a` and `c`, then `a-1` and `c+1`, and so on.
pub open spec fn mirror_rows(b: Seq<Seq<u8>>, a: int, c: int) -> int
    decreases a + 1,
{
    if a < 0 || c >= b.len() {
        0
    } else {
        row_mismatch_upto(b, a, c, b[0].len() as int) + mirror_rows(b, a - 1, c + 1)
    }
}

/// Total mismatches between the columns mirrored around column `c`.
pub open spec fn mirror_cols(b: Seq<Seq<u8>>, a: int, c: int) -> int
    decreases a + 1,
{
    if a < 0 || c >= b[0].len() {
        0
    } else {
        col_mismatch_upto(b, a, c, b.len() as int) + mirror_cols(b, a - 1, c + 1)
    }
}

/// The least row index `>= r` whose mirror differs in exactly `wanted`
/// cells, or -1.
pub open spec fn find_h_from(b: Seq<Seq<u8>>, wanted: int, r: int) -> int
    decreases b.len() - r,
{
    if r < 1 || r >= b.len() {
        -1
    } else if mirror_rows(b, r - 1, r) == wanted {
        r
    } else {
        find_h_from(b, wanted, r + 1)
    }
}

/// The least column index `>= c` whose mirror differs in exactly `wanted`
/// cells, or -1.
pub open spec fn find_v_from(b: Seq<Seq<u8>>, wanted: int, c: int) -> int
    decreases b[0].len() - c,
{
    if c < 1 || c >= b[0].len() {
        -1
    } else if mirror_cols(b, c - 1, c) == wanted {
        c
    } else {
        find_v_from(b, wanted, c + 1)
    }
}

/// What one block scores: a hundred times its horizontal mirror row, else
/// its vertical mirror column; a block with neither, or a ragged block, is
/// malformed.
pub open spec fn block_value(b: Seq<Seq<u8>>, wanted: int) -> Result<int, Error> {
    if !block_ok(b) {
        Err(Error::MalformedInput)
    } else {
        let h = find_h_from(b, wanted, 1);
        if h >= 0 {
            Ok(100 * h)
        } else {
            let v = find_v_from(b, wanted, 1);
            if v >= 0 {
                Ok(v)
            } else {
                Err(Error::MalformedInput)
            }
        }
    }
}

/// Sum of the first `i` blocks' scores, or the first block's error.
pub open spec fn day13_sum(bs: Seq<Seq<Seq<u8>>>, wanted: int, i: int) -> Result<int, Error>
    decreases i,
{
    if i <= 0 {
        Ok(0)
    } else {
        match day13_sum(bs, wanted, i - 1) {
            Err(e) => Err(e),
            Ok(acc) => match block_value(bs[i - 1], wanted) {
                Err(e) => Err(e),
                Ok(v) => Ok(acc + v),
            },
        }
    }
}

/// What the mirror-score answer is over the raw input text.
pub open spec fn day13_result(bytes: Seq<u8>, wanted: int) -> Result<u64, Error> {
    if bytes.len() > DAY13_INPUT_LIMIT {
        Err(Error::MalformedInput)
    } else {
        let bs = blocks_of(text::lines_spec(bytes));
        match day13_sum(bs, wanted, bs.len() as int) {
            Err(e) => Err(e),
            Ok(v) => if 0 <= v <= u64::MAX {
                Ok(v as u64)
            } else {
                Err(Error::Overflow)
            },
        }
    }
}

/// Mismatch count between two rows of a rectangular block.
fn row_mismatch(b: &Vec<Vec<u8>>, r1: usize, r2: usize) -> (r: u64)
    requires
        block_ok(b.deep_view()),
        r1 < b@.len(),
        r2 < b@.len(),
        b@.len() * b.deep_view()[0].len() <= DAY13_INPUT_LIMIT,
    ensures
        r == row_mismatch_upto(b.deep_view(), r1 as int, r2 as int, b.deep_view()[0].len() as int),
        r <= b.deep_view()[0].len(),
{
    let ghost bv = b.deep_view();
    let w = b[0].len();
    proof {
        assert(forall|k: int| 0 <= k < b@.len() ==> b@[k]@ == bv[k]);
        assert(bv[r1 as int].len() == bv[0].len() && bv[r2 as int].len() == bv[0].len());
    }
    let mut cnt: u64 = 0;
    let mut j: usize = 0;
    while j < w
        invariant
            0 <= j <= w,
            bv == b.deep_view(),
            block_ok(bv),
            r1 < b@.len() && r2 < b@.len(),
            b@.len() == bv.len(),
            w == bv[0].len(),
            forall|k: int| 0 <= k < b@.len() ==> b@[k]@ == bv[k],
            cnt == row_mismatch_upto(bv, r1 as int, r2 as int, j as int),
            cnt <= j,
        decreases w - j,
    {
        if b[r1][j] != b[r2][j] {
            cnt += 1;
        }
        j += 1;
    }
    cnt
}

/// Mismatch count between two columns of a rectangular block.
fn col_mismatch(b: &Vec<Vec<u8>>, c1: usize, c2: usize) -> (r: u64)
    requires
        block_ok(b.deep_view()),
        c1 < b.deep_view()[0].len(),
        c2 < b.deep_view()[0].len(),
        b@.len() * b.deep_view()[0].len() <= DAY13_INPUT_LIMIT,
    ensures
        r == col_mismatch_upto(b.deep_view(), c1 as int, c2 as int, b.deep_view().len() as int),
        r <= b.deep_view().len(),
{
    let ghost bv = b.deep_view();
    let h = b.len();
    proof {
        assert(forall|k: int| 0 <= k < b@.len() ==> b@[k]@ == bv[k]);
    }
    let mut cnt: u64 = 0;
    let mut i: usize = 0;
    while i < h
        invariant
            0 <= i <= h,
            bv == b.deep_view(),
            block_ok(bv),
            c1 < bv[0].len() && c2 < bv[0].len(),
            h == b@.len() == bv.len(),
            forall|k: int| 0 <= k < b@.len() ==> b@[k]@ == bv[k],
            cnt == col_mismatch_upto(bv, c1 as int, c2 as int, i as int),
            cnt <= i,
        decreases h - i,
    {
        proof {
            assert(bv[i as int].len() == bv[0].len());
        }
        if b[i][c1] != b[i][c2] {
            cnt += 1;
        }
        i += 1;
    }
    cnt
}

/// The least mirror line of the block along one axis, if any: the least
/// row (or, with `transposed`, column) index such that reflecting the
/// block there leaves exactly `wanted_diff` mismatched cells.
pub fn find_pattern(block: &Vec<Vec<u8>>, transposed: bool, wanted_diff: u64) -> (r: Option<usize>)
    requires
        block_ok(block.deep_view()),
        block@.len() * block.deep_view()[0].len() <= DAY13_INPUT_LIMIT,
    ensures
        ({
            let f = if transposed {
                find_v_from(block.deep_view(), wanted_diff as int, 1)
            } else {
                find_h_from(block.deep_view(), wanted_diff as int, 1)
            };
            &&& (r is Some <==> f >= 0)
            &&& (r is Some ==> r.unwrap() == f)
            &&& (r is Some ==> 1 <= r.unwrap() && (if transposed {
                r.unwrap() < block.deep_view()[0].len()
            } else {
                r.unwrap() < block.deep_view().len()
            }))
        }),
{
    let ghost bv = block.deep_view();
    let n = if transposed {
        block[0].len()
    } else {
        block.len()
    };
    proof {
        assert(forall|k: int| 0 <= k < block@.len() ==> block@[k]@ == bv[k]);
    }
    let mut r: usize = 1;
    while r < n
        invariant
            1 <= r <= n || (n < 1 && r == 1),
            bv == block.deep_view(),
            block_ok(bv),
            block@.len() == bv.len(),
            block@.len() * bv[0].len() <= DAY13_INPUT_LIMIT,
            n == (if transposed {
                bv[0].len() as int
            } else {
                bv.len() as int
            }),
            (if transposed {
                find_v_from(bv, wanted_diff as int, 1)
            } else {
                find_h_from(bv, wanted_diff as int, 1)
            }) == (if transposed {
                find_v_from(bv, wanted_diff as int, r as int)
            } else {
                find_h_from(bv, wanted_diff as int, r as int)
            }),
        decreases n - r,
    {
        // total mismatches across the mirrored pairs at line r
        let mut sum: u64 = 0;
        let mut k: usize = 0;
        while k < r && k < n - r
            invariant
                1 <= r < n,
                0 <= k <= n,
                bv == block.deep_view(),
                block_ok(bv),
                block@.len() == bv.len(),
                block@.len() * bv[0].len() <= DAY13_INPUT_LIMIT,
                n == (if transposed {
                    bv[0].len() as int
                } else {
                    bv.len() as int
                }),
                sum <= (k as int) * DAY13_INPUT_LIMIT,
                (if transposed {
                    mirror_cols(bv, r - 1, r as int)
                } else {
                    mirror_rows(bv, r - 1, r as int)
                }) == sum + (if transposed {
                    mirror_cols(bv, r - 1 - k, r + k)
                } else {
                    mirror_rows(bv, r - 1 - k, r + k)
                }),
            decreases n - k,
        {
            let d = if transposed {
                col_mismatch(block, r - 1 - k, r + k)
            } else {
                row_mismatch(block, r - 1 - k, r + k)
            };
            proof {
                assert(bv.len() <= DAY13_INPUT_LIMIT && bv[0].len() <= DAY13_INPUT_LIMIT)
                    by (nonlinear_arith)
                    requires
                        bv.len() * bv[0].len() <= DAY13_INPUT_LIMIT,
                        bv.len() >= 1,
                        bv[0].len() >= 1,
                ;
                assert((k as int) * DAY13_INPUT_LIMIT + DAY13_INPUT_LIMIT == (k as int + 1)
                    * DAY13_INPUT_LIMIT) by (nonlinear_arith)
                ;
            }
            sum = sum + d;
            k += 1;
        }
        proof {
            if transposed {
                assert(mirror_cols(bv, r - 1 - k, r + k) == 0);
            } else {
                assert(mirror_rows(bv, r - 1 - k, r + k) == 0);
            }
        }
        if sum == wanted_diff {
            return Some(r);
        }
        r += 1;
    }
    None
}

/// The block is a non-empty rectangle (executable form).
fn check_rect(b: &Vec<Vec<u8>>) -> (r: bool)
    ensures
        r == block_ok(b.deep_view()),
{
    let ghost bv = b.deep_view();
    proof {
        assert(forall|k: int| 0 <= k < b@.len() ==> b@[k]@ == bv[k]);
    }
    if b.len() == 0 {
        return false;
    }
    let w = b[0].len();
    if w == 0 {
        return false;
    }
    let mut i: usize = 0;
    while i < b.len()
        invariant
            0 <= i <= b@.len(),
            bv == b.deep_view(),
            b@.len() == bv.len() >= 1,
            w == bv[0].len() >= 1,
            forall|k: int| 0 <= k < b@.len() ==> b@[k]@ == bv[k],
            forall|k: int| 0 <= k < i ==> (#[trigger] bv[k]).len() == w,
        decreases b@.len() - i,
    {
        if b[i].len() != w {
            proof {
                assert(bv[i as int].len() != bv[0].len());
            }
            return false;
        }
        i += 1;
    }
    true
}

/// Number of blocks never exceeds the number of lines.
proof fn lemma_blocks_count(ls: Seq<Seq<u8>>)
    ensures
        blocks_of(ls).len() <= ls.len(),
    decreases ls.len(),
{
    lemma_find_blank_range(ls);
    let i = find_blank(ls);
    if ls.len() > 0 && 0 < i < ls.len() {
        lemma_blocks_count(ls.subrange(i + 1, ls.len() as int));
    }
}

fn day13_run(input: &str, wanted: u64) -> (r: Result<u64, Error>)
    ensures
        r == day13_result(input.spec_bytes(), wanted as int),
{
    let bytes = input.as_bytes();
    if bytes.len() > DAY13_INPUT_LIMIT {
        return Err(Error::MalformedInput);
    }
    let lines = text::split_lines(bytes);
    let ghost ls = text::lines_spec(input.spec_bytes());
    let ghost bs = blocks_of(ls);
    proof {
        assert(lines.deep_view() == ls);
        assert(forall|k: int| 0 <= k < lines@.len() ==> lines@[k]@ == ls[k]);
        text::lemma_lines_bounds(input.spec_bytes());
    }
    let mut total: u128 = 0;
    let mut pos: usize = 0;
    let ghost mut done: int = 0;
    proof {
        assert(ls.subrange(0, ls.len() as int) =~= ls);
        assert(bs.subrange(0, bs.len() as int) =~= bs);
        lemma_blocks_count(ls);
    }
    while pos < lines.len()
        invariant
            0 <= pos <= lines@.len(),
            lines@.len() == ls.len(),
            ls == text::lines_spec(input.spec_bytes()),
            input.spec_bytes().len() <= DAY13_INPUT_LIMIT,
            ls.len() <= DAY13_INPUT_LIMIT,
            forall|k: int| 0 <= k < ls.len() ==> (#[trigger] ls[k]).len() <= DAY13_INPUT_LIMIT,
            text::sum_lens(ls) <= DAY13_INPUT_LIMIT,
            forall|k: int| 0 <= k < lines@.len() ==> lines@[k]@ == ls[k],
            bs == blocks_of(ls),
            bs.len() <= ls.len(),
            0 <= done <= bs.len(),
            blocks_of(ls.subrange(pos as int, ls.len() as int)) =~~= bs.subrange(
                done,
                bs.len() as int,
            ),
            day13_sum(bs, wanted as int, done) == Ok::<int, Error>(total as int),
            total <= (done) * 101 * DAY13_INPUT_LIMIT,
        decreases lines@.len() - pos,
    {
        let ghost suf = ls.subrange(pos as int, ls.len() as int);
        // find the end of this block
        let mut end: usize = pos;
        while end < lines.len() && lines[end].len() > 0
            invariant
                pos <= end <= lines@.len(),
                lines@.len() == ls.len(),
                forall|k: int| 0 <= k < lines@.len() ==> lines@[k]@ == ls[k],
                forall|k: int| pos <= k < end ==> (#[trigger] ls[k]).len() > 0,
            decreases lines@.len() - end,
        {
            end += 1;
        }
        proof {
            assert(forall|j: int| 0 <= j < end - pos ==> #[trigger] suf[j] == ls[pos + j]);
            if end < ls.len() {
                assert(suf[end - pos] == ls[end as int]);
            }
            lemma_find_blank_is(suf, end - pos);
        }
        if end == pos {
            // a blank line opens the next block: reading stops here
            proof {
                assert(find_blank(suf) == 0);
                assert(blocks_of(suf) =~~= Seq::<Seq<Seq<u8>>>::empty());
                assert(bs.subrange(done, bs.len() as int).len() == 0);
                assert(done == bs.len());
                assert(day13_sum(bs, wanted as int, bs.len() as int) == Ok::<int, Error>(
                    total as int,
                ));
            }
            if total <= u64::MAX as u128 {
                return Ok(total as u64);
            } else {
                return Err(Error::Overflow);
            }
        }
        // copy the block out
        let mut block: Vec<Vec<u8>> = Vec::new();
        let mut i: usize = pos;
        while i < end
            invariant
                pos <= i <= end <= lines@.len(),
                lines@.len() == ls.len(),
                forall|k: int| 0 <= k < lines@.len() ==> lines@[k]@ == ls[k],
                block.deep_view() =~~= ls.subrange(pos as int, i as int),
            decreases end - i,
        {
            let ghost bprev = block.deep_view();
            let row = lines[i].clone();
            block.push(row);
            proof {
                assert(block.deep_view() =~~= bprev.push(ls[i as int]));
                assert(block.deep_view() =~~= ls.subrange(pos as int, i + 1));
            }
            i += 1;
        }
        let ghost bv = ls.subrange(pos as int, end as int);
        proof {
            assert(block.deep_view() =~~= bv);
            assert(blocks_of(suf) =~~= seq![bv] + (if end < ls.len() {
                blocks_of(ls.subrange(end as int + 1, ls.len() as int))
            } else {
                Seq::<Seq<Seq<u8>>>::empty()
            })) by {
                assert(suf.subrange(0, end - pos) =~= bv);
                if end < ls.len() {
                    assert(suf.subrange(end - pos + 1, suf.len() as int) =~= ls.subrange(
                        end as int + 1,
                        ls.len() as int,
                    ));
                }
            }
            assert(bs.subrange(done, bs.len() as int).len() >= 1);
            assert(done < bs.len());
            assert(bs[done] == bv) by {
                assert(bs.subrange(done, bs.len() as int)[0] == bv);
            }
        }
        // validate the block shape
        if !check_rect(&block) {
            proof {
                assert(!block_ok(bv));
                assert(block_value(bv, wanted as int) == Err::<int, Error>(Error::MalformedInput));
                assert(day13_sum(bs, wanted as int, done + 1) == Err::<int, Error>(
                    Error::MalformedInput,
                ));
                lemma_day13_sum_err(bs, wanted as int, done + 1, bs.len() as int);
            }
            return Err(Error::MalformedInput);
        }
        let w = block[0].len();
        proof {
            assert(bv[0].len() > 0);
            assert(block_ok(bv));
            assert(bv.len() <= ls.len() <= DAY13_INPUT_LIMIT);
            assert(bv[0].len() <= DAY13_INPUT_LIMIT);
            assert(bv.len() * bv[0].len() <= DAY13_INPUT_LIMIT * DAY13_INPUT_LIMIT)
                by (nonlinear_arith)
                requires
                    0 <= bv.len() <= DAY13_INPUT_LIMIT,
                    0 <= bv[0].len() <= DAY13_INPUT_LIMIT,
            ;
        }
        // a rectangular block holds exactly as many cells as bytes, so the
        // capped input bounds its size
        proof {
            lemma_sum_lens_rect(bv, w as int);
            text::lemma_sum_lens_between(ls, pos as int, end as int);
            assert(bv.len() * w <= DAY13_INPUT_LIMIT);
        }
        let cells = block.len() * w;
        let value: u64;
        match find_pattern(&block, false, wanted) {
            Some(h) => {
                proof {
                    assert(h < bv.len() <= DAY13_INPUT_LIMIT);
                }
                value = 100 * (h as u64);
            },
            None => {
                match find_pattern(&block, true, wanted) {
                    Some(v) => {
                        proof {
                            assert(v < bv[0].len() <= DAY13_INPUT_LIMIT);
                        }
                        value = v as u64;
                    },
                    None => {
                        proof {
                            assert(block_value(bv, wanted as int) == Err::<int, Error>(
                                Error::MalformedInput,
                            ));
                            lemma_day13_sum_err(bs, wanted as int, done + 1, bs.len() as int);
                        }
                        return Err(Error::MalformedInput);
                    },
                }
            },
        }
        proof {
            assert(block_value(bv, wanted as int) == Ok::<int, Error>(value as int));
            assert(day13_sum(bs, wanted as int, done + 1) == Ok::<int, Error>(
                total as int + value as int,
            ));
            assert(value <= 101 * DAY13_INPUT_LIMIT);
            assert((done) * 101 * DAY13_INPUT_LIMIT + 101 * DAY13_INPUT_LIMIT == (done + 1) * 101
                * DAY13_INPUT_LIMIT) by (nonlinear_arith)
            ;
            assert(total + value as u128 <= ((DAY13_INPUT_LIMIT as int) + 1) * 101
                * DAY13_INPUT_LIMIT) by (nonlinear_arith)
                requires
                    total <= (done) * 101 * DAY13_INPUT_LIMIT,
                    value <= 101 * DAY13_INPUT_LIMIT,
                    0 <= done <= DAY13_INPUT_LIMIT,
            ;
            done = done + 1;
        }
        total = total + value as u128;
        if end >= lines.len() {
            proof {
                assert(blocks_of(ls.subrange(end as int, ls.len() as int))
                    =~~= Seq::<Seq<Seq<u8>>>::empty());
                assert(bs.subrange(done - 1, bs.len() as int) =~~= seq![bv]);
                assert(bs.subrange(done - 1, bs.len() as int).len() == 1);
                assert(done == bs.len());
                assert(bs.subrange(done, bs.len() as int) =~~= blocks_of(
                    ls.subrange(end as int, ls.len() as int),
                ));
            }
            pos = end;
        } else {
            proof {
                let rest = blocks_of(ls.subrange(end as int + 1, ls.len() as int));
                assert(bs.subrange(done - 1, bs.len() as int) =~~= seq![bv] + rest);
                assert(bs.subrange(done - 1, bs.len() as int) =~= seq![bs[done - 1]]
                    + bs.subrange(done, bs.len() as int));
                assert(bs.subrange(done, bs.len() as int).len() == rest.len());
                assert forall|k: int| 0 <= k < rest.len() implies bs.subrange(
                    done,
                    bs.len() as int,
                )[k] =~~= rest[k] by {
                    assert(bs.subrange(done - 1, bs.len() as int)[k + 1] == bs.subrange(
                        done,
                        bs.len() as int,
                    )[k]);
                    assert((seq![bv] + rest)[k + 1] == rest[k]);
                    assert(bs.subrange(done - 1, bs.len() as int)[k + 1] =~~= (seq![bv] + rest)[k
                        + 1]);
                }
                assert(bs.subrange(done, bs.len() as int) =~~= rest);
            }
            pos = end + 1;
        }
    }
    proof {
        if pos >= ls.len() {
            assert(blocks_of(ls.subrange(pos as int, ls.len() as int))
                =~~= Seq::<Seq<Seq<u8>>>::empty());
            assert(done == bs.len());
        }
        assert(day13_sum(bs, wanted as int, bs.len() as int) == Ok::<int, Error>(total as int));
    }
    if total <= u64::MAX as u128 {
        Ok(total as u64)
    } else {
        Err(Error::Overflow)
    }
}

/// A rectangular piece list totals exactly its height times its width.
proof fn lemma_sum_lens_rect(b: Seq<Seq<u8>>, w: int)
    requires
        forall|k: int| 0 <= k < b.len() ==> (#[trigger] b[k]).len() == w,
    ensures
        text::sum_lens(b) == b.len() * w,
    decreases b.len(),
{
    if b.len() == 0 {
    } else {
        assert(forall|k: int| 0 <= k < b.len() - 1 ==> (#[trigger] b.drop_last()[k]).len() == w);
        lemma_sum_lens_rect(b.drop_last(), w);
        assert((b.len() - 1) * w + w == b.len() * w) by (nonlinear_arith);
    }
}

/// An error in some prefix of the block sum is the whole sum's error.
proof fn lemma_day13_sum_err(bs: Seq<Seq<Seq<u8>>>, wanted: int, i: int, n: int)
    requires
        0 <= i <= n,
        day13_sum(bs, wanted, i) is Err,
    ensures
        day13_sum(bs, wanted, n) == day13_sum(bs, wanted, i),
    decreases n - i,
{
    if i < n {
        lemma_day13_sum_err(bs, wanted, i + 1, n);
    }
}

/// Sum of the blocks' clean mirror scores.
pub fn part_1(input: &str) -> (r: Result<u64, Error>)
    ensures
        r == day13_result(input.spec_bytes(), 0),
{
    day13_run(input, 0)
}

/// Sum of the blocks' mirror scores with exactly one smudged cell.
pub fn part_2(input: &str) -> (r: Result<u64, Error>)
    ensures
        r == day13_result(input.spec_bytes(), 1),
{
    day13_run(input, 1)
}

} // verus!
