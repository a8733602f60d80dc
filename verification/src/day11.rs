//! Pairwise distances between the galaxies of a star map, where every
//! fully empty row or column of the map counts as `factor` rows or columns
//! wide.  The answer sums, over all unordered galaxy pairs, the taxicab
//! distance plus `factor - 1` for each empty row or column between them.

use vstd::prelude::*;
use vstd::string::StringSliceAdditionalSpecFns;

use crate::error::Error;
use crate::text;

verus! {

pub const HASH: u8 = 35;

/// Machine-integer galaxy positions as mathematical pairs.
pub open spec fn gals_view(gs: Seq<(usize, usize)>) -> Seq<(int, int)> {
    gs.map_values(|p: (usize, usize)| (p.0 as int, p.1 as int))
}

/// Largest number of map cells accepted; keeps all distance sums in range.
pub const DAY11_CELL_LIMIT: usize = 0x10_0000;

/// Largest single pair distance under the supported factors.
pub const TERM_MAX: u128 = 0x400_0000_0000;

/// The galaxies of one line, in reading order.
pub open spec fn line_gals(line: Seq<u8>, y: int) -> Seq<(int, int)>
    decreases line.len(),
{
    if line.len() == 0 {
        Seq::empty()
    } else {
        line_gals(line.drop_last(), y) + (if line.last() == HASH {
            seq![(y, line.len() - 1 as int)]
        } else {
            Seq::empty()
        })
    }
}

/// The galaxies of the first `n` lines, in reading order.
pub open spec fn gals_upto(ls: Seq<Seq<u8>>, n: int) -> Seq<(int, int)>
    decreases n,
{
    if n <= 0 {
        Seq::empty()
    } else {
        gals_upto(ls, n - 1) + line_gals(ls[n - 1], n - 1)
    }
}

/// Column `x` holds no galaxy.
pub open spec fn is_empty_col(ls: Seq<Seq<u8>>, x: int) -> bool {
    forall|i: int| 0 <= i < ls.len() ==> (#[trigger] ls[i])[x] != HASH
}

/// Row `y` holds no galaxy.
pub open spec fn is_empty_row(ls: Seq<Seq<u8>>, y: int) -> bool {
    forall|j: int| 0 <= j < ls[y].len() ==> (#[trigger] ls[y][j]) != HASH
}

/// Number of empty columns with index in `[lo, hi)`.
pub open spec fn empty_cols_in(ls: Seq<Seq<u8>>, lo: int, hi: int) -> int
    decreases hi - lo,
{
    if hi <= lo {
        0
    } else {
        empty_cols_in(ls, lo, hi - 1) + if is_empty_col(ls, hi - 1) {
            1int
        } else {
            0int
        }
    }
}

/// Number of empty rows with index in `[lo, hi)`.
pub open spec fn empty_rows_in(ls: Seq<Seq<u8>>, lo: int, hi: int) -> int
    decreases hi - lo,
{
    if hi <= lo {
        0
    } else {
        empty_rows_in(ls, lo, hi - 1) + if is_empty_row(ls, hi - 1) {
            1int
        } else {
            0int
        }
    }
}

pub open spec fn abs_of(x: int) -> int {
    if x < 0 {
        -x
    } else {
        x
    }
}

pub open spec fn min_of(a: int, b: int) -> int {
    if a <= b {
        a
    } else {
        b
    }
}

pub open spec fn max_of(a: int, b: int) -> int {
    if a <= b {
        b
    } else {
        a
    }
}

/// The expanded distance between galaxies `a` and `b` (listed in reading
/// order, so `a.0 <= b.0`): the taxicab distance, plus `extra` for every
/// empty column between their columns and every empty row between their
/// rows.  Galaxy rows and columns are never empty, so counting over the
/// closed spans adds nothing for the endpoints.
pub open spec fn pair_dist(ls: Seq<Seq<u8>>, extra: int, a: (int, int), b: (int, int)) -> int {
    abs_of(b.1 - a.1) + (b.0 - a.0) + extra * empty_cols_in(
        ls,
        min_of(a.1, b.1),
        max_of(a.1, b.1) + 1,
    ) + extra * empty_rows_in(ls, a.0, b.0 + 1)
}

/// Sum of the distances from galaxy `s` to the galaxies `e..`.
pub open spec fn sums_with(ls: Seq<Seq<u8>>, extra: int, gs: Seq<(int, int)>, s: int, e: int) -> int
    decreases gs.len() - e,
{
    if e < 0 || e >= gs.len() {
        0
    } else {
        pair_dist(ls, extra, gs[s], gs[e]) + sums_with(ls, extra, gs, s, e + 1)
    }
}

/// Sum of the distances over all unordered pairs with first index `>= s`.
pub open spec fn sums_from(ls: Seq<Seq<u8>>, extra: int, gs: Seq<(int, int)>, s: int) -> int
    decreases gs.len() - s,
{
    if s < 0 || s >= gs.len() {
        0
    } else {
        sums_with(ls, extra, gs, s, s + 1) + sums_from(ls, extra, gs, s + 1)
    }
}

/// The star map is a non-empty rectangle small enough to solve.
pub open spec fn day11_ok(ls: Seq<Seq<u8>>) -> bool {
    &&& ls.len() >= 1
    &&& ls[0].len() >= 1
    &&& forall|i: int| 0 <= i < ls.len() ==> (#[trigger] ls[i]).len() == ls[0].len()
    &&& ls.len() * ls[0].len() <= DAY11_CELL_LIMIT
}

/// What the summed expanded distances are, over the raw input text.
pub open spec fn day11_result(bytes: Seq<u8>, extra: int) -> Result<u64, Error> {
    let ls = text::lines_spec(bytes);
    if !day11_ok(ls) {
        Err(Error::MalformedInput)
    } else {
        let total = sums_from(ls, extra, gals_upto(ls, ls.len() as int), 0);
        if total <= u64::MAX {
            Ok(total as u64)
        } else {
            Err(Error::Overflow)
        }
    }
}

fn day11_run(input: &str, extra: u64) -> (r: Result<u64, Error>)
    requires
        extra <= 1000000,
    ensures
        r == day11_result(input.spec_bytes(), extra as int),
{
    let bytes = input.as_bytes();
    let lines = text::split_lines(bytes);
    let ghost ls = text::lines_spec(input.spec_bytes());
    proof {
        assert(lines.deep_view() == ls);
        assert(forall|k: int| 0 <= k < lines@.len() ==> lines@[k]@ == ls[k]);
    }
    let rows = lines.len();
    if rows == 0 {
        return Err(Error::MalformedInput);
    }
    let cols = lines[0].len();
    if cols == 0 {
        return Err(Error::MalformedInput);
    }
    proof {
        vstd::arithmetic::div_mod::lemma_fundamental_div_mod(
            DAY11_CELL_LIMIT as int,
            cols as int,
        );
    }
    if rows > DAY11_CELL_LIMIT / cols {
        proof {
            assert(rows * cols > DAY11_CELL_LIMIT) by (nonlinear_arith)
                requires
                    cols >= 1,
                    rows > DAY11_CELL_LIMIT / cols,
                    DAY11_CELL_LIMIT as int == (cols as int) * (DAY11_CELL_LIMIT as int
                        / cols as int) + DAY11_CELL_LIMIT as int % cols as int,
                    0 <= DAY11_CELL_LIMIT % cols < cols,
            ;
            assert(!day11_ok(ls));
        }
        return Err(Error::MalformedInput);
    }
    proof {
        assert(rows * cols <= DAY11_CELL_LIMIT) by (nonlinear_arith)
            requires
                cols >= 1,
                rows <= DAY11_CELL_LIMIT / cols,
                DAY11_CELL_LIMIT as int == (cols as int) * (DAY11_CELL_LIMIT as int / cols as int)
                    + DAY11_CELL_LIMIT as int % cols as int,
                0 <= DAY11_CELL_LIMIT % cols < cols,
        ;
    }
    // the map must be rectangular
    let mut y: usize = 0;
    while y < rows
        invariant
            0 <= y <= rows,
            rows == lines@.len(),
            ls == text::lines_spec(input.spec_bytes()),
            ls.len() == lines@.len(),
            cols == ls[0].len(),
            forall|k: int| 0 <= k < lines@.len() ==> lines@[k]@ == ls[k],
            forall|k: int| 0 <= k < y ==> (#[trigger] ls[k]).len() == cols,
        decreases rows - y,
    {
        if lines[y].len() != cols {
            proof {
                assert(ls[y as int].len() != ls[0].len());
                assert(!day11_ok(ls));
            }
            return Err(Error::MalformedInput);
        }
        y += 1;
    }
    assert(day11_ok(ls));
    // collect the galaxies in reading order
    let mut gals: Vec<(usize, usize)> = Vec::new();
    let mut y: usize = 0;
    proof {
        assert(gals_view(gals@) =~= gals_upto(ls, 0));
    }
    while y < rows
        invariant
            0 <= y <= rows,
            rows == lines@.len() == ls.len(),
            cols == ls[0].len(),
            forall|k: int| 0 <= k < lines@.len() ==> lines@[k]@ == ls[k],
            forall|k: int| 0 <= k < ls.len() ==> (#[trigger] ls[k]).len() == cols,
            gals_view(gals@) =~= gals_upto(ls, y as int),
            gals@.len() <= y * cols,
            forall|k: int|
                0 <= k < gals@.len() ==> (#[trigger] gals@[k]).0 < rows && gals@[k].1 < cols,
        decreases rows - y,
    {
        let line = &lines[y];
        let mut x: usize = 0;
        let ghost base = gals_upto(ls, y as int);
        while x < cols
            invariant
                0 <= x <= cols,
                0 <= y < rows,
                rows == lines@.len() == ls.len(),
                cols == ls[0].len(),
                line@ == ls[y as int],
                line@.len() == cols,
                gals_view(gals@) =~= base + line_gals(ls[y as int].subrange(0, x as int), y as int),
                gals@.len() <= y * cols + x,
                forall|k: int|
                    0 <= k < gals@.len() ==> (#[trigger] gals@[k]).0 < rows && gals@[k].1 < cols,
            decreases cols - x,
        {
            let ghost pre = ls[y as int].subrange(0, x as int);
            let ghost cur = ls[y as int].subrange(0, x + 1);
            proof {
                assert(cur.drop_last() =~= pre);
                assert(cur.last() == ls[y as int][x as int]);
            }
            if line[x] == HASH {
                let ghost gprev = gals_view(gals@);
                gals.push((y, x));
                proof {
                    assert(gals_view(gals@) =~= gprev.push((y as int, x as int)));
                    assert(line_gals(cur, y as int) =~= line_gals(pre, y as int) + seq![
                        (y as int, x as int),
                    ]);
                    assert(gals_view(gals@) =~= base + line_gals(cur, y as int));
                }
            } else {
                proof {
                    assert(line_gals(cur, y as int) =~= line_gals(pre, y as int));
                }
            }
            x += 1;
        }
        proof {
            assert(ls[y as int].subrange(0, cols as int) =~= ls[y as int]);
            assert(gals_view(gals@) =~= gals_upto(ls, y as int + 1));
            assert(y * cols + cols == (y + 1) * cols) by (nonlinear_arith);
        }
        y += 1;
    }
    // per-column and per-row emptiness
    let mut col_empty: Vec<bool> = Vec::new();
    let mut x: usize = 0;
    while x < cols
        invariant
            0 <= x <= cols,
            rows == lines@.len() == ls.len(),
            cols == ls[0].len(),
            forall|k: int| 0 <= k < lines@.len() ==> lines@[k]@ == ls[k],
            forall|k: int| 0 <= k < ls.len() ==> (#[trigger] ls[k]).len() == cols,
            col_empty@.len() == x,
            forall|k: int| 0 <= k < x ==> col_empty@[k] == is_empty_col(ls, k),
        decreases cols - x,
    {
        let mut empty = true;
        let mut i: usize = 0;
        while i < rows
            invariant
                0 <= i <= rows,
                0 <= x < cols,
                rows == lines@.len() == ls.len(),
                cols == ls[0].len(),
                forall|k: int| 0 <= k < lines@.len() ==> lines@[k]@ == ls[k],
                forall|k: int| 0 <= k < ls.len() ==> (#[trigger] ls[k]).len() == cols,
                empty == (forall|k: int| 0 <= k < i ==> (#[trigger] ls[k])[x as int] != HASH),
            decreases rows - i,
        {
            let li = &lines[i];
            proof {
                assert(li@ == ls[i as int]);
                assert(li@.len() == cols);
            }
            if li[x] == HASH {
                proof {
                    assert(ls[i as int][x as int] == HASH);
                }
                empty = false;
            }
            i += 1;
        }
        proof {
            if empty {
                assert(is_empty_col(ls, x as int));
            } else {
                assert(!is_empty_col(ls, x as int));
            }
        }
        col_empty.push(empty);
        x += 1;
    }
    let mut row_empty: Vec<bool> = Vec::new();
    let mut yy: usize = 0;
    while yy < rows
        invariant
            0 <= yy <= rows,
            rows == lines@.len() == ls.len(),
            cols == ls[0].len(),
            forall|k: int| 0 <= k < lines@.len() ==> lines@[k]@ == ls[k],
            forall|k: int| 0 <= k < ls.len() ==> (#[trigger] ls[k]).len() == cols,
            row_empty@.len() == yy,
            forall|k: int| 0 <= k < yy ==> row_empty@[k] == is_empty_row(ls, k),
        decreases rows - yy,
    {
        let line = &lines[yy];
        proof {
            assert(line@ == ls[yy as int]);
            assert(ls[yy as int].len() == cols);
        }
        let mut empty = true;
        let mut j: usize = 0;
        while j < cols
            invariant
                0 <= j <= cols,
                0 <= yy < rows,
                rows == ls.len(),
                line@ == ls[yy as int],
                line@.len() == cols,
                empty == (forall|k: int| 0 <= k < j ==> (#[trigger] ls[yy as int][k]) != HASH),
            decreases cols - j,
        {
            if line[j] == HASH {
                proof {
                    assert(ls[yy as int][j as int] == HASH);
                }
                empty = false;
            }
            j += 1;
        }
        proof {
            if empty {
                assert(is_empty_row(ls, yy as int));
            } else {
                assert(!is_empty_row(ls, yy as int));
            }
        }
        row_empty.push(empty);
        yy += 1;
    }
    // prefix counts of empty columns and rows
    let mut cols_pref: Vec<u64> = Vec::new();
    cols_pref.push(0);
    let mut x: usize = 0;
    while x < cols
        invariant
            0 <= x <= cols,
            cols == ls[0].len(),
            col_empty@.len() == cols,
            forall|k: int| 0 <= k < cols ==> col_empty@[k] == is_empty_col(ls, k),
            cols_pref@.len() == x + 1,
            forall|k: int| 0 <= k <= x ==> cols_pref@[k] == empty_cols_in(ls, 0, k),
            forall|k: int| 0 <= k <= x ==> cols_pref@[k] <= k,
        decreases cols - x,
    {
        let prev = cols_pref[x];
        let inc: u64 = if col_empty[x] {
            1
        } else {
            0
        };
        cols_pref.push(prev + inc);
        x += 1;
    }
    let mut rows_pref: Vec<u64> = Vec::new();
    rows_pref.push(0);
    let mut yy: usize = 0;
    while yy < rows
        invariant
            0 <= yy <= rows,
            rows == ls.len(),
            row_empty@.len() == rows,
            forall|k: int| 0 <= k < rows ==> row_empty@[k] == is_empty_row(ls, k),
            rows_pref@.len() == yy + 1,
            forall|k: int| 0 <= k <= yy ==> rows_pref@[k] == empty_rows_in(ls, 0, k),
            forall|k: int| 0 <= k <= yy ==> rows_pref@[k] <= k,
        decreases rows - yy,
    {
        let prev = rows_pref[yy];
        let inc: u64 = if row_empty[yy] {
            1
        } else {
            0
        };
        rows_pref.push(prev + inc);
        yy += 1;
    }
    // sum over all unordered pairs
    let ghost gseq = gals_view(gals@);
    let n = gals.len();
    let mut total: u128 = 0;
    let mut s: usize = 0;
    proof {
        assert(gseq.len() == n);
        assert(gals_view(gals@) =~= gals_upto(ls, ls.len() as int));
        assert(gseq == gals_upto(ls, ls.len() as int));
        assert(n <= rows * cols);
        assert(n <= DAY11_CELL_LIMIT);
    }
    while s < n
        invariant
            0 <= s <= n,
            n == gals@.len(),
            gseq == gals_view(gals@),
            gseq == gals_upto(ls, ls.len() as int),
            gseq.len() == n,
            n <= DAY11_CELL_LIMIT,
            rows == ls.len(),
            cols == ls[0].len(),
            rows * cols <= DAY11_CELL_LIMIT,
            extra <= 1000000,
            forall|k: int|
                0 <= k < gals@.len() ==> (#[trigger] gals@[k]).0 < rows && gals@[k].1 < cols,
            forall|k: int|
                0 <= k < gals@.len() ==> #[trigger] gseq[k] == (gals@[k].0 as int, gals@[k].1 as int),
            cols_pref@.len() == cols + 1,
            forall|k: int| 0 <= k <= cols ==> #[trigger] cols_pref@[k] == empty_cols_in(ls, 0, k),
            forall|k: int| 0 <= k <= cols ==> cols_pref@[k] <= k,
            rows_pref@.len() == rows + 1,
            forall|k: int| 0 <= k <= rows ==> #[trigger] rows_pref@[k] == empty_rows_in(ls, 0, k),
            forall|k: int| 0 <= k <= rows ==> rows_pref@[k] <= k,
            sums_from(ls, extra as int, gseq, 0) == total + sums_from(
                ls,
                extra as int,
                gseq,
                s as int,
            ),
            total <= TERM_MAX * ((s as int) * (n as int)),
        decreases n - s,
    {
        let (sy, sx) = gals[s];
        let mut e: usize = s + 1;
        let ghost total0 = total;
        while e < n
            invariant
                0 <= s < n,
                s + 1 <= e <= n,
                n == gals@.len(),
                gseq == gals_view(gals@),
                gseq == gals_upto(ls, ls.len() as int),
                gseq.len() == n,
                n <= DAY11_CELL_LIMIT,
                rows == ls.len(),
                cols == ls[0].len(),
                rows * cols <= DAY11_CELL_LIMIT,
                extra <= 1000000,
                (sy, sx) == gals@[s as int],
                sy < rows && sx < cols,
                forall|k: int|
                    0 <= k < gals@.len() ==> (#[trigger] gals@[k]).0 < rows && gals@[k].1 < cols,
                forall|k: int|
                    0 <= k < gals@.len() ==> #[trigger] gseq[k] == (
                        gals@[k].0 as int,
                        gals@[k].1 as int,
                    ),
                cols_pref@.len() == cols + 1,
                forall|k: int|
                    0 <= k <= cols ==> #[trigger] cols_pref@[k] == empty_cols_in(ls, 0, k),
                forall|k: int| 0 <= k <= cols ==> cols_pref@[k] <= k,
                rows_pref@.len() == rows + 1,
                forall|k: int|
                    0 <= k <= rows ==> #[trigger] rows_pref@[k] == empty_rows_in(ls, 0, k),
                forall|k: int| 0 <= k <= rows ==> rows_pref@[k] <= k,
                sums_with(ls, extra as int, gseq, s as int, s as int + 1) == (total - total0)
                    + sums_with(ls, extra as int, gseq, s as int, e as int),
                total0 <= TERM_MAX * ((s as int) * (n as int)),
                total - total0 <= TERM_MAX * (e as int - s as int - 1),
                total >= total0,
            decreases n - e,
        {
            let (ey, ex) = gals[e];
            let lox = if sx <= ex {
                sx
            } else {
                ex
            };
            let hix = if sx <= ex {
                ex
            } else {
                sx
            };
            let dx = (hix - lox) as u64;
            let ghost a = gseq[s as int];
            let ghost b = gseq[e as int];
            proof {
                assert(a == (sy as int, sx as int));
                assert(b == (ey as int, ex as int));
                // galaxies are listed in reading order, so rows never decrease
                lemma_gals_ordered(ls, gseq, s as int, e as int);
            }
            let dy = (ey - sy) as u64;
            proof {
                lemma_count_diff_cols(ls, lox as int, hix as int + 1);
                lemma_count_diff_rows(ls, sy as int, ey as int + 1);
            }
            let ec = cols_pref[hix + 1] - cols_pref[lox];
            let er = rows_pref[ey + 1] - rows_pref[sy];
            proof {
                assert(ec == empty_cols_in(ls, lox as int, hix as int + 1));
                assert(er == empty_rows_in(ls, sy as int, ey as int + 1));
                assert(ec <= cols && er <= rows);
                assert(rows <= DAY11_CELL_LIMIT && cols <= DAY11_CELL_LIMIT) by (nonlinear_arith)
                    requires
                        rows * cols <= DAY11_CELL_LIMIT,
                        rows >= 1,
                        cols >= 1,
                ;
            }
            proof {
                assert(extra as int * (ec as int) <= 1000000 * 0x10_0000) by (nonlinear_arith)
                    requires
                        0 <= extra <= 1000000,
                        0 <= ec <= 0x10_0000,
                ;
                assert(extra as int * (er as int) <= 1000000 * 0x10_0000) by (nonlinear_arith)
                    requires
                        0 <= extra <= 1000000,
                        0 <= er <= 0x10_0000,
                ;
            }
            let term: u64 = dx + dy + extra * ec + extra * er;
            proof {
                assert(term as int == pair_dist(ls, extra as int, a, b));
                assert(term <= TERM_MAX);
                assert(sums_with(ls, extra as int, gseq, s as int, e as int) == pair_dist(
                    ls,
                    extra as int,
                    a,
                    b,
                ) + sums_with(ls, extra as int, gseq, s as int, e as int + 1));
            }
            proof {
                assert(total + term as u128 <= 0x400_0000_0000 * (0x10_0000 * 0x10_0000
                    + 0x10_0000 + 1)) by (nonlinear_arith)
                    requires
                        total - total0 <= 0x400_0000_0000 * ((e as int) - (s as int) - 1),
                        total0 <= 0x400_0000_0000 * ((s as int) * (n as int)),
                        total >= total0 >= 0,
                        0 <= s < n,
                        s < e <= n,
                        n <= 0x10_0000,
                        term <= 0x400_0000_0000,
                ;
            }
            total = total + term as u128;
            e += 1;
        }
        proof {
            assert(sums_with(ls, extra as int, gseq, s as int, n as int) == 0);
            assert(sums_from(ls, extra as int, gseq, s as int) == (total - total0) + sums_from(
                ls,
                extra as int,
                gseq,
                s as int + 1,
            ));
            assert(total <= TERM_MAX * ((s as int) * (n as int)) + TERM_MAX * (n as int));
            assert(TERM_MAX * ((s as int) * (n as int)) + TERM_MAX * (n as int) == TERM_MAX * ((
            s as int + 1) * (n as int))) by (nonlinear_arith)
            ;
        }
        s += 1;
    }
    proof {
        assert(sums_from(ls, extra as int, gseq, n as int) == 0);
        assert(total == sums_from(ls, extra as int, gseq, 0));
        assert(gseq =~= gals_upto(ls, ls.len() as int));
    }
    if total <= u64::MAX as u128 {
        Ok(total as u64)
    } else {
        Err(Error::Overflow)
    }
}

/// Galaxies are collected in reading order: row indices never decrease.
proof fn lemma_gals_ordered(ls: Seq<Seq<u8>>, gs: Seq<(int, int)>, s: int, e: int)
    requires
        gs == gals_upto(ls, ls.len() as int),
        0 <= s <= e < gs.len(),
    ensures
        gs[s].0 <= gs[e].0,
{
    lemma_gals_rows_sorted(ls, ls.len() as int, s, e);
}

proof fn lemma_line_gals_row(line: Seq<u8>, y: int, k: int)
    requires
        0 <= k < line_gals(line, y).len(),
    ensures
        line_gals(line, y)[k].0 == y,
    decreases line.len(),
{
    if line.len() > 0 {
        if k < line_gals(line.drop_last(), y).len() {
            lemma_line_gals_row(line.drop_last(), y, k);
        }
    }
}

proof fn lemma_gals_rows_sorted(ls: Seq<Seq<u8>>, n: int, s: int, e: int)
    requires
        0 <= s <= e < gals_upto(ls, n).len(),
    ensures
        gals_upto(ls, n)[s].0 <= gals_upto(ls, n)[e].0,
        gals_upto(ls, n)[e].0 < n,
    decreases n,
{
    if n > 0 {
        let base = gals_upto(ls, n - 1);
        let tail = line_gals(ls[n - 1], n - 1);
        if e < base.len() {
            lemma_gals_rows_sorted(ls, n - 1, s, e);
        } else {
            lemma_line_gals_row(ls[n - 1], n - 1, e - base.len());
            if s < base.len() {
                lemma_gals_rows_sorted(ls, n - 1, s, s);
            } else {
                lemma_line_gals_row(ls[n - 1], n - 1, s - base.len());
            }
        }
    }
}

proof fn lemma_count_diff_cols(ls: Seq<Seq<u8>>, lo: int, hi: int)
    requires
        0 <= lo <= hi,
    ensures
        empty_cols_in(ls, lo, hi) == empty_cols_in(ls, 0, hi) - empty_cols_in(ls, 0, lo),
        empty_cols_in(ls, lo, hi) >= 0,
    decreases hi - lo,
{
    if hi > lo {
        lemma_count_diff_cols(ls, lo, hi - 1);
        lemma_count_split_cols(ls, 0, hi - 1, hi);
    } else {
        lemma_count_nonneg_cols(ls, 0, lo);
    }
}

proof fn lemma_count_split_cols(ls: Seq<Seq<u8>>, lo: int, mid: int, hi: int)
    requires
        lo <= mid <= hi,
    ensures
        empty_cols_in(ls, lo, hi) == empty_cols_in(ls, lo, mid) + empty_cols_in(ls, mid, hi),
    decreases hi - mid,
{
    if hi > mid {
        lemma_count_split_cols(ls, lo, mid, hi - 1);
    }
}

proof fn lemma_count_nonneg_cols(ls: Seq<Seq<u8>>, lo: int, hi: int)
    ensures
        empty_cols_in(ls, lo, hi) >= 0,
    decreases hi - lo,
{
    if hi > lo {
        lemma_count_nonneg_cols(ls, lo, hi - 1);
    }
}

proof fn lemma_count_diff_rows(ls: Seq<Seq<u8>>, lo: int, hi: int)
    requires
        0 <= lo <= hi,
    ensures
        empty_rows_in(ls, lo, hi) == empty_rows_in(ls, 0, hi) - empty_rows_in(ls, 0, lo),
        empty_rows_in(ls, lo, hi) >= 0,
    decreases hi - lo,
{
    if hi > lo {
        lemma_count_diff_rows(ls, lo, hi - 1);
        lemma_count_split_rows(ls, 0, hi - 1, hi);
    } else {
        lemma_count_nonneg_rows(ls, 0, lo);
    }
}

proof fn lemma_count_split_rows(ls: Seq<Seq<u8>>, lo: int, mid: int, hi: int)
    requires
        lo <= mid <= hi,
    ensures
        empty_rows_in(ls, lo, hi) == empty_rows_in(ls, lo, mid) + empty_rows_in(ls, mid, hi),
    decreases hi - mid,
{
    if hi > mid {
        lemma_count_split_rows(ls, lo, mid, hi - 1);
    }
}

proof fn lemma_count_nonneg_rows(ls: Seq<Seq<u8>>, lo: int, hi: int)
    ensures
        empty_rows_in(ls, lo, hi) >= 0,
    decreases hi - lo,
{
    if hi > lo {
        lemma_count_nonneg_rows(ls, lo, hi - 1);
    }
}

/// Summed distances with every empty row and column doubled.
pub fn part_1(input: &str) -> (r: Result<u64, Error>)
    ensures
        r == day11_result(input.spec_bytes(), 1),
{
    day11_run(input, 1)
}

/// Summed distances with every empty row and column a million wide.
pub fn part_2(input: &str) -> (r: Result<u64, Error>)
    ensures
        r == day11_result(input.spec_bytes(), 999999),
{
    day11_run(input, 999999)
}

} // verus!
