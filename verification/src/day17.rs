//! Minimum-cost routing across a weighted grid under run-length constraints.
//!
//! A path starts at the top-left cell and must reach the bottom-right cell.
//! It is a sequence of straight runs; each run is `l_min` to `l_max` cells
//! long, and consecutive runs alternate between the horizontal and the
//! vertical axis (so a path can neither continue straight past `l_max` cells
//! nor double back).  Entering a cell costs that cell's digit; the starting
//! cell costs nothing.  `solve` returns the least total cost over all such
//! paths, proved minimal, or reports that no path exists.

use vstd::prelude::*;
use vstd::string::StringSliceAdditionalSpecFns;

use crate::error::Error;
use crate::text;

verus! {

/// Largest number of grid cells `solve` accepts; keeps every accumulated
/// cost comfortably inside a `u64`.
pub const GRID_CELL_LIMIT: usize = 0x1000_0000;

#[derive(Debug, Clone, Copy, PartialEq, Eq, Structural)]
pub enum Direction {
    North,
    South,
    East,
    West,
}

impl Direction {
    /// The opposite direction.
    pub open spec fn spec_rev(self) -> Direction {
        match self {
            Direction::North => Direction::South,
            Direction::South => Direction::North,
            Direction::East => Direction::West,
            Direction::West => Direction::East,
        }
    }

    /// The run moves along the vertical axis.
    pub open spec fn is_vertical(self) -> bool {
        self == Direction::North || self == Direction::South
    }

    pub fn rev(&self) -> (r: Self)
        ensures
            r == self.spec_rev(),
    {
        match self {
            Direction::North => Direction::South,
            Direction::South => Direction::North,
            Direction::East => Direction::West,
            Direction::West => Direction::East,
        }
    }

    /// The two directions on the axis orthogonal to this one.
    pub fn perp(&self) -> (r: [Self; 2])
        ensures
            r@ == (if self.is_vertical() {
                seq![Direction::East, Direction::West]
            } else {
                seq![Direction::North, Direction::South]
            }),
    {
        match self {
            Direction::North | Direction::South => [Direction::East, Direction::West],
            Direction::East | Direction::West => [Direction::North, Direction::South],
        }
    }
}

/// The mathematical content of a grid: its dimensions and cell costs.
pub struct GridModel {
    pub rows: int,
    pub cols: int,
    pub cells: Seq<int>,
}

impl GridModel {
    pub open spec fn wf(self) -> bool {
        &&& 1 <= self.rows
        &&& 1 <= self.cols
        &&& self.cells.len() == self.rows * self.cols
        &&& forall|i: int| 0 <= i < self.cells.len() ==> 0 <= #[trigger] self.cells[i] <= 9
    }

    pub open spec fn in_bounds(self, p: (int, int)) -> bool {
        0 <= p.0 < self.rows && 0 <= p.1 < self.cols
    }

    /// Cost of the cell in row `r`, column `c`.
    pub open spec fn at(self, r: int, c: int) -> int {
        self.cells[r * self.cols + c]
    }

    pub open spec fn goal(self) -> (int, int) {
        (self.rows - 1, self.cols - 1)
    }
}

/// A weighted grid of digit costs, stored row-major.
pub struct Grid {
    pub rows: usize,
    pub cols: usize,
    pub cells: Vec<u8>,
}

impl Grid {
    pub open spec fn model(self) -> GridModel {
        GridModel {
            rows: self.rows as int,
            cols: self.cols as int,
            cells: Seq::new(self.cells@.len(), |i: int| self.cells@[i] as int),
        }
    }

    pub open spec fn wf(self) -> bool {
        &&& self.model().wf()
        &&& self.rows * self.cols <= GRID_CELL_LIMIT
    }
}

/// The lines form a rectangular, non-empty block of ASCII digits that is
/// small enough to solve.
pub open spec fn grid_text_ok(ls: Seq<Seq<u8>>) -> bool {
    &&& ls.len() >= 1
    &&& ls[0].len() >= 1
    &&& forall|i: int| 0 <= i < ls.len() ==> (#[trigger] ls[i]).len() == ls[0].len()
    &&& forall|i: int, j: int|
        0 <= i < ls.len() && 0 <= j < ls[0].len() ==> text::is_digit(#[trigger] ls[i][j])
    &&& ls.len() * ls[0].len() <= GRID_CELL_LIMIT
}

/// The grid a rectangular block of digit lines denotes.
pub open spec fn model_of(ls: Seq<Seq<u8>>) -> GridModel {
    GridModel {
        rows: ls.len() as int,
        cols: ls[0].len() as int,
        cells: Seq::new(
            ls.len() * ls[0].len(),
            |i: int| ls[i / ls[0].len() as int][i % ls[0].len() as int] - 48,
        ),
    }
}

proof fn lemma_rowmajor_bound(rows: int, cols: int, r: int, c: int)
    requires
        0 <= r < rows,
        0 <= c < cols,
    ensures
        0 <= r * cols + c < rows * cols,
        (r * cols + c) / cols == r,
        (r * cols + c) % cols == c,
{
    assert(0 <= r * cols + c < rows * cols && (r * cols + c) / cols == r && (r * cols + c) % cols
        == c) by (nonlinear_arith)
        requires
            0 <= r < rows,
            0 <= c < cols,
    ;
}

impl Grid {
    /// Parses a rectangular block of digit lines.  Returns `MalformedInput`
    /// exactly when the block is empty, ragged, holds a non-digit, or is
    /// larger than `GRID_CELL_LIMIT` cells.
    pub fn parse(input: &str) -> (r: Result<Grid, Error>)
        ensures
            r is Ok <==> grid_text_ok(text::lines_spec(input.spec_bytes())),
            r is Err ==> r == Err::<Grid, Error>(Error::MalformedInput),
            r is Ok ==> {
                let g = r.unwrap();
                g.wf() && g.model() == model_of(text::lines_spec(input.spec_bytes()))
            },
    {
        let bytes = input.as_bytes();
        let lines = text::split_lines(bytes);
        let ghost ls = text::lines_spec(input.spec_bytes());
        proof {
            assert(lines.deep_view() == ls);
            assert(forall|i: int| 0 <= i < lines@.len() ==> lines@[i]@ == ls[i]);
        }
        if lines.len() == 0 {
            return Err(Error::MalformedInput);
        }
        let cols = lines[0].len();
        if cols == 0 {
            return Err(Error::MalformedInput);
        }
        let rows = lines.len();
        proof {
            vstd::arithmetic::div_mod::lemma_fundamental_div_mod(
                GRID_CELL_LIMIT as int,
                cols as int,
            );
        }
        if rows > GRID_CELL_LIMIT / cols {
            proof {
                assert(rows * cols > GRID_CELL_LIMIT) by (nonlinear_arith)
                    requires
                        cols >= 1,
                        rows > GRID_CELL_LIMIT / cols,
                        GRID_CELL_LIMIT as int == (cols as int) * (GRID_CELL_LIMIT as int / cols as int)
                            + GRID_CELL_LIMIT as int % cols as int,
                        0 <= GRID_CELL_LIMIT % cols < cols,
                ;
                assert(!grid_text_ok(ls));
            }
            return Err(Error::MalformedInput);
        }
        proof {
            assert(rows * cols <= GRID_CELL_LIMIT) by (nonlinear_arith)
                requires
                    cols >= 1,
                    rows <= GRID_CELL_LIMIT / cols,
                    GRID_CELL_LIMIT as int == (cols as int) * (GRID_CELL_LIMIT as int / cols as int)
                        + GRID_CELL_LIMIT as int % cols as int,
                    0 <= GRID_CELL_LIMIT % cols < cols,
            ;
        }
        let mut cells: Vec<u8> = Vec::new();
        let mut r: usize = 0;
        while r < rows
            invariant
                0 <= r <= rows,
                rows == lines@.len(),
                ls == text::lines_spec(input.spec_bytes()),
                ls.len() == lines@.len(),
                cols == ls[0].len(),
                cols >= 1,
                rows * cols <= GRID_CELL_LIMIT,
                forall|i: int| 0 <= i < lines@.len() ==> lines@[i]@ == ls[i],
                cells@.len() == r * cols,
                forall|i: int| 0 <= i < r ==> (#[trigger] ls[i]).len() == cols,
                forall|i: int, j: int|
                    0 <= i < r && 0 <= j < cols ==> text::is_digit(#[trigger] ls[i][j]),
                forall|idx: int|
                    0 <= idx < cells@.len() ==> #[trigger] cells@[idx] == ls[idx / cols as int][idx
                        % cols as int] - 48,
            decreases rows - r,
        {
            let line = &lines[r];
            if line.len() != cols {
                proof {
                    assert(ls[r as int].len() != ls[0].len());
                    assert(!grid_text_ok(ls));
                }
                return Err(Error::MalformedInput);
            }
            let mut j: usize = 0;
            while j < cols
                invariant
                    0 <= j <= cols,
                    0 <= r < rows,
                    rows == lines@.len(),
                    ls == text::lines_spec(input.spec_bytes()),
                    ls.len() == lines@.len(),
                    cols == ls[0].len(),
                    cols >= 1,
                    rows * cols <= GRID_CELL_LIMIT,
                    forall|i: int| 0 <= i < lines@.len() ==> lines@[i]@ == ls[i],
                    line@ == ls[r as int],
                    line@.len() == cols,
                    cells@.len() == r * cols + j,
                    forall|i: int| 0 <= i < r ==> (#[trigger] ls[i]).len() == cols,
                    forall|i: int, j2: int|
                        0 <= i < r && 0 <= j2 < cols ==> text::is_digit(#[trigger] ls[i][j2]),
                    forall|jj: int| 0 <= jj < j ==> text::is_digit(#[trigger] ls[r as int][jj]),
                    forall|idx: int|
                        0 <= idx < cells@.len() ==> #[trigger] cells@[idx] == ls[idx
                            / cols as int][idx % cols as int] - 48,
                decreases cols - j,
            {
                let b = line[j];
                if !(48 <= b && b <= 57) {
                    proof {
                        assert(!text::is_digit(ls[r as int][j as int]));
                        assert(!grid_text_ok(ls));
                    }
                    return Err(Error::MalformedInput);
                }
                proof {
                    lemma_rowmajor_bound(rows as int, cols as int, r as int, j as int);
                }
                cells.push(b - 48);
                j += 1;
            }
            proof {
                assert(cells@.len() == r * cols + cols == (r + 1) * cols) by (nonlinear_arith)
                    requires
                        cells@.len() == r * cols + cols,
                ;
            }
            r += 1;
        }
        let g = Grid { rows, cols, cells };
        proof {
            assert(grid_text_ok(ls));
            let gm = g.model();
            let mm = model_of(ls);
            assert(gm.cells =~= mm.cells);
            assert forall|i: int| 0 <= i < gm.cells.len() implies 0 <= #[trigger] gm.cells[i]
                <= 9 by {
                let rr = i / (cols as int);
                let cc = i % (cols as int);
                vstd::arithmetic::div_mod::lemma_fundamental_div_mod(i, cols as int);
                vstd::arithmetic::div_mod::lemma_mod_division_less_than_divisor(i, cols as int);
                assert(0 <= rr < rows) by (nonlinear_arith)
                    requires
                        i == (cols as int) * rr + cc,
                        0 <= cc < cols,
                        0 <= i < rows * cols,
                        cols >= 1,
                ;
                assert(text::is_digit(ls[rr][cc]));
            }
            assert(gm.wf());
        }
        Ok(g)
    }
}

/// Row-major index of `pos` in a grid of dimensions `dim`.
pub fn get_idx(pos: (usize, usize), dim: (usize, usize)) -> (r: usize)
    requires
        pos.0 < dim.0,
        pos.1 < dim.1,
        dim.0 * dim.1 <= usize::MAX,
    ensures
        r == pos.0 * dim.1 + pos.1,
        r < dim.0 * dim.1,
{
    proof {
        lemma_rowmajor_bound(dim.0 as int, dim.1 as int, pos.0 as int, pos.1 as int);
    }
    pos.0 * dim.1 + pos.1
}

/// Where a straight move of `len` cells from `p` in direction `d` ends.
pub open spec fn run_end(p: (int, int), d: Direction, len: int) -> (int, int) {
    match d {
        Direction::North => (p.0 - len, p.1),
        Direction::South => (p.0 + len, p.1),
        Direction::East => (p.0, p.1 + len),
        Direction::West => (p.0, p.1 - len),
    }
}

/// The in-bounds landing cell of an `amount`-cell move, if there is one.
pub open spec fn next_pos_spec(pos: (int, int), dim: (int, int), d: Direction, amount: int) -> Option<
    (int, int),
> {
    let e = run_end(pos, d, amount);
    if 0 <= e.0 < dim.0 && 0 <= e.1 < dim.1 {
        Some(e)
    } else {
        None
    }
}

/// Moves `amount` cells from `pos` in direction `dir` inside a grid of
/// dimensions `dim`, if the landing cell is in bounds.
pub fn get_next_pos(pos: (usize, usize), dim: (usize, usize), dir: Direction, amount: usize) -> (r:
    Option<(usize, usize)>)
    requires
        pos.0 < dim.0,
        pos.1 < dim.1,
    ensures
        r is Some <==> next_pos_spec((pos.0 as int, pos.1 as int), (dim.0 as int, dim.1 as int), dir, amount as int) is Some,
        r is Some ==> {
            let e = next_pos_spec((pos.0 as int, pos.1 as int), (dim.0 as int, dim.1 as int), dir, amount as int).unwrap();
            r.unwrap().0 == e.0 && r.unwrap().1 == e.1
        },
{
    match dir {
        Direction::North => if pos.0 >= amount {
            Some((pos.0 - amount, pos.1))
        } else {
            None
        },
        Direction::South => if amount < dim.0 - pos.0 {
            Some((pos.0 + amount, pos.1))
        } else {
            None
        },
        Direction::East => if amount < dim.1 - pos.1 {
            Some((pos.0, pos.1 + amount))
        } else {
            None
        },
        Direction::West => if pos.1 >= amount {
            Some((pos.0, pos.1 - amount))
        } else {
            None
        },
    }
}

/// Total cost of the `len` cells entered while moving from `p` in
/// direction `d`.
pub open spec fn run_cost(g: GridModel, p: (int, int), d: Direction, len: int) -> int
    decreases len,
{
    if len <= 0 {
        0
    } else {
        let e = run_end(p, d, len);
        run_cost(g, p, d, len - 1) + g.at(e.0, e.1)
    }
}

/// A path is a sequence of runs, each a direction and a length.
pub type Path = Seq<(Direction, int)>;

/// The cell a path ends on, starting from the top-left corner.
pub open spec fn path_end(p: Path) -> (int, int)
    decreases p.len(),
{
    if p.len() == 0 {
        (0, 0)
    } else {
        run_end(path_end(p.drop_last()), p.last().0, p.last().1)
    }
}

/// Total cost of a path: the cost of every cell entered, the start free.
pub open spec fn path_cost(g: GridModel, p: Path) -> int
    decreases p.len(),
{
    if p.len() == 0 {
        0
    } else {
        path_cost(g, p.drop_last()) + run_cost(g, path_end(p.drop_last()), p.last().0, p.last().1)
    }
}

/// The path obeys the movement rules: every run is `lmin` to `lmax` cells
/// long, stays on the grid, and consecutive runs alternate axes.
pub open spec fn path_valid(g: GridModel, lmin: int, lmax: int, p: Path) -> bool
    decreases p.len(),
{
    if p.len() == 0 {
        true
    } else {
        &&& path_valid(g, lmin, lmax, p.drop_last())
        &&& lmin <= p.last().1 <= lmax
        &&& g.in_bounds(path_end(p))
        &&& (p.len() >= 2 ==> p.last().0.is_vertical() != p[p.len() - 2].0.is_vertical())
    }
}

/// The path obeys the movement rules and ends on the bottom-right cell.
pub open spec fn reaches_goal(g: GridModel, lmin: int, lmax: int, p: Path) -> bool {
    path_valid(g, lmin, lmax, p) && path_end(p) == g.goal()
}

/// `c` is the cost of some goal-reaching path and no such path is cheaper.
pub open spec fn is_min_cost(g: GridModel, lmin: int, lmax: int, c: int) -> bool {
    &&& exists|p: Path| reaches_goal(g, lmin, lmax, p) && path_cost(g, p) == c
    &&& forall|p: Path| reaches_goal(g, lmin, lmax, p) ==> path_cost(g, p) >= c
}

/// No path at all reaches the bottom-right cell.
pub open spec fn no_path(g: GridModel, lmin: int, lmax: int) -> bool {
    forall|p: Path| !reaches_goal(g, lmin, lmax, p)
}


/// Number of `true` entries in a sequence of marks.
pub open spec fn count_trues(s: Seq<bool>) -> int
    decreases s.len(),
{
    if s.len() == 0 {
        0
    } else {
        count_trues(s.drop_last()) + if s.last() {
            1int
        } else {
            0int
        }
    }
}

proof fn lemma_count_trues_le(s: Seq<bool>)
    ensures
        0 <= count_trues(s) <= s.len(),
    decreases s.len(),
{
    if s.len() > 0 {
        lemma_count_trues_le(s.drop_last());
    }
}

proof fn lemma_count_trues_update(s: Seq<bool>, i: int)
    requires
        0 <= i < s.len(),
        !s[i],
    ensures
        count_trues(s.update(i, true)) == count_trues(s) + 1,
    decreases s.len(),
{
    let t = s.update(i, true);
    if i == s.len() - 1 {
        assert(t.drop_last() =~= s.drop_last());
    } else {
        assert(t.drop_last() =~= s.drop_last().update(i, true));
        lemma_count_trues_update(s.drop_last(), i);
    }
}

proof fn lemma_count_trues_push(s: Seq<bool>, b: bool)
    ensures
        count_trues(s.push(b)) == count_trues(s) + if b {
            1int
        } else {
            0int
        },
{
    assert(s.push(b).drop_last() =~= s);
}

/// Every cell entered by an in-bounds straight run costs 0 to 9.
proof fn lemma_run_cost_bounds(g: GridModel, p: (int, int), d: Direction, len: int)
    requires
        g.wf(),
        g.in_bounds(p),
        g.in_bounds(run_end(p, d, len)),
        len >= 0,
    ensures
        0 <= run_cost(g, p, d, len) <= 9 * len,
    decreases len,
{
    if len > 0 {
        assert(g.in_bounds(run_end(p, d, len - 1)));
        lemma_run_cost_bounds(g, p, d, len - 1);
        let e = run_end(p, d, len);
        lemma_rowmajor_bound(g.rows, g.cols, e.0, e.1);
        assert(0 <= g.at(e.0, e.1) <= 9);
    }
}

/// A valid path never has negative cost.
proof fn lemma_path_cost_nonneg(g: GridModel, lmin: int, lmax: int, p: Path)
    requires
        g.wf(),
        0 <= lmin,
        path_valid(g, lmin, lmax, p),
    ensures
        path_cost(g, p) >= 0,
    decreases p.len(),
{
    if p.len() > 0 {
        let q = p.drop_last();
        assert(path_valid(g, lmin, lmax, q));
        lemma_path_cost_nonneg(g, lmin, lmax, q);
        assert(g.in_bounds(path_end(p)));
        assert(path_end(p) == run_end(path_end(q), p.last().0, p.last().1));
        if q.len() == 0 {
            assert(path_end(q) == (0int, 0int));
            assert(g.in_bounds((0int, 0int)));
            lemma_run_cost_bounds(g, (0, 0), p.last().0, p.last().1);
        } else {
            assert(g.in_bounds(path_end(q)));
            lemma_run_cost_bounds(g, path_end(q), p.last().0, p.last().1);
        }
    }
}

/// The search state a frontier entry stands at: position and last-run axis.
pub open spec fn st_of(e: Entry) -> (int, int, bool) {
    (e.row as int, e.col as int, e.vert)
}

/// The search state a non-empty path ends in.
pub open spec fn path_state(p: Path) -> (int, int, bool) {
    (path_end(p).0, path_end(p).1, p.last().0.is_vertical())
}

/// A pending candidate: a cost, the state it would reach, and (as ghost
/// data) the path that witnesses the cost.
#[derive(Clone, Copy)]
pub struct Entry {
    pub cost: u64,
    pub row: usize,
    pub col: usize,
    pub vert: bool,
    pub path: Ghost<Path>,
}

/// The entry records a genuine valid path of exactly its cost.
pub open spec fn entry_inv(g: GridModel, lmin: int, lmax: int, e: Entry) -> bool {
    &&& g.in_bounds((e.row as int, e.col as int))
    &&& path_valid(g, lmin, lmax, e.path@)
    &&& path_end(e.path@) == (e.row as int, e.col as int)
    &&& path_cost(g, e.path@) == e.cost
    &&& (e.path@.len() == 0 ==> e.row == 0 && e.col == 0)
    &&& (e.path@.len() > 0 ==> e.path@.last().0.is_vertical() == e.vert)
}

pub open spec fn inv_entries(g: GridModel, lmin: int, lmax: int, fr: Seq<Entry>) -> bool {
    forall|j: int| 0 <= j < fr.len() ==> entry_inv(g, lmin, lmax, #[trigger] fr[j])
}

pub open spec fn inv_costs(g: GridModel, fr: Seq<Entry>, nfin: int) -> bool {
    forall|j: int| 0 <= j < fr.len() ==> (#[trigger] fr[j]).cost <= 9 * (g.rows + g.cols) * (nfin
        + 1)
}

/// Every finalized state's recorded cost undercuts every valid path to it.
pub open spec fn inv_dist_min(
    g: GridModel,
    lmin: int,
    lmax: int,
    dist: Map<(int, int, bool), int>,
) -> bool {
    forall|q: Path|
        (#[trigger] path_valid(g, lmin, lmax, q)) && q.len() > 0 && dist.dom().contains(
            path_state(q),
        ) ==> dist[path_state(q)] <= path_cost(g, q)
}

/// A finalized start state was finalized at cost zero.
pub open spec fn inv_dist_start(dist: Map<(int, int, bool), int>) -> bool {
    &&& dist.dom().contains((0int, 0int, true)) ==> dist[(0int, 0int, true)] == 0
    &&& dist.dom().contains((0int, 0int, false)) ==> dist[(0int, 0int, false)] == 0
}

/// Where the edge out of state `s` along `d` for `k` cells lands.
pub open spec fn edge_target(s: (int, int, bool), d: Direction, k: int) -> (int, int, bool) {
    (run_end((s.0, s.1), d, k).0, run_end((s.0, s.1), d, k).1, d.is_vertical())
}

/// The edge is one the movement rules allow out of `s`.
pub open spec fn edge_ok(g: GridModel, lmin: int, lmax: int, s: (int, int, bool), d: Direction, k: int) -> bool {
    &&& d.is_vertical() != s.2
    &&& lmin <= k <= lmax
    &&& g.in_bounds(run_end((s.0, s.1), d, k))
}

/// The frontier holds an entry standing at state `t` whose cost is at
/// most `bound`.
pub open spec fn has_entry(fr: Seq<Entry>, t: (int, int, bool), bound: int) -> bool {
    exists|j: int| 0 <= j < fr.len() && st_of(#[trigger] fr[j]) == t && fr[j].cost <= bound
}

proof fn lemma_has_entry_push(fr: Seq<Entry>, x: Entry, t: (int, int, bool), bound: int)
    requires
        has_entry(fr, t, bound),
    ensures
        has_entry(fr.push(x), t, bound),
{
    let j = choose|j: int| 0 <= j < fr.len() && st_of(#[trigger] fr[j]) == t && fr[j].cost <= bound;
    assert(st_of(fr.push(x)[j]) == t && fr.push(x)[j].cost <= bound);
}

/// Removing one entry whose state differs from `t` keeps a `t`-witness.
proof fn lemma_has_entry_pop(fr: Seq<Entry>, i: int, t: (int, int, bool), bound: int)
    requires
        0 <= i < fr.len(),
        has_entry(fr, t, bound),
        st_of(fr[i]) != t,
    ensures
        has_entry(fr.update(i, fr.last()).drop_last(), t, bound),
{
    let nf = fr.update(i, fr.last()).drop_last();
    let w = choose|j: int| 0 <= j < fr.len() && st_of(#[trigger] fr[j]) == t && fr[j].cost <= bound;
    if w == fr.len() - 1 {
        assert(i < fr.len() - 1);
        assert(st_of(nf[i]) == t && nf[i].cost <= bound);
    } else {
        assert(st_of(nf[w]) == t && nf[w].cost <= bound);
    }
}

/// The edge's target is finalized, or the frontier holds an entry for it
/// no costlier than relaxing the edge.
pub open spec fn edge_relaxed(
    g: GridModel,
    fr: Seq<Entry>,
    dist: Map<(int, int, bool), int>,
    s: (int, int, bool),
    d: Direction,
    k: int,
) -> bool {
    ||| dist.dom().contains(edge_target(s, d, k))
    ||| has_entry(fr, edge_target(s, d, k), dist[s] + run_cost(g, (s.0, s.1), d, k))
}

/// Every edge out of every finalized state has been relaxed.
pub open spec fn inv_edges(
    g: GridModel,
    lmin: int,
    lmax: int,
    fr: Seq<Entry>,
    dist: Map<(int, int, bool), int>,
) -> bool {
    forall|s: (int, int, bool), d: Direction, k: int|
        dist.dom().contains(s) && edge_ok(g, lmin, lmax, s, d, k) ==> #[trigger] edge_relaxed(
            g,
            fr,
            dist,
            s,
            d,
            k,
        )
}

/// The start state of axis `b` is finalized or still on the frontier at
/// cost zero.
pub open spec fn start_covered(fr: Seq<Entry>, dist: Map<(int, int, bool), int>, b: bool) -> bool {
    ||| dist.dom().contains((0int, 0int, b))
    ||| has_entry(fr, (0int, 0int, b), 0)
}

/// No goal state is ever finalized: the search returns when one is popped.
pub open spec fn inv_goal(g: GridModel, dist: Map<(int, int, bool), int>) -> bool {
    &&& !dist.dom().contains((g.rows - 1, g.cols - 1, true))
    &&& !dist.dom().contains((g.rows - 1, g.cols - 1, false))
}

/// Index of a search state in the `visited` mark vector.
pub open spec fn sidx(g: GridModel, s: (int, int, bool)) -> int {
    (s.0 * g.cols + s.1) * 2 + if s.2 {
        1int
    } else {
        0int
    }
}

proof fn lemma_sidx_inj(g: GridModel, s1: (int, int, bool), s2: (int, int, bool))
    requires
        g.wf(),
        g.in_bounds((s1.0, s1.1)),
        g.in_bounds((s2.0, s2.1)),
        sidx(g, s1) == sidx(g, s2),
    ensures
        s1 == s2,
{
    assert(s1.2 == s2.2);
    assert(s1.0 * g.cols + s1.1 == s2.0 * g.cols + s2.1);
    lemma_rowmajor_bound(g.rows, g.cols, s1.0, s1.1);
    lemma_rowmajor_bound(g.rows, g.cols, s2.0, s2.1);
}

proof fn lemma_sidx_bound(g: GridModel, s: (int, int, bool))
    requires
        g.wf(),
        g.in_bounds((s.0, s.1)),
    ensures
        0 <= sidx(g, s) < 2 * g.rows * g.cols,
{
    lemma_rowmajor_bound(g.rows, g.cols, s.0, s.1);
    assert(2 * g.rows * g.cols == 2 * (g.rows * g.cols)) by (nonlinear_arith);
}

/// The marks agree with the ghost distance map on which states are final.
pub open spec fn inv_marks(
    g: GridModel,
    visited: Seq<bool>,
    dist: Map<(int, int, bool), int>,
) -> bool {
    &&& visited.len() == 2 * g.rows * g.cols
    &&& forall|s: (int, int, bool)| #[trigger]
        dist.dom().contains(s) ==> g.in_bounds((s.0, s.1))
    &&& forall|s: (int, int, bool)|
        g.in_bounds((s.0, s.1)) ==> (dist.dom().contains(s) <==> visited[#[trigger] sidx(g, s)])
}

/// All the pieces of the search invariant that the covering argument needs.
pub open spec fn inv_core(
    g: GridModel,
    lmin: int,
    lmax: int,
    fr: Seq<Entry>,
    dist: Map<(int, int, bool), int>,
) -> bool {
    &&& inv_dist_min(g, lmin, lmax, dist)
    &&& inv_dist_start(dist)
    &&& inv_edges(g, lmin, lmax, fr, dist)
    &&& start_covered(fr, dist, true)
    &&& start_covered(fr, dist, false)
}

/// While a valid path's end state is not finalized, the frontier holds an
/// entry at most as costly as the path.  This is the heart of the
/// minimality argument: the cheapest frontier entry can never overshoot a
/// cheaper path that is still outstanding.
proof fn lemma_frontier_covers(
    g: GridModel,
    lmin: int,
    lmax: int,
    fr: Seq<Entry>,
    dist: Map<(int, int, bool), int>,
    q: Path,
)
    requires
        g.wf(),
        1 <= lmin <= lmax,
        inv_core(g, lmin, lmax, fr, dist),
        path_valid(g, lmin, lmax, q),
        q.len() > 0,
        !dist.dom().contains(path_state(q)),
    ensures
        exists|j: int| 0 <= j < fr.len() && (#[trigger] fr[j]).cost <= path_cost(g, q),
    decreases q.len(),
{
    let s = path_state(q);
    let run = q.last();
    let q2 = q.drop_last();
    let prev = path_end(q2);
    assert(g.in_bounds(prev)) by {
        if q2.len() == 0 {
        } else {
            assert(path_valid(g, lmin, lmax, q2));
        }
    }
    lemma_run_cost_bounds(g, prev, run.0, run.1);
    let w = run_cost(g, prev, run.0, run.1);
    assert(path_cost(g, q) == path_cost(g, q2) + w);
    if q2.len() == 0 {
        let b = !run.0.is_vertical();
        let sb = (0int, 0int, b);
        assert(edge_ok(g, lmin, lmax, sb, run.0, run.1));
        assert(edge_target(sb, run.0, run.1) == s);
        if dist.dom().contains(sb) {
            assert(dist[sb] == 0);
            assert(edge_relaxed(g, fr, dist, sb, run.0, run.1));
            assert(has_entry(fr, s, dist[sb] + w));
            let j = choose|j: int|
                0 <= j < fr.len() && st_of(#[trigger] fr[j]) == s && fr[j].cost <= dist[sb] + w;
            assert(fr[j].cost <= path_cost(g, q));
        } else {
            assert(start_covered(fr, dist, b));
            assert(has_entry(fr, sb, 0));
            let j = choose|j: int|
                0 <= j < fr.len() && st_of(#[trigger] fr[j]) == sb && fr[j].cost <= 0;
            assert(fr[j].cost <= path_cost(g, q));
        }
    } else {
        let sp = path_state(q2);
        assert(path_valid(g, lmin, lmax, q2));
        assert(edge_ok(g, lmin, lmax, sp, run.0, run.1)) by {
            assert(run.0.is_vertical() != q2.last().0.is_vertical());
        }
        assert(edge_target(sp, run.0, run.1) == s);
        if dist.dom().contains(sp) {
            assert(dist[sp] <= path_cost(g, q2));
            assert(edge_relaxed(g, fr, dist, sp, run.0, run.1));
            assert(has_entry(fr, s, dist[sp] + w));
            let j = choose|j: int|
                0 <= j < fr.len() && st_of(#[trigger] fr[j]) == s && fr[j].cost <= dist[sp] + w;
            assert(fr[j].cost <= path_cost(g, q));
        } else {
            lemma_frontier_covers(g, lmin, lmax, fr, dist, q2);
            let j = choose|j: int| 0 <= j < fr.len() && (#[trigger] fr[j]).cost <= path_cost(g, q2);
            assert(fr[j].cost <= path_cost(g, q));
        }
    }
}

/// Removes and returns a cheapest entry, and says which index it sat at.
fn pop_min(frontier: &mut Vec<Entry>) -> (r: (Entry, Ghost<int>))
    requires
        old(frontier)@.len() > 0,
    ensures
        0 <= r.1@ < old(frontier)@.len(),
        r.0 == old(frontier)@[r.1@],
        final(frontier)@ == old(frontier)@.update(r.1@, old(frontier)@.last()).drop_last(),
        forall|k: int| 0 <= k < old(frontier)@.len() ==> r.0.cost <= (#[trigger] old(
            frontier,
        )@[k]).cost,
{
    let mut m: usize = 0;
    let mut i: usize = 1;
    while i < frontier.len()
        invariant
            0 <= m < frontier@.len(),
            1 <= i <= frontier@.len(),
            forall|k: int| 0 <= k < i ==> frontier@[m as int].cost <= (#[trigger] frontier@[k]).cost,
        decreases frontier@.len() - i,
    {
        if frontier[i].cost < frontier[m].cost {
            m = i;
        }
        i += 1;
    }
    let e = frontier[m];
    let ghost pre = frontier@;
    let last = frontier.pop().unwrap();
    if m < frontier.len() {
        frontier.set(m, last);
        proof {
            assert(frontier@ =~= pre.update(m as int, pre.last()).drop_last());
        }
    } else {
        proof {
            assert(frontier@ =~= pre.update(m as int, pre.last()).drop_last());
        }
    }
    (e, Ghost(m as int))
}

proof fn lemma_cost_headroom(rows: int, cols: int)
    requires
        1 <= rows,
        1 <= cols,
        rows * cols <= GRID_CELL_LIMIT,
    ensures
        9 * (rows + cols) * (2 * rows * cols + 1) + 9 * (rows + cols) < u64::MAX,
{
    let m = rows + cols;
    let n = rows * cols;
    assert(m <= n + 1) by (nonlinear_arith)
        requires
            1 <= rows,
            1 <= cols,
            m == rows + cols,
            n == rows * cols,
    ;
    assert(9 * m * (2 * n + 1) + 9 * m == 18 * m * (n + 1)) by (nonlinear_arith);
    assert(18 * m * (n + 1) <= 18 * (n + 1) * (n + 1)) by (nonlinear_arith)
        requires
            0 < m <= n + 1,
    ;
    assert(18 * (n + 1) * (n + 1) < u64::MAX) by (nonlinear_arith)
        requires
            1 <= n <= GRID_CELL_LIMIT,
    ;
    assert(2 * rows * cols == 2 * n) by (nonlinear_arith)
        requires
            n == rows * cols,
    ;
}


proof fn lemma_push_keeps_relaxed(
    g: GridModel,
    fr: Seq<Entry>,
    x: Entry,
    dist: Map<(int, int, bool), int>,
    s: (int, int, bool),
    d: Direction,
    k: int,
)
    requires
        edge_relaxed(g, fr, dist, s, d, k),
    ensures
        edge_relaxed(g, fr.push(x), dist, s, d, k),
{
    if !dist.dom().contains(edge_target(s, d, k)) {
        lemma_has_entry_push(fr, x, edge_target(s, d, k), dist[s] + run_cost(g, (s.0, s.1), d, k));
    }
}

/// All edges out of `s` along direction `d` have been relaxed.
pub open spec fn dir_done(
    g: GridModel,
    lmin: int,
    lmax: int,
    fr: Seq<Entry>,
    dist: Map<(int, int, bool), int>,
    s: (int, int, bool),
    d: Direction,
) -> bool {
    forall|k: int|
        edge_ok(g, lmin, lmax, s, d, k) ==> #[trigger] edge_relaxed(g, fr, dist, s, d, k)
}

/// `inv_edges` with the edges out of one state exempted.
pub open spec fn inv_edges_except(
    g: GridModel,
    lmin: int,
    lmax: int,
    fr: Seq<Entry>,
    dist: Map<(int, int, bool), int>,
    ex: (int, int, bool),
) -> bool {
    forall|s: (int, int, bool), d: Direction, k: int|
        s != ex && dist.dom().contains(s) && edge_ok(g, lmin, lmax, s, d, k)
            ==> #[trigger] edge_relaxed(g, fr, dist, s, d, k)
}

/// Minimum cost of a valid constrained path from the top-left to the
/// bottom-right cell, or `NoPathFound` when no valid path exists.
#[verifier::rlimit(100)]
pub fn solve(g: &Grid, l_min: usize, l_max: usize) -> (r: Result<u64, Error>)
    requires
        g.wf(),
        1 <= l_min <= l_max,
    ensures
        match r {
            Ok(c) => is_min_cost(g.model(), l_min as int, l_max as int, c as int),
            Err(e) => e == Error::NoPathFound && no_path(g.model(), l_min as int, l_max as int),
        },
{
    let ghost gm = g.model();
    let ghost lmin = l_min as int;
    let ghost lmax = l_max as int;
    let rows = g.rows;
    let cols = g.cols;
    proof {
        lemma_cost_headroom(rows as int, cols as int);
    }
    let nstates = 2 * (rows * cols);
    proof {
        assert(nstates == 2 * gm.rows * gm.cols) by (nonlinear_arith)
            requires
                nstates == 2 * ((rows as int) * (cols as int)),
                gm.rows == rows as int,
                gm.cols == cols as int,
        ;
    }
    let mut visited: Vec<bool> = Vec::new();
    let mut vi: usize = 0;
    while vi < nstates
        invariant
            visited@.len() == vi,
            0 <= vi <= nstates,
            count_trues(visited@) == 0,
            forall|x: int| 0 <= x < visited@.len() ==> !visited@[x],
        decreases nstates - vi,
    {
        proof {
            lemma_count_trues_push(visited@, false);
        }
        visited.push(false);
        vi += 1;
    }
    let mut frontier: Vec<Entry> = Vec::new();
    frontier.push(Entry { cost: 0, row: 0, col: 0, vert: false, path: Ghost(Seq::empty()) });
    frontier.push(Entry { cost: 0, row: 0, col: 0, vert: true, path: Ghost(Seq::empty()) });
    let ghost mut dist: Map<(int, int, bool), int> = Map::empty();
    proof {
        assert(st_of(frontier@[0]) == (0int, 0int, false) && frontier@[0].cost <= 0);
        assert(st_of(frontier@[1]) == (0int, 0int, true) && frontier@[1].cost <= 0);
        assert(has_entry(frontier@, (0int, 0int, false), 0));
        assert(has_entry(frontier@, (0int, 0int, true), 0));
        assert(gm.in_bounds((0int, 0int)));
        assert(forall|j: int|
            0 <= j < frontier@.len() ==> (#[trigger] frontier@[j]).path@.len() == 0
                && frontier@[j].cost == 0 && frontier@[j].row == 0 && frontier@[j].col == 0);
        assert forall|s2: (int, int, bool)| gm.in_bounds((s2.0, s2.1)) implies (
            dist.dom().contains(s2) <==> visited@[sidx(gm, s2)]) by {
            lemma_sidx_bound(gm, s2);
        }
        assert(inv_marks(gm, visited@, dist));
    }
    loop
        invariant
            gm == g.model(),
            gm.wf(),
            rows == g.rows,
            cols == g.cols,
            gm.rows == rows as int,
            gm.cols == cols as int,
            lmin == l_min as int,
            lmax == l_max as int,
            1 <= lmin <= lmax,
            rows as int * cols as int <= GRID_CELL_LIMIT,
            9 * (gm.rows + gm.cols) * (2 * gm.rows * gm.cols + 1) + 9 * (gm.rows + gm.cols)
                < u64::MAX,
            visited@.len() == 2 * gm.rows * gm.cols,
            inv_marks(gm, visited@, dist),
            inv_entries(gm, lmin, lmax, frontier@),
            inv_costs(gm, frontier@, count_trues(visited@)),
            inv_dist_min(gm, lmin, lmax, dist),
            inv_dist_start(dist),
            inv_edges(gm, lmin, lmax, frontier@, dist),
            start_covered(frontier@, dist, true),
            start_covered(frontier@, dist, false),
            inv_goal(gm, dist),
        decreases 2 * gm.rows * gm.cols - count_trues(visited@), frontier@.len(),
    {
        proof {
            lemma_count_trues_le(visited@);
        }
        if frontier.len() == 0 {
            proof {
                assert forall|p: Path| !reaches_goal(gm, lmin, lmax, p) by {
                    if reaches_goal(gm, lmin, lmax, p) {
                        if p.len() == 0 {
                            assert(gm.goal() == (0int, 0int));
                            assert(!dist.dom().contains((0int, 0int, false)));
                            assert(start_covered(frontier@, dist, false));
                            let j = choose|j: int|
                                0 <= j < frontier@.len() && st_of(#[trigger] frontier@[j]) == (
                                0int,
                                0int,
                                false,
                            ) && frontier@[j].cost <= 0;
                            assert(false);
                        } else {
                            assert(path_state(p).0 == gm.rows - 1 && path_state(p).1 == gm.cols
                                - 1);
                            assert(!dist.dom().contains(path_state(p)));
                            lemma_frontier_covers(gm, lmin, lmax, frontier@, dist, p);
                            let j = choose|j: int|
                                0 <= j < frontier@.len() && (#[trigger] frontier@[j]).cost
                                    <= path_cost(gm, p);
                            assert(false);
                        }
                    }
                }
            }
            return Err(Error::NoPathFound);
        }
        let ghost f0 = frontier@;
        let ghost nfin0 = count_trues(visited@);
        let (e, gi) = pop_min(&mut frontier);
        let ghost i0 = gi@;
        proof {
            assert(entry_inv(gm, lmin, lmax, e));
            assert(e.cost <= 9 * (gm.rows + gm.cols) * (nfin0 + 1));
        }
        if e.row == rows - 1 && e.col == cols - 1 {
            proof {
                assert(path_end(e.path@) == gm.goal());
                assert(reaches_goal(gm, lmin, lmax, e.path@));
                assert forall|q: Path| reaches_goal(gm, lmin, lmax, q) implies path_cost(gm, q)
                    >= e.cost by {
                    if q.len() == 0 {
                        assert(gm.goal() == (0int, 0int));
                        assert(!dist.dom().contains((0int, 0int, false)));
                        assert(start_covered(f0, dist, false));
                        let j = choose|j: int|
                            0 <= j < f0.len() && st_of(#[trigger] f0[j]) == (0int, 0int, false)
                                && f0[j].cost <= 0;
                        assert(e.cost <= f0[j].cost);
                        assert(path_cost(gm, q) == 0);
                    } else {
                        assert(path_state(q).0 == gm.rows - 1 && path_state(q).1 == gm.cols - 1);
                        assert(!dist.dom().contains(path_state(q)));
                        lemma_frontier_covers(gm, lmin, lmax, f0, dist, q);
                        let j = choose|j: int|
                            0 <= j < f0.len() && (#[trigger] f0[j]).cost <= path_cost(gm, q);
                        assert(e.cost <= f0[j].cost);
                    }
                }
            }
            return Ok(e.cost);
        }
        let ghost snew = st_of(e);
        proof {
            lemma_sidx_bound(gm, snew);
            assert(2 * gm.rows * gm.cols == 2 * (gm.rows * gm.cols)) by (nonlinear_arith);
            lemma_rowmajor_bound(gm.rows, gm.cols, snew.0, snew.1);
        }
        let si = 2 * (e.row * cols + e.col) + (if e.vert { 1 } else { 0 });
        proof {
            assert(si as int == sidx(gm, snew));
        }
        if visited[si] {
            proof {
                assert(dist.dom().contains(snew));
                assert forall|s2: (int, int, bool), d2: Direction, k2: int|
                    s2 != snew && dist.dom().contains(s2) && edge_ok(gm, lmin, lmax, s2, d2, k2)
                        implies #[trigger] edge_relaxed(gm, frontier@, dist, s2, d2, k2) by {
                    assert(edge_relaxed(gm, f0, dist, s2, d2, k2));
                    let t = edge_target(s2, d2, k2);
                    if !dist.dom().contains(t) {
                        assert(t != snew);
                        lemma_has_entry_pop(
                            f0,
                            i0,
                            t,
                            dist[s2] + run_cost(gm, (s2.0, s2.1), d2, k2),
                        );
                    }
                }
                assert forall|s2: (int, int, bool), d2: Direction, k2: int|
                    s2 == snew && dist.dom().contains(s2) && edge_ok(gm, lmin, lmax, s2, d2, k2)
                        implies #[trigger] edge_relaxed(gm, frontier@, dist, s2, d2, k2) by {
                    assert(edge_relaxed(gm, f0, dist, s2, d2, k2));
                    let t = edge_target(s2, d2, k2);
                    if !dist.dom().contains(t) {
                        assert(t.2 == d2.is_vertical() && snew.2 != d2.is_vertical());
                        assert(t != snew);
                        lemma_has_entry_pop(
                            f0,
                            i0,
                            t,
                            dist[s2] + run_cost(gm, (s2.0, s2.1), d2, k2),
                        );
                    }
                }
                assert(inv_edges(gm, lmin, lmax, frontier@, dist));
                if !dist.dom().contains((0int, 0int, true)) {
                    lemma_has_entry_pop(f0, i0, (0int, 0int, true), 0);
                }
                if !dist.dom().contains((0int, 0int, false)) {
                    lemma_has_entry_pop(f0, i0, (0int, 0int, false), 0);
                }
            }
        } else {
            let ghost v0 = visited@;
            visited.set(si, true);
            let ghost dist0 = dist;
            proof {
                lemma_count_trues_update(v0, si as int);
                lemma_count_trues_le(visited@);
                dist = dist.insert(snew, e.cost as int);
                assert(!dist0.dom().contains(snew));
                let ghost nfin1 = count_trues(visited@);
                assert(nfin1 == nfin0 + 1);
                // marks stay in step with the distance map
                assert forall|s2: (int, int, bool)| gm.in_bounds((s2.0, s2.1)) implies (
                    dist.dom().contains(s2) <==> visited@[sidx(gm, s2)]) by {
                    lemma_sidx_bound(gm, s2);
                    if s2 != snew {
                        if sidx(gm, s2) == sidx(gm, snew) {
                            lemma_sidx_inj(gm, s2, snew);
                        }
                    }
                }
                // edges out of older states stay relaxed
                assert forall|s2: (int, int, bool), d2: Direction, k2: int|
                    s2 != snew && dist.dom().contains(s2) && edge_ok(gm, lmin, lmax, s2, d2, k2)
                        implies #[trigger] edge_relaxed(gm, frontier@, dist, s2, d2, k2) by {
                    assert(dist0.dom().contains(s2));
                    assert(edge_relaxed(gm, f0, dist0, s2, d2, k2));
                    let t = edge_target(s2, d2, k2);
                    if !dist.dom().contains(t) {
                        assert(!dist0.dom().contains(t));
                        assert(t != snew);
                        lemma_has_entry_pop(
                            f0,
                            i0,
                            t,
                            dist0[s2] + run_cost(gm, (s2.0, s2.1), d2, k2),
                        );
                        assert(dist[s2] == dist0[s2]);
                    }
                }
                // the start states stay covered
                if !dist.dom().contains((0int, 0int, true)) {
                    assert(!dist0.dom().contains((0int, 0int, true)));
                    assert((0int, 0int, true) != snew);
                    lemma_has_entry_pop(f0, i0, (0int, 0int, true), 0);
                }
                if !dist.dom().contains((0int, 0int, false)) {
                    assert(!dist0.dom().contains((0int, 0int, false)));
                    assert((0int, 0int, false) != snew);
                    lemma_has_entry_pop(f0, i0, (0int, 0int, false), 0);
                }
                // the new distance undercuts every valid path to its state
                assert forall|q: Path|
                    path_valid(gm, lmin, lmax, q) && q.len() > 0 && dist.dom().contains(
                        path_state(q),
                    ) implies dist[path_state(q)] <= path_cost(gm, q) by {
                    if path_state(q) == snew {
                        lemma_frontier_covers(gm, lmin, lmax, f0, dist0, q);
                        let j = choose|j: int|
                            0 <= j < f0.len() && (#[trigger] f0[j]).cost <= path_cost(gm, q);
                        assert(e.cost <= f0[j].cost);
                    } else {
                        assert(dist0.dom().contains(path_state(q)));
                    }
                }
                // a start state is only ever finalized at cost zero
                if snew == (0int, 0int, true) || snew == (0int, 0int, false) {
                    assert(start_covered(f0, dist0, snew.2));
                    assert(has_entry(f0, snew, 0));
                    let j = choose|j: int|
                        0 <= j < f0.len() && st_of(#[trigger] f0[j]) == snew && f0[j].cost <= 0;
                    assert(e.cost <= f0[j].cost);
                    assert(e.cost == 0);
                }
                // frontier costs stay under the (larger) new bound
                assert forall|j: int| 0 <= j < frontier@.len() implies (#[trigger] frontier@[j]).cost
                    <= 9 * (gm.rows + gm.cols) * (nfin1 + 1) by {
                    assert(frontier@[j].cost <= 9 * (gm.rows + gm.cols) * (nfin0 + 1));
                    assert(9 * (gm.rows + gm.cols) * (nfin0 + 1) <= 9 * (gm.rows + gm.cols) * (
                    nfin1 + 1)) by (nonlinear_arith)
                        requires
                            nfin0 <= nfin1,
                            gm.rows >= 1,
                            gm.cols >= 1,
                    ;
                }
            }
            // expand: push every legal run out of the new state
            let base = if e.vert {
                Direction::North
            } else {
                Direction::East
            };
            let pdirs = base.perp();
            let ghost epos = (e.row as int, e.col as int);
            let ghost nfin1 = count_trues(visited@);
            let mut di: usize = 0;
            while di < 2
                invariant
                    gm == g.model(),
                    gm.wf(),
                    rows == g.rows,
                    cols == g.cols,
                    gm.rows == rows as int,
                    gm.cols == cols as int,
                    lmin == l_min as int,
                    lmax == l_max as int,
                    1 <= lmin <= lmax,
                    rows as int * cols as int <= GRID_CELL_LIMIT,
                    9 * (gm.rows + gm.cols) * (2 * gm.rows * gm.cols + 1) + 9 * (gm.rows + gm.cols)
                        < u64::MAX,
                    visited@.len() == 2 * gm.rows * gm.cols,
                    nfin1 == count_trues(visited@),
                    1 <= nfin1 <= 2 * gm.rows * gm.cols,
                    inv_marks(gm, visited@, dist),
                    inv_entries(gm, lmin, lmax, frontier@),
                    inv_costs(gm, frontier@, nfin1),
                    inv_dist_min(gm, lmin, lmax, dist),
                    inv_dist_start(dist),
                    inv_edges_except(gm, lmin, lmax, frontier@, dist, snew),
                    start_covered(frontier@, dist, true),
                    start_covered(frontier@, dist, false),
                    inv_goal(gm, dist),
                    snew == st_of(e),
                    epos == (e.row as int, e.col as int),
                    gm.in_bounds(epos),
                    entry_inv(gm, lmin, lmax, e),
                    dist.dom().contains(snew),
                    dist[snew] == e.cost,
                    e.cost <= 9 * (gm.rows + gm.cols) * nfin1,
                    0 <= di <= 2,
                    pdirs@.len() == 2,
                    pdirs@[0].is_vertical() == !e.vert,
                    pdirs@[1].is_vertical() == !e.vert,
                    pdirs@[0] != pdirs@[1],
                    forall|dj: int|
                        0 <= dj < di ==> dir_done(gm, lmin, lmax, frontier@, dist, snew, pdirs@[dj]),
                decreases 2 - di,
            {
                let dir = pdirs[di];
                let mut k: usize = 1;
                let mut acc: u64 = e.cost;
                let mut done = false;
                while !done && k <= l_max
                    invariant
                        gm == g.model(),
                        gm.wf(),
                        rows == g.rows,
                        cols == g.cols,
                        gm.rows == rows as int,
                        gm.cols == cols as int,
                        lmin == l_min as int,
                        lmax == l_max as int,
                        1 <= lmin <= lmax,
                        rows as int * cols as int <= GRID_CELL_LIMIT,
                        9 * (gm.rows + gm.cols) * (2 * gm.rows * gm.cols + 1) + 9 * (gm.rows
                            + gm.cols) < u64::MAX,
                        visited@.len() == 2 * gm.rows * gm.cols,
                        nfin1 == count_trues(visited@),
                        1 <= nfin1 <= 2 * gm.rows * gm.cols,
                        inv_marks(gm, visited@, dist),
                        inv_entries(gm, lmin, lmax, frontier@),
                        inv_costs(gm, frontier@, nfin1),
                        inv_dist_min(gm, lmin, lmax, dist),
                        inv_dist_start(dist),
                        inv_edges_except(gm, lmin, lmax, frontier@, dist, snew),
                        start_covered(frontier@, dist, true),
                        start_covered(frontier@, dist, false),
                        inv_goal(gm, dist),
                        snew == st_of(e),
                        epos == (e.row as int, e.col as int),
                        gm.in_bounds(epos),
                        entry_inv(gm, lmin, lmax, e),
                        dist.dom().contains(snew),
                        dist[snew] == e.cost,
                        e.cost <= 9 * (gm.rows + gm.cols) * nfin1,
                        0 <= di < 2,
                        pdirs@.len() == 2,
                        dir == pdirs@[di as int],
                        dir.is_vertical() == !e.vert,
                        forall|dj: int|
                            0 <= dj < di ==> dir_done(
                                gm,
                                lmin,
                                lmax,
                                frontier@,
                                dist,
                                snew,
                                pdirs@[dj],
                            ),
                        1 <= k,
                        !done ==> k <= lmax + 1,
                        !done ==> acc == e.cost + run_cost(gm, epos, dir, k as int - 1),
                        !done ==> acc <= e.cost + 9 * (k as int - 1),
                        !done ==> (k as int - 1 == 0 || gm.in_bounds(
                            run_end(epos, dir, k as int - 1),
                        )),
                        !done ==> k as int - 1 <= gm.rows + gm.cols,
                        forall|k2: int|
                            lmin <= k2 < k as int && edge_ok(gm, lmin, lmax, snew, dir, k2)
                                ==> #[trigger] edge_relaxed(gm, frontier@, dist, snew, dir, k2),
                        done ==> forall|k2: int|
                            k as int <= k2 ==> !gm.in_bounds(#[trigger] run_end(epos, dir, k2)),
                    decreases
                            (if done {
                                0int
                            } else {
                                1int
                            }),
                            lmax + 1 - k,
                {
                    match get_next_pos((e.row, e.col), (rows, cols), dir, k) {
                        None => {
                            proof {
                                assert forall|k2: int| k as int <= k2 implies !gm.in_bounds(
                                    #[trigger] run_end(epos, dir, k2),
                                ) by {
                                    let ek = run_end(epos, dir, k as int);
                                    let ek2 = run_end(epos, dir, k2);
                                    assert(!(0 <= ek.0 < gm.rows && 0 <= ek.1 < gm.cols));
                                }
                            }
                            done = true;
                        },
                        Some(np) => {
                            proof {
                                assert((np.0 as int, np.1 as int) == run_end(epos, dir, k as int));
                                assert(gm.in_bounds(run_end(epos, dir, k as int)));
                                // the displacement keeps the run short
                                assert(k as int <= gm.rows + gm.cols);
                                lemma_rowmajor_bound(gm.rows, gm.cols, np.0 as int, np.1 as int);
                            }
                            let ci = get_idx(np, (rows, cols));
                            let cell = g.cells[ci];
                            proof {
                                assert(gm.cells[ci as int] == cell as int);
                                assert(0 <= cell <= 9);
                                assert(gm.at(np.0 as int, np.1 as int) == cell as int);
                                // no overflow: the running cost stays under the headroom
                                assert(e.cost + 9 * (k as int - 1) + 9 <= 9 * (gm.rows + gm.cols)
                                    * (2 * gm.rows * gm.cols + 1) + 9 * (gm.rows + gm.cols))
                                    by (nonlinear_arith)
                                    requires
                                        e.cost <= 9 * (gm.rows + gm.cols) * nfin1,
                                        nfin1 <= 2 * gm.rows * gm.cols,
                                        k as int <= gm.rows + gm.cols,
                                        gm.rows >= 1,
                                        gm.cols >= 1,
                                ;
                            }
                            acc = acc + (cell as u64);
                            proof {
                                assert(acc == e.cost + run_cost(gm, epos, dir, k as int));
                            }
                            if k >= l_min {
                                let nv = match dir {
                                    Direction::North | Direction::South => true,
                                    Direction::East | Direction::West => false,
                                };
                                let ghost npath = e.path@.push((dir, k as int));
                                let ghost fprev = frontier@;
                                let ne = Entry {
                                    cost: acc,
                                    row: np.0,
                                    col: np.1,
                                    vert: nv,
                                    path: Ghost(npath),
                                };
                                frontier.push(ne);
                                proof {
                                    assert(nv == dir.is_vertical());
                                    assert(npath.drop_last() =~= e.path@);
                                    assert(npath.last() == (dir, k as int));
                                    assert(path_end(npath) == run_end(
                                        path_end(e.path@),
                                        dir,
                                        k as int,
                                    ));
                                    assert(path_end(npath) == (np.0 as int, np.1 as int));
                                    assert(path_cost(gm, npath) == path_cost(gm, e.path@)
                                        + run_cost(gm, epos, dir, k as int));
                                    if e.path@.len() > 0 {
                                        assert(npath[npath.len() - 2] == e.path@.last());
                                    }
                                    assert(path_valid(gm, lmin, lmax, npath));
                                    assert(entry_inv(gm, lmin, lmax, ne));
                                    // every per-entry fact survives the push
                                    assert forall|j: int| 0 <= j < frontier@.len() implies entry_inv(
                                        gm,
                                        lmin,
                                        lmax,
                                        #[trigger] frontier@[j],
                                    ) by {
                                        if j < fprev.len() {
                                            assert(frontier@[j] == fprev[j]);
                                        }
                                    }
                                    assert(acc <= 9 * (gm.rows + gm.cols) * (nfin1 + 1))
                                        by (nonlinear_arith)
                                        requires
                                            acc <= e.cost + 9 * (k as int - 1) + 9,
                                            e.cost <= 9 * (gm.rows + gm.cols) * nfin1,
                                            k as int <= gm.rows + gm.cols,
                                            gm.rows >= 1,
                                            gm.cols >= 1,
                                    ;
                                    assert forall|j: int| 0 <= j < frontier@.len() implies (
                                    #[trigger] frontier@[j]).cost <= 9 * (gm.rows + gm.cols) * (
                                    nfin1 + 1) by {
                                        if j < fprev.len() {
                                            assert(frontier@[j] == fprev[j]);
                                        }
                                    }
                                    // old relaxation witnesses survive the push
                                    assert forall|s2: (int, int, bool), d2: Direction, k2: int|
                                        s2 != snew && dist.dom().contains(s2) && edge_ok(
                                            gm,
                                            lmin,
                                            lmax,
                                            s2,
                                            d2,
                                            k2,
                                        ) implies #[trigger] edge_relaxed(
                                        gm,
                                        frontier@,
                                        dist,
                                        s2,
                                        d2,
                                        k2,
                                    ) by {
                                        assert(edge_relaxed(gm, fprev, dist, s2, d2, k2));
                                        lemma_push_keeps_relaxed(gm, fprev, ne, dist, s2, d2, k2);
                                        assert(fprev.push(ne) =~= frontier@);
                                    }
                                    assert forall|dj: int| 0 <= dj < di implies dir_done(
                                        gm,
                                        lmin,
                                        lmax,
                                        frontier@,
                                        dist,
                                        snew,
                                        pdirs@[dj],
                                    ) by {
                                        assert(dir_done(gm, lmin, lmax, fprev, dist, snew, pdirs@[dj]));
                                        assert forall|k2: int|
                                            edge_ok(gm, lmin, lmax, snew, pdirs@[dj], k2)
                                                implies #[trigger] edge_relaxed(
                                            gm,
                                            frontier@,
                                            dist,
                                            snew,
                                            pdirs@[dj],
                                            k2,
                                        ) by {
                                            assert(edge_relaxed(gm, fprev, dist, snew, pdirs@[dj], k2));
                                            lemma_push_keeps_relaxed(
                                                gm,
                                                fprev,
                                                ne,
                                                dist,
                                                snew,
                                                pdirs@[dj],
                                                k2,
                                            );
                                            assert(fprev.push(ne) =~= frontier@);
                                        }
                                    }
                                    if !dist.dom().contains((0int, 0int, true)) {
                                        lemma_has_entry_push(fprev, ne, (0int, 0int, true), 0);
                                        assert(fprev.push(ne) =~= frontier@);
                                    }
                                    if !dist.dom().contains((0int, 0int, false)) {
                                        lemma_has_entry_push(fprev, ne, (0int, 0int, false), 0);
                                        assert(fprev.push(ne) =~= frontier@);
                                    }
                                    // runs seen earlier this direction stay relaxed, and
                                    // the run just pushed is relaxed by the new entry
                                    assert forall|k2: int|
                                        lmin <= k2 < k as int + 1 && edge_ok(
                                            gm,
                                            lmin,
                                            lmax,
                                            snew,
                                            dir,
                                            k2,
                                        ) implies #[trigger] edge_relaxed(
                                        gm,
                                        frontier@,
                                        dist,
                                        snew,
                                        dir,
                                        k2,
                                    ) by {
                                        if k2 < k as int {
                                            assert(edge_relaxed(gm, fprev, dist, snew, dir, k2));
                                            lemma_push_keeps_relaxed(gm, fprev, ne, dist, snew, dir, k2);
                                            assert(fprev.push(ne) =~= frontier@);
                                        } else {
                                            assert(k2 == k as int);
                                            let t = edge_target(snew, dir, k2);
                                            assert(t == (np.0 as int, np.1 as int, dir.is_vertical()));
                                            let j = frontier@.len() - 1;
                                            assert(frontier@[j] == ne);
                                            assert(st_of(ne) == t);
                                            assert(ne.cost <= dist[snew] + run_cost(
                                                gm,
                                                (snew.0, snew.1),
                                                dir,
                                                k2,
                                            ));
                                            assert(has_entry(
                                                frontier@,
                                                t,
                                                dist[snew] + run_cost(gm, (snew.0, snew.1), dir, k2),
                                            ));
                                        }
                                    }
                                }
                            }
                            k = k + 1;
                        },
                    }
                }
                proof {
                    assert(dir_done(gm, lmin, lmax, frontier@, dist, snew, dir)) by {
                        assert forall|k2: int| edge_ok(gm, lmin, lmax, snew, dir, k2)
                            implies #[trigger] edge_relaxed(gm, frontier@, dist, snew, dir, k2) by {
                            if k2 >= k as int {
                                assert(done);
                                assert(!gm.in_bounds(run_end(epos, dir, k2)));
                                assert(!edge_ok(gm, lmin, lmax, snew, dir, k2));
                            }
                        }
                    }
                }
                di += 1;
            }
            proof {
                // both perpendicular directions have been fully expanded
                assert(inv_edges(gm, lmin, lmax, frontier@, dist)) by {
                    assert forall|s2: (int, int, bool), d2: Direction, k2: int|
                        dist.dom().contains(s2) && edge_ok(gm, lmin, lmax, s2, d2, k2)
                            implies #[trigger] edge_relaxed(gm, frontier@, dist, s2, d2, k2) by {
                        if s2 == snew {
                            assert(d2.is_vertical() != e.vert);
                            assert(d2 == pdirs@[0] || d2 == pdirs@[1]);
                            assert(dir_done(gm, lmin, lmax, frontier@, dist, snew, d2));
                        }
                    }
                }
            }
        }
    }
}


/// Minimum path cost with runs of one to three cells.
pub fn part_1(input: &str) -> (r: Result<u64, Error>)
    ensures
        ({
            let ls = text::lines_spec(input.spec_bytes());
            &&& (!grid_text_ok(ls) ==> r == Err::<u64, Error>(Error::MalformedInput))
            &&& (grid_text_ok(ls) ==> match r {
                Ok(c) => is_min_cost(model_of(ls), 1, 3, c as int),
                Err(e) => e == Error::NoPathFound && no_path(model_of(ls), 1, 3),
            })
        }),
{
    let g = match Grid::parse(input) {
        Ok(g) => g,
        Err(e) => {
            return Err(e);
        },
    };
    solve(&g, 1, 3)
}

/// Minimum path cost with runs of four to ten cells.
pub fn part_2(input: &str) -> (r: Result<u64, Error>)
    ensures
        ({
            let ls = text::lines_spec(input.spec_bytes());
            &&& (!grid_text_ok(ls) ==> r == Err::<u64, Error>(Error::MalformedInput))
            &&& (grid_text_ok(ls) ==> match r {
                Ok(c) => is_min_cost(model_of(ls), 4, 10, c as int),
                Err(e) => e == Error::NoPathFound && no_path(model_of(ls), 4, 10),
            })
        }),
{
    let g = match Grid::parse(input) {
        Ok(g) => g,
        Err(e) => {
            return Err(e);
        },
    };
    solve(&g, 4, 10)
}

/// Law: on a one-cell grid the start is the target, and the minimum cost
/// is zero, whatever the run-length bounds.
pub proof fn lemma_trivial_grid_min_cost(g: GridModel, lmin: int, lmax: int)
    requires
        g.wf(),
        g.rows == 1,
        g.cols == 1,
        1 <= lmin <= lmax,
    ensures
        is_min_cost(g, lmin, lmax, 0),
{
    let p: Path = Seq::empty();
    assert(path_valid(g, lmin, lmax, p));
    assert(path_end(p) == (0int, 0int));
    assert(g.goal() == (0int, 0int));
    assert(reaches_goal(g, lmin, lmax, p) && path_cost(g, p) == 0);
    assert forall|q: Path| reaches_goal(g, lmin, lmax, q) implies path_cost(g, q) >= 0 by {
        lemma_path_cost_nonneg(g, lmin, lmax, q);
    }
}

/// Law: the minimum cost is unique.  Any two values satisfying
/// `is_min_cost` for the same grid and bounds agree, so `solve`'s result
/// is a function of its input alone: repeated calls, and any order of
/// breaking ties between equal-cost candidates, give the same answer.
pub proof fn lemma_min_cost_unique(g: GridModel, lmin: int, lmax: int, c1: int, c2: int)
    requires
        is_min_cost(g, lmin, lmax, c1),
        is_min_cost(g, lmin, lmax, c2),
    ensures
        c1 == c2,
{
    let p1 = choose|p: Path| reaches_goal(g, lmin, lmax, p) && path_cost(g, p) == c1;
    let p2 = choose|p: Path| reaches_goal(g, lmin, lmax, p) && path_cost(g, p) == c2;
    assert(path_cost(g, p2) >= c1);
    assert(path_cost(g, p1) >= c2);
}

proof fn lemma_run_cost_monotone(g1: GridModel, g2: GridModel, p: (int, int), d: Direction, len: int)
    requires
        g1.wf(),
        g2.wf(),
        g1.rows == g2.rows,
        g1.cols == g2.cols,
        forall|i: int| 0 <= i < g1.cells.len() ==> #[trigger] g1.cells[i] <= g2.cells[i],
        g1.in_bounds(p),
        g1.in_bounds(run_end(p, d, len)),
        len >= 0,
    ensures
        run_cost(g1, p, d, len) <= run_cost(g2, p, d, len),
    decreases len,
{
    if len > 0 {
        assert(g1.in_bounds(run_end(p, d, len - 1)));
        lemma_run_cost_monotone(g1, g2, p, d, len - 1);
        let e = run_end(p, d, len);
        lemma_rowmajor_bound(g1.rows, g1.cols, e.0, e.1);
    }
}

proof fn lemma_path_valid_same_dims(g1: GridModel, g2: GridModel, lmin: int, lmax: int, p: Path)
    requires
        g1.rows == g2.rows,
        g1.cols == g2.cols,
        path_valid(g1, lmin, lmax, p),
    ensures
        path_valid(g2, lmin, lmax, p),
    decreases p.len(),
{
    if p.len() > 0 {
        lemma_path_valid_same_dims(g1, g2, lmin, lmax, p.drop_last());
    }
}

proof fn lemma_path_cost_monotone(g1: GridModel, g2: GridModel, lmin: int, lmax: int, p: Path)
    requires
        g1.wf(),
        g2.wf(),
        g1.rows == g2.rows,
        g1.cols == g2.cols,
        forall|i: int| 0 <= i < g1.cells.len() ==> #[trigger] g1.cells[i] <= g2.cells[i],
        1 <= lmin <= lmax,
        path_valid(g1, lmin, lmax, p),
    ensures
        path_cost(g1, p) <= path_cost(g2, p),
    decreases p.len(),
{
    if p.len() > 0 {
        let q = p.drop_last();
        assert(path_valid(g1, lmin, lmax, q));
        lemma_path_cost_monotone(g1, g2, lmin, lmax, q);
        assert(g1.in_bounds(path_end(p)));
        if q.len() == 0 {
            assert(path_end(q) == (0int, 0int));
            lemma_run_cost_monotone(g1, g2, (0int, 0int), p.last().0, p.last().1);
        } else {
            assert(g1.in_bounds(path_end(q)));
            lemma_run_cost_monotone(g1, g2, path_end(q), p.last().0, p.last().1);
        }
    }
}

/// Law: raising any cell's cost never lowers the minimum.  If `g2` is `g1`
/// with some cells made costlier (same dimensions), the minimum cost over
/// `g2` is at least the minimum over `g1`.
pub proof fn lemma_min_cost_monotone(
    g1: GridModel,
    g2: GridModel,
    lmin: int,
    lmax: int,
    c1: int,
    c2: int,
)
    requires
        g1.wf(),
        g2.wf(),
        g1.rows == g2.rows,
        g1.cols == g2.cols,
        forall|i: int| 0 <= i < g1.cells.len() ==> #[trigger] g1.cells[i] <= g2.cells[i],
        1 <= lmin <= lmax,
        is_min_cost(g1, lmin, lmax, c1),
        is_min_cost(g2, lmin, lmax, c2),
    ensures
        c1 <= c2,
{
    let p2 = choose|p: Path| reaches_goal(g2, lmin, lmax, p) && path_cost(g2, p) == c2;
    lemma_path_valid_same_dims(g2, g1, lmin, lmax, p2);
    assert(reaches_goal(g1, lmin, lmax, p2));
    lemma_path_cost_monotone(g1, g2, lmin, lmax, p2);
    assert(c1 <= path_cost(g1, p2));
}

} // verus!
