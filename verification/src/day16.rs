//! A beam of light crossing a grid of mirrors and splitters.
//!
//! Each cell is empty, a diagonal mirror, or a splitter pipe.  A beam
//! travels in straight lines, is bent by mirrors, passes through a parallel
//! splitter, and is split in two by a perpendicular one.  The per-cell
//! lighting state records from which travel directions the cell has been
//! crossed.

use vstd::prelude::*;
use vstd::string::StringSliceAdditionalSpecFns;

use crate::error::Error;
use crate::text;

verus! {

/// One cell of the contraption.
#[derive(Debug, Clone, Copy, PartialEq, Eq, Structural)]
pub enum Part {
    Blank,
    /// A `\` mirror.
    RLMirror,
    /// A `/` mirror.
    LRMirror,
    /// A `-` splitter.
    HPipe,
    /// A `|` splitter.
    VPipe,
}

impl Part {
    /// The cell is a splitter.
    pub open spec fn spec_is_pipe(self) -> bool {
        self == Part::HPipe || self == Part::VPipe
    }

    pub fn is_pipe(&self) -> (r: bool)
        ensures
            r == self.spec_is_pipe(),
    {
        match self {
            Part::HPipe | Part::VPipe => true,
            _ => false,
        }
    }
}

/// The travel direction of a beam.
#[derive(Debug, Clone, Copy, PartialEq, Eq, PartialOrd, Ord, Structural)]
pub enum LightDir {
    Left,
    Right,
    Up,
    Down,
}

impl LightDir {
    /// The two directions orthogonal to this one.
    pub open spec fn spec_perp(self) -> (LightDir, LightDir) {
        match self {
            LightDir::Left | LightDir::Right => (LightDir::Up, LightDir::Down),
            LightDir::Up | LightDir::Down => (LightDir::Left, LightDir::Right),
        }
    }

    pub fn perp(self) -> (r: (Self, Self))
        ensures
            r == self.spec_perp(),
    {
        match self {
            LightDir::Left | LightDir::Right => (LightDir::Up, LightDir::Down),
            LightDir::Up | LightDir::Down => (LightDir::Left, LightDir::Right),
        }
    }

    /// The opposite direction.
    pub open spec fn spec_inv(self) -> LightDir {
        match self {
            LightDir::Left => LightDir::Right,
            LightDir::Right => LightDir::Left,
            LightDir::Up => LightDir::Down,
            LightDir::Down => LightDir::Up,
        }
    }

    pub fn inv(self) -> (r: Self)
        ensures
            r == self.spec_inv(),
    {
        match self {
            LightDir::Left => LightDir::Right,
            LightDir::Right => LightDir::Left,
            LightDir::Up => LightDir::Down,
            LightDir::Down => LightDir::Up,
        }
    }
}

/// The splitter's axis matches the beam's travel axis.
pub open spec fn spec_pipe_par(pipe: Part, dir: LightDir) -> bool {
    match (pipe, dir) {
        (Part::HPipe, LightDir::Left) | (Part::HPipe, LightDir::Right) => true,
        (Part::VPipe, LightDir::Up) | (Part::VPipe, LightDir::Down) => true,
        _ => false,
    }
}

pub fn is_pipe_par(pipe: Part, dir: LightDir) -> (r: bool)
    ensures
        r == spec_pipe_par(pipe, dir),
{
    match (pipe, dir) {
        (Part::HPipe, LightDir::Left) | (Part::HPipe, LightDir::Right) => true,
        (Part::VPipe, LightDir::Up) | (Part::VPipe, LightDir::Down) => true,
        _ => false,
    }
}

/// Where a mirror (or empty cell) sends an incoming beam.
pub open spec fn spec_reflect(dir: LightDir, part: Part) -> LightDir {
    match part {
        Part::LRMirror => match dir {
            LightDir::Left => LightDir::Down,
            LightDir::Right => LightDir::Up,
            LightDir::Up => LightDir::Right,
            LightDir::Down => LightDir::Left,
        },
        Part::RLMirror => match dir {
            LightDir::Left => LightDir::Up,
            LightDir::Right => LightDir::Down,
            LightDir::Up => LightDir::Left,
            LightDir::Down => LightDir::Right,
        },
        _ => dir,
    }
}

pub fn reflect(dir: LightDir, part: Part) -> (r: LightDir)
    ensures
        r == spec_reflect(dir, part),
{
    match part {
        Part::LRMirror => match dir {
            LightDir::Left => LightDir::Down,
            LightDir::Right => LightDir::Up,
            LightDir::Up => LightDir::Right,
            LightDir::Down => LightDir::Left,
        },
        Part::RLMirror => match dir {
            LightDir::Left => LightDir::Up,
            LightDir::Right => LightDir::Down,
            LightDir::Up => LightDir::Left,
            LightDir::Down => LightDir::Right,
        },
        _ => dir,
    }
}

/// The neighbouring cell in travel direction `dir`, if it is on the grid.
pub open spec fn spec_get_next(dir: LightDir, dim: (int, int), curr: (int, int)) -> Option<
    (int, int),
> {
    let nxt = match dir {
        LightDir::Left => (curr.0, curr.1 - 1),
        LightDir::Right => (curr.0, curr.1 + 1),
        LightDir::Up => (curr.0 - 1, curr.1),
        LightDir::Down => (curr.0 + 1, curr.1),
    };
    if 0 <= nxt.0 < dim.0 && 0 <= nxt.1 < dim.1 {
        Some(nxt)
    } else {
        None
    }
}

pub fn get_next(dir: LightDir, dim: (usize, usize), curr: (usize, usize)) -> (r: Option<
    (usize, usize),
>)
    requires
        curr.0 < dim.0,
        curr.1 < dim.1,
    ensures
        r is Some <==> spec_get_next(dir, (dim.0 as int, dim.1 as int), (curr.0 as int, curr.1 as int)) is Some,
        r is Some ==> {
            let e = spec_get_next(dir, (dim.0 as int, dim.1 as int), (curr.0 as int, curr.1 as int)).unwrap();
            r.unwrap().0 == e.0 && r.unwrap().1 == e.1
        },
{
    match dir {
        LightDir::Left => if curr.1 > 0 {
            Some((curr.0, curr.1 - 1))
        } else {
            None
        },
        LightDir::Right => if curr.1 < dim.1 - 1 {
            Some((curr.0, curr.1 + 1))
        } else {
            None
        },
        LightDir::Up => if curr.0 > 0 {
            Some((curr.0 - 1, curr.1))
        } else {
            None
        },
        LightDir::Down => if curr.0 < dim.0 - 1 {
            Some((curr.0 + 1, curr.1))
        } else {
            None
        },
    }
}

/// Row-major index of `pos` in a grid of dimensions `dim`.
pub fn get_idx(dim: (usize, usize), pos: (usize, usize)) -> (r: usize)
    requires
        pos.0 < dim.0,
        pos.1 < dim.1,
        dim.0 * dim.1 <= usize::MAX,
    ensures
        r == pos.0 * dim.1 + pos.1,
        r < dim.0 * dim.1,
{
    proof {
        assert(pos.0 * dim.1 + pos.1 < dim.0 * dim.1) by (nonlinear_arith)
            requires
                pos.0 < dim.0,
                pos.1 < dim.1,
        ;
    }
    pos.0 * dim.1 + pos.1
}

/// From which directions a cell has been crossed.
#[derive(Debug, Clone, Copy, PartialEq, Eq, Structural)]
pub struct LitData {
    pub left: bool,
    pub right: bool,
    pub up: bool,
    pub down: bool,
}

impl LitData {
    /// The recorded mark for one travel direction.
    pub open spec fn spec_get(self, dir: LightDir) -> bool {
        match dir {
            LightDir::Left => self.left,
            LightDir::Right => self.right,
            LightDir::Up => self.up,
            LightDir::Down => self.down,
        }
    }

    pub open spec fn spec_unlit(self) -> bool {
        !self.left && !self.right && !self.up && !self.down
    }

    /// A cell no beam has crossed yet.
    pub fn new() -> (r: Self)
        ensures
            r.spec_unlit(),
    {
        LitData { left: false, right: false, up: false, down: false }
    }

    /// Marks one travel direction, leaving the others as they are.
    pub fn set(&mut self, dir: LightDir)
        ensures
            final(self).spec_get(dir),
            forall|d: LightDir| d != dir ==> final(self).spec_get(d) == old(self).spec_get(d),
    {
        match dir {
            LightDir::Left => self.left = true,
            LightDir::Right => self.right = true,
            LightDir::Up => self.up = true,
            LightDir::Down => self.down = true,
        }
    }

    /// Marks every travel direction at once.
    pub fn flit(&mut self)
        ensures
            forall|d: LightDir| final(self).spec_get(d),
    {
        self.left = true;
        self.right = true;
        self.up = true;
        self.down = true;
    }

    pub fn get(&self, dir: LightDir) -> (r: bool)
        ensures
            r == self.spec_get(dir),
    {
        match dir {
            LightDir::Left => self.left,
            LightDir::Right => self.right,
            LightDir::Up => self.up,
            LightDir::Down => self.down,
        }
    }

    /// No beam has crossed the cell.
    pub fn is_unlit(&self) -> (r: bool)
        ensures
            r == self.spec_unlit(),
    {
        !self.left && !self.right && !self.up && !self.down
    }
}

/// What a grid byte denotes, if it is one of the five cell glyphs.
pub open spec fn part_of(b: u8) -> Option<Part> {
    if b == 47 {
        Some(Part::LRMirror)
    } else if b == 92 {
        Some(Part::RLMirror)
    } else if b == 46 {
        Some(Part::Blank)
    } else if b == 45 {
        Some(Part::HPipe)
    } else if b == 124 {
        Some(Part::VPipe)
    } else {
        None
    }
}

/// Number of cells some beam has crossed.
pub open spec fn spec_energized(ld: Seq<LitData>) -> int
    decreases ld.len(),
{
    if ld.len() == 0 {
        0
    } else {
        spec_energized(ld.drop_last()) + if ld.last().spec_unlit() {
            0int
        } else {
            1int
        }
    }
}

pub fn get_energized(ldata: &Vec<LitData>) -> (r: usize)
    ensures
        r == spec_energized(ldata@),
{
    let mut count: usize = 0;
    let mut i: usize = 0;
    proof {
        assert(ldata@.subrange(0, 0) =~= Seq::<LitData>::empty());
    }
    while i < ldata.len()
        invariant
            0 <= i <= ldata@.len(),
            count == spec_energized(ldata@.subrange(0, i as int)),
            count <= i,
        decreases ldata@.len() - i,
    {
        let ghost pre = ldata@.subrange(0, i as int);
        let ghost cur = ldata@.subrange(0, i + 1);
        proof {
            assert(cur.drop_last() =~= pre);
            assert(cur.last() == ldata@[i as int]);
        }
        if !ldata[i].is_unlit() {
            count += 1;
        }
        i += 1;
    }
    proof {
        assert(ldata@.subrange(0, ldata@.len() as int) =~= ldata@);
    }
    count
}

/// The cells of all lines, in reading order.
pub open spec fn concat_lines(ls: Seq<Seq<u8>>) -> Seq<u8>
    decreases ls.len(),
{
    if ls.len() == 0 {
        Seq::empty()
    } else {
        concat_lines(ls.drop_last()) + ls.last()
    }
}

/// Every byte of every line is one of the five cell glyphs.
pub open spec fn all_parts_ok(s: Seq<u8>) -> bool {
    forall|i: int| 0 <= i < s.len() ==> (#[trigger] part_of(s[i])) is Some
}

/// Reads the whole input as a flat sequence of cells, in reading order.
/// `MalformedInput` exactly when some byte is not a cell glyph.
pub fn parse_contraption(input: &str) -> (r: Result<Vec<Part>, Error>)
    ensures
        ({
            let flat = concat_lines(text::lines_spec(input.spec_bytes()));
            &&& (r is Ok <==> all_parts_ok(flat))
            &&& (r is Err ==> r == Err::<Vec<Part>, Error>(Error::MalformedInput))
            &&& (r is Ok ==> {
                let v = r.unwrap();
                v@.len() == flat.len() && forall|i: int|
                    0 <= i < flat.len() ==> Some(#[trigger] v@[i]) == part_of(flat[i])
            })
        }),
{
    let bytes = input.as_bytes();
    let lines = text::split_lines(bytes);
    let ghost ls = text::lines_spec(input.spec_bytes());
    proof {
        assert(lines.deep_view() == ls);
        assert(forall|k: int| 0 <= k < lines@.len() ==> lines@[k]@ == ls[k]);
        assert(ls.subrange(0, 0) =~= Seq::<Seq<u8>>::empty());
        assert(concat_lines(ls.subrange(0, 0)) =~= Seq::<u8>::empty());
    }
    let mut v: Vec<Part> = Vec::new();
    let mut i: usize = 0;
    while i < lines.len()
        invariant
            0 <= i <= lines@.len(),
            lines@.len() == ls.len(),
            ls == text::lines_spec(input.spec_bytes()),
            forall|k: int| 0 <= k < lines@.len() ==> lines@[k]@ == ls[k],
            v@.len() == concat_lines(ls.subrange(0, i as int)).len(),
            forall|k: int|
                0 <= k < v@.len() ==> Some(#[trigger] v@[k]) == part_of(
                    concat_lines(ls.subrange(0, i as int))[k],
                ),
        decreases lines@.len() - i,
    {
        let ghost pre = concat_lines(ls.subrange(0, i as int));
        let ghost cur = concat_lines(ls.subrange(0, i + 1));
        proof {
            assert(ls.subrange(0, i + 1).drop_last() =~= ls.subrange(0, i as int));
            assert(ls.subrange(0, i + 1).last() == ls[i as int]);
            assert(cur =~= pre + ls[i as int]);
        }
        let line = &lines[i];
        let mut j: usize = 0;
        while j < line.len()
            invariant
                0 <= j <= line@.len(),
                line@ == ls[i as int],
                0 <= i < ls.len(),
                ls == text::lines_spec(input.spec_bytes()),
                cur == pre + ls[i as int],
                v@.len() == pre.len() + j,
                forall|k: int|
                    0 <= k < v@.len() ==> Some(#[trigger] v@[k]) == part_of(cur[k]),
            decreases line@.len() - j,
        {
            let b = line[j];
            let p = if b == 47 {
                Part::LRMirror
            } else if b == 92 {
                Part::RLMirror
            } else if b == 46 {
                Part::Blank
            } else if b == 45 {
                Part::HPipe
            } else if b == 124 {
                Part::VPipe
            } else {
                proof {
                    let flat = concat_lines(ls);
                    lemma_concat_lines_contains(ls, i as int, j as int);
                    let k = choose|k: int|
                        0 <= k < flat.len() && flat[k] == ls[i as int][j as int];
                    assert(part_of(flat[k]) is None);
                    assert(!all_parts_ok(flat));
                }
                return Err(Error::MalformedInput);
            };
            proof {
                assert(cur[pre.len() + j] == ls[i as int][j as int]);
            }
            v.push(p);
            j += 1;
        }
        i += 1;
    }
    proof {
        assert(ls.subrange(0, ls.len() as int) =~= ls);
        let flat = concat_lines(ls);
        assert forall|k: int| 0 <= k < flat.len() implies (#[trigger] part_of(flat[k])) is Some by {
            assert(Some(v@[k]) == part_of(flat[k]));
        }
        assert(all_parts_ok(flat));
    }
    Ok(v)
}

/// A byte of line `i` appears in the flattened grid text.
proof fn lemma_concat_lines_contains(ls: Seq<Seq<u8>>, i: int, j: int)
    requires
        0 <= i < ls.len(),
        0 <= j < ls[i].len(),
    ensures
        exists|k: int|
            0 <= k < concat_lines(ls).len() && concat_lines(ls)[k] == ls[i][j],
    decreases ls.len(),
{
    if i == ls.len() - 1 {
        let k = concat_lines(ls.drop_last()).len() + j;
        lemma_concat_lines_nonneg(ls.drop_last());
        assert(concat_lines(ls)[k] == ls[i][j]);
    } else {
        lemma_concat_lines_contains(ls.drop_last(), i, j);
        let k = choose|k: int|
            0 <= k < concat_lines(ls.drop_last()).len() && concat_lines(ls.drop_last())[k]
                == ls.drop_last()[i][j];
        assert(concat_lines(ls)[k] == ls[i][j]);
    }
}

proof fn lemma_concat_lines_nonneg(ls: Seq<Seq<u8>>)
    ensures
        concat_lines(ls).len() >= 0,
{
}

} // verus!
