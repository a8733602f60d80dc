//! Area of a dig plan: a closed loop of axis-aligned trenches.  The
//! enclosed cell count follows from the shoelace formula over the corner
//! points plus half the perimeter plus one.

use vstd::prelude::*;
use vstd::string::StringSliceAdditionalSpecFns;

use crate::error::Error;
use crate::text;

verus! {

/// Largest input accepted, and largest single trench length; both keep the
/// signed area accumulation well inside an `i128`.
pub const DAY18_INPUT_LIMIT: usize = 0x10_0000;

pub const DAY18_RUN_LIMIT: u64 = 0x100_0000;

#[derive(Debug, Clone, Copy, PartialEq, Eq, Structural)]
pub enum Dir {
    R,
    D,
    L,
    U,
}

/// The walk state after some prefix of the plan: trench cells dug, the
/// running shoelace sum, and the current corner.
pub type WalkState = (int, int, int, int);

/// One step of the shoelace walk, as the plan digs `n` cells towards `d`.
pub open spec fn walk_step(st: WalkState, d: Dir, n: int) -> WalkState {
    let perim = st.0;
    let area = st.1;
    let y = st.2;
    let x = st.3;
    match d {
        Dir::R => (perim + n, area, y, x + n),
        Dir::L => (perim + n, area, y, x - n),
        Dir::D => (perim + n, area + x * n, y + n, x),
        Dir::U => (perim + n, area - x * n, y - n, x),
    }
}

/// What one plan line contributes, reading the direction letter and the
/// length field (`R 6 (#70c710)` style).
pub open spec fn line_move_p1(line: Seq<u8>) -> Result<(Dir, int), Error> {
    let fs = text::fields_spec(line);
    if fs.len() < 2 {
        Err(Error::MalformedInput)
    } else {
        let d = fs[0];
        if d.len() != 1 {
            Err(Error::MalformedInput)
        } else {
            let dir = if d[0] == 82 {
                Some(Dir::R)
            } else if d[0] == 76 {
                Some(Dir::L)
            } else if d[0] == 68 {
                Some(Dir::D)
            } else if d[0] == 85 {
                Some(Dir::U)
            } else {
                None
            };
            match dir {
                None => Err(Error::MalformedInput),
                Some(dir) => match text::parse_u64_spec(fs[1]) {
                    Err(e) => Err(e),
                    Ok(n) => if n > DAY18_RUN_LIMIT {
                        Err(Error::Overflow)
                    } else {
                        Ok((dir, n as int))
                    },
                },
            }
        }
    }
}

/// The value of a lowercase-hex numeral.
pub open spec fn hex_val(s: Seq<u8>) -> int
    decreases s.len(),
{
    if s.len() == 0 {
        0
    } else {
        hex_val(s.drop_last()) * 16 + hex_digit(s.last())
    }
}

/// The value of one lowercase-hex digit byte, or -1.
pub open spec fn hex_digit(b: u8) -> int {
    if 48 <= b <= 57 {
        b - 48
    } else if 97 <= b <= 102 {
        b - 87
    } else {
        -1
    }
}

/// Sixteen to the `e`-th power.
pub open spec fn pow16(e: int) -> int
    decreases e,
{
    if e <= 0 {
        1
    } else {
        16 * pow16(e - 1)
    }
}

pub open spec fn all_hex(s: Seq<u8>) -> bool {
    forall|i: int| 0 <= i < s.len() ==> hex_digit(#[trigger] s[i]) >= 0
}

/// What one plan line contributes when read from its colour code: five hex
/// digits of length and one digit naming the direction.
pub open spec fn line_move_p2(line: Seq<u8>) -> Result<(Dir, int), Error> {
    let fs = text::fields_spec(line);
    if fs.len() < 3 {
        Err(Error::MalformedInput)
    } else {
        let h = fs[2];
        if h.len() != 9 || h[0] != 40 || h[1] != 35 || h[8] != 41 {
            Err(Error::MalformedInput)
        } else {
            let digits = h.subrange(2, 7);
            if !all_hex(digits) {
                Err(Error::MalformedInput)
            } else {
                let dir = if h[7] == 48 {
                    Some(Dir::R)
                } else if h[7] == 49 {
                    Some(Dir::D)
                } else if h[7] == 50 {
                    Some(Dir::L)
                } else if h[7] == 51 {
                    Some(Dir::U)
                } else {
                    None
                };
                match dir {
                    None => Err(Error::MalformedInput),
                    Some(dir) => Ok((dir, hex_val(digits))),
                }
            }
        }
    }
}

/// The walk state after the first `i` lines of the plan, reading each line
/// with `hex` false (direction and length fields) or true (colour code).
pub open spec fn walk_upto(ls: Seq<Seq<u8>>, hex: bool, i: int) -> Result<WalkState, Error>
    decreases i,
{
    if i <= 0 {
        Ok((0, 0, 0, 0))
    } else {
        match walk_upto(ls, hex, i - 1) {
            Err(e) => Err(e),
            Ok(st) => {
                match line_move(ls[i - 1], hex) {
                    Err(e) => Err(e),
                    Ok(m) => Ok(walk_step(st, m.0, m.1)),
                }
            },
        }
    }
}

/// What the dig-plan answer is over the raw input: the shoelace area plus
/// half the trench length plus one, if everything parses and the result
/// fits in an `i64`.
pub open spec fn day18_result(bytes: Seq<u8>, hex: bool) -> Result<i64, Error> {
    if bytes.len() > DAY18_INPUT_LIMIT {
        Err(Error::MalformedInput)
    } else {
        let ls = text::lines_spec(bytes);
        match walk_upto(ls, hex, ls.len() as int) {
            Err(e) => Err(e),
            Ok(st) => {
                let v = st.1 + st.0 / 2 + 1;
                if i64::MIN <= v <= i64::MAX {
                    Ok(v as i64)
                } else {
                    Err(Error::Overflow)
                }
            },
        }
    }
}

/// What one plan line contributes under either reading.
pub open spec fn line_move(line: Seq<u8>, hex: bool) -> Result<(Dir, int), Error> {
    if hex {
        line_move_p2(line)
    } else {
        line_move_p1(line)
    }
}

/// Reads one plan line's move.
fn read_move(line: &Vec<u8>, hex: bool) -> (r: Result<(Dir, u64), Error>)
    ensures
        r is Ok <==> line_move(line@, hex) is Ok,
        r is Ok ==> line_move(line@, hex).unwrap() == (r.unwrap().0, r.unwrap().1 as int),
        r is Err ==> Err::<(Dir, int), Error>(r.unwrap_err()) == line_move(line@, hex),
        r is Ok ==> r.unwrap().1 <= DAY18_RUN_LIMIT,
{
    let fs = text::split_fields(line.as_slice());
    let ghost fspec = text::fields_spec(line@);
    proof {
        assert(fs.deep_view() == fspec);
        assert(forall|k: int| 0 <= k < fs@.len() ==> fs@[k]@ == fspec[k]);
    }
    if !hex {
        if fs.len() < 2 {
            assert(line_move_p1(line@) == Err::<(Dir, int), Error>(Error::MalformedInput));
            return Err(Error::MalformedInput);
        }
        let d = fs[0].as_slice();
        if d.len() != 1 {
            assert(line_move_p1(line@) == Err::<(Dir, int), Error>(Error::MalformedInput));
            return Err(Error::MalformedInput);
        }
        let dir = match d[0] {
            82 => Dir::R,
            76 => Dir::L,
            68 => Dir::D,
            85 => Dir::U,
            _ => {
                assert(line_move_p1(line@) == Err::<(Dir, int), Error>(Error::MalformedInput));
                return Err(Error::MalformedInput);
            },
        };
        let n = match text::parse_u64(fs[1].as_slice()) {
            Ok(n) => n,
            Err(e) => {
                assert(line_move_p1(line@) == Err::<(Dir, int), Error>(e));
                return Err(e);
            },
        };
        if n > DAY18_RUN_LIMIT {
            assert(line_move_p1(line@) == Err::<(Dir, int), Error>(Error::Overflow));
            return Err(Error::Overflow);
        }
        assert(line_move_p1(line@) == Ok::<(Dir, int), Error>((dir, n as int)));
        Ok((dir, n))
    } else {
        if fs.len() < 3 {
            assert(line_move_p2(line@) == Err::<(Dir, int), Error>(Error::MalformedInput));
            return Err(Error::MalformedInput);
        }
        let h = fs[2].as_slice();
        if h.len() != 9 || h[0] != 40 || h[1] != 35 || h[8] != 41 {
            assert(line_move_p2(line@) == Err::<(Dir, int), Error>(Error::MalformedInput));
            return Err(Error::MalformedInput);
        }
        let ghost digits = fspec[2].subrange(2, 7);
        let mut val: u64 = 0;
        let mut k: usize = 2;
        proof {
            assert(digits.subrange(0, 0) =~= Seq::<u8>::empty());
            reveal_with_fuel(pow16, 6);
        }
        while k < 7
            invariant
                hex,
                2 <= k <= 7,
                fspec == text::fields_spec(line@),
                fspec.len() >= 3,
                h@ == fspec[2],
                h@.len() == 9,
                h@[0] == 40 && h@[1] == 35 && h@[8] == 41,
                digits == fspec[2].subrange(2, 7),
                forall|j: int| 0 <= j < k - 2 ==> hex_digit(#[trigger] digits[j]) >= 0,
                val == hex_val(digits.subrange(0, k - 2)),
                val < pow16(k - 2),
                pow16(k - 2) <= 0x100000,
            decreases 7 - k,
        {
            proof {
                reveal_with_fuel(pow16, 6);
                assert(pow16(k - 2) <= pow16(4) || k - 2 == 5) by {
                    assert(pow16(0) == 1 && pow16(1) == 16 && pow16(2) == 256 && pow16(3) == 4096
                        && pow16(4) == 65536 && pow16(5) == 0x100000);
                }
            }
            let b = h[k];
            let dv: u64 = if 48 <= b && b <= 57 {
                (b - 48) as u64
            } else if 97 <= b && b <= 102 {
                (b - 87) as u64
            } else {
                proof {
                    assert(digits[k - 2] == h@[k as int]);
                    assert(hex_digit(digits[k - 2]) < 0);
                    assert(!all_hex(digits));
                    assert(line_move_p2(line@) == Err::<(Dir, int), Error>(
                        Error::MalformedInput,
                    ));
                }
                return Err(Error::MalformedInput);
            };
            let ghost pre = digits.subrange(0, k - 2);
            let ghost cur = digits.subrange(0, k - 1);
            proof {
                assert(cur.drop_last() =~= pre);
                assert(cur.last() == digits[k - 2]);
                assert(digits[k - 2] == h@[k as int]);
                assert(hex_digit(digits[k - 2]) == dv);
                reveal_with_fuel(pow16, 6);
                assert(pow16(0) == 1 && pow16(1) == 16 && pow16(2) == 256 && pow16(3) == 4096
                    && pow16(4) == 65536 && pow16(5) == 0x100000);
                assert(val * 16 + dv < pow16(k - 1));
            }
            val = val * 16 + dv;
            k += 1;
        }
        proof {
            assert(digits.subrange(0, 5) =~= digits);
            assert(all_hex(digits));
            reveal_with_fuel(pow16, 6);
            assert(val < 0x100000);
        }
        let dir = match h[7] {
            48 => Dir::R,
            49 => Dir::D,
            50 => Dir::L,
            51 => Dir::U,
            _ => {
                assert(line_move_p2(line@) == Err::<(Dir, int), Error>(Error::MalformedInput));
                return Err(Error::MalformedInput);
            },
        };
        assert(line_move_p2(line@) == Ok::<(Dir, int), Error>((dir, val as int)));
        Ok((dir, val))
    }
}

fn day18_run(input: &str, hex: bool) -> (r: Result<i64, Error>)
    ensures
        r == day18_result(input.spec_bytes(), hex),
{
    let bytes = input.as_bytes();
    if bytes.len() > DAY18_INPUT_LIMIT {
        return Err(Error::MalformedInput);
    }
    let lines = text::split_lines(bytes);
    let ghost ls = text::lines_spec(input.spec_bytes());
    proof {
        assert(lines.deep_view() == ls);
        assert(forall|k: int| 0 <= k < lines@.len() ==> lines@[k]@ == ls[k]);
        text::lemma_lines_bounds(input.spec_bytes());
    }
    let mut perim: i128 = 0;
    let mut area: i128 = 0;
    let mut y: i128 = 0;
    let mut x: i128 = 0;
    let mut i: usize = 0;
    while i < lines.len()
        invariant
            0 <= i <= lines@.len(),
            lines@.len() == ls.len(),
            ls == text::lines_spec(input.spec_bytes()),
            input.spec_bytes().len() <= DAY18_INPUT_LIMIT,
            ls.len() <= DAY18_INPUT_LIMIT,
            forall|k: int| 0 <= k < lines@.len() ==> lines@[k]@ == ls[k],
            walk_upto(ls, hex, i as int) == Ok::<WalkState, Error>(
                (perim as int, area as int, y as int, x as int),
            ),
            0 <= perim <= (i as int) * 0x100_0000,
            -((i as int) * 0x100_0000) <= x <= (i as int) * 0x100_0000,
            -((i as int) * 0x100_0000) <= y <= (i as int) * 0x100_0000,
            -((i as int) * 0x100_0000_0000_0000_0000) <= area <= (i as int)
                * 0x100_0000_0000_0000_0000,
        decreases lines@.len() - i,
    {
        let mv = match read_move(&lines[i], hex) {
            Ok(mv) => mv,
            Err(e) => {
                proof {
                    assert(walk_upto(ls, hex, i as int + 1) == Err::<WalkState, Error>(e));
                    lemma_walk_err(ls, hex, i as int + 1, ls.len() as int);
                    assert(walk_upto(ls, hex, ls.len() as int) == Err::<WalkState, Error>(e));
                }
                return Err(e);
            },
        };
        let (d, n) = mv;
        proof {
            assert(n <= 0x100_0000);
            assert((i as int) * 0x100_0000 + 0x100_0000 == (i as int + 1) * 0x100_0000)
                by (nonlinear_arith)
            ;
            assert((x as int) * (n as int) <= (DAY18_INPUT_LIMIT as int * 0x100_0000)
                * 0x100_0000 && (x as int) * (n as int) >= -((DAY18_INPUT_LIMIT as int
                * 0x100_0000) * 0x100_0000)) by (nonlinear_arith)
                requires
                    -(DAY18_INPUT_LIMIT as int * 0x100_0000) <= x as int <= DAY18_INPUT_LIMIT
                        as int * 0x100_0000,
                    0 <= n as int <= 0x100_0000,
            ;
            assert((i as int) * 0x100_0000_0000_0000_0000 + 0x100_0000_0000_0000_0000 == (i as int
                + 1) * 0x100_0000_0000_0000_0000) by (nonlinear_arith)
            ;
            assert((i as int) * 0x100_0000 <= DAY18_INPUT_LIMIT as int * 0x100_0000)
                by (nonlinear_arith)
                requires
                    0 <= i as int <= DAY18_INPUT_LIMIT as int,
            ;
            assert((i as int) * 0x100_0000_0000_0000_0000 <= DAY18_INPUT_LIMIT as int
                * 0x100_0000_0000_0000_0000) by (nonlinear_arith)
                requires
                    0 <= i as int <= DAY18_INPUT_LIMIT as int,
            ;
        }
        perim = perim + n as i128;
        match d {
            Dir::R => {
                x = x + n as i128;
            },
            Dir::L => {
                x = x - n as i128;
            },
            Dir::D => {
                area = area + x * (n as i128);
                y = y + n as i128;
            },
            Dir::U => {
                area = area - x * (n as i128);
                y = y - n as i128;
            },
        }
        i += 1;
    }
    let v: i128 = area + perim / 2 + 1;
    proof {
        assert(walk_upto(ls, hex, ls.len() as int) == Ok::<WalkState, Error>(
            (perim as int, area as int, y as int, x as int),
        ));
        assert(perim as int / 2 == perim / 2);
    }
    if v < i64::MIN as i128 || v > i64::MAX as i128 {
        Err(Error::Overflow)
    } else {
        Ok(v as i64)
    }
}

/// An error in some prefix of the walk is the whole walk's error.
proof fn lemma_walk_err(ls: Seq<Seq<u8>>, hex: bool, i: int, n: int)
    requires
        0 <= i <= n,
        walk_upto(ls, hex, i) is Err,
    ensures
        walk_upto(ls, hex, n) == walk_upto(ls, hex, i),
    decreases n - i,
{
    if i < n {
        lemma_walk_err(ls, hex, i + 1, n);
    }
}

/// Enclosed area of the plan read from the direction and length fields.
pub fn part_1(input: &str) -> (r: Result<i64, Error>)
    ensures
        r == day18_result(input.spec_bytes(), false),
{
    day18_run(input, false)
}

/// Enclosed area of the plan read from the hexadecimal colour codes.
pub fn part_2(input: &str) -> (r: Result<i64, Error>)
    ensures
        r == day18_result(input.spec_bytes(), true),
{
    day18_run(input, true)
}

} // verus!
