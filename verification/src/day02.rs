//! The cube game: each line lists a game of semicolon-separated turns, and
//! each turn draws some blue, green and red cubes.  The first answer sums
//! the ids of the games playable with 14 blue, 13 green and 12 red cubes;
//! the second sums, over all games, the product of the fewest cubes of
//! each colour that make the game possible.

use vstd::prelude::*;
use vstd::string::StringSliceAdditionalSpecFns;

use crate::error::Error;
use crate::text;

verus! {

pub open spec fn blue_name() -> Seq<u8> {
    seq![98u8, 108u8, 117u8, 101u8]
}

pub open spec fn green_name() -> Seq<u8> {
    seq![103u8, 114u8, 101u8, 101u8, 110u8]
}

pub open spec fn red_name() -> Seq<u8> {
    seq![114u8, 101u8, 100u8]
}

/// Index of a colour name: blue, green, red; or -1.
pub open spec fn color_of(s: Seq<u8>) -> int {
    if s == blue_name() {
        0
    } else if s == green_name() {
        1
    } else if s == red_name() {
        2
    } else {
        -1
    }
}

/// What one pull (`3 blue`) says: a colour index and a count.
pub open spec fn pull_result(p: Seq<u8>) -> Result<(int, int), Error> {
    let fs = text::split_spec(p, seq![32u8]);
    if fs.len() != 2 {
        Err(Error::MalformedInput)
    } else {
        match text::parse_u64_spec(fs[0]) {
            Err(e) => Err(e),
            Ok(n) => if color_of(fs[1]) < 0 {
                Err(Error::MalformedInput)
            } else {
                Ok((color_of(fs[1]), n as int))
            },
        }
    }
}

/// Per-colour maxima so far: blue, green, red.
pub type Maxes = (int, int, int);

pub open spec fn upd_max(m: Maxes, c: int, n: int) -> Maxes {
    if c == 0 {
        (if n > m.0 {
            n
        } else {
            m.0
        }, m.1, m.2)
    } else if c == 1 {
        (m.0, if n > m.1 {
            n
        } else {
            m.1
        }, m.2)
    } else {
        (m.0, m.1, if n > m.2 {
            n
        } else {
            m.2
        })
    }
}

/// Maxima after the first `i` pulls of one turn.
pub open spec fn pulls_fold(ps: Seq<Seq<u8>>, i: int, m: Maxes) -> Result<Maxes, Error>
    decreases i,
{
    if i <= 0 {
        Ok(m)
    } else {
        match pulls_fold(ps, i - 1, m) {
            Err(e) => Err(e),
            Ok(m2) => match pull_result(ps[i - 1]) {
                Err(e) => Err(e),
                Ok(cn) => Ok(upd_max(m2, cn.0, cn.1)),
            },
        }
    }
}

/// Maxima after the first `i` turns of one game.
pub open spec fn turns_fold(ts: Seq<Seq<u8>>, i: int, m: Maxes) -> Result<Maxes, Error>
    decreases i,
{
    if i <= 0 {
        Ok(m)
    } else {
        match turns_fold(ts, i - 1, m) {
            Err(e) => Err(e),
            Ok(m2) => {
                let ps = text::split_spec(ts[i - 1], seq![44u8, 32u8]);
                pulls_fold(ps, ps.len() as int, m2)
            },
        }
    }
}

/// The fewest cubes of each colour that one game needs.
pub open spec fn game_maxes(ts_text: Seq<u8>) -> Result<Maxes, Error> {
    let ts = text::split_spec(ts_text, seq![59u8, 32u8]);
    turns_fold(ts, ts.len() as int, (0, 0, 0))
}

/// What one line contributes to the playable-games sum: its game id if the
/// game fits in 14 blue, 13 green and 12 red cubes, zero otherwise.
pub open spec fn line_id_if_playable(line: Seq<u8>) -> Result<int, Error> {
    let pieces = text::split_spec(line, seq![58u8, 32u8]);
    if pieces.len() != 2 {
        Err(Error::MalformedInput)
    } else {
        let gf = text::split_spec(pieces[0], seq![32u8]);
        match text::parse_u64_spec(gf.last()) {
            Err(e) => Err(e),
            Ok(id) => match game_maxes(pieces[1]) {
                Err(e) => Err(e),
                Ok(m) => if m.0 <= 14 && m.1 <= 13 && m.2 <= 12 {
                    Ok(id as int)
                } else {
                    Ok(0)
                },
            },
        }
    }
}

/// What one line contributes to the power sum: the product of its maxima,
/// `Overflow` if that alone exceeds a `u64`.
pub open spec fn line_power(line: Seq<u8>) -> Result<int, Error> {
    let pieces = text::split_spec(line, seq![58u8, 32u8]);
    match game_maxes(pieces.last()) {
        Err(e) => Err(e),
        Ok(m) => {
            let p = m.0 * m.1 * m.2;
            if p <= u64::MAX {
                Ok(p)
            } else {
                Err(Error::Overflow)
            }
        },
    }
}

/// Sum of the first `i` lines' contributions, or the first error.
pub open spec fn day02_sum(ls: Seq<Seq<u8>>, part2: bool, i: int) -> Result<int, Error>
    decreases i,
{
    if i <= 0 {
        Ok(0)
    } else {
        match day02_sum(ls, part2, i - 1) {
            Err(e) => Err(e),
            Ok(acc) => {
                let c = if part2 {
                    line_power(ls[i - 1])
                } else {
                    line_id_if_playable(ls[i - 1])
                };
                match c {
                    Err(e) => Err(e),
                    Ok(v) => Ok(acc + v),
                }
            },
        }
    }
}

/// What the answer is over the raw input text.
pub open spec fn day02_result(bytes: Seq<u8>, part2: bool) -> Result<u64, Error> {
    let ls = text::lines_spec(bytes);
    match day02_sum(ls, part2, ls.len() as int) {
        Err(e) => Err(e),
        Ok(v) => if v <= u64::MAX {
            Ok(v as u64)
        } else {
            Err(Error::Overflow)
        },
    }
}

fn bytes_is(s: &[u8], lit: &[u8]) -> (r: bool)
    ensures
        r == (s@ == lit@),
{
    if s.len() != lit.len() {
        return false;
    }
    let m = text::match_at(s, lit, 0);
    proof {
        if text::is_match(s@, lit@, 0) {
            assert(s@.subrange(0, lit@.len() as int) =~= s@);
        }
        if s@ == lit@ {
            assert(s@.subrange(0, lit@.len() as int) =~= lit@);
        }
    }
    m
}

/// The fewest cubes of each colour one game needs (executable).
fn compute_maxes(ts_text: &[u8]) -> (r: Result<(u64, u64, u64), Error>)
    ensures
        r is Ok <==> game_maxes(ts_text@) is Ok,
        r is Ok ==> game_maxes(ts_text@).unwrap() == (
            r.unwrap().0 as int,
            r.unwrap().1 as int,
            r.unwrap().2 as int,
        ),
        r is Err ==> Err::<Maxes, Error>(r.unwrap_err()) == game_maxes(ts_text@),
{
    let tsep: Vec<u8> = vec![59u8, 32u8];
    let psep: Vec<u8> = vec![44u8, 32u8];
    let fsep: Vec<u8> = vec![32u8];
    let blue: Vec<u8> = vec![98u8, 108u8, 117u8, 101u8];
    let green: Vec<u8> = vec![103u8, 114u8, 101u8, 101u8, 110u8];
    let red: Vec<u8> = vec![114u8, 101u8, 100u8];
    proof {
        assert(tsep@ =~= seq![59u8, 32u8]);
        assert(psep@ =~= seq![44u8, 32u8]);
        assert(fsep@ =~= seq![32u8]);
        assert(blue@ =~= blue_name());
        assert(green@ =~= green_name());
        assert(red@ =~= red_name());
    }
    let turns = text::split_on(ts_text, tsep.as_slice());
    let ghost ts = text::split_spec(ts_text@, seq![59u8, 32u8]);
    proof {
        assert(turns.deep_view() == ts);
        assert(forall|k: int| 0 <= k < turns@.len() ==> turns@[k]@ == ts[k]);
    }
    let mut mb: u64 = 0;
    let mut mg: u64 = 0;
    let mut mr: u64 = 0;
    let mut i: usize = 0;
    while i < turns.len()
        invariant
            0 <= i <= turns@.len(),
            turns@.len() == ts.len(),
            ts == text::split_spec(ts_text@, seq![59u8, 32u8]),
            forall|k: int| 0 <= k < turns@.len() ==> turns@[k]@ == ts[k],
            psep@ == seq![44u8, 32u8],
            fsep@ == seq![32u8],
            blue@ == blue_name(),
            green@ == green_name(),
            red@ == red_name(),
            turns_fold(ts, i as int, (0, 0, 0)) == Ok::<Maxes, Error>(
                (mb as int, mg as int, mr as int),
            ),
        decreases turns@.len() - i,
    {
        let pulls = text::split_on(turns[i].as_slice(), psep.as_slice());
        let ghost ps = text::split_spec(ts[i as int], seq![44u8, 32u8]);
        proof {
            assert(pulls.deep_view() == ps);
            assert(forall|k: int| 0 <= k < pulls@.len() ==> pulls@[k]@ == ps[k]);
        }
        let mut j: usize = 0;
        while j < pulls.len()
            invariant
                0 <= j <= pulls@.len(),
                0 <= i < ts.len(),
                pulls@.len() == ps.len(),
                ps == text::split_spec(ts[i as int], seq![44u8, 32u8]),
                ts == text::split_spec(ts_text@, seq![59u8, 32u8]),
                forall|k: int| 0 <= k < pulls@.len() ==> pulls@[k]@ == ps[k],
                fsep@ == seq![32u8],
                blue@ == blue_name(),
                green@ == green_name(),
                red@ == red_name(),
                turns_fold(ts, i as int, (0, 0, 0)) is Ok,
                pulls_fold(ps, j as int, turns_fold(ts, i as int, (0, 0, 0)).unwrap())
                    == Ok::<Maxes, Error>((mb as int, mg as int, mr as int)),
            decreases pulls@.len() - j,
        {
            let fs = text::split_on(pulls[j].as_slice(), fsep.as_slice());
            let ghost pf = text::split_spec(ps[j as int], seq![32u8]);
            proof {
                assert(fs.deep_view() == pf);
                assert(forall|k: int| 0 <= k < fs@.len() ==> fs@[k]@ == pf[k]);
            }
            if fs.len() != 2 {
                proof {
                    assert(pull_result(ps[j as int]) == Err::<(int, int), Error>(
                        Error::MalformedInput,
                    ));
                    lemma_pulls_err(ps, j as int + 1, ps.len() as int, turns_fold(
                        ts,
                        i as int,
                        (0, 0, 0),
                    ).unwrap());
                    lemma_turns_err(ts, i as int + 1, ts.len() as int, (0, 0, 0));
                }
                return Err(Error::MalformedInput);
            }
            let n = match text::parse_u64(fs[0].as_slice()) {
                Ok(n) => n,
                Err(e) => {
                    proof {
                        assert(pull_result(ps[j as int]) == Err::<(int, int), Error>(e));
                        lemma_pulls_err(ps, j as int + 1, ps.len() as int, turns_fold(
                            ts,
                            i as int,
                            (0, 0, 0),
                        ).unwrap());
                        lemma_turns_err(ts, i as int + 1, ts.len() as int, (0, 0, 0));
                    }
                    return Err(e);
                },
            };
            let col = fs[1].as_slice();
            let c: usize = if bytes_is(col, blue.as_slice()) {
                0
            } else if bytes_is(col, green.as_slice()) {
                1
            } else if bytes_is(col, red.as_slice()) {
                2
            } else {
                proof {
                    assert(color_of(pf[1]) < 0);
                    assert(pull_result(ps[j as int]) == Err::<(int, int), Error>(
                        Error::MalformedInput,
                    ));
                    lemma_pulls_err(ps, j as int + 1, ps.len() as int, turns_fold(
                        ts,
                        i as int,
                        (0, 0, 0),
                    ).unwrap());
                    lemma_turns_err(ts, i as int + 1, ts.len() as int, (0, 0, 0));
                }
                return Err(Error::MalformedInput);
            };
            proof {
                assert(color_of(pf[1]) == c);
                assert(pull_result(ps[j as int]) == Ok::<(int, int), Error>((c as int, n as int)));
            }
            if c == 0 {
                if n > mb {
                    mb = n;
                }
            } else if c == 1 {
                if n > mg {
                    mg = n;
                }
            } else {
                if n > mr {
                    mr = n;
                }
            }
            j += 1;
        }
        proof {
            assert(ps.subrange(0, ps.len() as int) =~= ps);
        }
        i += 1;
    }
    proof {
        assert(ts.subrange(0, ts.len() as int) =~= ts);
    }
    Ok((mb, mg, mr))
}

/// A failing pull fails its turn's whole fold.
proof fn lemma_pulls_err(ps: Seq<Seq<u8>>, i: int, n: int, m: Maxes)
    requires
        0 <= i <= n,
        pulls_fold(ps, i, m) is Err,
    ensures
        pulls_fold(ps, n, m) == pulls_fold(ps, i, m),
    decreases n - i,
{
    if i < n {
        lemma_pulls_err(ps, i + 1, n, m);
    }
}

/// A failing turn fails its game's whole fold.
proof fn lemma_turns_err(ts: Seq<Seq<u8>>, i: int, n: int, m: Maxes)
    requires
        0 <= i <= n,
        turns_fold(ts, i, m) is Err,
    ensures
        turns_fold(ts, n, m) == turns_fold(ts, i, m),
    decreases n - i,
{
    if i < n {
        lemma_turns_err(ts, i + 1, n, m);
    }
}

/// A failing line fails the whole sum.
proof fn lemma_day02_err(ls: Seq<Seq<u8>>, part2: bool, i: int, n: int)
    requires
        0 <= i <= n,
        day02_sum(ls, part2, i) is Err,
    ensures
        day02_sum(ls, part2, n) == day02_sum(ls, part2, i),
    decreases n - i,
{
    if i < n {
        lemma_day02_err(ls, part2, i + 1, n);
    }
}

fn day02_run(input: &str, part2: bool) -> (r: Result<u64, Error>)
    ensures
        r == day02_result(input.spec_bytes(), part2),
{
    let bytes = input.as_bytes();
    let lines = text::split_lines(bytes);
    let gsep: Vec<u8> = vec![58u8, 32u8];
    let fsep: Vec<u8> = vec![32u8];
    let ghost ls = text::lines_spec(input.spec_bytes());
    proof {
        assert(gsep@ =~= seq![58u8, 32u8]);
        assert(fsep@ =~= seq![32u8]);
        assert(lines.deep_view() == ls);
        assert(forall|k: int| 0 <= k < lines@.len() ==> lines@[k]@ == ls[k]);
    }
    let mut total: u128 = 0;
    let mut i: usize = 0;
    while i < lines.len()
        invariant
            0 <= i <= lines@.len(),
            lines@.len() == ls.len(),
            ls == text::lines_spec(input.spec_bytes()),
            forall|k: int| 0 <= k < lines@.len() ==> lines@[k]@ == ls[k],
            gsep@ == seq![58u8, 32u8],
            fsep@ == seq![32u8],
            day02_sum(ls, part2, i as int) == Ok::<int, Error>(total as int),
            total <= (i as int) * 0xffff_ffff_ffff_ffff,
        decreases lines@.len() - i,
    {
        let pieces = text::split_on(lines[i].as_slice(), gsep.as_slice());
        let ghost pv = text::split_spec(ls[i as int], seq![58u8, 32u8]);
        proof {
            assert(pieces.deep_view() == pv);
            assert(forall|k: int| 0 <= k < pieces@.len() ==> pieces@[k]@ == pv[k]);
            text::lemma_split_bounds(ls[i as int], seq![58u8, 32u8]);
        }
        let v: u64;
        if !part2 {
            if pieces.len() != 2 {
                proof {
                    assert(line_id_if_playable(ls[i as int]) == Err::<int, Error>(
                        Error::MalformedInput,
                    ));
                    lemma_day02_err(ls, part2, i as int + 1, ls.len() as int);
                }
                return Err(Error::MalformedInput);
            }
            let gf = text::split_on(pieces[0].as_slice(), fsep.as_slice());
            let ghost gfs = text::split_spec(pv[0], seq![32u8]);
            proof {
                assert(gf.deep_view() == gfs);
                assert(gf@.len() == gfs.len() >= 1);
                assert(gf@[gf@.len() - 1]@ == gfs.last());
            }
            let id = match text::parse_u64(gf[gf.len() - 1].as_slice()) {
                Ok(id) => id,
                Err(e) => {
                    proof {
                        assert(line_id_if_playable(ls[i as int]) == Err::<int, Error>(e));
                        lemma_day02_err(ls, part2, i as int + 1, ls.len() as int);
                    }
                    return Err(e);
                },
            };
            let m = match compute_maxes(pieces[1].as_slice()) {
                Ok(m) => m,
                Err(e) => {
                    proof {
                        assert(line_id_if_playable(ls[i as int]) == Err::<int, Error>(e));
                        lemma_day02_err(ls, part2, i as int + 1, ls.len() as int);
                    }
                    return Err(e);
                },
            };
            v = if m.0 <= 14 && m.1 <= 13 && m.2 <= 12 {
                id
            } else {
                0
            };
            proof {
                assert(line_id_if_playable(ls[i as int]) == Ok::<int, Error>(v as int));
            }
        } else {
            proof {
                assert(pieces@.len() >= 1);
            }
            let m = match compute_maxes(pieces[pieces.len() - 1].as_slice()) {
                Ok(m) => m,
                Err(e) => {
                    proof {
                        assert(pieces@[pieces@.len() - 1]@ == pv.last());
                        assert(line_power(ls[i as int]) == Err::<int, Error>(e));
                        lemma_day02_err(ls, part2, i as int + 1, ls.len() as int);
                    }
                    return Err(e);
                },
            };
            proof {
                assert(pieces@[pieces@.len() - 1]@ == pv.last());
            }
            proof {
                assert((m.0 as int) * (m.1 as int) <= 0xffff_ffff_ffff_ffff
                    * 0xffff_ffff_ffff_ffff) by (nonlinear_arith)
                    requires
                        0 <= m.0 as int <= 0xffff_ffff_ffff_ffff,
                        0 <= m.1 as int <= 0xffff_ffff_ffff_ffff,
                ;
            }
            let p01: u128 = (m.0 as u128) * (m.1 as u128);
            if m.2 > 0 && p01 > u64::MAX as u128 {
                proof {
                    assert((m.0 as int) * (m.1 as int) * (m.2 as int) > u64::MAX)
                        by (nonlinear_arith)
                        requires
                            (m.0 as int) * (m.1 as int) > u64::MAX,
                            m.2 as int >= 1,
                    ;
                    assert(line_power(ls[i as int]) == Err::<int, Error>(Error::Overflow));
                    lemma_day02_err(ls, part2, i as int + 1, ls.len() as int);
                }
                return Err(Error::Overflow);
            }
            if m.2 == 0 {
                proof {
                    assert((m.0 as int) * (m.1 as int) * (m.2 as int) == 0) by (nonlinear_arith)
                        requires
                            m.2 as int == 0,
                    ;
                }
                v = 0;
            } else {
                proof {
                    assert(p01 * (m.2 as u128) <= 0xffff_ffff_ffff_ffff * 0xffff_ffff_ffff_ffff)
                        by (nonlinear_arith)
                        requires
                            0 <= p01 <= 0xffff_ffff_ffff_ffff,
                            0 <= m.2 as int <= 0xffff_ffff_ffff_ffff,
                    ;
                }
                let p: u128 = p01 * (m.2 as u128);
                proof {
                    assert(p == (m.0 as int) * (m.1 as int) * (m.2 as int));
                }
                if p > u64::MAX as u128 {
                    proof {
                        assert(line_power(ls[i as int]) == Err::<int, Error>(Error::Overflow));
                        lemma_day02_err(ls, part2, i as int + 1, ls.len() as int);
                    }
                    return Err(Error::Overflow);
                }
                v = p as u64;
            }
            proof {
                assert(line_power(ls[i as int]) == Ok::<int, Error>(v as int));
            }
        }
        total = total + v as u128;
        i += 1;
    }
    proof {
        assert(total == day02_sum(ls, part2, ls.len() as int).unwrap());
    }
    if total <= u64::MAX as u128 {
        Ok(total as u64)
    } else {
        Err(Error::Overflow)
    }
}

/// Sum of the ids of the games playable with 14 blue, 13 green and 12 red
/// cubes.
pub fn part_1(input: &str) -> (r: Result<u64, Error>)
    ensures
        r == day02_result(input.spec_bytes(), false),
{
    day02_run(input, false)
}

/// Sum over all games of the product of the fewest cubes of each colour
/// that make the game possible.
pub fn part_2(input: &str) -> (r: Result<u64, Error>)
    ensures
        r == day02_result(input.spec_bytes(), true),
{
    day02_run(input, true)
}

} // verus!
