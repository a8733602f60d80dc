//! Rolling hash over the comma-separated steps of an initialization
//! sequence: each byte is added, the total multiplied by 17 and reduced
//! modulo 256; the answer sums the hash of every step.

use vstd::prelude::*;
use vstd::string::StringSliceAdditionalSpecFns;

use crate::error::Error;
use crate::text;

verus! {

pub const COMMA: u8 = 44;

/// The rolling hash of a byte string.
pub open spec fn hash_spec(s: Seq<u8>) -> int
    decreases s.len(),
{
    if s.len() == 0 {
        0
    } else {
        ((hash_spec(s.drop_last()) + s.last()) * 17) % 256
    }
}

pub proof fn lemma_hash_range(s: Seq<u8>)
    ensures
        0 <= hash_spec(s) < 256,
    decreases s.len(),
{
    if s.len() > 0 {
        lemma_hash_range(s.drop_last());
        vstd::arithmetic::div_mod::lemma_mod_division_less_than_divisor(
            (hash_spec(s.drop_last()) + s.last()) * 17,
            256,
        );
    }
}

fn hash_bytes(s: &[u8]) -> (r: usize)
    ensures
        r as int == hash_spec(s@),
        r < 256,
{
    let mut acc: usize = 0;
    let mut i: usize = 0;
    proof {
        assert(s@.subrange(0, 0) =~= Seq::<u8>::empty());
    }
    while i < s.len()
        invariant
            0 <= i <= s@.len(),
            acc as int == hash_spec(s@.subrange(0, i as int)),
            acc < 256,
        decreases s@.len() - i,
    {
        let ghost pre = s@.subrange(0, i as int);
        let ghost cur = s@.subrange(0, i + 1);
        proof {
            assert(cur.drop_last() =~= pre);
            assert(cur.last() == s@[i as int]);
            vstd::arithmetic::div_mod::lemma_mod_division_less_than_divisor(
                (acc + s@[i as int]) * 17,
                256,
            );
        }
        acc = ((acc + s[i] as usize) * 17) % 256;
        i += 1;
    }
    proof {
        assert(s@.subrange(0, s@.len() as int) =~= s@);
    }
    acc
}

/// The rolling hash of one step; always below 256.
pub fn hash(part: &str) -> (r: usize)
    ensures
        r as int == hash_spec(part.spec_bytes()),
        r < 256,
{
    hash_bytes(part.as_bytes())
}

/// Sum of the hashes of a list of steps.
pub open spec fn steps_hash_sum(ps: Seq<Seq<u8>>) -> int
    decreases ps.len(),
{
    if ps.len() == 0 {
        0
    } else {
        steps_hash_sum(ps.drop_last()) + hash_spec(ps.last())
    }
}

/// Sum of the hashes of every comma-separated step on every line.
pub open spec fn lines_hash_sum(ls: Seq<Seq<u8>>) -> int
    decreases ls.len(),
{
    if ls.len() == 0 {
        0
    } else {
        lines_hash_sum(ls.drop_last()) + steps_hash_sum(text::split_spec(ls.last(), seq![COMMA]))
    }
}

pub open spec fn part1_spec(bytes: Seq<u8>) -> int {
    lines_hash_sum(text::lines_spec(bytes))
}

proof fn lemma_steps_sum_bounds(ps: Seq<Seq<u8>>)
    ensures
        0 <= steps_hash_sum(ps) <= 256 * ps.len(),
    decreases ps.len(),
{
    if ps.len() > 0 {
        lemma_steps_sum_bounds(ps.drop_last());
        lemma_hash_range(ps.last());
    }
}

pub proof fn lemma_part1_nonneg(ls: Seq<Seq<u8>>)
    ensures
        lines_hash_sum(ls) >= 0,
    decreases ls.len(),
{
    if ls.len() > 0 {
        lemma_part1_nonneg(ls.drop_last());
        lemma_steps_sum_bounds(text::split_spec(ls.last(), seq![COMMA]));
    }
}

/// Sum of the hashes of all steps of the input; `Overflow` only when the
/// mathematical sum does not fit in a `u64`.
pub fn part_1(input: &str) -> (r: Result<u64, Error>)
    ensures
        ({
            let v = part1_spec(input.spec_bytes());
            r == if v <= u64::MAX {
                Ok::<u64, Error>(v as u64)
            } else {
                Err::<u64, Error>(Error::Overflow)
            }
        }),
{
    let bytes = input.as_bytes();
    let n = bytes.len();
    let lines = text::split_lines(bytes);
    let ghost ls = text::lines_spec(input.spec_bytes());
    let sep: Vec<u8> = vec![COMMA];
    proof {
        assert(sep@ =~= seq![COMMA]);
        assert(lines.deep_view() == ls);
        assert(forall|k: int| 0 <= k < lines@.len() ==> lines@[k]@ == ls[k]);
        text::lemma_lines_bounds(input.spec_bytes());
        assert(ls.subrange(0, 0) =~= Seq::<Seq<u8>>::empty());
    }
    let mut total: u128 = 0;
    let mut i: usize = 0;
    while i < lines.len()
        invariant
            0 <= i <= lines@.len(),
            lines@.len() == ls.len(),
            ls == text::lines_spec(input.spec_bytes()),
            sep@ == seq![COMMA],
            forall|k: int| 0 <= k < lines@.len() ==> lines@[k]@ == ls[k],
            n == input.spec_bytes().len(),
            input.spec_bytes().len() <= usize::MAX,
            ls.len() <= input.spec_bytes().len(),
            forall|k: int| 0 <= k < ls.len() ==> (#[trigger] ls[k]).len()
                <= input.spec_bytes().len(),
            text::sum_lens(ls) <= input.spec_bytes().len(),
            total == lines_hash_sum(ls.subrange(0, i as int)),
            total <= 256 * (text::sum_lens(ls.subrange(0, i as int)) + i as int),
        decreases lines@.len() - i,
    {
        let ghost pre = ls.subrange(0, i as int);
        let ghost cur = ls.subrange(0, i + 1);
        proof {
            assert(cur.drop_last() =~= pre);
            assert(cur.last() == ls[i as int]);
        }
        let pieces = text::split_on(lines[i].as_slice(), sep.as_slice());
        let ghost ps = text::split_spec(ls[i as int], seq![COMMA]);
        proof {
            assert(pieces.deep_view() == ps);
            assert(forall|k: int| 0 <= k < pieces@.len() ==> pieces@[k]@ == ps[k]);
            text::lemma_split_bounds(ls[i as int], seq![COMMA]);
            assert(ps.subrange(0, 0) =~= Seq::<Seq<u8>>::empty());
        }
        let mut lsum: u128 = 0;
        let mut j: usize = 0;
        while j < pieces.len()
            invariant
                0 <= j <= pieces@.len(),
                pieces@.len() == ps.len(),
                forall|k: int| 0 <= k < pieces@.len() ==> pieces@[k]@ == ps[k],
                lsum == steps_hash_sum(ps.subrange(0, j as int)),
                lsum <= 256 * (j as int),
            decreases pieces@.len() - j,
        {
            let ghost ppre = ps.subrange(0, j as int);
            let ghost pcur = ps.subrange(0, j + 1);
            proof {
                assert(pcur.drop_last() =~= ppre);
                assert(pcur.last() == ps[j as int]);
            }
            let h = hash_bytes(pieces[j].as_slice());
            lsum = lsum + (h as u128);
            j += 1;
        }
        proof {
            assert(ps.subrange(0, ps.len() as int) =~= ps);
            assert(lsum == steps_hash_sum(ps));
            assert(lsum <= 256 * (ls[i as int].len() + 1));
            text::lemma_sum_lens_prefix(ls, i + 1);
            assert(text::sum_lens(cur) == text::sum_lens(pre) + ls[i as int].len());
        }
        total = total + lsum;
        i += 1;
    }
    proof {
        assert(ls.subrange(0, ls.len() as int) =~= ls);
        assert(total == part1_spec(input.spec_bytes()));
        lemma_part1_nonneg(ls);
    }
    if total <= u64::MAX as u128 {
        Ok(total as u64)
    } else {
        Err(Error::Overflow)
    }
}


/// Largest input accepted by the boxes simulation, and largest focal
/// length; both keep every focusing power inside a `u64` computation.
pub const DAY15_INPUT_LIMIT: usize = 0x10_0000;

pub const FOCAL_LIMIT: u64 = 0xffff_ffff;

#[derive(Debug, Clone, Copy, PartialEq, Eq, Structural)]
pub enum CmdType {
    Remove,
    Add(u64),
}

/// What one step (`label-` or `label=n`) commands.
pub open spec fn parse_cmd_spec(p: Seq<u8>) -> Result<(Seq<u8>, CmdType), Error> {
    if p.len() > 0 && p.last() == 45 {
        Ok((p.drop_last(), CmdType::Remove))
    } else {
        let i = text::find_byte(p, 61);
        if i == p.len() {
            Err(Error::MalformedInput)
        } else {
            match text::parse_u64_spec(p.subrange(i + 1, p.len() as int)) {
                Err(e) => Err(e),
                Ok(f) => if f > FOCAL_LIMIT {
                    Err(Error::Overflow)
                } else {
                    Ok((p.subrange(0, i), CmdType::Add(f)))
                },
            }
        }
    }
}

/// The installed lenses in insertion order: label and focal length.
/// A label appears at most once; its box is its hash.
pub type Lenses = Seq<(Seq<u8>, int)>;

/// Index of the lens with this label, or the number of lenses.
pub open spec fn find_label(st: Lenses, l: Seq<u8>) -> int
    decreases st.len(),
{
    if st.len() == 0 {
        0
    } else if st[0].0 == l {
        0
    } else {
        1 + find_label(st.subrange(1, st.len() as int), l)
    }
}

proof fn lemma_find_label_range(st: Lenses, l: Seq<u8>)
    ensures
        0 <= find_label(st, l) <= st.len(),
    decreases st.len(),
{
    if st.len() > 0 && st[0].0 != l {
        lemma_find_label_range(st.subrange(1, st.len() as int), l);
    }
}

pub proof fn lemma_find_label_is(st: Lenses, l: Seq<u8>, i: int)
    requires
        0 <= i <= st.len(),
        forall|k: int| 0 <= k < i ==> (#[trigger] st[k]).0 != l,
        i < st.len() ==> st[i].0 == l,
    ensures
        find_label(st, l) == i,
    decreases i,
{
    if i == 0 {
        if st.len() > 0 && st[0].0 != l {
            assert(false);
        }
    } else {
        let t = st.subrange(1, st.len() as int);
        assert(forall|k: int| 0 <= k < i - 1 ==> #[trigger] t[k] == st[k + 1]);
        lemma_find_label_is(t, l, i - 1);
    }
}

/// One command applied to the lens list: removal takes the lens out,
/// installation replaces its focal length in place or appends it.
pub open spec fn apply_cmd(st: Lenses, l: Seq<u8>, c: CmdType) -> Lenses {
    let i = find_label(st, l);
    match c {
        CmdType::Remove => if i == st.len() {
            st
        } else {
            st.remove(i)
        },
        CmdType::Add(f) => if i == st.len() {
            st.push((l, f as int))
        } else {
            st.update(i, (l, f as int))
        },
    }
}

/// The lens state after the first `j` steps of one line.
pub open spec fn steps_fold(ps: Seq<Seq<u8>>, j: int, st: Lenses) -> Result<Lenses, Error>
    decreases j,
{
    if j <= 0 {
        Ok(st)
    } else {
        match steps_fold(ps, j - 1, st) {
            Err(e) => Err(e),
            Ok(st2) => match parse_cmd_spec(ps[j - 1]) {
                Err(e) => Err(e),
                Ok(lc) => Ok(apply_cmd(st2, lc.0, lc.1)),
            },
        }
    }
}

/// The lens state after the first `i` lines.
pub open spec fn lines_fold(ls: Seq<Seq<u8>>, i: int, st: Lenses) -> Result<Lenses, Error>
    decreases i,
{
    if i <= 0 {
        Ok(st)
    } else {
        match lines_fold(ls, i - 1, st) {
            Err(e) => Err(e),
            Ok(st2) => {
                let ps = text::split_spec(ls[i - 1], seq![COMMA]);
                steps_fold(ps, ps.len() as int, st2)
            },
        }
    }
}

/// Number of lenses before `e` whose box is `h`.
pub open spec fn count_box(st: Lenses, h: int, e: int) -> int
    decreases e,
{
    if e <= 0 {
        0
    } else {
        count_box(st, h, e - 1) + if hash_spec(st[e - 1].0) == h {
            1int
        } else {
            0int
        }
    }
}

/// Total focusing power of the first `e` lenses: each contributes its box
/// number plus one, times its slot number plus one, times its focal length.
pub open spec fn total_power(st: Lenses, e: int) -> int
    decreases e,
{
    if e <= 0 {
        0
    } else {
        total_power(st, e - 1) + (hash_spec(st[e - 1].0) + 1) * (count_box(
            st,
            hash_spec(st[e - 1].0),
            e - 1,
        ) + 1) * st[e - 1].1
    }
}

/// What the focusing-power answer is over the raw input text.
pub open spec fn day15b_result(bytes: Seq<u8>) -> Result<u64, Error> {
    if bytes.len() > DAY15_INPUT_LIMIT {
        Err(Error::MalformedInput)
    } else {
        let ls = text::lines_spec(bytes);
        match lines_fold(ls, ls.len() as int, Seq::empty()) {
            Err(e) => Err(e),
            Ok(st) => {
                let v = total_power(st, st.len() as int);
                if 0 <= v <= u64::MAX {
                    Ok(v as u64)
                } else {
                    Err(Error::Overflow)
                }
            },
        }
    }
}

/// The lens list as a mathematical value.
pub open spec fn lens_view(st: Seq<(Vec<u8>, u64)>) -> Lenses {
    st.map_values(|p: (Vec<u8>, u64)| (p.0@, p.1 as int))
}

/// Reads one step's command.
pub fn parse_cmd(s: &[u8]) -> (r: Result<(Vec<u8>, CmdType), Error>)
    ensures
        r is Ok <==> parse_cmd_spec(s@) is Ok,
        r is Ok ==> parse_cmd_spec(s@).unwrap() == (r.unwrap().0@, r.unwrap().1),
        r is Err ==> Err::<(Seq<u8>, CmdType), Error>(r.unwrap_err()) == parse_cmd_spec(s@),
        r is Ok ==> (r.unwrap().1 matches CmdType::Add(f) ==> f <= FOCAL_LIMIT),
{
    let n = s.len();
    if n > 0 && s[n - 1] == 45 {
        let label = vstd::slice::slice_to_vec(vstd::slice::slice_subrange(s, 0, n - 1));
        proof {
            assert(label@ =~= s@.drop_last());
        }
        return Ok((label, CmdType::Remove));
    }
    let mut i: usize = 0;
    while i < n && s[i] != 61
        invariant
            0 <= i <= n,
            n == s@.len(),
            forall|k: int| 0 <= k < i ==> s@[k] != 61,
        decreases n - i,
    {
        i += 1;
    }
    proof {
        text::lemma_find_byte_is(s@, 61, i as int);
    }
    if i == n {
        return Err(Error::MalformedInput);
    }
    let rest = vstd::slice::slice_subrange(s, i + 1, n);
    let f = match text::parse_u64(rest) {
        Ok(f) => f,
        Err(e) => {
            return Err(e);
        },
    };
    if f > FOCAL_LIMIT {
        return Err(Error::Overflow);
    }
    let label = vstd::slice::slice_to_vec(vstd::slice::slice_subrange(s, 0, i));
    Ok((label, CmdType::Add(f)))
}

/// A failing step fails its line's whole fold.
proof fn lemma_steps_err(ps: Seq<Seq<u8>>, j: int, n: int, st: Lenses)
    requires
        0 <= j <= n,
        steps_fold(ps, j, st) is Err,
    ensures
        steps_fold(ps, n, st) == steps_fold(ps, j, st),
    decreases n - j,
{
    if j < n {
        lemma_steps_err(ps, j + 1, n, st);
    }
}

/// A failing line fails the whole fold.
proof fn lemma_lines_err(ls: Seq<Seq<u8>>, i: int, n: int, st: Lenses)
    requires
        0 <= i <= n,
        lines_fold(ls, i, st) is Err,
    ensures
        lines_fold(ls, n, st) == lines_fold(ls, i, st),
    decreases n - i,
{
    if i < n {
        lemma_lines_err(ls, i + 1, n, st);
    }
}

/// Total focusing power after running every step of the input; the boxes
/// are numbered by the label hash, the slots by insertion order.
pub fn part_2(input: &str) -> (r: Result<u64, Error>)
    ensures
        r == day15b_result(input.spec_bytes()),
{
    let bytes = input.as_bytes();
    if bytes.len() > DAY15_INPUT_LIMIT {
        return Err(Error::MalformedInput);
    }
    let lines = text::split_lines(bytes);
    let sep: Vec<u8> = vec![COMMA];
    let ghost ls = text::lines_spec(input.spec_bytes());
    proof {
        assert(sep@ =~= seq![COMMA]);
        assert(lines.deep_view() == ls);
        assert(forall|k: int| 0 <= k < lines@.len() ==> lines@[k]@ == ls[k]);
        text::lemma_lines_bounds(input.spec_bytes());
    }
    let mut st: Vec<(Vec<u8>, u64)> = Vec::new();
    let mut i: usize = 0;
    proof {
        assert(lens_view(st@) =~= Seq::<(Seq<u8>, int)>::empty());
    }
    while i < lines.len()
        invariant
            0 <= i <= lines@.len(),
            lines@.len() == ls.len(),
            ls == text::lines_spec(input.spec_bytes()),
            input.spec_bytes().len() <= DAY15_INPUT_LIMIT,
            ls.len() <= DAY15_INPUT_LIMIT,
            text::sum_lens(ls) <= DAY15_INPUT_LIMIT,
            forall|k: int| 0 <= k < ls.len() ==> (#[trigger] ls[k]).len() <= DAY15_INPUT_LIMIT,
            forall|k: int| 0 <= k < lines@.len() ==> lines@[k]@ == ls[k],
            sep@ == seq![COMMA],
            lines_fold(ls, i as int, Seq::empty()) == Ok::<Lenses, Error>(lens_view(st@)),
            st@.len() <= text::sum_lens(ls.subrange(0, i as int)) + i,
            forall|k: int| 0 <= k < st@.len() ==> (#[trigger] st@[k]).1 <= FOCAL_LIMIT,
        decreases lines@.len() - i,
    {
        let pieces = text::split_on(lines[i].as_slice(), sep.as_slice());
        let ghost ps = text::split_spec(ls[i as int], seq![COMMA]);
        proof {
            assert(pieces.deep_view() == ps);
            assert(forall|k: int| 0 <= k < pieces@.len() ==> pieces@[k]@ == ps[k]);
            text::lemma_split_bounds(ls[i as int], seq![COMMA]);
            text::lemma_sum_lens_prefix(ls, i + 1);
            assert(ls.subrange(0, i + 1).drop_last() =~= ls.subrange(0, i as int));
            assert(text::sum_lens(ls.subrange(0, i + 1)) == text::sum_lens(
                ls.subrange(0, i as int),
            ) + ls[i as int].len());
        }
        let ghost st0 = lens_view(st@);
        let mut j: usize = 0;
        while j < pieces.len()
            invariant
                0 <= j <= pieces@.len(),
                0 <= i < ls.len(),
                pieces@.len() == ps.len(),
                ps == text::split_spec(ls[i as int], seq![COMMA]),
                ps.len() <= ls[i as int].len() + 1,
                ls == text::lines_spec(input.spec_bytes()),
                input.spec_bytes().len() <= DAY15_INPUT_LIMIT,
                forall|k: int| 0 <= k < pieces@.len() ==> pieces@[k]@ == ps[k],
                lines_fold(ls, i as int, Seq::empty()) == Ok::<Lenses, Error>(st0),
                steps_fold(ps, j as int, st0) == Ok::<Lenses, Error>(lens_view(st@)),
                st@.len() <= text::sum_lens(ls.subrange(0, i as int)) + i + j,
                forall|k: int| 0 <= k < st@.len() ==> (#[trigger] st@[k]).1 <= FOCAL_LIMIT,
            decreases pieces@.len() - j,
        {
            let cmd = match parse_cmd(pieces[j].as_slice()) {
                Ok(c) => c,
                Err(e) => {
                    proof {
                        assert(steps_fold(ps, j as int + 1, st0) == Err::<Lenses, Error>(e));
                        lemma_steps_err(ps, j as int + 1, ps.len() as int, st0);
                        lemma_lines_err(ls, i as int + 1, ls.len() as int, Seq::empty());
                    }
                    return Err(e);
                },
            };
            let (label, ct) = cmd;
            let ghost lv = label@;
            // find the lens with this label
            let mut idx: usize = 0;
            while idx < st.len() && !bytes_eq(st[idx].0.as_slice(), label.as_slice())
                invariant
                    0 <= idx <= st@.len(),
                    lv == label@,
                    forall|k: int| 0 <= k < idx ==> (#[trigger] lens_view(st@)[k]).0 != lv,
                    forall|k: int| 0 <= k < st@.len() ==> (#[trigger] st@[k]).1 <= FOCAL_LIMIT,
                decreases st@.len() - idx,
            {
                idx += 1;
            }
            proof {
                if idx < st@.len() {
                    assert(lens_view(st@)[idx as int].0 == lv);
                }
                lemma_find_label_is(lens_view(st@), lv, idx as int);
            }
            let ghost st_pre = lens_view(st@);
            match ct {
                CmdType::Remove => {
                    if idx < st.len() {
                        st.remove(idx);
                        proof {
                            assert(lens_view(st@) =~= st_pre.remove(idx as int));
                        }
                    }
                },
                CmdType::Add(f) => {
                    if idx < st.len() {
                        st.set(idx, (label, f));
                        proof {
                            assert(lens_view(st@) =~= st_pre.update(idx as int, (lv, f as int)));
                        }
                    } else {
                        st.push((label, f));
                        proof {
                            assert(lens_view(st@) =~= st_pre.push((lv, f as int)));
                        }
                    }
                },
            }
            proof {
                assert(lens_view(st@) =~= apply_cmd(st_pre, lv, ct));
                assert(steps_fold(ps, j as int + 1, st0) == Ok::<Lenses, Error>(lens_view(st@)));
            }
            j += 1;
        }
        proof {
            assert(ps.subrange(0, ps.len() as int) =~= ps);
            assert(st@.len() <= text::sum_lens(ls.subrange(0, i + 1)) + i + 1);
        }
        i += 1;
    }
    proof {
        assert(ls.subrange(0, ls.len() as int) =~= ls);
        assert(lines_fold(ls, ls.len() as int, Seq::empty()) == Ok::<Lenses, Error>(
            lens_view(st@),
        ));
        assert(st@.len() <= 2 * DAY15_INPUT_LIMIT + 1);
    }
    // total focusing power
    let ghost sv = lens_view(st@);
    let n = st.len();
    let mut total: u128 = 0;
    let mut e: usize = 0;
    while e < n
        invariant
            0 <= e <= n,
            n == st@.len() <= 2 * DAY15_INPUT_LIMIT + 1,
            sv == lens_view(st@),
            sv.len() == n,
            forall|k: int| 0 <= k < st@.len() ==> (#[trigger] st@[k]).1 <= FOCAL_LIMIT,
            total == total_power(sv, e as int),
            total <= (e as int) * 0x4000_0000_0000_0000_0000,
        decreases n - e,
    {
        let he = hash_bytes(st[e].0.as_slice());
        // this lens's slot: earlier lenses in the same box
        let mut slot: u64 = 0;
        let mut k: usize = 0;
        while k < e
            invariant
                0 <= k <= e < n,
                n == st@.len(),
                sv == lens_view(st@),
                sv.len() == n,
                he < 256,
                he as int == hash_spec(sv[e as int].0),
                slot == count_box(sv, he as int, k as int),
                slot <= k,
            decreases e - k,
        {
            let hk = hash_bytes(st[k].0.as_slice());
            if hk == he {
                slot += 1;
            }
            k += 1;
        }
        let f = st[e].1;
        proof {
            assert(sv[e as int].1 == f as int);
            assert(f <= FOCAL_LIMIT);
            assert(slot < n);
            assert((he as int + 1) * (slot as int + 1) * (f as int) <= 256 * (2
                * DAY15_INPUT_LIMIT as int + 1) * 0x1_0000_0000) by (nonlinear_arith)
                requires
                    0 <= he as int <= 255,
                    0 <= slot as int,
                    (slot as int) < n,
                    n <= 2 * (DAY15_INPUT_LIMIT as int) + 1,
                    0 <= f as int <= 0xffff_ffff,
            ;
            assert((he as int + 1) * (slot as int + 1) * (f as int) >= 0) by (nonlinear_arith)
                requires
                    he as int >= 0,
                    slot as int >= 0,
                    f as int >= 0,
            ;
            assert(256 * (2 * DAY15_INPUT_LIMIT as int + 1) * 0x1_0000_0000
                <= 0x4000_0000_0000_0000_0000) by (nonlinear_arith);
            assert((he as int + 1) * (slot as int + 1) <= 256 * (2 * (DAY15_INPUT_LIMIT as int)
                + 1)) by (nonlinear_arith)
                requires
                    0 <= he as int <= 255,
                    0 <= slot as int,
                    (slot as int) < n,
                    n <= 2 * (DAY15_INPUT_LIMIT as int) + 1,
            ;
        }
        let term: u128 = ((he as u128) + 1) * ((slot as u128) + 1) * (f as u128);
        total = total + term;
        e += 1;
    }
    proof {
        assert(total == total_power(sv, sv.len() as int));
        lemma_total_power_nonneg(sv, sv.len() as int);
    }
    if total <= u64::MAX as u128 {
        Ok(total as u64)
    } else {
        Err(Error::Overflow)
    }
}

proof fn lemma_total_power_nonneg(st: Lenses, e: int)
    requires
        forall|k: int| 0 <= k < st.len() ==> (#[trigger] st[k]).1 >= 0,
        e <= st.len(),
    ensures
        total_power(st, e) >= 0,
    decreases e,
{
    if e > 0 {
        lemma_total_power_nonneg(st, e - 1);
        lemma_count_box_nonneg(st, hash_spec(st[e - 1].0), e - 1);
        lemma_hash_range(st[e - 1].0);
        assert((hash_spec(st[e - 1].0) + 1) * (count_box(st, hash_spec(st[e - 1].0), e - 1) + 1)
            * st[e - 1].1 >= 0) by (nonlinear_arith)
            requires
                hash_spec(st[e - 1].0) + 1 >= 0,
                count_box(st, hash_spec(st[e - 1].0), e - 1) + 1 >= 0,
                st[e - 1].1 >= 0,
        ;
    }
}

proof fn lemma_count_box_nonneg(st: Lenses, h: int, e: int)
    ensures
        count_box(st, h, e) >= 0,
    decreases e,
{
    if e > 0 {
        lemma_count_box_nonneg(st, h, e - 1);
    }
}

fn bytes_eq(a: &[u8], b: &[u8]) -> (r: bool)
    ensures
        r == (a@ == b@),
{
    if a.len() != b.len() {
        return false;
    }
    let m = text::match_at(a, b, 0);
    proof {
        if text::is_match(a@, b@, 0) {
            assert(a@.subrange(0, b@.len() as int) =~= a@);
        }
        if a@ == b@ {
            assert(a@.subrange(0, b@.len() as int) =~= b@);
        }
    }
    m
}

} // verus!

