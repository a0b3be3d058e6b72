use vstd::prelude::*;
use vstd::string::StringSliceAdditionalSpecFns;

use crate::minesweeper::base62;
use crate::minesweeper::base62::{all_digits62, value62};
use crate::minesweeper::error::MinesweeperError;
use crate::minesweeper::minesweeper_logic::Board;
use crate::minesweeper::minesweeper_logic;
use crate::minesweeper::parsers::parser::{
    Action, FlagAction, Iparser, Metadata, OpenAction,
};

verus! {

/// The baseline replay format: version tag "1", metadata `<w>x<h>`,
/// base-62 coordinates, decimal time deltas, flag actions P and R
/// (Toggle is not supported by this version).
pub struct ParserV1;

/// The rows of a list of byte vectors.
pub open spec fn vviews(v: Seq<Vec<u8>>) -> Seq<Seq<u8>> {
    v.map_values(|r: Vec<u8>| r@)
}

/// Splitting a byte string on a separator, item by item; splitting the
/// empty string gives one empty item.
pub open spec fn spec_split(s: Seq<u8>, sep: u8) -> Seq<Seq<u8>>
    decreases s.len(),
{
    if s.len() == 0 {
        seq![Seq::<u8>::empty()]
    } else if s[0] == sep {
        seq![Seq::<u8>::empty()] + spec_split(s.skip(1), sep)
    } else {
        let r = spec_split(s.skip(1), sep);
        r.update(0, seq![s[0]] + r[0])
    }
}

pub proof fn lemma_split_nonempty(s: Seq<u8>, sep: u8)
    ensures
        spec_split(s, sep).len() >= 1,
    decreases s.len(),
{
    if s.len() > 0 {
        lemma_split_nonempty(s.skip(1), sep);
    }
}

/// The index of the first occurrence of a byte, or -1 when absent.
pub open spec fn find_byte(s: Seq<u8>, b: u8) -> int
    decreases s.len(),
{
    if s.len() == 0 {
        -1
    } else if s[0] == b {
        0
    } else {
        let r = find_byte(s.skip(1), b);
        if r < 0 {
            -1
        } else {
            r + 1
        }
    }
}

pub proof fn lemma_find_byte(s: Seq<u8>, b: u8)
    ensures
        find_byte(s, b) >= 0 ==> find_byte(s, b) < s.len() && s[find_byte(s, b)] == b
            && (forall|j: int| 0 <= j < find_byte(s, b) ==> s[j] != b),
        find_byte(s, b) < 0 ==> (forall|j: int| 0 <= j < s.len() ==> s[j] != b),
    decreases s.len(),
{
    if s.len() > 0 && s[0] != b {
        lemma_find_byte(s.skip(1), b);
        if find_byte(s, b) >= 0 {
            assert(s[find_byte(s, b)] == s.skip(1)[find_byte(s.skip(1), b)]);
            assert forall|j: int| 0 <= j < find_byte(s, b) implies s[j] != b by {
                if j > 0 {
                    assert(s[j] == s.skip(1)[j - 1]);
                }
            }
        } else {
            assert forall|j: int| 0 <= j < s.len() implies s[j] != b by {
                if j > 0 {
                    assert(s[j] == s.skip(1)[j - 1]);
                }
            }
        }
    }
}

/// Cuts a byte string on a separator. The items joined by the
/// separator give back the input, and no item holds the separator.
pub fn split_bytes(data: &[u8], sep: u8) -> (r: Vec<Vec<u8>>)
    ensures
        vviews(r@) == spec_split(data@, sep),
{
    let mut done: Vec<Vec<u8>> = Vec::new();
    let mut cur: Vec<u8> = Vec::new();
    let n = data.len();
    proof {
        assert(data@.skip(0) =~= data@);
        lemma_split_nonempty(data@, sep);
        assert(spec_split(data@, sep).update(0, spec_split(data@, sep)[0]) =~~= spec_split(
            data@,
            sep,
        ));
        assert(cur@ + spec_split(data@, sep)[0] =~= spec_split(data@, sep)[0]);
    }
    for i in 0..n
        invariant
            n == data@.len(),
            spec_split(data@.skip(i as int), sep).len() >= 1,
            spec_split(data@, sep) =~~= vviews(done@) + spec_split(data@.skip(i as int), sep).update(
                0,
                cur@ + spec_split(data@.skip(i as int), sep)[0],
            ),
    {
        let ghost rest = data@.skip(i as int);
        let ghost rest1 = data@.skip(i as int + 1);
        let c = data[i];
        proof {
            assert(rest.len() > 0);
            assert(rest[0] == data@[i as int]);
            assert(rest.skip(1) =~= rest1);
            lemma_split_nonempty(rest1, sep);
        }
        if c == sep {
            let full = cur;
            cur = Vec::new();
            done.push(full);
            proof {
                assert(spec_split(rest, sep) == seq![Seq::<u8>::empty()] + spec_split(rest1, sep));
                assert(vviews(done@) =~~= vviews(done@.subrange(0, done@.len() - 1)).push(full@));
                assert(spec_split(rest, sep).update(0, full@ + spec_split(rest, sep)[0])
                    =~~= seq![full@] + spec_split(rest1, sep));
                assert(full@ + Seq::<u8>::empty() =~= full@);
                assert(cur@ + spec_split(rest1, sep)[0] =~= spec_split(rest1, sep)[0]);
                assert(spec_split(rest1, sep).update(0, spec_split(rest1, sep)[0]) =~~= spec_split(
                    rest1,
                    sep,
                ));
                assert(vviews(done@.subrange(0, done@.len() - 1)) + (seq![full@] + spec_split(
                    rest1,
                    sep,
                )) =~~= vviews(done@) + spec_split(rest1, sep));
            }
        } else {
            let ghost curview = cur@;
            cur.push(c);
            proof {
                let r1 = spec_split(rest1, sep);
                assert(spec_split(rest, sep) == r1.update(0, seq![c] + r1[0]));
                assert(spec_split(rest, sep)[0] == seq![c] + r1[0]);
                assert(cur@ =~= curview + seq![c]);
                assert(curview + (seq![c] + r1[0]) =~= cur@ + r1[0]);
                assert(spec_split(rest, sep).update(0, curview + spec_split(rest, sep)[0])
                    =~~= r1.update(0, cur@ + r1[0]));
            }
        }
    }
    proof {
        assert(data@.skip(n as int) =~= Seq::<u8>::empty());
        assert(spec_split(Seq::<u8>::empty(), sep) == seq![Seq::<u8>::empty()]);
    }
    done.push(cur);
    proof {
        assert(cur@ + Seq::<u8>::empty() =~= cur@);
        assert(vviews(done@) =~~= vviews(done@.subrange(0, done@.len() - 1)).push(cur@));
        assert(seq![Seq::<u8>::empty()].update(0, cur@) =~~= seq![cur@]);
        assert(vviews(done@.subrange(0, done@.len() - 1)) + seq![cur@] =~~= vviews(done@));
    }
    done
}

pub open spec fn is_dec_digit(b: u8) -> bool {
    48 <= b <= 57
}

pub open spec fn all_dec(s: Seq<u8>) -> bool {
    forall|i: int| 0 <= i < s.len() ==> is_dec_digit(#[trigger] s[i])
}

/// Value of a decimal literal, most-significant digit first.
pub open spec fn dec_val(s: Seq<u8>) -> int
    decreases s.len(),
{
    if s.len() == 0 {
        0
    } else {
        dec_val(s.drop_last()) * 10 + (s.last() - 48)
    }
}

pub proof fn lemma_dec_val_nonneg(s: Seq<u8>)
    requires
        all_dec(s),
    ensures
        dec_val(s) >= 0,
    decreases s.len(),
{
    if s.len() > 0 {
        assert(forall|i: int| 0 <= i < s.len() - 1 ==> s.drop_last()[i] == s[i]);
        lemma_dec_val_nonneg(s.drop_last());
    }
}

pub proof fn lemma_dec_val_prefix_le(s: Seq<u8>, i: int)
    requires
        all_dec(s),
        0 <= i <= s.len(),
    ensures
        dec_val(s.subrange(0, i)) <= dec_val(s),
    decreases s.len() - i,
{
    if i < s.len() {
        let t = s.subrange(0, i + 1);
        assert(t.drop_last() =~= s.subrange(0, i));
        assert(all_dec(t.drop_last()));
        lemma_dec_val_nonneg(t.drop_last());
        assert(dec_val(t) == dec_val(s.subrange(0, i)) * 10 + (s[i] - 48));
        assert(dec_val(s.subrange(0, i)) * 10 >= dec_val(s.subrange(0, i))) by (nonlinear_arith)
            requires dec_val(s.subrange(0, i)) >= 0;
        lemma_dec_val_prefix_le(s, i + 1);
    } else {
        assert(s.subrange(0, i) =~= s);
    }
}

/// An elapsed-time literal: one or more decimal digits whose value
/// fits an `i64`.
pub open spec fn spec_dec_i64(s: Seq<u8>) -> Result<i64, MinesweeperError> {
    if s.len() == 0 || !all_dec(s) {
        Err(MinesweeperError::MalformedField)
    } else if dec_val(s) > i64::MAX {
        Err(MinesweeperError::DataParse)
    } else {
        Ok(dec_val(s) as i64)
    }
}

/// A coordinate token: a base-62 numeral whose value fits an `i32`.
pub open spec fn spec_coord62(tok: Seq<u8>) -> Result<i32, MinesweeperError> {
    if !all_digits62(tok) {
        Err(MinesweeperError::Decode)
    } else if value62(tok) > i32::MAX {
        Err(MinesweeperError::MalformedField)
    } else {
        Ok(value62(tok) as i32)
    }
}

/// One mine item: an explicit `x|y` pair of base-62 tokens, or a
/// compact run of single-character coordinates chunked in pairs.
pub open spec fn spec_mine_item(item: Seq<u8>) -> Result<Seq<(i32, i32)>, MinesweeperError> {
    let i = find_byte(item, 124);
    if i >= 0 {
        match spec_coord62(item.subrange(0, i)) {
            Err(e) => Err(e),
            Ok(x) => match spec_coord62(item.subrange(i + 1, item.len() as int)) {
                Err(e) => Err(e),
                Ok(y) => Ok(seq![(x, y)]),
            },
        }
    } else {
        spec_mine_pairs(item)
    }
}

pub open spec fn spec_mine_pairs(item: Seq<u8>) -> Result<Seq<(i32, i32)>, MinesweeperError>
    decreases item.len(),
{
    if item.len() == 0 {
        Ok(Seq::<(i32, i32)>::empty())
    } else if item.len() == 1 {
        Err(MinesweeperError::MalformedField)
    } else {
        match spec_coord62(seq![item[0]]) {
            Err(e) => Err(e),
            Ok(x) => match spec_coord62(seq![item[1]]) {
                Err(e) => Err(e),
                Ok(y) => match spec_mine_pairs(item.skip(2)) {
                    Err(e) => Err(e),
                    Ok(rest) => Ok(seq![(x, y)] + rest),
                },
            },
        }
    }
}

pub open spec fn spec_mines(items: Seq<Seq<u8>>) -> Result<Seq<(i32, i32)>, MinesweeperError>
    decreases items.len(),
{
    if items.len() == 0 {
        Ok(Seq::<(i32, i32)>::empty())
    } else {
        match spec_mine_item(items[0]) {
            Err(e) => Err(e),
            Ok(h) => match spec_mines(items.skip(1)) {
                Err(e) => Err(e),
                Ok(t) => Ok(h + t),
            },
        }
    }
}

/// The whole mine field: empty input means no mines; otherwise the
/// items between `;` separators, concatenated.
pub open spec fn spec_parse_mines(s: Seq<u8>) -> Result<Seq<(i32, i32)>, MinesweeperError> {
    if s.len() == 0 {
        Ok(Seq::<(i32, i32)>::empty())
    } else {
        spec_mines(spec_split(s, 59))
    }
}

/// One open item: coordinates and the elapsed-time delta, in the
/// explicit `x|y:time` form or the compact two-character form.
pub open spec fn spec_open_item(item: Seq<u8>) -> Result<(i32, i32, i64), MinesweeperError> {
    let i = find_byte(item, 124);
    if i >= 0 {
        let rest = item.subrange(i + 1, item.len() as int);
        let j = find_byte(rest, 58);
        if j < 0 {
            Err(MinesweeperError::MalformedField)
        } else {
            match spec_coord62(item.subrange(0, i)) {
                Err(e) => Err(e),
                Ok(x) => match spec_coord62(rest.subrange(0, j)) {
                    Err(e) => Err(e),
                    Ok(y) => match spec_dec_i64(rest.subrange(j + 1, rest.len() as int)) {
                        Err(e) => Err(e),
                        Ok(t) => Ok((x, y, t)),
                    },
                },
            }
        }
    } else if item.len() < 2 {
        Err(MinesweeperError::MalformedField)
    } else {
        match spec_coord62(seq![item[0]]) {
            Err(e) => Err(e),
            Ok(x) => match spec_coord62(seq![item[1]]) {
                Err(e) => Err(e),
                Ok(y) => match spec_dec_i64(item.skip(2)) {
                    Err(e) => Err(e),
                    Ok(t) => Ok((x, y, t)),
                },
            },
        }
    }
}

pub open spec fn spec_opens_build(items: Seq<Seq<u8>>, acc: int) -> Result<
    Seq<OpenAction>,
    MinesweeperError,
>
    decreases items.len(),
{
    if items.len() == 0 {
        Ok(Seq::<OpenAction>::empty())
    } else {
        match spec_open_item(items[0]) {
            Err(e) => Err(e),
            Ok(xyt) => if acc + xyt.2 > i64::MAX {
                Err(MinesweeperError::DataParse)
            } else {
                match spec_opens_build(items.skip(1), acc + xyt.2) {
                    Err(e) => Err(e),
                    Ok(rest) => Ok(
                        seq![
                            OpenAction {
                                x: xyt.0,
                                y: xyt.1,
                                time: xyt.2,
                                total_time: (acc + xyt.2) as i64,
                            },
                        ] + rest,
                    ),
                }
            },
        }
    }
}

/// The open-event list: each event's cumulative time is the running
/// prefix sum of the open deltas alone.
pub open spec fn spec_parse_opens(s: Seq<u8>) -> Result<Seq<OpenAction>, MinesweeperError> {
    if s.len() == 0 {
        Ok(Seq::<OpenAction>::empty())
    } else {
        spec_opens_build(spec_split(s, 59), 0)
    }
}

/// Flag action codes: P places, R removes; T is Toggle, which this
/// version must refuse; anything else is malformed.
pub open spec fn spec_flag_code(b: u8) -> Result<Action, MinesweeperError> {
    if b == 80 {
        Ok(Action::Place)
    } else if b == 82 {
        Ok(Action::Remove)
    } else if b == 84 {
        Err(MinesweeperError::UnsupportedAction)
    } else {
        Err(MinesweeperError::MalformedField)
    }
}

/// One flag item: as an open item with the action code as the very
/// last character.
pub open spec fn spec_flag_item(item: Seq<u8>) -> Result<
    (i32, i32, i64, Action),
    MinesweeperError,
> {
    if find_byte(item, 124) >= 0 {
        let body = item.drop_last();
        let i = find_byte(body, 124);
        if i < 0 {
            Err(MinesweeperError::MalformedField)
        } else {
            let rest = body.subrange(i + 1, body.len() as int);
            let j = find_byte(rest, 58);
            if j < 0 {
                Err(MinesweeperError::MalformedField)
            } else {
                match spec_coord62(body.subrange(0, i)) {
                    Err(e) => Err(e),
                    Ok(x) => match spec_coord62(rest.subrange(0, j)) {
                        Err(e) => Err(e),
                        Ok(y) => match spec_dec_i64(rest.subrange(j + 1, rest.len() as int)) {
                            Err(e) => Err(e),
                            Ok(t) => match spec_flag_code(item.last()) {
                                Err(e) => Err(e),
                                Ok(a) => Ok((x, y, t, a)),
                            },
                        },
                    },
                }
            }
        }
    } else if item.len() < 3 {
        Err(MinesweeperError::MalformedField)
    } else {
        match spec_coord62(seq![item[0]]) {
            Err(e) => Err(e),
            Ok(x) => match spec_coord62(seq![item[1]]) {
                Err(e) => Err(e),
                Ok(y) => match spec_dec_i64(item.subrange(2, item.len() - 1)) {
                    Err(e) => Err(e),
                    Ok(t) => match spec_flag_code(item.last()) {
                        Err(e) => Err(e),
                        Ok(a) => Ok((x, y, t, a)),
                    },
                },
            },
        }
    }
}

pub open spec fn spec_flags_build(items: Seq<Seq<u8>>, acc: int) -> Result<
    Seq<FlagAction>,
    MinesweeperError,
>
    decreases items.len(),
{
    if items.len() == 0 {
        Ok(Seq::<FlagAction>::empty())
    } else {
        match spec_flag_item(items[0]) {
            Err(e) => Err(e),
            Ok(xyta) => if acc + xyta.2 > i64::MAX {
                Err(MinesweeperError::DataParse)
            } else {
                match spec_flags_build(items.skip(1), acc + xyta.2) {
                    Err(e) => Err(e),
                    Ok(rest) => Ok(
                        seq![
                            FlagAction {
                                x: xyta.0,
                                y: xyta.1,
                                time: xyta.2,
                                action: xyta.3,
                                total_time: (acc + xyta.2) as i64,
                            },
                        ] + rest,
                    ),
                }
            },
        }
    }
}

/// The flag-event list: cumulative times are the running prefix sum of
/// the flag deltas alone, independent of the open clock.
pub open spec fn spec_parse_flags(s: Seq<u8>) -> Result<Seq<FlagAction>, MinesweeperError> {
    if s.len() == 0 {
        Ok(Seq::<FlagAction>::empty())
    } else {
        spec_flags_build(spec_split(s, 59), 0)
    }
}

/// A board dimension: a positive decimal literal small enough for the
/// renderer's 16-bit pixel extents.
pub open spec fn spec_dim(tok: Seq<u8>) -> Result<i32, MinesweeperError> {
    if tok.len() == 0 || !all_dec(tok) {
        Err(MinesweeperError::MalformedField)
    } else if dec_val(tok) < 1 || dec_val(tok) > 1000 {
        Err(MinesweeperError::MalformedField)
    } else {
        Ok(dec_val(tok) as i32)
    }
}

/// Metadata `<width>x<height>`; this version's time unit is 50 ms.
pub open spec fn spec_parse_meta(s: Seq<u8>) -> Result<Metadata, MinesweeperError> {
    let i = find_byte(s, 120);
    if i < 0 {
        Err(MinesweeperError::MalformedField)
    } else {
        match spec_dim(s.subrange(0, i)) {
            Err(e) => Err(e),
            Ok(w) => match spec_dim(s.subrange(i + 1, s.len() as int)) {
                Err(e) => Err(e),
                Ok(h) => Ok(Metadata { x_size: w, y_size: h, timeunits: 50 }),
            },
        }
    }
}

/// Splitting decomposes at the first separator: the head item is the
/// text before it and the tail items are the split of the rest; with
/// no separator the whole text is the single item.
pub proof fn lemma_split_head(s: Seq<u8>, sep: u8)
    ensures
        find_byte(s, sep) >= 0 ==> spec_split(s, sep) =~~= seq![
            s.subrange(0, find_byte(s, sep)),
        ] + spec_split(s.subrange(find_byte(s, sep) + 1, s.len() as int), sep),
        find_byte(s, sep) < 0 ==> spec_split(s, sep) =~~= seq![s],
    decreases s.len(),
{
    if s.len() == 0 {
        assert(spec_split(s, sep) =~~= seq![s]);
    } else if s[0] == sep {
        assert(s.subrange(0, 0) =~= Seq::<u8>::empty());
        assert(s.subrange(1, s.len() as int) =~= s.skip(1));
        assert(spec_split(s, sep) =~~= seq![s.subrange(0, 0)] + spec_split(
            s.subrange(1, s.len() as int),
            sep,
        ));
    } else {
        lemma_split_head(s.skip(1), sep);
        lemma_split_nonempty(s.skip(1), sep);
        let f1 = find_byte(s.skip(1), sep);
        if f1 < 0 {
            assert(spec_split(s.skip(1), sep) =~~= seq![s.skip(1)]);
            assert(seq![s[0]] + s.skip(1) =~= s);
            assert(spec_split(s, sep) =~~= seq![s]);
        } else {
            lemma_find_byte(s.skip(1), sep);
            let f = find_byte(s, sep);
            assert(f == f1 + 1);
            assert(0 <= f1 < s.len() - 1);
            assert(spec_split(s.skip(1), sep) =~~= seq![s.skip(1).subrange(0, f1)] + spec_split(
                s.skip(1).subrange(f1 + 1, s.len() - 1),
                sep,
            ));
            assert(seq![s[0]] + s.skip(1).subrange(0, f1) =~= s.subrange(0, f));
            assert(s.skip(1).subrange(f1 + 1, s.len() - 1) =~= s.subrange(f + 1, s.len() as int));
            assert(spec_split(s, sep) == spec_split(s.skip(1), sep).update(
                0,
                seq![s[0]] + spec_split(s.skip(1), sep)[0],
            ));
            assert(spec_split(s, sep) =~~= seq![s.subrange(0, f)] + spec_split(
                s.subrange(f + 1, s.len() as int),
                sep,
            ));
        }
    }
}

pub open spec fn combine_mines(
    d: Seq<(i32, i32)>,
    r: Result<Seq<(i32, i32)>, MinesweeperError>,
) -> Result<Seq<(i32, i32)>, MinesweeperError> {
    match r {
        Ok(t) => Ok(d + t),
        Err(e) => Err(e),
    }
}

pub open spec fn combine_opens(
    d: Seq<OpenAction>,
    r: Result<Seq<OpenAction>, MinesweeperError>,
) -> Result<Seq<OpenAction>, MinesweeperError> {
    match r {
        Ok(t) => Ok(d + t),
        Err(e) => Err(e),
    }
}

pub open spec fn combine_flags(
    d: Seq<FlagAction>,
    r: Result<Seq<FlagAction>, MinesweeperError>,
) -> Result<Seq<FlagAction>, MinesweeperError> {
    match r {
        Ok(t) => Ok(d + t),
        Err(e) => Err(e),
    }
}

/// The first position of a byte in a slice, as `find_byte` describes.
pub fn find_in(data: &[u8], b: u8) -> (r: Option<usize>)
    ensures
        r matches Some(i) ==> i == find_byte(data@, b) && (i as int) < data@.len()
            && data@[i as int] == b,
        r is None ==> find_byte(data@, b) < 0,
{
    let n = data.len();
    for i in 0..n
        invariant
            n == data@.len(),
            forall|j: int| 0 <= j < i ==> data@[j] != b,
    {
        if data[i] == b {
            proof {
                lemma_find_byte(data@, b);
                if find_byte(data@, b) < 0 {
                    assert(data@[i as int] != b);
                }
                if find_byte(data@, b) != i as int {
                    assert(data@[find_byte(data@, b)] == b);
                }
            }
            return Some(i);
        }
    }
    proof {
        lemma_find_byte(data@, b);
        if find_byte(data@, b) >= 0 {
            assert(data@[find_byte(data@, b)] == b);
        }
    }
    None
}

/// A copy of the bytes from `a` (inclusive) to `b` (exclusive).
pub fn sub_vec(v: &[u8], a: usize, b: usize) -> (r: Vec<u8>)
    requires
        a <= b <= v@.len(),
    ensures
        r@ == v@.subrange(a as int, b as int),
{
    let mut r: Vec<u8> = Vec::new();
    for i in a..b
        invariant
            a <= b <= v@.len(),
            r@ =~= v@.subrange(a as int, i as int),
    {
        r.push(v[i]);
        proof {
            assert(r@ =~= v@.subrange(a as int, i + 1));
        }
    }
    r
}

/// Parses a decimal elapsed-time literal.
pub fn parse_decimal(tok: &Vec<u8>) -> (r: Result<i64, MinesweeperError>)
    ensures
        r == spec_dec_i64(tok@),
        r matches Ok(v) ==> v >= 0,
{
    let ghost s = tok@;
    let n = tok.len();
    if n == 0 {
        return Err(MinesweeperError::MalformedField);
    }
    for i in 0..n
        invariant
            n == s.len(),
            tok@ == s,
            forall|j: int| 0 <= j < i ==> is_dec_digit(#[trigger] s[j]),
    {
        let b = tok[i];
        if !(48 <= b && b <= 57) {
            assert(!is_dec_digit(s[i as int]));
            return Err(MinesweeperError::MalformedField);
        }
    }
    let mut acc: i64 = 0;
    for i in 0..n
        invariant
            n == s.len(),
            tok@ == s,
            all_dec(s),
            0 <= acc,
            acc == dec_val(s.subrange(0, i as int)),
    {
        let b = tok[i];
        let d: i64 = (b - 48) as i64;
        if acc > (i64::MAX - d) / 10 {
            proof {
                vstd::arithmetic::div_mod::lemma_fundamental_div_mod(i64::MAX - d, 10);
                assert(acc * 10 >= ((i64::MAX - d) / 10 + 1) * 10) by (nonlinear_arith)
                    requires acc >= (i64::MAX - d) / 10 + 1;
                assert(dec_val(s.subrange(0, i + 1)) == acc * 10 + d) by {
                    assert(s.subrange(0, i + 1).drop_last() =~= s.subrange(0, i as int));
                }
                lemma_dec_val_prefix_le(s, i + 1);
                assert(dec_val(s) > i64::MAX);
            }
            return Err(MinesweeperError::DataParse);
        }
        proof {
            vstd::arithmetic::div_mod::lemma_fundamental_div_mod(i64::MAX - d, 10);
            assert(acc * 10 <= ((i64::MAX - d) / 10) * 10) by (nonlinear_arith)
                requires acc <= (i64::MAX - d) / 10;
            assert(s.subrange(0, i + 1).drop_last() =~= s.subrange(0, i as int));
        }
        acc = acc * 10 + d;
    }
    proof {
        assert(s.subrange(0, n as int) =~= s);
    }
    Ok(acc)
}

/// Decodes one coordinate token.
pub fn coord62_vec(tok: &Vec<u8>) -> (r: Result<i32, MinesweeperError>)
    ensures
        r == spec_coord62(tok@),
{
    match base62::decode_bytes(tok.as_slice()) {
        Ok(v) => {
            if v > i32::MAX as i64 {
                Err(MinesweeperError::MalformedField)
            } else {
                proof {
                    base62::lemma_value62_nonneg(tok@);
                }
                Ok(v as i32)
            }
        },
        Err(e) => {
            match e {
                MinesweeperError::Decode => Err(MinesweeperError::Decode),
                _ => Err(MinesweeperError::MalformedField),
            }
        },
    }
}

/// Decodes a compact single-character coordinate.
pub fn coord62_byte(b: u8) -> (r: Result<i32, MinesweeperError>)
    ensures
        r == spec_coord62(seq![b]),
{
    proof {
        let t = seq![b];
        assert(t.len() == 1 && t.last() == b && t[0] == b);
        assert(t.drop_last() =~= Seq::<u8>::empty());
        assert(value62(t) == value62(t.drop_last()) * 62 + base62::digit62(b));
        assert(value62(t) == base62::digit62(b));
    }
    if 48 <= b && b <= 57 {
        Ok((b - 48) as i32)
    } else if 65 <= b && b <= 90 {
        Ok((b - 55) as i32)
    } else if 97 <= b && b <= 122 {
        Ok((b - 61) as i32)
    } else {
        assert(!all_digits62(seq![b])) by {
            assert(seq![b][0] == b);
        }
        Err(MinesweeperError::Decode)
    }
}

/// Parses one mine item.
pub fn mine_item(item: &Vec<u8>) -> (r: Result<Vec<(i32, i32)>, MinesweeperError>)
    ensures
        r matches Ok(v) ==> spec_mine_item(item@) == Ok::<_, MinesweeperError>(v@),
        r matches Err(e) ==> spec_mine_item(item@) == Err::<Seq<(i32, i32)>, _>(e),
{
    let n = item.len();
    match find_in(item.as_slice(), 124) {
        Some(i) => {
            let xtok = sub_vec(item.as_slice(), 0, i);
            let x = match coord62_vec(&xtok) {
                Ok(x) => x,
                Err(e) => {
                    return Err(e);
                },
            };
            let ytok = sub_vec(item.as_slice(), i + 1, n);
            let y = match coord62_vec(&ytok) {
                Ok(y) => y,
                Err(e) => {
                    return Err(e);
                },
            };
            let mut out: Vec<(i32, i32)> = Vec::new();
            out.push((x, y));
            proof {
                assert(out@ =~= seq![(x, y)]);
            }
            Ok(out)
        },
        None => {
            let mut out: Vec<(i32, i32)> = Vec::new();
            let mut j: usize = 0;
            proof {
                assert(item@.skip(0) =~= item@);
                match spec_mine_pairs(item@) {
                    Ok(t) => {
                        assert(out@ + t =~= t);
                    },
                    Err(_) => {},
                }
            }
            while j < n
                invariant
                    n == item@.len(),
                    find_byte(item@, 124) < 0,
                    j <= n,
                    j % 2 == 0,
                    spec_mine_pairs(item@) == combine_mines(
                        out@,
                        spec_mine_pairs(item@.skip(j as int)),
                    ),
                decreases n - j,
            {
                let ghost rest = item@.skip(j as int);
                proof {
                    assert(rest.len() == n - j);
                    assert(rest[0] == item@[j as int]);
                }
                if j + 1 >= n {
                    proof {
                        assert(rest.len() == 1);
                    }
                    return Err(MinesweeperError::MalformedField);
                }
                proof {
                    assert(rest[1] == item@[j as int + 1]);
                    assert(rest.skip(2) =~= item@.skip(j as int + 2));
                }
                proof {
                    assert(seq![rest[0]] =~= seq![item@[j as int]]);
                    assert(seq![rest[1]] =~= seq![item@[j as int + 1]]);
                }
                let x = match coord62_byte(item[j]) {
                    Ok(x) => x,
                    Err(e) => {
                        return Err(e);
                    },
                };
                let y = match coord62_byte(item[j + 1]) {
                    Ok(y) => y,
                    Err(e) => {
                        return Err(e);
                    },
                };
                let ghost outpre = out@;
                out.push((x, y));
                proof {
                    let tail = spec_mine_pairs(item@.skip(j as int + 2));
                    assert(spec_mine_pairs(rest) == (match tail {
                        Err(e) => Err(e),
                        Ok(t) => Ok(seq![(x, y)] + t),
                    }));
                    match tail {
                        Ok(t) => {
                            assert(out@ + t =~= outpre + (seq![(x, y)] + t));
                        },
                        Err(_) => {},
                    }
                }
                j = j + 2;
            }
            proof {
                assert(item@.skip(n as int) =~= Seq::<u8>::empty());
                assert(out@ + Seq::<(i32, i32)>::empty() =~= out@);
            }
            Ok(out)
        },
    }
}

/// Parses one open item into its coordinates and time delta.
pub fn open_item(item: &Vec<u8>) -> (r: Result<(i32, i32, i64), MinesweeperError>)
    ensures
        r == spec_open_item(item@),
        r matches Ok(xyt) ==> xyt.2 >= 0,
{
    let n = item.len();
    match find_in(item.as_slice(), 124) {
        Some(i) => {
            let rest = sub_vec(item.as_slice(), i + 1, n);
            let j = match find_in(rest.as_slice(), 58) {
                Some(j) => j,
                None => {
                    return Err(MinesweeperError::MalformedField);
                },
            };
            let xtok = sub_vec(item.as_slice(), 0, i);
            let x = match coord62_vec(&xtok) {
                Ok(x) => x,
                Err(e) => {
                    return Err(e);
                },
            };
            let ytok = sub_vec(rest.as_slice(), 0, j);
            let y = match coord62_vec(&ytok) {
                Ok(y) => y,
                Err(e) => {
                    return Err(e);
                },
            };
            let ttok = sub_vec(rest.as_slice(), j + 1, rest.len());
            let t = match parse_decimal(&ttok) {
                Ok(t) => t,
                Err(e) => {
                    return Err(e);
                },
            };
            Ok((x, y, t))
        },
        None => {
            if n < 2 {
                return Err(MinesweeperError::MalformedField);
            }
            let x = match coord62_byte(item[0]) {
                Ok(x) => x,
                Err(e) => {
                    return Err(e);
                },
            };
            let y = match coord62_byte(item[1]) {
                Ok(y) => y,
                Err(e) => {
                    return Err(e);
                },
            };
            let ttok = sub_vec(item.as_slice(), 2, n);
            proof {
                assert(ttok@ =~= item@.skip(2));
            }
            let t = match parse_decimal(&ttok) {
                Ok(t) => t,
                Err(e) => {
                    return Err(e);
                },
            };
            Ok((x, y, t))
        },
    }
}

/// Parses one flag item into coordinates, time delta and action.
pub fn flag_item(item: &Vec<u8>) -> (r: Result<(i32, i32, i64, Action), MinesweeperError>)
    ensures
        r == spec_flag_item(item@),
        r matches Ok(xyta) ==> xyta.2 >= 0,
{
    let n = item.len();
    match find_in(item.as_slice(), 124) {
        Some(_) => {
            let body = sub_vec(item.as_slice(), 0, n - 1);
            proof {
                assert(body@ =~= item@.drop_last());
            }
            let i = match find_in(body.as_slice(), 124) {
                Some(i) => i,
                None => {
                    return Err(MinesweeperError::MalformedField);
                },
            };
            let rest = sub_vec(body.as_slice(), i + 1, body.len());
            let j = match find_in(rest.as_slice(), 58) {
                Some(j) => j,
                None => {
                    return Err(MinesweeperError::MalformedField);
                },
            };
            let xtok = sub_vec(body.as_slice(), 0, i);
            let x = match coord62_vec(&xtok) {
                Ok(x) => x,
                Err(e) => {
                    return Err(e);
                },
            };
            let ytok = sub_vec(rest.as_slice(), 0, j);
            let y = match coord62_vec(&ytok) {
                Ok(y) => y,
                Err(e) => {
                    return Err(e);
                },
            };
            let ttok = sub_vec(rest.as_slice(), j + 1, rest.len());
            let t = match parse_decimal(&ttok) {
                Ok(t) => t,
                Err(e) => {
                    return Err(e);
                },
            };
            let a = match flag_code(item[n - 1]) {
                Ok(a) => a,
                Err(e) => {
                    return Err(e);
                },
            };
            Ok((x, y, t, a))
        },
        None => {
            if n < 3 {
                return Err(MinesweeperError::MalformedField);
            }
            let x = match coord62_byte(item[0]) {
                Ok(x) => x,
                Err(e) => {
                    return Err(e);
                },
            };
            let y = match coord62_byte(item[1]) {
                Ok(y) => y,
                Err(e) => {
                    return Err(e);
                },
            };
            let ttok = sub_vec(item.as_slice(), 2, n - 1);
            let t = match parse_decimal(&ttok) {
                Ok(t) => t,
                Err(e) => {
                    return Err(e);
                },
            };
            let a = match flag_code(item[n - 1]) {
                Ok(a) => a,
                Err(e) => {
                    return Err(e);
                },
            };
            Ok((x, y, t, a))
        },
    }
}

/// Classifies one flag action code byte.
pub fn flag_code(b: u8) -> (r: Result<Action, MinesweeperError>)
    ensures
        r == spec_flag_code(b),
{
    if b == 80 {
        Ok(Action::Place)
    } else if b == 82 {
        Ok(Action::Remove)
    } else if b == 84 {
        Err(MinesweeperError::UnsupportedAction)
    } else {
        Err(MinesweeperError::MalformedField)
    }
}

/// Parses a board dimension token.
pub fn parse_dim(tok: &Vec<u8>) -> (r: Result<i32, MinesweeperError>)
    ensures
        r == spec_dim(tok@),
{
    match parse_decimal(tok) {
        Ok(v) => {
            proof {
                lemma_dec_val_nonneg(tok@);
            }
            if v < 1 || v > 1000 {
                Err(MinesweeperError::MalformedField)
            } else {
                Ok(v as i32)
            }
        },
        Err(e) => {
            proof {
                assert(spec_dec_i64(tok@) == Err::<i64, MinesweeperError>(e));
                if !(tok@.len() == 0 || !all_dec(tok@)) {
                    assert(dec_val(tok@) > i64::MAX);
                }
            }
            Err(MinesweeperError::MalformedField)
        },
    }
}

/// What `parse_mine_data` guarantees once the mine list `ms` is known:
/// success exactly when the mines are in bounds and pairwise distinct,
/// and on success a fresh all-closed, all-dirty board carrying them.
pub open spec fn mine_data_post(
    ms: Seq<(i32, i32)>,
    metadata: Metadata,
    r: Result<Board, MinesweeperError>,
) -> bool {
    &&& (r is Ok <==> (forall|k: int|
        0 <= k < ms.len() ==> minesweeper_logic::mine_in_bounds(metadata, #[trigger] ms[k])) && (
    forall|k1: int, k2: int| 0 <= k1 < k2 < ms.len() ==> #[trigger] ms[k1] != #[trigger] ms[k2]))
    &&& (r matches Err(e) ==> e == MinesweeperError::MalformedField)
    &&& (r matches Ok(b) ==> {
        &&& b.open_fields == 0
        &&& b.mine_count == ms.len()
        &&& b.grid() == minesweeper_logic::start_grid(metadata, ms)
        &&& b.marks() == minesweeper_logic::full_marks(metadata)
        &&& forall|x: int, y: int|
            #[trigger] minesweeper_logic::cell_in_bounds(b.grid(), x, y) ==> ((b.grid()[y][x].mine
                <==> ms.contains((x as i32, y as i32))) && b.grid()[y][x].field_state
                == minesweeper_logic::FieldState::Closed)
        &&& forall|x: int, y: int|
            0 <= y < b.marks().len() && 0 <= x < b.marks()[y].len() ==> #[trigger] b.marks()[y][x]
    })
}

impl Iparser for ParserV1 {
    /// The only version tag this parser accepts is "1".
    fn supported_versions(&self) -> (r: Vec<&'static str>)
        ensures
            r@.len() == 1,
            r@[0]@ == seq!['1'],
    {
        let mut v: Vec<&'static str> = Vec::new();
        v.push("1");
        proof {
            reveal_strlit("1");
            assert("1"@ =~= seq!['1']);
        }
        v
    }

    /// Builds the starting board from the mine field: the decoded mine
    /// list is laid onto a fresh board of the metadata's dimensions.
    /// Fails with the mine list's own error, or with a malformed-field
    /// error when a mine is out of bounds or repeated.
    #[verifier::rlimit(60)]
    fn parse_mine_data(&self, data: &str, metadata: &Metadata) -> (r: Result<
        Board,
        MinesweeperError,
    >)
        ensures
            spec_parse_mines(data.spec_bytes()) matches Err(e) ==> r == Err::<Board, _>(e),
            spec_parse_mines(data.spec_bytes()) matches Ok(ms) ==> mine_data_post(
                ms,
                *metadata,
                r,
            ),
    {
        let locs = match self.parse_mine_locations(data) {
            Ok(l) => l,
            Err(e) => {
                return Err(e);
            },
        };
        proof {
            assert(spec_parse_mines(data.spec_bytes()) == Ok::<_, MinesweeperError>(locs@));
        }
        let rr = Board::with_mines(metadata, &locs);
        proof {
            assert(mine_data_post(locs@, *metadata, rr));
        }
        rr
    }

    /// Decodes the mine list exactly as `spec_parse_mines` describes.
    fn parse_mine_locations(&self, data: &str) -> (r: Result<Vec<(i32, i32)>, MinesweeperError>)
        ensures
            r matches Ok(v) ==> spec_parse_mines(data.spec_bytes()) == Ok::<_, MinesweeperError>(
                v@,
            ),
            r matches Err(e) ==> spec_parse_mines(data.spec_bytes()) == Err::<Seq<(i32, i32)>, _>(
                e,
            ),
    {
        let bytes = data.as_bytes();
        let mut out: Vec<(i32, i32)> = Vec::new();
        if bytes.len() == 0 {
            return Ok(out);
        }
        let items = split_bytes(bytes, 59);
        let ghost all = spec_split(data.spec_bytes(), 59);
        let n = items.len();
        proof {
            assert(all.skip(0) =~~= all);
            match spec_mines(all) {
                Ok(t) => {
                    assert(out@ + t =~= t);
                },
                Err(_) => {},
            }
        }
        for i in 0..n
            invariant
                vviews(items@) == all,
                n == all.len(),
                all == spec_split(data.spec_bytes(), 59),
                data.spec_bytes().len() > 0,
                spec_mines(all) == combine_mines(out@, spec_mines(all.skip(i as int))),
        {
            proof {
                assert(all.skip(i as int)[0] == all[i as int]);
                assert(all[i as int] == items@[i as int]@);
                assert(all.skip(i as int).skip(1) =~~= all.skip(i as int + 1));
            }
            let part = match mine_item(&items[i]) {
                Ok(p) => p,
                Err(e) => {
                    return Err(e);
                },
            };
            let ghost outpre = out@;
            let mut part = part;
            let ghost partview = part@;
            out.append(&mut part);
            proof {
                match spec_mines(all.skip(i as int + 1)) {
                    Ok(t) => {
                        assert(out@ + t =~= outpre + (partview + t));
                    },
                    Err(_) => {},
                }
            }
        }
        proof {
            assert(all.skip(n as int) =~~= Seq::<Seq<u8>>::empty());
            match spec_mines(Seq::<Seq<u8>>::empty()) {
                Ok(t) => {
                    assert(out@ + t =~= out@);
                },
                Err(_) => {},
            }
        }
        Ok(out)
    }

    /// Decodes the flag-event list exactly as `spec_parse_flags`
    /// describes: each event carries the running prefix sum of the flag
    /// deltas as its cumulative time.
    fn parse_flag_data(&self, data: &str) -> (r: Result<Vec<FlagAction>, MinesweeperError>)
        ensures
            r matches Ok(v) ==> spec_parse_flags(data.spec_bytes()) == Ok::<_, MinesweeperError>(
                v@,
            ),
            r matches Err(e) ==> spec_parse_flags(data.spec_bytes()) == Err::<Seq<FlagAction>, _>(
                e,
            ),
    {
        let bytes = data.as_bytes();
        let mut out: Vec<FlagAction> = Vec::new();
        if bytes.len() == 0 {
            return Ok(out);
        }
        let items = split_bytes(bytes, 59);
        let ghost all = spec_split(data.spec_bytes(), 59);
        let n = items.len();
        let mut acc: i64 = 0;
        proof {
            assert(all.skip(0) =~~= all);
            match spec_flags_build(all, 0) {
                Ok(t) => {
                    assert(out@ + t =~= t);
                },
                Err(_) => {},
            }
        }
        for i in 0..n
            invariant
                vviews(items@) == all,
                n == all.len(),
                all == spec_split(data.spec_bytes(), 59),
                data.spec_bytes().len() > 0,
                0 <= acc,
                spec_flags_build(all, 0) == combine_flags(
                    out@,
                    spec_flags_build(all.skip(i as int), acc as int),
                ),
        {
            proof {
                assert(all.skip(i as int)[0] == all[i as int]);
                assert(all[i as int] == items@[i as int]@);
                assert(all.skip(i as int).skip(1) =~~= all.skip(i as int + 1));
            }
            let (x, y, t, a) = match flag_item(&items[i]) {
                Ok(p) => p,
                Err(e) => {
                    return Err(e);
                },
            };
            if t > i64::MAX - acc {
                return Err(MinesweeperError::DataParse);
            }
            acc = acc + t;
            let ghost outpre = out@;
            out.push(FlagAction { x, y, time: t, action: a, total_time: acc });
            proof {
                match spec_flags_build(all.skip(i as int + 1), acc as int) {
                    Ok(rest) => {
                        assert(out@ + rest =~= outpre + (seq![
                            FlagAction { x, y, time: t, action: a, total_time: acc },
                        ] + rest));
                    },
                    Err(_) => {},
                }
            }
        }
        proof {
            assert(all.skip(n as int) =~~= Seq::<Seq<u8>>::empty());
            match spec_flags_build(Seq::<Seq<u8>>::empty(), acc as int) {
                Ok(t) => {
                    assert(out@ + t =~= out@);
                },
                Err(_) => {},
            }
        }
        Ok(out)
    }

    /// Decodes the open-event list exactly as `spec_parse_opens`
    /// describes: each event carries the running prefix sum of the open
    /// deltas as its cumulative time, independent of the flag clock.
    fn parse_open_data(&self, data: &str) -> (r: Result<Vec<OpenAction>, MinesweeperError>)
        ensures
            r matches Ok(v) ==> spec_parse_opens(data.spec_bytes()) == Ok::<_, MinesweeperError>(
                v@,
            ),
            r matches Err(e) ==> spec_parse_opens(data.spec_bytes()) == Err::<Seq<OpenAction>, _>(
                e,
            ),
    {
        let bytes = data.as_bytes();
        let mut out: Vec<OpenAction> = Vec::new();
        if bytes.len() == 0 {
            return Ok(out);
        }
        let items = split_bytes(bytes, 59);
        let ghost all = spec_split(data.spec_bytes(), 59);
        let n = items.len();
        let mut acc: i64 = 0;
        proof {
            assert(all.skip(0) =~~= all);
            match spec_opens_build(all, 0) {
                Ok(t) => {
                    assert(out@ + t =~= t);
                },
                Err(_) => {},
            }
        }
        for i in 0..n
            invariant
                vviews(items@) == all,
                n == all.len(),
                all == spec_split(data.spec_bytes(), 59),
                data.spec_bytes().len() > 0,
                0 <= acc,
                spec_opens_build(all, 0) == combine_opens(
                    out@,
                    spec_opens_build(all.skip(i as int), acc as int),
                ),
        {
            proof {
                assert(all.skip(i as int)[0] == all[i as int]);
                assert(all[i as int] == items@[i as int]@);
                assert(all.skip(i as int).skip(1) =~~= all.skip(i as int + 1));
            }
            let (x, y, t) = match open_item(&items[i]) {
                Ok(p) => p,
                Err(e) => {
                    return Err(e);
                },
            };
            if t > i64::MAX - acc {
                return Err(MinesweeperError::DataParse);
            }
            acc = acc + t;
            let ghost outpre = out@;
            out.push(OpenAction { x, y, time: t, total_time: acc });
            proof {
                match spec_opens_build(all.skip(i as int + 1), acc as int) {
                    Ok(rest) => {
                        assert(out@ + rest =~= outpre + (seq![
                            OpenAction { x, y, time: t, total_time: acc },
                        ] + rest));
                    },
                    Err(_) => {},
                }
            }
        }
        proof {
            assert(all.skip(n as int) =~~= Seq::<Seq<u8>>::empty());
            match spec_opens_build(Seq::<Seq<u8>>::empty(), acc as int) {
                Ok(t) => {
                    assert(out@ + t =~= out@);
                },
                Err(_) => {},
            }
        }
        Ok(out)
    }

    /// Parses `<width>x<height>` and fixes this version's time unit to
    /// 50 ms, exactly as `spec_parse_meta` describes.
    fn parse_meta_data(&self, data: &str) -> (r: Result<Metadata, MinesweeperError>)
        ensures
            r == spec_parse_meta(data.spec_bytes()),
    {
        let bytes = data.as_bytes();
        let blen = bytes.len();
        let i = match find_in(bytes, 120) {
            Some(i) => i,
            None => {
                return Err(MinesweeperError::MalformedField);
            },
        };
        assert(i < blen);
        let wtok = sub_vec(bytes, 0, i);
        let w = match parse_dim(&wtok) {
            Ok(w) => w,
            Err(e) => {
                return Err(e);
            },
        };
        assert(i < blen);
        let htok = sub_vec(bytes, i + 1, blen);
        let h = match parse_dim(&htok) {
            Ok(h) => h,
            Err(e) => {
                return Err(e);
            },
        };
        Ok(Metadata { x_size: w, y_size: h, timeunits: 50 })
    }
}

/// Classifies a flag action code: P places and R removes a flag; this
/// version does not support Toggle and refuses T rather than coercing
/// it; any other code is malformed.
pub fn get_flag_type(raw_flag_type: char) -> (r: Result<Action, MinesweeperError>)
    ensures
        raw_flag_type == 'P' ==> r == Ok::<_, MinesweeperError>(Action::Place),
        raw_flag_type == 'R' ==> r == Ok::<_, MinesweeperError>(Action::Remove),
        raw_flag_type == 'T' ==> r == Err::<Action, _>(MinesweeperError::UnsupportedAction),
        raw_flag_type != 'P' && raw_flag_type != 'R' && raw_flag_type != 'T' ==> r == Err::<
            Action,
            _,
        >(MinesweeperError::MalformedField),
{
    if raw_flag_type == 'P' {
        Ok(Action::Place)
    } else if raw_flag_type == 'R' {
        Ok(Action::Remove)
    } else if raw_flag_type == 'T' {
        Err(MinesweeperError::UnsupportedAction)
    } else {
        Err(MinesweeperError::MalformedField)
    }
}

} // verus!
