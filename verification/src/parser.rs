//! Decoders for the replay wire format.
//!
//! The replay text carries four segments: the board size, the mine layout,
//! the open-action log and the flag-action log.  The last three are
//! `;`-separated lists of records, and every record comes in one of two
//! layouts, told apart by the presence of `|`:
//!
//! * the *compact* layout writes each coordinate as a single base-62
//!   symbol, so a record is a fixed-width run of characters;
//! * the *pair* layout writes `<x>|<y>` with multi-character base-62
//!   values, and action records append `:<decimal time>`.
//!
//! Times are relative; each list accumulates them independently into the
//! absolute time (`total_time`) of every action, in input order.
//!
//! Each decoder's contract states exactly which inputs succeed, what they
//! decode to, and which error every rejected input raises.  Where the two
//! checks of one record could both apply, the decoders look at structure
//! first, then coordinates, then the action kind, then the time value.

use vstd::prelude::*;

use crate::base62::{all_b62, b62_digit, b62_val, is_b62};
use crate::board::{Board, Field, FieldState};
use crate::error::MinesweeperError;
use crate::text::{
    all_dec, dec_int_val, dec_val, find_sep, is_dec_int, parse_dec_i64, split_on, str_chars,
    split_chars, sub_chars,
};

verus! {

/// The board size, decoded once from the `<width>x<height>` prefix.
#[derive(Clone, Copy, Debug, PartialEq, Eq, Structural)]
pub struct Metadata {
    pub x_size: i32,
    pub y_size: i32,
}

impl Metadata {
    /// Both dimensions are non-negative; zero is a legal (empty) board.
    pub open spec fn wf(self) -> bool {
        0 <= self.x_size && 0 <= self.y_size
    }
}

/// What a flag record does to its cell.
#[derive(Clone, Copy, Debug, PartialEq, Eq, Structural)]
pub enum Action {
    Place,
    Remove,
}

/// One decoded open action: a cell to open, its relative time, and the
/// absolute time accumulated over the open list.
#[derive(Clone, Copy, Debug, PartialEq, Eq, Structural)]
pub struct OpenAction {
    pub x: i32,
    pub y: i32,
    pub time: i64,
    pub total_time: i64,
}

/// One decoded flag action; accumulated independently of the open list.
#[derive(Clone, Copy, Debug, PartialEq, Eq, Structural)]
pub struct FlagAction {
    pub x: i32,
    pub y: i32,
    pub time: i64,
    pub action: Action,
    pub total_time: i64,
}

/// A multi-character base-62 coordinate: every character must be in the
/// alphabet, and the value must fit the `i32` coordinate type.
pub open spec fn spec_coord(s: Seq<char>) -> Result<int, MinesweeperError> {
    if !all_b62(s) {
        Err(MinesweeperError::InvalidSymbol)
    } else if b62_val(s) > i32::MAX {
        Err(MinesweeperError::NumberOverflow)
    } else {
        Ok(b62_val(s))
    }
}

/// A compact mine record: consecutive two-character chunks, each chunk one
/// `(x, y)` pair of single base-62 symbols.  An odd number of characters is
/// malformed; the empty record holds no mines.
pub open spec fn spec_compact_mines(r: Seq<char>) -> Result<
    Seq<(int, int)>,
    MinesweeperError,
>
    decreases r.len(),
{
    if r.len() == 0 {
        Ok(Seq::empty())
    } else if r.len() == 1 {
        Err(MinesweeperError::MalformedMineRecord)
    } else if !is_b62(r[0]) || !is_b62(r[1]) {
        Err(MinesweeperError::InvalidSymbol)
    } else {
        match spec_compact_mines(r.skip(2)) {
            Ok(rest) => Ok(seq![(b62_digit(r[0]), b62_digit(r[1]))] + rest),
            Err(e) => Err(e),
        }
    }
}

/// One mine record, in either layout.
pub open spec fn spec_mine_record(r: Seq<char>) -> Result<Seq<(int, int)>, MinesweeperError> {
    let k = find_sep(r, '|');
    if k == -1 {
        spec_compact_mines(r)
    } else {
        match spec_coord(r.take(k)) {
            Err(e) => Err(e),
            Ok(x) => match spec_coord(r.skip(k + 1)) {
                Err(e) => Err(e),
                Ok(y) => Ok(seq![(x, y)]),
            },
        }
    }
}

/// A list of mine records, concatenated in order; the first failing record
/// decides the error.
pub open spec fn spec_mine_records(rs: Seq<Seq<char>>) -> Result<
    Seq<(int, int)>,
    MinesweeperError,
>
    decreases rs.len(),
{
    if rs.len() == 0 {
        Ok(Seq::empty())
    } else {
        match spec_mine_record(rs[0]) {
            Err(e) => Err(e),
            Ok(h) => match spec_mine_records(rs.drop_first()) {
                Err(e) => Err(e),
                Ok(t) => Ok(h + t),
            },
        }
    }
}

/// The whole mine segment: empty means a mine-free board; otherwise the
/// `;`-separated records in order.
pub open spec fn spec_mine_locations(s: Seq<char>) -> Result<Seq<(int, int)>, MinesweeperError> {
    if s.len() == 0 {
        Ok(Seq::empty())
    } else {
        spec_mine_records(split_on(s, ';'))
    }
}

/// A decimal time field, with the accepted `i64` range.
pub open spec fn spec_time_ok(t: Seq<char>) -> bool {
    is_dec_int(t) && -i64::MAX <= dec_int_val(t) <= i64::MAX
}

/// One open record: `<x><y><time>` in the compact layout, or
/// `<x>|<y>:<time>` in the pair layout.  Yields `(x, y, relative time)`.
pub open spec fn spec_open_record(r: Seq<char>) -> Result<(int, int, int), MinesweeperError> {
    let k = find_sep(r, '|');
    if k == -1 {
        if r.len() < 2 {
            Err(MinesweeperError::MalformedActionRecord)
        } else if !is_b62(r[0]) || !is_b62(r[1]) {
            Err(MinesweeperError::InvalidSymbol)
        } else if !spec_time_ok(r.skip(2)) {
            Err(MinesweeperError::MalformedTimeValue)
        } else {
            Ok((b62_digit(r[0]), b62_digit(r[1]), dec_int_val(r.skip(2))))
        }
    } else {
        let rest = r.skip(k + 1);
        let m = find_sep(rest, ':');
        if m == -1 {
            Err(MinesweeperError::MalformedActionRecord)
        } else {
            match spec_coord(r.take(k)) {
                Err(e) => Err(e),
                Ok(x) => match spec_coord(rest.take(m)) {
                    Err(e) => Err(e),
                    Ok(y) => if !spec_time_ok(rest.skip(m + 1)) {
                        Err(MinesweeperError::MalformedTimeValue)
                    } else {
                        Ok((x, y, dec_int_val(rest.skip(m + 1))))
                    },
                },
            }
        }
    }
}

/// One flag record: an open record with one trailing kind character,
/// `P` to place a flag or `R` to remove one.
pub open spec fn spec_flag_record(r: Seq<char>) -> Result<
    (int, int, int, Action),
    MinesweeperError,
> {
    let k = find_sep(r, '|');
    if k == -1 {
        if r.len() < 3 {
            Err(MinesweeperError::MalformedActionRecord)
        } else if !is_b62(r[0]) || !is_b62(r[1]) {
            Err(MinesweeperError::InvalidSymbol)
        } else if r.last() != 'P' && r.last() != 'R' {
            Err(MinesweeperError::UnknownActionKind)
        } else if !spec_time_ok(r.subrange(2, r.len() - 1)) {
            Err(MinesweeperError::MalformedTimeValue)
        } else {
            Ok(
                (
                    b62_digit(r[0]),
                    b62_digit(r[1]),
                    dec_int_val(r.subrange(2, r.len() - 1)),
                    if r.last() == 'P' {
                        Action::Place
                    } else {
                        Action::Remove
                    },
                ),
            )
        }
    } else {
        // The trailing kind character is stripped before the delimiters
        // are located, as the format defines the layout.
        let body = r.drop_last();
        let kind = r.last();
        let k2 = find_sep(body, '|');
        if k2 == -1 {
            Err(MinesweeperError::MalformedActionRecord)
        } else {
            let rest = body.skip(k2 + 1);
            let m = find_sep(rest, ':');
            if m == -1 {
                Err(MinesweeperError::MalformedActionRecord)
            } else {
                match spec_coord(body.take(k2)) {
                    Err(e) => Err(e),
                    Ok(x) => match spec_coord(rest.take(m)) {
                        Err(e) => Err(e),
                        Ok(y) => if kind != 'P' && kind != 'R' {
                            Err(MinesweeperError::UnknownActionKind)
                        } else if !spec_time_ok(rest.skip(m + 1)) {
                            Err(MinesweeperError::MalformedTimeValue)
                        } else {
                            Ok(
                                (
                                    x,
                                    y,
                                    dec_int_val(rest.skip(m + 1)),
                                    if kind == 'P' {
                                        Action::Place
                                    } else {
                                        Action::Remove
                                    },
                                ),
                            )
                        },
                    },
                }
            }
        }
    }
}

/// The open list with absolute times: each record's relative time is added
/// to the running sum `acc`; a sum that leaves the `i64` range fails with
/// `NumberOverflow`.  Yields `(x, y, time, total_time)` per record.
pub open spec fn spec_open_actions(rs: Seq<Seq<char>>, acc: int) -> Result<
    Seq<(int, int, int, int)>,
    MinesweeperError,
>
    decreases rs.len(),
{
    if rs.len() == 0 {
        Ok(Seq::empty())
    } else {
        match spec_open_record(rs[0]) {
            Err(e) => Err(e),
            Ok(rec) => {
                let total = acc + rec.2;
                if total > i64::MAX || total < i64::MIN {
                    Err(MinesweeperError::NumberOverflow)
                } else {
                    match spec_open_actions(rs.drop_first(), total) {
                        Err(e) => Err(e),
                        Ok(t) => Ok(seq![(rec.0, rec.1, rec.2, total)] + t),
                    }
                }
            },
        }
    }
}

/// The whole open segment.
pub open spec fn spec_open_data(s: Seq<char>) -> Result<
    Seq<(int, int, int, int)>,
    MinesweeperError,
> {
    if s.len() == 0 {
        Ok(Seq::empty())
    } else {
        spec_open_actions(split_on(s, ';'), 0)
    }
}

/// The flag list with absolute times, accumulated like the open list but
/// independently of it.  Yields `(x, y, time, total_time, action)`.
pub open spec fn spec_flag_actions(rs: Seq<Seq<char>>, acc: int) -> Result<
    Seq<(int, int, int, int, Action)>,
    MinesweeperError,
>
    decreases rs.len(),
{
    if rs.len() == 0 {
        Ok(Seq::empty())
    } else {
        match spec_flag_record(rs[0]) {
            Err(e) => Err(e),
            Ok(rec) => {
                let total = acc + rec.2;
                if total > i64::MAX || total < i64::MIN {
                    Err(MinesweeperError::NumberOverflow)
                } else {
                    match spec_flag_actions(rs.drop_first(), total) {
                        Err(e) => Err(e),
                        Ok(t) => Ok(seq![(rec.0, rec.1, rec.2, total, rec.3)] + t),
                    }
                }
            },
        }
    }
}

/// The whole flag segment.
pub open spec fn spec_flag_data(s: Seq<char>) -> Result<
    Seq<(int, int, int, int, Action)>,
    MinesweeperError,
> {
    if s.len() == 0 {
        Ok(Seq::empty())
    } else {
        spec_flag_actions(split_on(s, ';'), 0)
    }
}

/// The board size record `<width>x<height>`, both sides unsigned decimal
/// numbers that fit `i32`.
pub open spec fn spec_metadata(s: Seq<char>) -> Result<(int, int), MinesweeperError> {
    let k = find_sep(s, 'x');
    if k == -1 {
        Err(MinesweeperError::MalformedMetadata)
    } else {
        let ws = s.take(k);
        let hs = s.skip(k + 1);
        if !(ws.len() > 0 && all_dec(ws) && dec_val(ws) <= i32::MAX) {
            Err(MinesweeperError::MalformedMetadata)
        } else if !(hs.len() > 0 && all_dec(hs) && dec_val(hs) <= i32::MAX) {
            Err(MinesweeperError::MalformedMetadata)
        } else {
            Ok((dec_val(ws), dec_val(hs)))
        }
    }
}

/// The coordinate pairs of a mine list, as unbounded integers.
pub open spec fn coords_view(v: Seq<(i32, i32)>) -> Seq<(int, int)> {
    v.map_values(|p: (i32, i32)| (p.0 as int, p.1 as int))
}

/// Concatenating mine record results: if the first `j` records decode,
/// the whole list is the decoded prefix followed by whatever the rest
/// yields, or the rest's error.
proof fn lemma_mine_records_split(rs: Seq<Seq<char>>, j: int)
    requires
        0 <= j <= rs.len(),
        spec_mine_records(rs.take(j)) is Ok,
    ensures
        spec_mine_records(rs) == match spec_mine_records(rs.skip(j)) {
            Ok(t) => Ok::<Seq<(int, int)>, MinesweeperError>(
                spec_mine_records(rs.take(j))->Ok_0 + t,
            ),
            Err(e) => Err::<Seq<(int, int)>, MinesweeperError>(e),
        },
    decreases j,
{
    if j == 0 {
        assert(rs.take(0) =~= Seq::<Seq<char>>::empty());
        assert(rs.skip(0) =~= rs);
        match spec_mine_records(rs) {
            Ok(t) => {
                assert(spec_mine_records(rs.take(0))->Ok_0 + t =~= t);
            },
            Err(e) => {},
        }
    } else {
        let rest = rs.drop_first();
        assert(rs.take(j)[0] == rs[0]);
        assert(rs.take(j).drop_first() =~= rest.take(j - 1));
        assert(rs.skip(j) =~= rest.skip(j - 1));
        let h = spec_mine_record(rs[0]);
        assert(h is Ok);
        assert(spec_mine_records(rest.take(j - 1)) is Ok);
        lemma_mine_records_split(rest, j - 1);
        let p_rest = spec_mine_records(rest.take(j - 1))->Ok_0;
        assert(spec_mine_records(rs.take(j))->Ok_0 == h->Ok_0 + p_rest);
        match spec_mine_records(rs.skip(j)) {
            Ok(t) => {
                assert(spec_mine_records(rest) == Ok::<Seq<(int, int)>, MinesweeperError>(
                    p_rest + t,
                ));
                assert(h->Ok_0 + (p_rest + t) =~= (h->Ok_0 + p_rest) + t);
            },
            Err(e) => {
                assert(spec_mine_records(rest) == Err::<Seq<(int, int)>, MinesweeperError>(e));
            },
        }
    }
}

/// Chunking a compact record: if the first `i` characters (an even count)
/// form valid chunks, the record is those chunks followed by whatever the
/// remaining characters yield, or their error.
proof fn lemma_compact_split(r: Seq<char>, i: int)
    requires
        0 <= i <= r.len(),
        i % 2 == 0,
        spec_compact_mines(r.take(i)) is Ok,
    ensures
        spec_compact_mines(r) == match spec_compact_mines(r.skip(i)) {
            Ok(t) => Ok::<Seq<(int, int)>, MinesweeperError>(
                spec_compact_mines(r.take(i))->Ok_0 + t,
            ),
            Err(e) => Err::<Seq<(int, int)>, MinesweeperError>(e),
        },
    decreases i,
{
    if i == 0 {
        assert(r.take(0) =~= Seq::<char>::empty());
        assert(r.skip(0) =~= r);
        match spec_compact_mines(r) {
            Ok(t) => {
                assert(spec_compact_mines(r.take(0))->Ok_0 + t =~= t);
            },
            Err(e) => {},
        }
    } else {
        let p = r.take(i);
        assert(p.len() == i >= 2);
        assert(p[0] == r[0] && p[1] == r[1]);
        assert(is_b62(r[0]) && is_b62(r[1]));
        assert(p.skip(2) =~= r.skip(2).take(i - 2));
        assert(r.skip(i) =~= r.skip(2).skip(i - 2));
        assert(spec_compact_mines(r.skip(2).take(i - 2)) is Ok);
        lemma_compact_split(r.skip(2), i - 2);
        let head = seq![(b62_digit(r[0]), b62_digit(r[1]))];
        let p_rest = spec_compact_mines(r.skip(2).take(i - 2))->Ok_0;
        assert(spec_compact_mines(p)->Ok_0 == head + p_rest);
        match spec_compact_mines(r.skip(i)) {
            Ok(t) => {
                assert(spec_compact_mines(r.skip(2)) == Ok::<Seq<(int, int)>, MinesweeperError>(
                    p_rest + t,
                ));
                assert(head + (p_rest + t) =~= (head + p_rest) + t);
            },
            Err(e) => {
                assert(spec_compact_mines(r.skip(2)) == Err::<Seq<(int, int)>, MinesweeperError>(
                    e,
                ));
            },
        }
    }
}

/// Index of the first occurrence of `sep` in `v`, if any.
fn find_first(v: &Vec<char>, sep: char) -> (r: Option<usize>)
    ensures
        r matches Some(k) ==> find_sep(v@, sep) == k && k < v@.len(),
        r is None ==> find_sep(v@, sep) == -1,
{
    let n = v.len();
    let mut i: usize = 0;
    while i < n
        invariant
            i <= n,
            n == v@.len(),
            forall|j: int| 0 <= j < i ==> v@[j] != sep,
        decreases n - i,
    {
        if v[i] == sep {
            proof {
                crate::text::lemma_find_sep(v@, sep);
            }
            return Some(i);
        }
        i = i + 1;
    }
    proof {
        crate::text::lemma_find_sep(v@, sep);
    }
    None
}

/// Decodes a multi-character base-62 coordinate; see [`spec_coord`].
fn parse_coord(v: &Vec<char>) -> (r: Result<i32, MinesweeperError>)
    ensures
        r matches Ok(c) ==> spec_coord(v@) == Ok::<int, MinesweeperError>(c as int),
        r matches Err(e) ==> spec_coord(v@) == Err::<int, MinesweeperError>(e),
{
    match crate::base62::decode_chars(v) {
        Ok(val) => if val > i32::MAX as i64 {
            Err(MinesweeperError::NumberOverflow)
        } else {
            proof {
                crate::base62::lemma_b62_val_nonneg(v@);
            }
            Ok(val as i32)
        },
        Err(e) => Err(e),
    }
}

/// Decodes the kind character of a flag record.
pub fn get_flag_type(raw_flag_type: char) -> (r: Result<Action, MinesweeperError>)
    ensures
        raw_flag_type == 'P' ==> r == Ok::<Action, MinesweeperError>(Action::Place),
        raw_flag_type == 'R' ==> r == Ok::<Action, MinesweeperError>(Action::Remove),
        raw_flag_type != 'P' && raw_flag_type != 'R' ==> r == Err::<Action, MinesweeperError>(
            MinesweeperError::UnknownActionKind,
        ),
{
    if raw_flag_type == 'P' {
        Ok(Action::Place)
    } else if raw_flag_type == 'R' {
        Ok(Action::Remove)
    } else {
        Err(MinesweeperError::UnknownActionKind)
    }
}

/// Decodes one mine record and appends its coordinates to `out`.
fn parse_mine_record_vec(piece: &Vec<char>, out: &mut Vec<(i32, i32)>) -> (r: Result<
    (),
    MinesweeperError,
>)
    ensures
        r is Ok <==> spec_mine_record(piece@) is Ok,
        r is Ok ==> coords_view(final(out)@) == coords_view(old(out)@) + spec_mine_record(
            piece@,
        )->Ok_0,
        r matches Err(e) ==> spec_mine_record(piece@) == Err::<Seq<(int, int)>, MinesweeperError>(
            e,
        ),
{
    let n = piece.len();
    match find_first(piece, '|') {
        Some(k) => {
            let xs = sub_chars(piece, 0, k);
            let ys = sub_chars(piece, k + 1, n);
            proof {
                assert(xs@ =~= piece@.take(k as int));
                assert(ys@ =~= piece@.skip(k + 1));
            }
            let x = match parse_coord(&xs) {
                Ok(x) => x,
                Err(e) => {
                    return Err(e);
                },
            };
            let y = match parse_coord(&ys) {
                Ok(y) => y,
                Err(e) => {
                    return Err(e);
                },
            };
            out.push((x, y));
            proof {
                assert(coords_view(out@) =~= coords_view(old(out)@) + seq![
                    (x as int, y as int),
                ]);
            }
            Ok(())
        },
        None => {
            let ghost whole = piece@;
            let mut i: usize = 0;
            while i < n
                invariant
                    i <= n,
                    n == whole.len(),
                    whole == piece@,
                    i as int % 2 == 0,
                    find_sep(whole, '|') == -1,
                    spec_compact_mines(whole.take(i as int)) is Ok,
                    coords_view(out@) == coords_view(old(out)@) + spec_compact_mines(
                        whole.take(i as int),
                    )->Ok_0,
                decreases n - i,
            {
                if i + 1 == n {
                    proof {
                        lemma_compact_split(whole, i as int);
                        assert(whole.skip(i as int).len() == 1);
                        assert(spec_compact_mines(whole.skip(i as int)) == Err::<
                            Seq<(int, int)>,
                            MinesweeperError,
                        >(MinesweeperError::MalformedMineRecord));
                        assert(spec_compact_mines(whole) == Err::<
                            Seq<(int, int)>,
                            MinesweeperError,
                        >(MinesweeperError::MalformedMineRecord));
                        assert(find_sep(piece@, '|') == -1);
                        assert(spec_mine_record(piece@) == Err::<
                            Seq<(int, int)>,
                            MinesweeperError,
                        >(MinesweeperError::MalformedMineRecord));
                    }
                    return Err(MinesweeperError::MalformedMineRecord);
                }
                let c0 = piece[i];
                let c1 = piece[i + 1];
                proof {
                    assert(whole.skip(i as int)[0] == whole[i as int]);
                    assert(whole.skip(i as int)[1] == whole[i + 1]);
                }
                let d0 = match crate::base62::char_digit(c0) {
                    Some(d) => d,
                    None => {
                        proof {
                            lemma_compact_split(whole, i as int);
                            assert(whole.skip(i as int).len() >= 2);
                            assert(spec_compact_mines(whole.skip(i as int)) == Err::<
                                Seq<(int, int)>,
                                MinesweeperError,
                            >(MinesweeperError::InvalidSymbol));
                        }
                        return Err(MinesweeperError::InvalidSymbol);
                    },
                };
                let d1 = match crate::base62::char_digit(c1) {
                    Some(d) => d,
                    None => {
                        proof {
                            lemma_compact_split(whole, i as int);
                            assert(whole.skip(i as int).len() >= 2);
                            assert(spec_compact_mines(whole.skip(i as int)) == Err::<
                                Seq<(int, int)>,
                                MinesweeperError,
                            >(MinesweeperError::InvalidSymbol));
                        }
                        return Err(MinesweeperError::InvalidSymbol);
                    },
                };
                let ghost prev = out@;
                out.push((d0 as i32, d1 as i32));
                proof {
                    let chunk = whole.take(i + 2).skip(i as int);
                    assert(chunk.len() == 2);
                    assert(chunk[0] == whole[i as int] && chunk[1] == whole[i + 1]);
                    assert(is_b62(chunk[0]) && is_b62(chunk[1]));
                    assert(chunk.skip(2) =~= Seq::<char>::empty());
                    assert(spec_compact_mines(chunk.skip(2)) == Ok::<
                        Seq<(int, int)>,
                        MinesweeperError,
                    >(Seq::empty()));
                    assert(spec_compact_mines(chunk) == Ok::<Seq<(int, int)>, MinesweeperError>(
                        seq![(b62_digit(chunk[0]), b62_digit(chunk[1]))] + Seq::empty(),
                    ));
                    assert(whole.take(i + 2).take(i as int) =~= whole.take(i as int));
                    lemma_compact_split(whole.take(i + 2), i as int);
                    let head = spec_compact_mines(whole.take(i as int))->Ok_0;
                    let pair = seq![(b62_digit(whole[i as int]), b62_digit(whole[i + 1]))];
                    assert(pair + Seq::empty() =~= pair);
                    assert(spec_compact_mines(whole.take(i + 2)) == Ok::<
                        Seq<(int, int)>,
                        MinesweeperError,
                    >(head + pair));
                    assert(coords_view(out@) =~= coords_view(prev) + seq![
                        (d0 as int, d1 as int),
                    ]);
                    assert(coords_view(old(out)@) + (head + pair) =~= (coords_view(old(out)@)
                        + head) + pair);
                }
                i = i + 2;
            }
            proof {
                assert(whole.take(n as int) =~= whole);
            }
            Ok(())
        },
    }
}

/// Decodes the mine segment into its list of coordinates, in record
/// order.  The empty segment is a mine-free board.
pub fn parse_mine_locations(data: &str) -> (r: Result<Vec<(i32, i32)>, MinesweeperError>)
    ensures
        r is Ok <==> spec_mine_locations(data@) is Ok,
        r matches Ok(v) ==> spec_mine_locations(data@) == Ok::<Seq<(int, int)>, MinesweeperError>(
            coords_view(v@),
        ),
        r matches Err(e) ==> spec_mine_locations(data@) == Err::<
            Seq<(int, int)>,
            MinesweeperError,
        >(e),
{
    let chars = str_chars(data);
    let mut out: Vec<(i32, i32)> = Vec::new();
    if chars.len() == 0 {
        proof {
            assert(coords_view(out@) =~= Seq::<(int, int)>::empty());
        }
        return Ok(out);
    }
    let pieces = split_chars(&chars, ';');
    let ghost rs = split_on(chars@, ';');
    let m = pieces.len();
    let mut k: usize = 0;
    proof {
        assert(rs.take(0) =~= Seq::<Seq<char>>::empty());
        assert(coords_view(out@) =~= Seq::<(int, int)>::empty());
    }
    while k < m
        invariant
            k <= m,
            m == rs.len(),
            rs == split_on(chars@, ';'),
            chars@ == data@,
            chars@.len() > 0,
            pieces@.len() == m,
            forall|j: int| 0 <= j < m ==> pieces@[j]@ == rs[j],
            spec_mine_records(rs.take(k as int)) is Ok,
            coords_view(out@) == spec_mine_records(rs.take(k as int))->Ok_0,
        decreases m - k,
    {
        let piece = &pieces[k];
        let ghost prev = out@;
        match parse_mine_record_vec(piece, &mut out) {
            Ok(()) => {
                proof {
                    let single = rs.take(k + 1).skip(k as int);
                    assert(single.len() == 1);
                    assert(single[0] == rs[k as int]);
                    assert(single.drop_first() =~= Seq::<Seq<char>>::empty());
                    assert(piece@ == rs[k as int]);
                    assert(spec_mine_record(single[0]) is Ok);
                    assert(spec_mine_records(Seq::<Seq<char>>::empty()) == Ok::<
                        Seq<(int, int)>,
                        MinesweeperError,
                    >(Seq::empty()));
                    let h = spec_mine_record(rs[k as int])->Ok_0;
                    assert(spec_mine_records(single) == Ok::<Seq<(int, int)>, MinesweeperError>(
                        h + Seq::empty(),
                    ));
                    assert(rs.take(k + 1).take(k as int) =~= rs.take(k as int));
                    lemma_mine_records_split(rs.take(k + 1), k as int);
                    let p = spec_mine_records(rs.take(k as int))->Ok_0;
                    assert(h + Seq::empty() =~= h);
                    assert(spec_mine_records(rs.take(k + 1)) == Ok::<
                        Seq<(int, int)>,
                        MinesweeperError,
                    >(p + h));
                }
                k = k + 1;
            },
            Err(e) => {
                proof {
                    lemma_mine_records_split(rs, k as int);
                    assert(piece@ == rs[k as int]);
                    assert(rs.skip(k as int)[0] == rs[k as int]);
                    assert(spec_mine_records(rs.skip(k as int)) == Err::<
                        Seq<(int, int)>,
                        MinesweeperError,
                    >(e));
                }
                return Err(e);
            },
        }
    }
    proof {
        assert(rs.take(m as int) =~= rs);
        lemma_mine_records_split(rs, m as int);
        assert(rs.skip(m as int) =~= Seq::<Seq<char>>::empty());
        let p = spec_mine_records(rs)->Ok_0;
        assert(p + Seq::<(int, int)>::empty() =~= p);
    }
    Ok(out)
}

/// The open list as unbounded integers: `(x, y, time, total_time)`.
pub open spec fn opens_view(v: Seq<OpenAction>) -> Seq<(int, int, int, int)> {
    v.map_values(|a: OpenAction| (a.x as int, a.y as int, a.time as int, a.total_time as int))
}

/// The flag list as unbounded integers plus the action kind.
pub open spec fn flags_view(v: Seq<FlagAction>) -> Seq<(int, int, int, int, Action)> {
    v.map_values(
        |a: FlagAction| (a.x as int, a.y as int, a.time as int, a.total_time as int, a.action),
    )
}

/// Decodes one open record; see [`spec_open_record`].
fn parse_open_record(piece: &Vec<char>) -> (r: Result<(i32, i32, i64), MinesweeperError>)
    ensures
        r matches Ok(t) ==> spec_open_record(piece@) == Ok::<(int, int, int), MinesweeperError>(
            (t.0 as int, t.1 as int, t.2 as int),
        ),
        r matches Err(e) ==> spec_open_record(piece@) == Err::<(int, int, int), MinesweeperError>(
            e,
        ),
{
    let n = piece.len();
    match find_first(piece, '|') {
        None => {
            if n < 2 {
                return Err(MinesweeperError::MalformedActionRecord);
            }
            let d0 = match crate::base62::char_digit(piece[0]) {
                Some(d) => d,
                None => {
                    return Err(MinesweeperError::InvalidSymbol);
                },
            };
            let d1 = match crate::base62::char_digit(piece[1]) {
                Some(d) => d,
                None => {
                    return Err(MinesweeperError::InvalidSymbol);
                },
            };
            let t = match parse_dec_i64(piece, 2) {
                Ok(t) => t,
                Err(e) => {
                    return Err(e);
                },
            };
            Ok((d0 as i32, d1 as i32, t))
        },
        Some(k) => {
            let rest = sub_chars(piece, k + 1, n);
            proof {
                assert(rest@ =~= piece@.skip(k + 1));
            }
            let m = match find_first(&rest, ':') {
                Some(m) => m,
                None => {
                    return Err(MinesweeperError::MalformedActionRecord);
                },
            };
            let xs = sub_chars(piece, 0, k);
            let rl = rest.len();
            let ys = sub_chars(&rest, 0, m);
            proof {
                assert(xs@ =~= piece@.take(k as int));
                assert(ys@ =~= rest@.take(m as int));
            }
            let x = match parse_coord(&xs) {
                Ok(x) => x,
                Err(e) => {
                    return Err(e);
                },
            };
            let y = match parse_coord(&ys) {
                Ok(y) => y,
                Err(e) => {
                    return Err(e);
                },
            };
            let t = match parse_dec_i64(&rest, m + 1) {
                Ok(t) => t,
                Err(e) => {
                    return Err(e);
                },
            };
            Ok((x, y, t))
        },
    }
}

/// Decodes one flag record; see [`spec_flag_record`].
fn parse_flag_record(piece: &Vec<char>) -> (r: Result<(i32, i32, i64, Action), MinesweeperError>)
    ensures
        r matches Ok(t) ==> spec_flag_record(piece@) == Ok::<
            (int, int, int, Action),
            MinesweeperError,
        >((t.0 as int, t.1 as int, t.2 as int, t.3)),
        r matches Err(e) ==> spec_flag_record(piece@) == Err::<
            (int, int, int, Action),
            MinesweeperError,
        >(e),
{
    let n = piece.len();
    match find_first(piece, '|') {
        None => {
            if n < 3 {
                return Err(MinesweeperError::MalformedActionRecord);
            }
            let d0 = match crate::base62::char_digit(piece[0]) {
                Some(d) => d,
                None => {
                    return Err(MinesweeperError::InvalidSymbol);
                },
            };
            let d1 = match crate::base62::char_digit(piece[1]) {
                Some(d) => d,
                None => {
                    return Err(MinesweeperError::InvalidSymbol);
                },
            };
            let kind = match get_flag_type(piece[n - 1]) {
                Ok(a) => a,
                Err(e) => {
                    return Err(e);
                },
            };
            let ts = sub_chars(piece, 2, n - 1);
            proof {
                assert(ts@ =~= piece@.subrange(2, piece@.len() - 1));
                assert(ts@.skip(0) =~= ts@);
            }
            let t = match parse_dec_i64(&ts, 0) {
                Ok(t) => t,
                Err(e) => {
                    return Err(e);
                },
            };
            Ok((d0 as i32, d1 as i32, t, kind))
        },
        Some(_) => {
            // Pair layout: the kind character is stripped first, then the
            // delimiters are located in what is left.
            let body = sub_chars(piece, 0, n - 1);
            let kc = piece[n - 1];
            proof {
                assert(body@ =~= piece@.drop_last());
            }
            let k2 = match find_first(&body, '|') {
                Some(k2) => k2,
                None => {
                    return Err(MinesweeperError::MalformedActionRecord);
                },
            };
            let bl = body.len();
            let rest = sub_chars(&body, k2 + 1, bl);
            proof {
                assert(rest@ =~= body@.skip(k2 + 1));
            }
            let m = match find_first(&rest, ':') {
                Some(m) => m,
                None => {
                    return Err(MinesweeperError::MalformedActionRecord);
                },
            };
            let xs = sub_chars(&body, 0, k2);
            let ys = sub_chars(&rest, 0, m);
            proof {
                assert(xs@ =~= body@.take(k2 as int));
                assert(ys@ =~= rest@.take(m as int));
            }
            let x = match parse_coord(&xs) {
                Ok(x) => x,
                Err(e) => {
                    return Err(e);
                },
            };
            let y = match parse_coord(&ys) {
                Ok(y) => y,
                Err(e) => {
                    return Err(e);
                },
            };
            let kind = match get_flag_type(kc) {
                Ok(a) => a,
                Err(e) => {
                    return Err(e);
                },
            };
            let t = match parse_dec_i64(&rest, m + 1) {
                Ok(t) => t,
                Err(e) => {
                    return Err(e);
                },
            };
            Ok((x, y, t, kind))
        },
    }
}

/// Concatenating open records: if the first `j` records decode, with the
/// running time sum `acc` ending at the last record's absolute time, the
/// whole list is that prefix followed by whatever the rest yields.
proof fn lemma_open_actions_split(rs: Seq<Seq<char>>, j: int, acc: int)
    requires
        0 <= j <= rs.len(),
        spec_open_actions(rs.take(j), acc) is Ok,
    ensures
        ({
            let p = spec_open_actions(rs.take(j), acc)->Ok_0;
            let accj = if p.len() == 0 {
                acc
            } else {
                p.last().3
            };
            spec_open_actions(rs, acc) == match spec_open_actions(rs.skip(j), accj) {
                Ok(t) => Ok::<Seq<(int, int, int, int)>, MinesweeperError>(p + t),
                Err(e) => Err::<Seq<(int, int, int, int)>, MinesweeperError>(e),
            }
        }),
    decreases j,
{
    if j == 0 {
        assert(rs.take(0) =~= Seq::<Seq<char>>::empty());
        assert(rs.skip(0) =~= rs);
        match spec_open_actions(rs, acc) {
            Ok(t) => {
                assert(spec_open_actions(rs.take(0), acc)->Ok_0 + t =~= t);
            },
            Err(e) => {},
        }
    } else {
        let rest = rs.drop_first();
        assert(rs.take(j)[0] == rs[0]);
        assert(rs.take(j).drop_first() =~= rest.take(j - 1));
        assert(rs.skip(j) =~= rest.skip(j - 1));
        let rec = spec_open_record(rs[0])->Ok_0;
        let total = acc + rec.2;
        assert(spec_open_record(rs[0]) is Ok);
        assert(i64::MIN <= total <= i64::MAX);
        assert(spec_open_actions(rest.take(j - 1), total) is Ok);
        lemma_open_actions_split(rest, j - 1, total);
        let head = seq![(rec.0, rec.1, rec.2, total)];
        let p = spec_open_actions(rs.take(j), acc)->Ok_0;
        let p_rest = spec_open_actions(rest.take(j - 1), total)->Ok_0;
        assert(p == head + p_rest);
        let accj = if p.len() == 0 {
            acc
        } else {
            p.last().3
        };
        let accj_rest = if p_rest.len() == 0 {
            total
        } else {
            p_rest.last().3
        };
        assert(accj == accj_rest) by {
            if p_rest.len() == 0 {
                assert(p.last() == head.last());
            } else {
                assert(p.last() == p_rest.last());
            }
        }
        match spec_open_actions(rs.skip(j), accj) {
            Ok(t) => {
                assert(spec_open_actions(rest, total) == Ok::<
                    Seq<(int, int, int, int)>,
                    MinesweeperError,
                >(p_rest + t));
                assert(head + (p_rest + t) =~= (head + p_rest) + t);
            },
            Err(e) => {
                assert(spec_open_actions(rest, total) == Err::<
                    Seq<(int, int, int, int)>,
                    MinesweeperError,
                >(e));
            },
        }
    }
}

/// The flag-list counterpart of [`lemma_open_actions_split`].
proof fn lemma_flag_actions_split(rs: Seq<Seq<char>>, j: int, acc: int)
    requires
        0 <= j <= rs.len(),
        spec_flag_actions(rs.take(j), acc) is Ok,
    ensures
        ({
            let p = spec_flag_actions(rs.take(j), acc)->Ok_0;
            let accj = if p.len() == 0 {
                acc
            } else {
                p.last().3
            };
            spec_flag_actions(rs, acc) == match spec_flag_actions(rs.skip(j), accj) {
                Ok(t) => Ok::<Seq<(int, int, int, int, Action)>, MinesweeperError>(p + t),
                Err(e) => Err::<Seq<(int, int, int, int, Action)>, MinesweeperError>(e),
            }
        }),
    decreases j,
{
    if j == 0 {
        assert(rs.take(0) =~= Seq::<Seq<char>>::empty());
        assert(rs.skip(0) =~= rs);
        match spec_flag_actions(rs, acc) {
            Ok(t) => {
                assert(spec_flag_actions(rs.take(0), acc)->Ok_0 + t =~= t);
            },
            Err(e) => {},
        }
    } else {
        let rest = rs.drop_first();
        assert(rs.take(j)[0] == rs[0]);
        assert(rs.take(j).drop_first() =~= rest.take(j - 1));
        assert(rs.skip(j) =~= rest.skip(j - 1));
        let rec = spec_flag_record(rs[0])->Ok_0;
        let total = acc + rec.2;
        assert(spec_flag_record(rs[0]) is Ok);
        assert(i64::MIN <= total <= i64::MAX);
        assert(spec_flag_actions(rest.take(j - 1), total) is Ok);
        lemma_flag_actions_split(rest, j - 1, total);
        let head = seq![(rec.0, rec.1, rec.2, total, rec.3)];
        let p = spec_flag_actions(rs.take(j), acc)->Ok_0;
        let p_rest = spec_flag_actions(rest.take(j - 1), total)->Ok_0;
        assert(p == head + p_rest);
        let accj = if p.len() == 0 {
            acc
        } else {
            p.last().3
        };
        let accj_rest = if p_rest.len() == 0 {
            total
        } else {
            p_rest.last().3
        };
        assert(accj == accj_rest) by {
            if p_rest.len() == 0 {
                assert(p.last() == head.last());
            } else {
                assert(p.last() == p_rest.last());
            }
        }
        match spec_flag_actions(rs.skip(j), accj) {
            Ok(t) => {
                assert(spec_flag_actions(rest, total) == Ok::<
                    Seq<(int, int, int, int, Action)>,
                    MinesweeperError,
                >(p_rest + t));
                assert(head + (p_rest + t) =~= (head + p_rest) + t);
            },
            Err(e) => {
                assert(spec_flag_actions(rest, total) == Err::<
                    Seq<(int, int, int, int, Action)>,
                    MinesweeperError,
                >(e));
            },
        }
    }
}

/// Decodes the open-action log: records in input order, each with its
/// relative time and the absolute time accumulated over this list.
pub fn parse_open_data(data: &str) -> (r: Result<Vec<OpenAction>, MinesweeperError>)
    ensures
        r is Ok <==> spec_open_data(data@) is Ok,
        r matches Ok(v) ==> spec_open_data(data@) == Ok::<
            Seq<(int, int, int, int)>,
            MinesweeperError,
        >(opens_view(v@)),
        r matches Err(e) ==> spec_open_data(data@) == Err::<
            Seq<(int, int, int, int)>,
            MinesweeperError,
        >(e),
{
    let chars = str_chars(data);
    let mut out: Vec<OpenAction> = Vec::new();
    if chars.len() == 0 {
        proof {
            assert(opens_view(out@) =~= Seq::<(int, int, int, int)>::empty());
        }
        return Ok(out);
    }
    let pieces = split_chars(&chars, ';');
    let ghost rs = split_on(chars@, ';');
    let m = pieces.len();
    let mut k: usize = 0;
    let mut acc: i64 = 0;
    proof {
        assert(rs.take(0) =~= Seq::<Seq<char>>::empty());
        assert(opens_view(out@) =~= Seq::<(int, int, int, int)>::empty());
    }
    while k < m
        invariant
            k <= m,
            m == rs.len(),
            rs == split_on(chars@, ';'),
            chars@ == data@,
            chars@.len() > 0,
            pieces@.len() == m,
            forall|j: int| 0 <= j < m ==> pieces@[j]@ == rs[j],
            spec_open_actions(rs.take(k as int), 0) is Ok,
            opens_view(out@) == spec_open_actions(rs.take(k as int), 0)->Ok_0,
            out@.len() == 0 ==> acc == 0,
            out@.len() > 0 ==> acc == out@.last().total_time,
        decreases m - k,
    {
        let piece = &pieces[k];
        proof {
            assert(piece@ == rs[k as int]);
            assert(rs.skip(k as int)[0] == rs[k as int]);
        }
        let ghost accj = acc as int;
        match parse_open_record(piece) {
            Ok((x, y, t)) => {
                let total = match acc.checked_add(t) {
                    Some(v) => v,
                    None => {
                        proof {
                            lemma_open_actions_split(rs, k as int, 0);
                            assert(spec_open_actions(rs.skip(k as int), accj) == Err::<
                                Seq<(int, int, int, int)>,
                                MinesweeperError,
                            >(MinesweeperError::NumberOverflow));
                        }
                        return Err(MinesweeperError::NumberOverflow);
                    },
                };
                let ghost prev = out@;
                out.push(OpenAction { x, y, time: t, total_time: total });
                proof {
                    let single = rs.take(k + 1).skip(k as int);
                    assert(single.len() == 1);
                    assert(single[0] == rs[k as int]);
                    assert(single.drop_first() =~= Seq::<Seq<char>>::empty());
                    assert(spec_open_actions(Seq::<Seq<char>>::empty(), total as int) == Ok::<
                        Seq<(int, int, int, int)>,
                        MinesweeperError,
                    >(Seq::empty()));
                    let head = seq![(x as int, y as int, t as int, total as int)];
                    assert(spec_open_actions(single, accj) == Ok::<
                        Seq<(int, int, int, int)>,
                        MinesweeperError,
                    >(head + Seq::empty()));
                    assert(rs.take(k + 1).take(k as int) =~= rs.take(k as int));
                    lemma_open_actions_split(rs.take(k + 1), k as int, 0);
                    let p = spec_open_actions(rs.take(k as int), 0)->Ok_0;
                    assert(head + Seq::empty() =~= head);
                    assert(spec_open_actions(rs.take(k + 1), 0) == Ok::<
                        Seq<(int, int, int, int)>,
                        MinesweeperError,
                    >(p + head));
                    assert(opens_view(out@) =~= opens_view(prev) + head);
                }
                acc = total;
                k = k + 1;
            },
            Err(e) => {
                proof {
                    lemma_open_actions_split(rs, k as int, 0);
                    assert(spec_open_actions(rs.skip(k as int), accj) == Err::<
                        Seq<(int, int, int, int)>,
                        MinesweeperError,
                    >(e));
                }
                return Err(e);
            },
        }
    }
    proof {
        assert(rs.take(m as int) =~= rs);
        lemma_open_actions_split(rs, m as int, 0);
        assert(rs.skip(m as int) =~= Seq::<Seq<char>>::empty());
        let p = spec_open_actions(rs, 0)->Ok_0;
        if p.len() > 0 {
            assert(spec_open_actions(Seq::<Seq<char>>::empty(), p.last().3) == Ok::<
                Seq<(int, int, int, int)>,
                MinesweeperError,
            >(Seq::empty()));
        }
        assert(spec_open_actions(Seq::<Seq<char>>::empty(), 0) == Ok::<
            Seq<(int, int, int, int)>,
            MinesweeperError,
        >(Seq::empty()));
        assert(p + Seq::<(int, int, int, int)>::empty() =~= p);
    }
    Ok(out)
}

/// Decodes the flag-action log: like the open log, accumulated
/// independently, with each record's place-or-remove kind.
pub fn parse_flag_data(data: &str) -> (r: Result<Vec<FlagAction>, MinesweeperError>)
    ensures
        r is Ok <==> spec_flag_data(data@) is Ok,
        r matches Ok(v) ==> spec_flag_data(data@) == Ok::<
            Seq<(int, int, int, int, Action)>,
            MinesweeperError,
        >(flags_view(v@)),
        r matches Err(e) ==> spec_flag_data(data@) == Err::<
            Seq<(int, int, int, int, Action)>,
            MinesweeperError,
        >(e),
{
    let chars = str_chars(data);
    let mut out: Vec<FlagAction> = Vec::new();
    if chars.len() == 0 {
        proof {
            assert(flags_view(out@) =~= Seq::<(int, int, int, int, Action)>::empty());
        }
        return Ok(out);
    }
    let pieces = split_chars(&chars, ';');
    let ghost rs = split_on(chars@, ';');
    let m = pieces.len();
    let mut k: usize = 0;
    let mut acc: i64 = 0;
    proof {
        assert(rs.take(0) =~= Seq::<Seq<char>>::empty());
        assert(flags_view(out@) =~= Seq::<(int, int, int, int, Action)>::empty());
    }
    while k < m
        invariant
            k <= m,
            m == rs.len(),
            rs == split_on(chars@, ';'),
            chars@ == data@,
            chars@.len() > 0,
            pieces@.len() == m,
            forall|j: int| 0 <= j < m ==> pieces@[j]@ == rs[j],
            spec_flag_actions(rs.take(k as int), 0) is Ok,
            flags_view(out@) == spec_flag_actions(rs.take(k as int), 0)->Ok_0,
            out@.len() == 0 ==> acc == 0,
            out@.len() > 0 ==> acc == out@.last().total_time,
        decreases m - k,
    {
        let piece = &pieces[k];
        proof {
            assert(piece@ == rs[k as int]);
            assert(rs.skip(k as int)[0] == rs[k as int]);
        }
        let ghost accj = acc as int;
        match parse_flag_record(piece) {
            Ok((x, y, t, kind)) => {
                let total = match acc.checked_add(t) {
                    Some(v) => v,
                    None => {
                        proof {
                            lemma_flag_actions_split(rs, k as int, 0);
                            assert(spec_flag_actions(rs.skip(k as int), accj) == Err::<
                                Seq<(int, int, int, int, Action)>,
                                MinesweeperError,
                            >(MinesweeperError::NumberOverflow));
                        }
                        return Err(MinesweeperError::NumberOverflow);
                    },
                };
                let ghost prev = out@;
                out.push(FlagAction { x, y, time: t, action: kind, total_time: total });
                proof {
                    let single = rs.take(k + 1).skip(k as int);
                    assert(single.len() == 1);
                    assert(single[0] == rs[k as int]);
                    assert(single.drop_first() =~= Seq::<Seq<char>>::empty());
                    assert(spec_flag_actions(Seq::<Seq<char>>::empty(), total as int) == Ok::<
                        Seq<(int, int, int, int, Action)>,
                        MinesweeperError,
                    >(Seq::empty()));
                    let head = seq![(x as int, y as int, t as int, total as int, kind)];
                    assert(spec_flag_actions(single, accj) == Ok::<
                        Seq<(int, int, int, int, Action)>,
                        MinesweeperError,
                    >(head + Seq::empty()));
                    assert(rs.take(k + 1).take(k as int) =~= rs.take(k as int));
                    lemma_flag_actions_split(rs.take(k + 1), k as int, 0);
                    let p = spec_flag_actions(rs.take(k as int), 0)->Ok_0;
                    assert(head + Seq::empty() =~= head);
                    assert(spec_flag_actions(rs.take(k + 1), 0) == Ok::<
                        Seq<(int, int, int, int, Action)>,
                        MinesweeperError,
                    >(p + head));
                    assert(flags_view(out@) =~= flags_view(prev) + head);
                }
                acc = total;
                k = k + 1;
            },
            Err(e) => {
                proof {
                    lemma_flag_actions_split(rs, k as int, 0);
                    assert(spec_flag_actions(rs.skip(k as int), accj) == Err::<
                        Seq<(int, int, int, int, Action)>,
                        MinesweeperError,
                    >(e));
                }
                return Err(e);
            },
        }
    }
    proof {
        assert(rs.take(m as int) =~= rs);
        lemma_flag_actions_split(rs, m as int, 0);
        assert(rs.skip(m as int) =~= Seq::<Seq<char>>::empty());
        let p = spec_flag_actions(rs, 0)->Ok_0;
        assert(spec_flag_actions(Seq::<Seq<char>>::empty(), 0) == Ok::<
            Seq<(int, int, int, int, Action)>,
            MinesweeperError,
        >(Seq::empty()));
        assert(p + Seq::<(int, int, int, int, Action)>::empty() =~= p);
    }
    Ok(out)
}

/// Everything decoded from one replay: the board size, the initial
/// board, and the two action logs.
pub struct ParsedData {
    pub metadata: Metadata,
    pub game_board: Board,
    pub open_data: Vec<OpenAction>,
    pub flag_data: Vec<FlagAction>,
}

/// Whether the mine list admits coordinates within `w` by `h`.
pub open spec fn mines_in_bounds(ms: Seq<(int, int)>, w: int, h: int) -> bool {
    forall|k: int|
        0 <= k < ms.len() ==> 0 <= (#[trigger] ms[k]).0 < w && 0 <= ms[k].1 < h
}

/// Decodes the mine segment and builds the initial board: every listed
/// cell mined, every cell Closed and dirty, progress zero, and every
/// adjacency count equal to the number of mined Moore neighbors (mined
/// cells keep value 0).  A coordinate off the board is a hard failure.
pub fn parse_mine_data(data: &str, metadata: &Metadata) -> (r: Result<
    Board,
    MinesweeperError,
>)
    requires
        metadata.wf(),
        metadata.x_size * metadata.y_size <= usize::MAX,
    ensures
        r is Ok <==> (spec_mine_locations(data@) matches Ok(ms) && mines_in_bounds(
            ms,
            metadata.x_size as int,
            metadata.y_size as int,
        )),
        r matches Ok(board) ==> {
            &&& board.wf()
            &&& board.metadata == *metadata
            &&& spec_mine_locations(data@) matches Ok(ms) && (forall|x: int, y: int|
                board.in_bounds(x, y) ==> ((#[trigger] board.cell(x, y)).mine <==> ms.contains(
                    (x, y),
                )))
            &&& forall|x: int, y: int|
                board.in_bounds(x, y) ==> (#[trigger] board.cell(x, y)).field_state
                    == FieldState::Closed
            &&& forall|x: int, y: int|
                board.in_bounds(x, y) ==> #[trigger] board.changed_at(x, y)
            &&& board.open_fields == 0
            &&& board.spec_percentage() == 0
        },
        r matches Err(e) ==> (match spec_mine_locations(data@) {
            Err(e2) => e == e2,
            Ok(ms) => e == MinesweeperError::CoordinateOutOfBounds && !mines_in_bounds(
                ms,
                metadata.x_size as int,
                metadata.y_size as int,
            ),
        }),
{
    let locs = match parse_mine_locations(data) {
        Ok(v) => v,
        Err(e) => {
            return Err(e);
        },
    };
    let ghost ms = spec_mine_locations(data@)->Ok_0;
    let w = metadata.x_size as usize;
    let h = metadata.y_size as usize;
    let total = w * h;
    let blank = Field { value: 0, field_state: FieldState::Closed, mine: false };
    let fields: Vec<Field> = vec![blank; total];
    let changed: Vec<bool> = vec![true; total];
    let mut board = Board {
        fields,
        changed_fields: changed,
        metadata: *metadata,
        mine_count: 0,
        open_fields: 0,
        total_fields: total as u64,
    };
    proof {
        crate::board::lemma_count_none(board.fields@, |f: Field| crate::board::is_mine_cell(f));
        crate::board::lemma_count_none(board.fields@, |f: Field| crate::board::is_counted_open(f));
        assert forall|x: int, y: int| board.in_bounds(x, y) implies !(
        #[trigger] board.cell(x, y)).mine by {
            assert(0 <= board.idx(x, y) < total as int) by (nonlinear_arith)
                requires
                    0 <= x < (w as int),
                    0 <= y < (h as int),
                    board.idx(x, y) == x * (h as int) + y,
                    total == w * h,
            ;
        }
    }
    let m = locs.len();
    let mut k: usize = 0;
    while k < m
        invariant
            k <= m,
            m == locs@.len(),
            coords_view(locs@) == ms,
            spec_mine_locations(data@) == Ok::<Seq<(int, int)>, MinesweeperError>(ms),
            metadata.wf(),
            w == metadata.x_size as usize && h == metadata.y_size as usize,
            total == w * h,
            board.metadata == *metadata,
            board.total_fields == total as u64,
            board.open_fields == 0,
            board.fields@.len() == total && board.changed_fields@.len() == total,
            board.shape_wf(),
            forall|n: int|
                0 <= n < total ==> (#[trigger] board.fields@[n]).value == 0
                    && board.fields@[n].field_state == FieldState::Closed
                    && board.changed_fields@[n],
            forall|j: int| 0 <= j < k ==> 0 <= (#[trigger] ms[j]).0 < w && 0 <= ms[j].1 < h,
            forall|x: int, y: int|
                board.in_bounds(x, y) ==> ((#[trigger] board.cell(x, y)).mine <==> exists|j: int|
                    0 <= j < k && ms[j] == (x, y)),
        decreases m - k,
    {
        let (mx, my) = locs[k];
        proof {
            assert(ms[k as int] == (mx as int, my as int));
        }
        if mx < 0 || my < 0 || mx >= metadata.x_size || my >= metadata.y_size {
            proof {
                assert(!mines_in_bounds(ms, metadata.x_size as int, metadata.y_size as int)) by {
                    assert(!(0 <= ms[k as int].0 < metadata.x_size as int && 0 <= ms[k as int].1
                        < metadata.y_size as int));
                }
            }
            return Err(MinesweeperError::CoordinateOutOfBounds);
        }
        let ux = mx as usize;
        let uy = my as usize;
        proof {
            assert(0 <= (ux as int) * (h as int) + (uy as int) < total as int)
                by (nonlinear_arith)
                requires
                    0 <= (ux as int) < (w as int),
                    0 <= (uy as int) < (h as int),
                    total == w * h,
            ;
        }
        let i = ux * h + uy;
        let f = board.fields[i];
        let ghost before = board;
        let g = Field { value: f.value, field_state: f.field_state, mine: true };
        board.fields[i] = g;
        proof {
            crate::board::lemma_count_update(before.fields@, i as int, g, |c: Field| crate::board::is_mine_cell(c));
            crate::board::lemma_count_update(
                before.fields@,
                i as int,
                g,
                |c: Field| crate::board::is_counted_open(c),
            );
            crate::board::lemma_count_bounds(board.fields@, |c: Field| crate::board::is_mine_cell(c));
        }
        if !f.mine {
            board.mine_count = board.mine_count + 1;
        }
        proof {
            assert(board.idx(ux as int, uy as int) == i);
            assert forall|x: int, y: int|
                board.in_bounds(x, y) implies ((#[trigger] board.cell(x, y)).mine <==> exists|
                j: int,
            |
                0 <= j < k + 1 && ms[j] == (x, y)) by {
                assert(0 <= board.idx(x, y) < total as int) by (nonlinear_arith)
                    requires
                        0 <= x < (w as int),
                        0 <= y < (h as int),
                        board.idx(x, y) == x * (h as int) + y,
                        total == w * h,
                ;
                crate::board::lemma_flat_idx_inj(h as int, x, y, ux as int, uy as int);
                if x == ux as int && y == uy as int {
                    assert(ms[k as int] == (x, y));
                } else {
                    assert(board.fields@[board.idx(x, y)] == before.fields@[board.idx(x, y)]);
                    assert(board.cell(x, y) == before.cell(x, y));
                    assert(before.cell(x, y).mine <==> exists|j: int|
                        0 <= j < k && ms[j] == (x, y));
                    if board.cell(x, y).mine {
                        let j0 = choose|j: int| 0 <= j < k && ms[j] == (x, y);
                        assert(0 <= j0 < k + 1 && ms[j0] == (x, y));
                    } else {
                        if exists|j: int| 0 <= j < k + 1 && ms[j] == (x, y) {
                            let j0 = choose|j: int| 0 <= j < k + 1 && ms[j] == (x, y);
                            if j0 < k {
                                assert(before.cell(x, y).mine);
                            }
                            assert(j0 == k as int);
                            assert(ms[k as int] == (ux as int, uy as int));
                            assert(false);
                        }
                    }
                }
            }
        }
        k = k + 1;
    }
    proof {
        assert(mines_in_bounds(ms, metadata.x_size as int, metadata.y_size as int));
    }
    let ghost placed = board;
    board.compute_adjacency();
    proof {
        assert forall|x: int, y: int|
            board.in_bounds(x, y) implies {
                &&& ((#[trigger] board.cell(x, y)).mine <==> ms.contains((x, y)))
                &&& board.cell(x, y).field_state == FieldState::Closed
                &&& board.changed_at(x, y)
            } by {
            assert(0 <= board.idx(x, y) < total as int) by (nonlinear_arith)
                requires
                    0 <= x < (w as int),
                    0 <= y < (h as int),
                    board.idx(x, y) == x * (h as int) + y,
                    total == w * h,
            ;
            assert(board.cell(x, y).mine == placed.cell(x, y).mine);
            assert(board.cell(x, y).field_state == placed.cell(x, y).field_state);
            assert(board.changed_fields@ == placed.changed_fields@);
            if placed.cell(x, y).mine {
                let j0 = choose|j: int| 0 <= j < m && ms[j] == (x, y);
                assert(ms[j0] == (x, y));
            } else {
                if ms.contains((x, y)) {
                    let j0 = choose|j: int| 0 <= j < ms.len() && ms[j] == (x, y);
                    assert(false);
                }
            }
        }
        assert forall|x: int, y: int| board.in_bounds(x, y) implies #[trigger] board.changed_at(
            x,
            y,
        ) by {
            assert(0 <= board.idx(x, y) < total as int) by (nonlinear_arith)
                requires
                    0 <= x < (w as int),
                    0 <= y < (h as int),
                    board.idx(x, y) == x * (h as int) + y,
                    total == w * h,
            ;
            assert(placed.fields@[board.idx(x, y)].value == 0);
            assert(placed.changed_fields@[board.idx(x, y)]);
            assert(board.changed_fields@ == placed.changed_fields@);
        }
        board.lemma_counters();
        assert(board.spec_percentage() == 0) by {
            if board.total_fields - board.mine_count != 0 {
                vstd::arithmetic::div_mod::lemma_basic_div(
                    0,
                    board.total_fields - board.mine_count,
                );
            }
        }
    }
    Ok(board)
}

/// Each decoded action's absolute time extends the previous one by its
/// own relative time, starting from the accumulator.
proof fn lemma_open_actions_chain(rs: Seq<Seq<char>>, acc: int)
    requires
        spec_open_actions(rs, acc) is Ok,
    ensures
        ({
            let p = spec_open_actions(rs, acc)->Ok_0;
            forall|i: int|
                0 <= i < p.len() ==> #[trigger] p[i].3 == (if i == 0 {
                    acc
                } else {
                    p[i - 1].3
                }) + p[i].2
        }),
    decreases rs.len(),
{
    if rs.len() > 0 {
        let rec = spec_open_record(rs[0])->Ok_0;
        let total = acc + rec.2;
        lemma_open_actions_chain(rs.drop_first(), total);
        let p = spec_open_actions(rs, acc)->Ok_0;
        let p_rest = spec_open_actions(rs.drop_first(), total)->Ok_0;
        assert forall|i: int| 0 <= i < p.len() implies #[trigger] p[i].3 == (if i == 0 {
            acc
        } else {
            p[i - 1].3
        }) + p[i].2 by {
            if i > 0 {
                assert(p[i] == p_rest[i - 1]);
                if i > 1 {
                    assert(p[i - 1] == p_rest[i - 2]);
                }
            }
        }
    }
}

/// The flag-list counterpart of [`lemma_open_actions_chain`].
proof fn lemma_flag_actions_chain(rs: Seq<Seq<char>>, acc: int)
    requires
        spec_flag_actions(rs, acc) is Ok,
    ensures
        ({
            let p = spec_flag_actions(rs, acc)->Ok_0;
            forall|i: int|
                0 <= i < p.len() ==> #[trigger] p[i].3 == (if i == 0 {
                    acc
                } else {
                    p[i - 1].3
                }) + p[i].2
        }),
    decreases rs.len(),
{
    if rs.len() > 0 {
        let rec = spec_flag_record(rs[0])->Ok_0;
        let total = acc + rec.2;
        lemma_flag_actions_chain(rs.drop_first(), total);
        let p = spec_flag_actions(rs, acc)->Ok_0;
        let p_rest = spec_flag_actions(rs.drop_first(), total)->Ok_0;
        assert forall|i: int| 0 <= i < p.len() implies #[trigger] p[i].3 == (if i == 0 {
            acc
        } else {
            p[i - 1].3
        }) + p[i].2 by {
            if i > 0 {
                assert(p[i] == p_rest[i - 1]);
                if i > 1 {
                    assert(p[i - 1] == p_rest[i - 2]);
                }
            }
        }
    }
}

/// Within a decoded open log whose relative times are all non-negative,
/// the absolute times are monotonically non-decreasing in input order.
pub proof fn lemma_open_times_monotone(data: Seq<char>)
    requires
        spec_open_data(data) is Ok,
        forall|k: int|
            0 <= k < spec_open_data(data)->Ok_0.len() ==> (#[trigger] spec_open_data(
                data,
            )->Ok_0[k]).2 >= 0,
    ensures
        forall|i: int, j: int|
            0 <= i <= j < spec_open_data(data)->Ok_0.len() ==> (#[trigger] spec_open_data(
                data,
            )->Ok_0[i]).3 <= (#[trigger] spec_open_data(data)->Ok_0[j]).3,
{
    let p = spec_open_data(data)->Ok_0;
    if data.len() > 0 {
        lemma_open_actions_chain(split_on(data, ';'), 0);
    }
    assert forall|i: int, j: int| 0 <= i <= j < p.len() implies (#[trigger] p[i]).3 <= (
    #[trigger] p[j]).3 by {
        lemma_totals_sorted_up_to(p, i, j);
    }
}

/// The flag-log counterpart of [`lemma_open_times_monotone`].
pub proof fn lemma_flag_times_monotone(data: Seq<char>)
    requires
        spec_flag_data(data) is Ok,
        forall|k: int|
            0 <= k < spec_flag_data(data)->Ok_0.len() ==> (#[trigger] spec_flag_data(
                data,
            )->Ok_0[k]).2 >= 0,
    ensures
        forall|i: int, j: int|
            0 <= i <= j < spec_flag_data(data)->Ok_0.len() ==> (#[trigger] spec_flag_data(
                data,
            )->Ok_0[i]).3 <= (#[trigger] spec_flag_data(data)->Ok_0[j]).3,
{
    let p = spec_flag_data(data)->Ok_0;
    if data.len() > 0 {
        lemma_flag_actions_chain(split_on(data, ';'), 0);
    }
    assert forall|i: int, j: int| 0 <= i <= j < p.len() implies (#[trigger] p[i]).3 <= (
    #[trigger] p[j]).3 by {
        lemma_flag_totals_sorted_up_to(p, i, j);
    }
}

/// Chained non-negative steps keep partial sums non-decreasing.
proof fn lemma_totals_sorted_up_to(p: Seq<(int, int, int, int)>, i: int, j: int)
    requires
        0 <= i <= j < p.len(),
        forall|k: int| 0 <= k < p.len() ==> (#[trigger] p[k]).2 >= 0,
        forall|k: int| 0 < k < p.len() ==> (#[trigger] p[k]).3 == p[k - 1].3 + p[k].2,
    ensures
        p[i].3 <= p[j].3,
    decreases j - i,
{
    if i < j {
        lemma_totals_sorted_up_to(p, i, j - 1);
        assert(p[j].3 == p[j - 1].3 + p[j].2);
    }
}

/// The five-tuple counterpart of [`lemma_totals_sorted_up_to`].
proof fn lemma_flag_totals_sorted_up_to(p: Seq<(int, int, int, int, Action)>, i: int, j: int)
    requires
        0 <= i <= j < p.len(),
        forall|k: int| 0 <= k < p.len() ==> (#[trigger] p[k]).2 >= 0,
        forall|k: int| 0 < k < p.len() ==> (#[trigger] p[k]).3 == p[k - 1].3 + p[k].2,
    ensures
        p[i].3 <= p[j].3,
    decreases j - i,
{
    if i < j {
        lemma_flag_totals_sorted_up_to(p, i, j - 1);
        assert(p[j].3 == p[j - 1].3 + p[j].2);
    }
}

/// Decodes the board size from the `<width>x<height>` prefix.
pub fn parse_meta_data(data: &str) -> (r: Result<Metadata, MinesweeperError>)
    ensures
        r is Ok <==> spec_metadata(data@) is Ok,
        r matches Ok(m) ==> {
            &&& spec_metadata(data@) matches Ok(d) && m.x_size == d.0 && m.y_size == d.1
            &&& m.wf()
        },
        r matches Err(e) ==> e == MinesweeperError::MalformedMetadata,
{
    let chars = str_chars(data);
    let k = match find_first(&chars, 'x') {
        Some(k) => k,
        None => {
            return Err(MinesweeperError::MalformedMetadata);
        },
    };
    let ws = sub_chars(&chars, 0, k);
    let n = chars.len();
    let hs = sub_chars(&chars, k + 1, n);
    proof {
        assert(ws@ =~= chars@.take(k as int));
        assert(hs@ =~= chars@.skip(k + 1));
        assert(ws@.skip(0) =~= ws@);
        assert(hs@.skip(0) =~= hs@);
    }
    let w = match crate::text::parse_dec_digits(&ws, 0) {
        Ok(v) => v,
        Err(()) => {
            return Err(MinesweeperError::MalformedMetadata);
        },
    };
    if w > i32::MAX as i64 {
        return Err(MinesweeperError::MalformedMetadata);
    }
    let h = match crate::text::parse_dec_digits(&hs, 0) {
        Ok(v) => v,
        Err(()) => {
            return Err(MinesweeperError::MalformedMetadata);
        },
    };
    if h > i32::MAX as i64 {
        return Err(MinesweeperError::MalformedMetadata);
    }
    proof {
        crate::text::lemma_dec_val_nonneg(ws@);
        crate::text::lemma_dec_val_nonneg(hs@);
    }
    Ok(Metadata { x_size: w as i32, y_size: h as i32 })
}

} // verus!
