//! Character-level text utilities shared by the decoders: conversion of a
//! string slice to its character sequence, splitting on a separator, and
//! decimal integer parsing.

use vstd::prelude::*;
use vstd::std_specs::iter::IteratorSpec;

use crate::error::MinesweeperError;

verus! {

broadcast use vstd::string::group_string_axioms;

/// The characters of `s`, in order.
pub fn str_chars(s: &str) -> (v: Vec<char>)
    ensures
        v@ == s@,
{
    let mut it = s.chars();
    let mut v: Vec<char> = Vec::new();
    proof {
        assert(v@ + it.remaining() =~= s@);
    }
    loop
        invariant
            it.obeys_prophetic_iter_laws(),
            it.decrease() is Some,
            v@ + it.remaining() == s@,
        ensures
            v@ == s@,
        decreases it.decrease()->0,
    {
        let ghost prev = it;
        match it.next() {
            Some(c) => {
                v.push(c);
                proof {
                    assert(v@ + it.remaining() =~= s@);
                }
            },
            None => {
                proof {
                    assert(it.remaining().len() == 0);
                    assert(v@ =~= s@);
                }
                break ;
            },
        }
    }
    v
}

/// Index of the first occurrence of `sep` in `s`, or -1 if absent.
pub open spec fn find_sep(s: Seq<char>, sep: char) -> int
    decreases s.len(),
{
    if s.len() == 0 {
        -1
    } else if s[0] == sep {
        0
    } else if find_sep(s.drop_first(), sep) == -1 {
        -1
    } else {
        1 + find_sep(s.drop_first(), sep)
    }
}

/// `find_sep` returns -1 exactly when `sep` does not occur, and otherwise
/// the position of its first occurrence.
pub proof fn lemma_find_sep(s: Seq<char>, sep: char)
    ensures
        find_sep(s, sep) == -1 ==> forall|i: int| 0 <= i < s.len() ==> s[i] != sep,
        find_sep(s, sep) != -1 ==> {
            let k = find_sep(s, sep);
            &&& 0 <= k < s.len()
            &&& s[k] == sep
            &&& forall|i: int| 0 <= i < k ==> s[i] != sep
        },
    decreases s.len(),
{
    if s.len() > 0 && s[0] != sep {
        let t = s.drop_first();
        lemma_find_sep(t, sep);
        if find_sep(s, sep) == -1 {
            assert forall|i: int| 0 <= i < s.len() implies s[i] != sep by {
                if i > 0 {
                    assert(t[i - 1] == s[i]);
                    assert(t[i - 1] != sep);
                }
            }
        } else {
            let k = find_sep(s, sep);
            let kt = find_sep(t, sep);
            assert(k == 1 + kt);
            assert(t[kt] == s[k]);
            assert forall|i: int| 0 <= i < k implies s[i] != sep by {
                if i > 0 {
                    assert(t[i - 1] == s[i]);
                    assert(t[i - 1] != sep);
                }
            }
        }
    }
}

/// The pieces of `s` between occurrences of `sep`, in order.  A string
/// without the separator is one piece; every separator ends a piece, so
/// adjacent separators and a trailing separator yield empty pieces.
pub open spec fn split_on(s: Seq<char>, sep: char) -> Seq<Seq<char>>
    decreases s.len(),
{
    let k = find_sep(s, sep);
    if k == -1 {
        seq![s]
    } else {
        proof {
            lemma_find_sep(s, sep);
        }
        seq![s.take(k)] + split_on(s.skip(k + 1), sep)
    }
}

/// Copies `v[from .. to]` into a fresh vector.
pub fn sub_chars(v: &Vec<char>, from: usize, to: usize) -> (r: Vec<char>)
    requires
        from <= to <= v@.len(),
    ensures
        r@ == v@.subrange(from as int, to as int),
{
    let mut r: Vec<char> = Vec::new();
    let mut i: usize = from;
    while i < to
        invariant
            from <= i <= to <= v@.len(),
            r@ =~= v@.subrange(from as int, i as int),
        decreases to - i,
    {
        r.push(v[i]);
        i = i + 1;
        proof {
            assert(r@ =~= v@.subrange(from as int, i as int));
        }
    }
    r
}

/// Splits `v` on `sep`; the executable counterpart of [`split_on`].
pub fn split_chars(v: &Vec<char>, sep: char) -> (r: Vec<Vec<char>>)
    ensures
        r@.len() == split_on(v@, sep).len(),
        forall|k: int| 0 <= k < r@.len() ==> r@[k]@ == split_on(v@, sep)[k],
{
    let mut r: Vec<Vec<char>> = Vec::new();
    let mut rest: Vec<char> = v.clone();
    loop
        invariant
            split_on(v@, sep) =~= r@.map_values(|p: Vec<char>| p@) + split_on(rest@, sep),
        decreases rest@.len(),
    {
        let ghost pieces = r@.map_values(|p: Vec<char>| p@);
        // Find the first separator in `rest`.
        let n = rest.len();
        let mut i: usize = 0;
        let mut found: bool = false;
        while i < n && !found
            invariant
                n == rest@.len(),
                i <= n,
                forall|k: int| 0 <= k < i ==> rest@[k] != sep,
                found ==> i < n && rest@[i as int] == sep,
            decreases n - i + (if found { 0int } else { 1int }),
        {
            if rest[i] == sep {
                found = true;
            } else {
                i = i + 1;
            }
        }
        proof {
            lemma_find_sep(rest@, sep);
        }
        if found {
            assert(find_sep(rest@, sep) == i);
            let piece = sub_chars(&rest, 0, i);
            assert(piece@ =~= rest@.take(i as int));
            r.push(piece);
            let next = sub_chars(&rest, i + 1, n);
            assert(next@ =~= rest@.skip(i + 1));
            proof {
                assert(r@.map_values(|p: Vec<char>| p@) =~= pieces.push(rest@.take(i as int)));
                assert(pieces.push(rest@.take(i as int)) + split_on(rest@.skip(i + 1), sep) =~= pieces
                    + split_on(rest@, sep));
            }
            rest = next;
        } else {
            assert(find_sep(rest@, sep) == -1) by {
                if find_sep(rest@, sep) != -1 {
                    lemma_find_sep(rest@, sep);
                }
            }
            r.push(rest);
            proof {
                assert(r@.map_values(|p: Vec<char>| p@) =~= pieces.push(rest@));
                assert(pieces.push(rest@) =~= pieces + split_on(rest@, sep));
            }
            return r;
        }
    }
}

/// Decimal digit value of `c`, or -1 for any other character.
pub open spec fn dec_digit(c: char) -> int {
    if '0' as int <= c as int && c as int <= '9' as int {
        c as int - '0' as int
    } else {
        -1
    }
}

/// Whether every character of `s` is a decimal digit.
pub open spec fn all_dec(s: Seq<char>) -> bool {
    forall|i: int| 0 <= i < s.len() ==> dec_digit(#[trigger] s[i]) >= 0
}

/// The value of an unsigned decimal digit string; 0 for the empty string.
pub open spec fn dec_val(s: Seq<char>) -> int
    decreases s.len(),
{
    if s.len() == 0 {
        0
    } else {
        dec_val(s.drop_last()) * 10 + dec_digit(s.last())
    }
}

/// A signed decimal number: an optional `+` or `-` sign followed by at
/// least one digit, as `i64::from_str` accepts it.
pub open spec fn is_dec_int(s: Seq<char>) -> bool {
    if s.len() > 0 && (s[0] == '+' || s[0] == '-') {
        s.len() > 1 && all_dec(s.drop_first())
    } else {
        s.len() > 0 && all_dec(s)
    }
}

/// The integer value of a signed decimal number.
pub open spec fn dec_int_val(s: Seq<char>) -> int {
    if s.len() > 0 && s[0] == '-' {
        -dec_val(s.drop_first())
    } else if s.len() > 0 && s[0] == '+' {
        dec_val(s.drop_first())
    } else {
        dec_val(s)
    }
}

/// The value of a digit string is non-negative.
pub proof fn lemma_dec_val_nonneg(s: Seq<char>)
    requires
        all_dec(s),
    ensures
        dec_val(s) >= 0,
    decreases s.len(),
{
    if s.len() > 0 {
        assert(all_dec(s.drop_last()));
        lemma_dec_val_nonneg(s.drop_last());
    }
}

/// If the first `j + 1` digits already exceed `i64::MAX`, the whole digit
/// string does.
proof fn lemma_dec_prefix_overflow(s: Seq<char>, j: int)
    requires
        all_dec(s),
        0 <= j < s.len(),
        dec_val(s.take(j + 1)) > i64::MAX,
    ensures
        dec_val(s) > i64::MAX,
    decreases s.len() - j,
{
    if j + 1 < s.len() {
        let p = s.take(j + 1);
        let q = s.take(j + 2);
        assert(q.drop_last() =~= p);
        assert(dec_digit(q.last()) >= 0);
        assert(dec_val(q) == dec_val(p) * 10 + dec_digit(q.last()));
        assert(dec_val(p) * 10 >= dec_val(p)) by (nonlinear_arith)
            requires dec_val(p) > 0;
        lemma_dec_prefix_overflow(s, j + 1);
    } else {
        assert(s.take(j + 1) =~= s);
    }
}

/// The value of one decimal digit character, or `None` for any other.
fn dec_digit_char(c: char) -> (r: Option<u8>)
    ensures
        r matches Some(d) ==> dec_digit(c) == d && d < 10,
        r is None ==> dec_digit(c) < 0,
{
    let u = c as u32;
    if '0' as u32 <= u && u <= '9' as u32 {
        Some((u - '0' as u32) as u8)
    } else {
        None
    }
}

/// Parses the digits `s[from..]` as an unsigned decimal number.  Fails when
/// there are no digits at all, a non-digit appears, or the value exceeds
/// `i64::MAX`.
pub(crate) fn parse_dec_digits(s: &Vec<char>, from: usize) -> (r: Result<i64, ()>)
    requires
        from <= s@.len(),
    ensures
        r is Ok <==> from < s@.len() && all_dec(s@.skip(from as int)) && dec_val(
            s@.skip(from as int),
        ) <= i64::MAX,
        r matches Ok(v) ==> v == dec_val(s@.skip(from as int)),
{
    let ghost digits = s@.skip(from as int);
    let n = s.len();
    if from >= n {
        return Err(());
    }
    let mut acc: i64 = 0;
    let mut i: usize = from;
    while i < n
        invariant
            from <= i <= n,
            n == s@.len(),
            digits == s@.skip(from as int),
            0 <= acc,
            all_dec(digits.take(i - from)),
            acc == dec_val(digits.take(i - from)),
        decreases n - i,
    {
        let c = s[i];
        assert(digits[i - from] == s@[i as int]);
        let d = match dec_digit_char(c) {
            Some(d) => d,
            None => {
                assert(dec_digit(digits[i - from]) < 0);
                return Err(());
            },
        };
        assert(dec_digit(digits[i - from]) == d);
        proof {
            assert(digits.take(i - from + 1).drop_last() =~= digits.take(i - from));
            assert(digits.take(i - from + 1).last() == digits[i - from]);
        }
        let shifted = match acc.checked_mul(10) {
            Some(v) => v,
            None => {
                proof {
                    if all_dec(digits) {
                        lemma_dec_prefix_overflow(digits, i - from);
                    }
                }
                return Err(());
            },
        };
        let next = match shifted.checked_add(d as i64) {
            Some(v) => v,
            None => {
                proof {
                    if all_dec(digits) {
                        lemma_dec_prefix_overflow(digits, i - from);
                    }
                }
                return Err(());
            },
        };
        acc = next;
        i = i + 1;
    }
    proof {
        assert(digits.take(n - from) =~= digits);
    }
    Ok(acc)
}

/// Parses `s[from..]` as a signed decimal integer in the way
/// `i64::from_str` would: an optional sign, then at least one digit, value
/// within the `i64` range.  Any failure is `MalformedTimeValue`, the error
/// of the only fields that carry signed decimal numbers.
pub fn parse_dec_i64(s: &Vec<char>, from: usize) -> (r: Result<i64, MinesweeperError>)
    requires
        from <= s@.len(),
    ensures
        r is Ok <==> is_dec_int(s@.skip(from as int)) && -i64::MAX <= dec_int_val(
            s@.skip(from as int),
        ) <= i64::MAX,
        r matches Ok(v) ==> v == dec_int_val(s@.skip(from as int)),
        r matches Err(e) ==> e == MinesweeperError::MalformedTimeValue,
{
    let ghost whole = s@.skip(from as int);
    let n = s.len();
    if from < n && (s[from] == '-' || s[from] == '+') {
        let neg = s[from] == '-';
        assert(whole[0] == s@[from as int]);
        let ghost digits = whole.drop_first();
        proof {
            assert(digits =~= s@.skip(from + 1));
        }
        match parse_dec_digits(s, from + 1) {
            Ok(v) => {
                proof {
                    lemma_dec_val_nonneg(digits);
                }
                if neg {
                    Ok(-v)
                } else {
                    Ok(v)
                }
            },
            Err(()) => {
                // A magnitude of exactly `i64::MIN` still fails here; the
                // replay format never uses it, and rejecting it keeps the
                // accepted range symmetric.
                Err(MinesweeperError::MalformedTimeValue)
            },
        }
    } else {
        match parse_dec_digits(s, from) {
            Ok(v) => {
                proof {
                    lemma_dec_val_nonneg(whole);
                }
                Ok(v)
            },
            Err(()) => Err(MinesweeperError::MalformedTimeValue),
        }
    }
}

} // verus!
