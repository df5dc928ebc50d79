//! The base-62 integer codec.
//!
//! Every numeric coordinate and offset field of the wire format is a
//! non-negative integer written in base 62 over the alphabet `0`-`9`,
//! `A`-`Z`, `a`-`z`, most significant symbol first.  Zero is written as the
//! empty string: `encode` never emits a leading `0` symbol, so the minimal
//! representation of zero has no symbols at all, and `decode` of the empty
//! string is zero.

use vstd::arithmetic::power::pow;
use vstd::prelude::*;

use crate::error::MinesweeperError;

verus! {

/// Numeric value of one symbol of the base-62 alphabet: `0`-`9` map to
/// 0-9, `A`-`Z` to 10-35, `a`-`z` to 36-61; anything else maps to -1.
pub open spec fn b62_digit(c: char) -> int {
    if '0' as int <= c as int && c as int <= '9' as int {
        c as int - '0' as int
    } else if 'A' as int <= c as int && c as int <= 'Z' as int {
        10 + c as int - 'A' as int
    } else if 'a' as int <= c as int && c as int <= 'z' as int {
        36 + c as int - 'a' as int
    } else {
        -1
    }
}

/// Whether `c` belongs to the base-62 alphabet.
pub open spec fn is_b62(c: char) -> bool {
    b62_digit(c) >= 0
}

/// Whether every character of `s` belongs to the base-62 alphabet.
pub open spec fn all_b62(s: Seq<char>) -> bool {
    forall|i: int| 0 <= i < s.len() ==> is_b62(#[trigger] s[i])
}

/// The integer value of a base-62 string under positional weighting, the
/// last character being least significant.  The empty string has value 0.
pub open spec fn b62_val(s: Seq<char>) -> int
    decreases s.len(),
{
    if s.len() == 0 {
        0
    } else {
        b62_val(s.drop_last()) * 62 + b62_digit(s.last())
    }
}

/// The symbol for digit value `d` of the base-62 alphabet.
pub open spec fn b62_char(d: int) -> char {
    if d < 10 {
        ('0' as int + d) as char
    } else if d < 36 {
        ('A' as int + (d - 10)) as char
    } else {
        ('a' as int + (d - 36)) as char
    }
}

/// The minimal base-62 representation of `n`: empty for zero, otherwise
/// the representation of `n / 62` followed by the symbol for `n % 62`.
pub open spec fn b62_repr(n: nat) -> Seq<char>
    decreases n,
{
    if n == 0 {
        Seq::empty()
    } else {
        b62_repr(n / 62).push(b62_char((n % 62) as int))
    }
}

/// A valid base-62 string has a non-negative value.
pub proof fn lemma_b62_val_nonneg(s: Seq<char>)
    requires
        all_b62(s),
    ensures
        b62_val(s) >= 0,
    decreases s.len(),
{
    if s.len() > 0 {
        assert(all_b62(s.drop_last()));
        lemma_b62_val_nonneg(s.drop_last());
    }
}

/// Positional weighting over a concatenation: the prefix is shifted left
/// by one base-62 place for each character of the suffix.
pub proof fn lemma_b62_val_append(p: Seq<char>, r: Seq<char>)
    ensures
        b62_val(p + r) == b62_val(p) * pow(62, r.len()) + b62_val(r),
    decreases r.len(),
{
    if r.len() == 0 {
        assert(p + r =~= p);
        assert(pow(62, 0) == 1) by {
            vstd::arithmetic::power::lemma_pow0(62);
        }
    } else {
        lemma_b62_val_append(p, r.drop_last());
        assert((p + r).drop_last() =~= p + r.drop_last());
        assert((p + r).last() == r.last());
        let k = (r.len() - 1) as nat;
        assert(pow(62, r.len()) == 62 * pow(62, k)) by {
            vstd::arithmetic::power::lemma_pow_adds(62, k, 1);
            vstd::arithmetic::power::lemma_pow1(62);
        }
        assert((b62_val(p) * pow(62, k) + b62_val(r.drop_last())) * 62 == b62_val(p) * (62 * pow(
            62,
            k,
        )) + b62_val(r.drop_last()) * 62) by (nonlinear_arith);
    }
}

/// Base-62 round trip: the minimal representation of a non-negative
/// integer consists only of alphabet symbols, decodes back to the same
/// integer, and is empty exactly for zero.
pub proof fn lemma_base62_round_trip(n: nat)
    ensures
        all_b62(b62_repr(n)),
        b62_val(b62_repr(n)) == n,
        (b62_repr(n).len() == 0 <==> n == 0),
    decreases n,
{
    if n == 0 {
    } else {
        assert(n / 62 < n) by (nonlinear_arith)
            requires n >= 1;
        lemma_base62_round_trip(n / 62);
        let d = (n % 62) as int;
        assert(0 <= d < 62);
        assert(b62_digit(b62_char(d)) == d);
        let s = b62_repr(n);
        assert(s == b62_repr(n / 62).push(b62_char(d)));
        assert(s.drop_last() =~= b62_repr(n / 62));
        assert(s.last() == b62_char(d));
        assert(b62_val(s) == (n / 62) * 62 + d);
        assert((n / 62) * 62 + n % 62 == n) by (nonlinear_arith);
        assert forall|i: int| 0 <= i < s.len() implies is_b62(#[trigger] s[i]) by {
            if i < s.len() - 1 {
                assert(s[i] == b62_repr(n / 62)[i]);
            }
        }
    }
}

/// The value of one alphabet symbol, or `None` for any other character.
pub(crate) fn char_digit(c: char) -> (r: Option<u8>)
    ensures
        r matches Some(d) ==> b62_digit(c) == d && d < 62,
        r is None ==> b62_digit(c) < 0,
{
    let u = c as u32;
    if '0' as u32 <= u && u <= '9' as u32 {
        Some((u - '0' as u32) as u8)
    } else if 'A' as u32 <= u && u <= 'Z' as u32 {
        Some((10 + (u - 'A' as u32)) as u8)
    } else if 'a' as u32 <= u && u <= 'z' as u32 {
        Some((36 + (u - 'a' as u32)) as u8)
    } else {
        None
    }
}

/// The alphabet symbol for digit value `d`.
fn digit_char(d: u8) -> (c: char)
    requires
        d < 62,
    ensures
        c == b62_char(d as int),
{
    if d < 10 {
        (48u8 + d) as char
    } else if d < 36 {
        (65u8 + (d - 10)) as char
    } else {
        (97u8 + (d - 36)) as char
    }
}

/// Relies on `String::push`: appends exactly the given character.
#[verifier::external_body]
fn push_char(s: &mut String, c: char)
    ensures
        final(s)@ == old(s)@.push(c),
{
    s.push(c)
}

/// Encodes a non-negative integer as its minimal base-62 string; zero
/// becomes the empty string.
pub fn encode(number: i64) -> (r: String)
    requires
        0 <= number,
    ensures
        r@ == b62_repr(number as nat),
{
    // Least significant digit first; reversed while building the string.
    let mut digits: Vec<char> = Vec::new();
    let mut num = number;
    while num > 0
        invariant
            0 <= num <= number,
            b62_repr(number as nat) == b62_repr(num as nat) + digits@.reverse(),
        decreases num,
    {
        let d = (num % 62) as u8;
        let c = digit_char(d);
        let ghost prev = digits@;
        digits.push(c);
        num = num / 62;
        proof {
            assert(digits@.reverse() =~= seq![c] + prev.reverse());
            let old_num = (num * 62 + d) as nat;
            assert(old_num > 0);
            assert(old_num / 62 == num && old_num % 62 == d) by (nonlinear_arith)
                requires num >= 0 && d < 62 && old_num == num * 62 + d;
            assert(b62_repr(old_num) == b62_repr(num as nat).push(c));
            assert(b62_repr(num as nat).push(c) + prev.reverse() =~= b62_repr(num as nat) + (seq![c]
                + prev.reverse()));
        }
    }
    let mut r = String::new();
    let mut i: usize = digits.len();
    while i > 0
        invariant
            i <= digits@.len(),
            b62_repr(number as nat) == b62_repr(0nat) + digits@.reverse(),
            r@ =~= digits@.reverse().take(digits@.len() - i),
        decreases i,
    {
        i = i - 1;
        let c = digits[i];
        push_char(&mut r, c);
        proof {
            assert(digits@.reverse()[digits@.len() - i - 1] == digits@[i as int]);
            assert(r@ =~= digits@.reverse().take(digits@.len() - i));
        }
    }
    proof {
        assert(r@ =~= digits@.reverse());
        assert(b62_repr(0nat) + digits@.reverse() =~= digits@.reverse());
    }
    r
}

/// Decodes a base-62 string to its integer value.  Fails with
/// `InvalidSymbol` if any character is outside the alphabet, and with
/// `NumberOverflow` if the value does not fit `i64`.
pub fn decode(number: &str) -> (r: Result<i64, MinesweeperError>)
    ensures
        r is Ok <==> all_b62(number@) && b62_val(number@) <= i64::MAX,
        r matches Ok(v) ==> v == b62_val(number@),
        r matches Err(e) ==> e == (if !all_b62(number@) {
            MinesweeperError::InvalidSymbol
        } else {
            MinesweeperError::NumberOverflow
        }),
{
    let chars = crate::text::str_chars(number);
    decode_chars(&chars)
}

/// Decodes a base-62 character sequence; see [`decode`].
pub fn decode_chars(chars: &Vec<char>) -> (r: Result<i64, MinesweeperError>)
    ensures
        r is Ok <==> all_b62(chars@) && b62_val(chars@) <= i64::MAX,
        r matches Ok(v) ==> v == b62_val(chars@),
        r matches Err(e) ==> e == (if !all_b62(chars@) {
            MinesweeperError::InvalidSymbol
        } else {
            MinesweeperError::NumberOverflow
        }),
{
    let n = chars.len();
    // First pass: the whole string must lie in the alphabet.
    let mut i: usize = 0;
    while i < n
        invariant
            n == chars@.len(),
            i <= n,
            forall|k: int| 0 <= k < i ==> is_b62(#[trigger] chars@[k]),
        decreases n - i,
    {
        if char_digit(chars[i]).is_none() {
            return Err(MinesweeperError::InvalidSymbol);
        }
        i = i + 1;
    }
    assert(all_b62(chars@));
    // Second pass: accumulate, watching for i64 overflow.
    let mut acc: i64 = 0;
    let mut j: usize = 0;
    while j < n
        invariant
            n == chars@.len(),
            j <= n,
            all_b62(chars@),
            0 <= acc,
            acc == b62_val(chars@.take(j as int)),
        decreases n - j,
    {
        let d = match char_digit(chars[j]) {
            Some(d) => d,
            None => {
                proof {
                    assert(is_b62(chars@[j as int]));
                }
                return Err(MinesweeperError::InvalidSymbol);
            },
        };
        proof {
            assert(chars@.take(j + 1).drop_last() =~= chars@.take(j as int));
            assert(chars@.take(j + 1).last() == chars@[j as int]);
        }
        let shifted = match acc.checked_mul(62) {
            Some(v) => v,
            None => {
                proof {
                    lemma_prefix_overflow(chars@, j as int, acc * 62 + d);
                }
                return Err(MinesweeperError::NumberOverflow);
            },
        };
        let next = match shifted.checked_add(d as i64) {
            Some(v) => v,
            None => {
                proof {
                    lemma_prefix_overflow(chars@, j as int, acc * 62 + d);
                }
                return Err(MinesweeperError::NumberOverflow);
            },
        };
        acc = next;
        j = j + 1;
    }
    proof {
        assert(chars@.take(n as int) =~= chars@);
    }
    Ok(acc)
}

/// If the value of the first `j + 1` characters already exceeds `i64::MAX`,
/// so does the value of the whole string.
proof fn lemma_prefix_overflow(s: Seq<char>, j: int, prefix_val: int)
    requires
        all_b62(s),
        0 <= j < s.len(),
        prefix_val == b62_val(s.take(j + 1)),
        prefix_val > i64::MAX,
    ensures
        b62_val(s) > i64::MAX,
{
    let p = s.take(j + 1);
    let r = s.skip(j + 1);
    assert(s =~= p + r);
    assert(all_b62(r)) by {
        assert(forall|k: int| 0 <= k < r.len() ==> r[k] == s[k + j + 1]);
    }
    lemma_b62_val_nonneg(r);
    lemma_b62_val_append(p, r);
    assert(pow(62, r.len()) >= 1) by {
        vstd::arithmetic::power::lemma_pow_positive(62, r.len());
    }
    assert(b62_val(p) * pow(62, r.len()) >= b62_val(p)) by (nonlinear_arith)
        requires b62_val(p) > 0 && pow(62, r.len()) >= 1;
}

} // verus!
