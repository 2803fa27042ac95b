//! Offsets given as text.

use vstd::prelude::*;

use crate::text::{digits_value, hexadecimal, is_digit, numbers_are_written_by_place};

verus! {

/// Why a text is no hexadecimal number.
#[derive(Debug, Clone, Copy, PartialEq, Eq)]
pub enum HexError {
    /// There are no digits.
    Empty,
    /// Something else than a digit stands where a digit is due.
    InvalidDigit,
    /// The number does not fit.
    Overflow,
}

/// The value of a hexadecimal digit, in either case.
pub open spec fn hex_digit(c: char) -> Option<nat> {
    if '0' <= c <= '9' {
        Some((c as int - '0' as int) as nat)
    } else if 'a' <= c <= 'f' {
        Some((c as int - 'a' as int + 10) as nat)
    } else if 'A' <= c <= 'F' {
        Some((c as int - 'A' as int + 10) as nat)
    } else {
        None
    }
}

/// The value of a row of hexadecimal digits, or what is wrong with the first digit that is no
/// digit or makes the number too large.
pub open spec fn hex_value(digits: Seq<char>) -> Result<nat, HexError>
    decreases digits.len(),
{
    if digits.len() == 0 {
        Ok(0)
    } else {
        match hex_value(digits.drop_last()) {
            Err(e) => Err(e),
            Ok(high) => match hex_digit(digits.last()) {
                None => Err(HexError::InvalidDigit),
                Some(d) => if high * 16 + d > usize::MAX {
                    Err(HexError::Overflow)
                } else {
                    Ok(high * 16 + d)
                },
            },
        }
    }
}

/// A text without a leading `0x`.
pub open spec fn without_0x(s: Seq<char>) -> Seq<char> {
    if s.len() >= 2 && s[0] == '0' && s[1] == 'x' {
        s.skip(2)
    } else {
        s
    }
}

/// The number that a text stands for: an optional `0x`, an optional sign `+`, and at least one
/// hexadecimal digit.
pub open spec fn hex_number(s: Seq<char>) -> Result<nat, HexError> {
    let t = without_0x(s);
    if t.len() == 0 {
        Err(HexError::Empty)
    } else if t[0] == '+' && t.len() == 1 {
        Err(HexError::InvalidDigit)
    } else if t[0] == '+' {
        hex_value(t.skip(1))
    } else {
        hex_value(t)
    }
}

fn digit_value(c: char) -> (r: Option<usize>)
    ensures
        match r {
            Some(d) => hex_digit(c) == Some(d as nat) && d < 16,
            None => hex_digit(c) is None,
        },
{
    if '0' <= c && c <= '9' {
        Some(c as usize - '0' as usize)
    } else if 'a' <= c && c <= 'f' {
        Some(c as usize - 'a' as usize + 10)
    } else if 'A' <= c && c <= 'F' {
        Some(c as usize - 'A' as usize + 10)
    } else {
        None
    }
}

/// Reads a hexadecimal number, with or without a leading `0x`.
pub fn parse_hex_usize(s: &str) -> (r: Result<usize, HexError>)
    ensures
        match r {
            Ok(n) => hex_number(s@) == Ok::<nat, HexError>(n as nat),
            Err(e) => hex_number(s@) == Err::<nat, HexError>(e),
        },
{
    let len = s.unicode_len();
    let mut start: usize = 0;
    if len >= 2 && s.get_char(0) == '0' && s.get_char(1) == 'x' {
        start = 2;
    }
    let ghost t = without_0x(s@);
    assert(t =~= s@.skip(start as int));
    if start == len {
        return Err(HexError::Empty);
    }
    if s.get_char(start) == '+' {
        start = start + 1;
        if start == len {
            return Err(HexError::InvalidDigit);
        }
    }
    let ghost digits = s@.skip(start as int);
    assert(t[0] == '+' ==> t.skip(1) =~= digits);
    assert(hex_number(s@) == hex_value(digits));
    let mut value: usize = 0;
    let mut i: usize = start;
    assert(digits.take(0) =~= Seq::empty());
    while i < len
        invariant
            start <= i <= len,
            len == s@.len(),
            digits == s@.skip(start as int),
            hex_number(s@) == hex_value(digits),
            hex_value(digits.take(i - start)) == Ok::<nat, HexError>(value as nat),
        decreases len - i,
    {
        let ghost k = i - start;
        let c = s.get_char(i);
        assert(digits.take(k + 1).drop_last() =~= digits.take(k));
        assert(digits.take(k + 1).last() == c);
        match digit_value(c) {
            None => {
                proof {
                    lemma_failure_stays(digits, k + 1);
                }
                return Err(HexError::InvalidDigit);
            },
            Some(d) => {
                if value > (usize::MAX - d) / 16 {
                    proof {
                        lemma_failure_stays(digits, k + 1);
                    }
                    return Err(HexError::Overflow);
                }
                value = value * 16 + d;
            },
        }
        i += 1;
    }
    assert(digits.take(i - start) =~= digits);
    Ok(value)
}

proof fn lemma_failure_stays(digits: Seq<char>, k: int)
    requires
        0 <= k <= digits.len(),
        hex_value(digits.take(k)) is Err,
    ensures
        hex_value(digits) == hex_value(digits.take(k)),
    decreases digits.len(),
{
    if k < digits.len() {
        assert(digits.drop_last().take(k) =~= digits.take(k));
        lemma_failure_stays(digits.drop_last(), k);
    } else {
        assert(digits.take(k) =~= digits);
    }
}

proof fn lemma_hex_value(s: Seq<char>)
    requires
        forall|i: int| 0 <= i < s.len() ==> is_digit(#[trigger] s[i], 16),
        digits_value(s, 16) <= usize::MAX,
    ensures
        0 <= digits_value(s, 16),
        hex_value(s) == Ok::<nat, HexError>(digits_value(s, 16) as nat),
    decreases s.len(),
{
    if s.len() > 0 {
        let front = s.drop_last();
        assert(is_digit(s[s.len() - 1], 16));
        assert forall|i: int| 0 <= i < front.len() implies is_digit(#[trigger] front[i], 16) by {
            assert(front[i] == s[i]);
        }
        lemma_digits_not_negative(front);
        lemma_hex_value(front);
    }
}

proof fn lemma_digits_not_negative(s: Seq<char>)
    requires
        forall|i: int| 0 <= i < s.len() ==> is_digit(#[trigger] s[i], 16),
    ensures
        0 <= digits_value(s, 16),
    decreases s.len(),
{
    if s.len() > 0 {
        let front = s.drop_last();
        assert(is_digit(s[s.len() - 1], 16));
        assert forall|i: int| 0 <= i < front.len() implies is_digit(#[trigger] front[i], 16) by {
            assert(front[i] == s[i]);
        }
        lemma_digits_not_negative(front);
    }
}

/// Every number that is written in hexadecimal is read back, with `0x` in front or without.
pub proof fn written_offsets_are_read_back(n: nat, width: nat)
    requires
        n <= usize::MAX,
    ensures
        hex_number(hexadecimal(n, width)) == Ok::<nat, HexError>(n),
        hex_number("0x"@ + hexadecimal(n, width)) == Ok::<nat, HexError>(n),
{
    let s = hexadecimal(n, width);
    numbers_are_written_by_place(n, width);
    lemma_hex_value(s);
    assert(is_digit(s[0], 16));
    assert(s.len() >= 2 ==> is_digit(s[1], 16));
    reveal_strlit("0x");
    let t = "0x"@ + s;
    assert(t.skip(2) =~= s);
}

/// A row of characters stands for a number only where all of them are hexadecimal digits, in either
/// case, and the number fits.
pub proof fn only_digits_make_numbers(s: Seq<char>, i: int)
    requires
        hex_value(s) is Ok,
        0 <= i < s.len(),
    ensures
        '0' <= s[i] <= '9' || 'a' <= s[i] <= 'f' || 'A' <= s[i] <= 'F',
        hex_value(s)->Ok_0 <= usize::MAX,
    decreases s.len(),
{
    if i < s.len() - 1 {
        only_digits_make_numbers(s.drop_last(), i);
    }
}

} // verus!
