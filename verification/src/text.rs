//! Text: numbers in decimal and hexadecimal, and strings read out of raw bytes.

use vstd::prelude::*;
use vstd::utf8::{decode_utf8, encode_utf8, is_ascii_chars, valid_utf8};

verus! {

/// The digit of value `d`, in lower case: `0` to `9`, then `a` to `f`.
pub open spec fn digit_char(d: nat) -> char {
    if d < 10 {
        (48 + d) as char
    } else {
        (87 + d) as char
    }
}

/// `n` written in `base`, most significant digit first, without leading zeros.
pub open spec fn digits(n: nat, base: nat) -> Seq<char>
    decreases n,
{
    if base < 2 || n < base {
        seq![digit_char(n)]
    } else {
        proof {
            assert(n / base < n) by (nonlinear_arith)
                requires
                    n >= base,
                    base >= 2,
            ;
        }
        digits(n / base, base).push(digit_char(n % base))
    }
}

/// `s` filled up with zeros on the left to at least `width` characters.
pub open spec fn zero_filled(s: Seq<char>, width: nat) -> Seq<char> {
    Seq::new(
        if s.len() < width {
            (width - s.len()) as nat
        } else {
            0
        },
        |i: int| '0',
    ) + s
}

/// `n` in decimal, zero-filled to `width` characters.
pub open spec fn decimal(n: nat, width: nat) -> Seq<char> {
    zero_filled(digits(n, 10), width)
}

/// `n` in lower-case hexadecimal, zero-filled to `width` characters.
pub open spec fn hexadecimal(n: nat, width: nat) -> Seq<char> {
    zero_filled(digits(n, 16), width)
}

fn digit_str(d: u64) -> (r: &'static str)
    requires
        d < 16,
    ensures
        r@ == seq![digit_char(d as nat)],
{
    proof {
        reveal_strlit("0");
        reveal_strlit("1");
        reveal_strlit("2");
        reveal_strlit("3");
        reveal_strlit("4");
        reveal_strlit("5");
        reveal_strlit("6");
        reveal_strlit("7");
        reveal_strlit("8");
        reveal_strlit("9");
        reveal_strlit("a");
        reveal_strlit("b");
        reveal_strlit("c");
        reveal_strlit("d");
        reveal_strlit("e");
        reveal_strlit("f");
    }
    let r = match d {
        0 => "0",
        1 => "1",
        2 => "2",
        3 => "3",
        4 => "4",
        5 => "5",
        6 => "6",
        7 => "7",
        8 => "8",
        9 => "9",
        10 => "a",
        11 => "b",
        12 => "c",
        13 => "d",
        14 => "e",
        _ => "f",
    };
    assert(r@ =~= seq![digit_char(d as nat)]);
    r
}

fn push_digits(out: &mut String, n: u64, base: u64)
    requires
        2 <= base <= 16,
    ensures
        final(out)@ == old(out)@ + digits(n as nat, base as nat),
    decreases n,
{
    if n >= base {
        proof {
            assert(n / base < n) by (nonlinear_arith)
                requires
                    n >= base,
                    base >= 2,
            ;
        }
        push_digits(out, n / base, base);
    }
    proof {
        assert(n % base < base && (n < base ==> n % base == n)) by (nonlinear_arith)
            requires
                base >= 2,
        ;
    }
    out.append(digit_str(n % base));
    assert(out@ =~= old(out)@ + digits(n as nat, base as nat));
}

fn push_number(out: &mut String, n: u64, base: u64, width: usize)
    requires
        2 <= base <= 16,
    ensures
        final(out)@ == old(out)@ + zero_filled(digits(n as nat, base as nat), width as nat),
{
    let mut rest: u64 = n;
    let mut count: usize = 1;
    while rest >= base && count < width
        invariant
            2 <= base <= 16,
            count <= width || count == 1,
            digits(n as nat, base as nat).len() == count - 1 + digits(rest as nat, base as nat).len(),
        decreases rest,
    {
        proof {
            assert(rest / base < rest) by (nonlinear_arith)
                requires
                    rest >= base,
                    base >= 2,
            ;
        }
        rest = rest / base;
        count += 1;
    }
    let ghost len = digits(n as nat, base as nat).len();
    proof {
        lemma_digits_nonempty(rest as nat, base as nat);
        assert(len < width ==> count == len);
        assert(len >= width ==> count >= width);
    }
    while count < width
        invariant
            len <= count <= width || (len >= width && count >= width),
            out@ =~= old(out)@ + Seq::new(
                if len < width {
                    (count - len) as nat
                } else {
                    0
                },
                |i: int| '0',
            ),
        decreases width - count,
    {
        out.append(digit_str(0));
        count += 1;
    }
    push_digits(out, n, base);
    assert(out@ =~= old(out)@ + zero_filled(digits(n as nat, base as nat), width as nat));
}

proof fn lemma_digits_nonempty(n: nat, base: nat)
    ensures
        digits(n, base).len() >= 1,
{
}

/// Appends `n` in decimal, zero-filled to `width` characters.
pub fn push_decimal(out: &mut String, n: u64, width: usize)
    ensures
        final(out)@ == old(out)@ + decimal(n as nat, width as nat),
{
    push_number(out, n, 10, width);
}

/// Appends `n` in lower-case hexadecimal, zero-filled to `width` characters.
pub fn push_hexadecimal(out: &mut String, n: u64, width: usize)
    ensures
        final(out)@ == old(out)@ + hexadecimal(n as nat, width as nat),
{
    push_number(out, n, 16, width);
}

/// The value of a digit: `0` to `9`, then `a` to `f`.
pub open spec fn digit_value(c: char) -> int {
    if c as int <= 57 {
        c as int - 48
    } else {
        c as int - 87
    }
}

/// The value of a row of digits, the last of which counts once, the one before it `base` times, and
/// so on.
pub open spec fn digits_value(s: Seq<char>, base: int) -> int
    decreases s.len(),
{
    if s.len() == 0 {
        0
    } else {
        digits_value(s.drop_last(), base) * base + digit_value(s.last())
    }
}

/// Whether a character is a digit in `base`.
pub open spec fn is_digit(c: char, base: nat) -> bool {
    &&& '0' <= c <= '9' || 'a' <= c <= 'f'
    &&& digit_value(c) < base
}

proof fn lemma_digits_value(n: nat, base: nat)
    requires
        2 <= base <= 16,
    ensures
        digits_value(digits(n, base), base as int) == n,
        forall|i: int| 0 <= i < digits(n, base).len() ==> is_digit(#[trigger] digits(n, base)[i], base),
        digits(n, base).len() >= 1,
        n > 0 ==> digits(n, base)[0] != '0',
        n == 0 ==> digits(n, base).len() == 1,
    decreases n,
{
    let s = digits(n, base);
    assert(s.last() == digit_char(n % base)) by {
        assert(n < base ==> n % base == n) by (nonlinear_arith)
            requires
                base >= 2,
        ;
    }
    assert(n % base < base) by (nonlinear_arith)
        requires
            base >= 2,
    ;
    if n < base {
        assert(s.drop_last() =~= Seq::empty());
        assert(digits_value(Seq::<char>::empty(), base as int) == 0);
        assert(0 * base == 0) by (nonlinear_arith);
        assert(n % base == n) by (nonlinear_arith)
            requires
                n < base,
        ;
    } else {
        assert(n / base < n) by (nonlinear_arith)
            requires
                n >= base,
                base >= 2,
        ;
        lemma_digits_value(n / base, base);
        assert(s.drop_last() =~= digits(n / base, base));
        assert(n / base * base + n % base == n) by (nonlinear_arith)
            requires
                base >= 2,
        ;
        assert forall|i: int| 0 <= i < s.len() implies is_digit(#[trigger] s[i], base) by {
            if i < s.len() - 1 {
                assert(s[i] == digits(n / base, base)[i]);
            }
        }
        assert(s[0] == digits(n / base, base)[0]);
        assert(n / base > 0) by (nonlinear_arith)
            requires
                n >= base,
                base >= 2,
        ;
    }
}

proof fn lemma_zeros_value(zeros: Seq<char>, s: Seq<char>, base: int)
    requires
        forall|i: int| 0 <= i < zeros.len() ==> zeros[i] == '0',
    ensures
        digits_value(zeros + s, base) == digits_value(s, base),
    decreases zeros.len() + s.len(),
{
    if s.len() > 0 {
        lemma_zeros_value(zeros, s.drop_last(), base);
        assert((zeros + s).drop_last() =~= zeros + s.drop_last());
    } else if zeros.len() > 0 {
        lemma_zeros_value(zeros.drop_last(), s, base);
        assert((zeros + s).drop_last() =~= zeros.drop_last() + s);
        assert((zeros + s).last() == '0');
        assert(0 * base == 0) by (nonlinear_arith);
    }
}

/// `s` is `n` written in `base`: its digits, each counted by its place, give the number; there are
/// at least `width` of them, and no zero stands in front beyond that.
pub open spec fn written_by_place(s: Seq<char>, n: nat, base: nat, width: nat) -> bool {
    &&& digits_value(s, base as int) == n
    &&& forall|i: int| 0 <= i < s.len() ==> is_digit(#[trigger] s[i], base)
    &&& s.len() >= width
    &&& s.len() >= 1
    &&& s.len() > width && s.len() > 1 ==> s[0] != '0'
}

proof fn lemma_written_by_place(n: nat, base: nat, width: nat)
    requires
        2 <= base <= 16,
    ensures
        written_by_place(zero_filled(digits(n, base), width), n, base, width),
{
    let x = digits(n, base);
    let s = zero_filled(x, width);
    let fill = s.len() - x.len();
    lemma_digits_value(n, base);
    lemma_zeros_value(s.take(fill), x, base as int);
    assert(s.take(fill) + x =~= s);
    assert forall|i: int| 0 <= i < s.len() implies is_digit(#[trigger] s[i], base) by {
        if i >= fill {
            assert(s[i] == x[i - fill]);
        }
    }
    if s.len() > width {
        assert(s =~= x);
    }
}

/// Every number is written by place, in decimal and in hexadecimal.
pub proof fn numbers_are_written_by_place(n: nat, width: nat)
    ensures
        written_by_place(decimal(n, width), n, 10, width),
        written_by_place(hexadecimal(n, width), n, 16, width),
{
    lemma_written_by_place(n, 10, width);
    lemma_written_by_place(n, 16, width);
}

/// Different numbers are written differently.
pub proof fn numbers_are_faithful(a: nat, b: nat, width: nat)
    ensures
        decimal(a, width) == decimal(b, width) ==> a == b,
        hexadecimal(a, width) == hexadecimal(b, width) ==> a == b,
{
    numbers_are_written_by_place(a, width);
    numbers_are_written_by_place(b, width);
}

/// Different numbers are written differently, and none with an underscore.
pub proof fn decimals_are_faithful(a: nat, b: nat, width: nat)
    ensures
        decimal(a, width) == decimal(b, width) ==> a == b,
        forall|i: int| 0 <= i < decimal(a, width).len() ==> (#[trigger] decimal(a, width)[i]) != '_',
{
    numbers_are_written_by_place(a, width);
    numbers_are_faithful(a, b, width);
    assert forall|i: int| 0 <= i < decimal(a, width).len() implies (#[trigger] decimal(
        a,
        width,
    )[i]) != '_' by {
        assert(is_digit(decimal(a, width)[i], 10));
    }
}

/// A number between the same word and an underscore can be told from the whole.
pub proof fn numbers_in_names_are_faithful(
    front: Seq<char>,
    a: nat,
    b: nat,
    width: nat,
    x: Seq<char>,
    y: Seq<char>,
)
    requires
        x.len() > 0,
        y.len() > 0,
        x[0] == '_',
        y[0] == '_',
        front + decimal(a, width) + x == front + decimal(b, width) + y,
    ensures
        a == b,
{
    names_tell_their_numbers(front, a, b, width, x, y);
}

/// Digits that are followed by something else can be told from the whole, and so can what follows.
proof fn lemma_told_apart(
    front: Seq<char>,
    m: Seq<char>,
    n: Seq<char>,
    base: nat,
    x: Seq<char>,
    y: Seq<char>,
)
    requires
        forall|i: int| 0 <= i < m.len() ==> is_digit(#[trigger] m[i], base),
        forall|i: int| 0 <= i < n.len() ==> is_digit(#[trigger] n[i], base),
        x.len() > 0,
        y.len() > 0,
        !is_digit(x[0], base),
        !is_digit(y[0], base),
        front + m + x == front + n + y,
    ensures
        m == n,
        x == y,
{
    let s = front + m + x;
    let t = front + n + y;
    let f = front.len() as int;
    if m.len() < n.len() {
        assert(s[f + m.len()] == x[0]);
        assert(t[f + m.len()] == n[m.len() as int]);
    } else if n.len() < m.len() {
        assert(t[f + n.len()] == y[0]);
        assert(s[f + n.len()] == m[n.len() as int]);
    } else {
        assert(m =~= s.subrange(f, f + m.len()));
        assert(n =~= t.subrange(f, f + n.len()));
        assert(x =~= s.skip(f + m.len()));
        assert(y =~= t.skip(f + n.len()));
    }
}

/// A number between the same word and something that is no digit can be told from the whole, and
/// so can what follows it.
pub proof fn names_tell_their_numbers(
    front: Seq<char>,
    a: nat,
    b: nat,
    width: nat,
    x: Seq<char>,
    y: Seq<char>,
)
    requires
        x.len() > 0,
        y.len() > 0,
    ensures
        front + decimal(a, width) + x == front + decimal(b, width) + y && !is_digit(x[0], 10)
            && !is_digit(y[0], 10) ==> a == b && x == y,
        front + hexadecimal(a, width) + x == front + hexadecimal(b, width) + y && !is_digit(
            x[0],
            16,
        ) && !is_digit(y[0], 16) ==> a == b && x == y,
{
    numbers_are_written_by_place(a, width);
    numbers_are_written_by_place(b, width);
    numbers_are_faithful(a, b, width);
    if front + decimal(a, width) + x == front + decimal(b, width) + y && !is_digit(x[0], 10)
        && !is_digit(y[0], 10) {
        lemma_told_apart(front, decimal(a, width), decimal(b, width), 10, x, y);
    }
    if front + hexadecimal(a, width) + x == front + hexadecimal(b, width) + y && !is_digit(
        x[0],
        16,
    ) && !is_digit(y[0], 16) {
        lemma_told_apart(front, hexadecimal(a, width), hexadecimal(b, width), 16, x, y);
    }
}

/// The text that `String::from_utf8_lossy` reads out of `bytes`.
pub uninterp spec fn lossy_text(bytes: Seq<u8>) -> Seq<char>;

/// `String::from_utf8_lossy`, copied into an owned string.
///
/// The text is a function of the bytes alone; bytes that are valid UTF-8 give the characters
/// that they encode. Where replacement characters go in other bytes is not stated.
#[verifier::external_body]
pub(crate) fn text_from_bytes(bytes: &[u8]) -> (r: String)
    ensures
        r@ == lossy_text(bytes@),
        valid_utf8(bytes@) ==> r@ == decode_utf8(bytes@),
{
    String::from_utf8_lossy(bytes).into_owned()
}

/// The characters of ASCII bytes.
pub open spec fn ascii_text(bytes: Seq<u8>) -> Seq<char> {
    Seq::new(bytes.len(), |i: int| bytes[i] as char)
}

/// ASCII bytes are valid UTF-8 and stand for the characters of the same numbers.
pub proof fn lemma_ascii_text(bytes: Seq<u8>)
    requires
        forall|i: int| 0 <= i < bytes.len() ==> bytes[i] < 0x80,
    ensures
        valid_utf8(bytes),
        decode_utf8(bytes) == ascii_text(bytes),
{
    let chars = ascii_text(bytes);
    assert(is_ascii_chars(chars));
    vstd::utf8::is_ascii_chars_encode_utf8(chars);
    assert(encode_utf8(chars) =~= bytes);
    vstd::utf8::encode_utf8_valid_utf8(chars);
    vstd::utf8::encode_utf8_decode_utf8(chars);
}

pub(crate) proof fn lemma_regroup(
    front: Seq<char>,
    word: Seq<char>,
    number: Seq<char>,
    rest: Seq<char>,
)
    ensures
        front + word + number + rest == front + (word + number + rest),
{
    assert(front + word + number + rest =~= front + (word + number + rest));
}

} // verus!
