//! SHA-512 digests as text.

use vstd::prelude::*;

use crate::text::{
    hexadecimal, numbers_are_written_by_place, push_hexadecimal, written_by_place,
};

verus! {

/// The SHA-512 digest of `data`.
pub uninterp spec fn sha512_digest(data: Seq<u8>) -> Seq<u8>;

/// `sha2::Sha512::digest`, copied into a vector.
///
/// The digest is a function of the data alone and has 64 bytes. Which bytes these are is not
/// stated.
#[verifier::external_body]
fn sha512(data: &[u8]) -> (r: Vec<u8>)
    ensures
        r@ == sha512_digest(data@),
        r@.len() == 64,
{
    <sha2::Sha512 as sha2::Digest>::digest(data).to_vec()
}

/// Each byte as two lower-case hexadecimal digits.
pub open spec fn hex_text(bytes: Seq<u8>) -> Seq<char>
    decreases bytes.len(),
{
    if bytes.len() == 0 {
        Seq::empty()
    } else {
        hex_text(bytes.drop_last()) + hexadecimal(bytes.last() as nat, 2)
    }
}

/// Writes each byte as two lower-case hexadecimal digits.
pub fn hex_lower(bytes: &[u8]) -> (r: String)
    ensures
        r@ == hex_text(bytes@),
{
    let mut out = String::new();
    let mut i: usize = 0;
    assert(bytes@.take(0) =~= Seq::empty());
    while i < bytes.len()
        invariant
            i <= bytes@.len(),
            out@ == hex_text(bytes@.take(i as int)),
        decreases bytes@.len() - i,
    {
        assert(bytes@.take(i + 1).drop_last() =~= bytes@.take(i as int));
        push_hexadecimal(&mut out, bytes[i] as u64, 2);
        i += 1;
    }
    assert(bytes@.take(i as int) =~= bytes@);
    out
}

/// The SHA-512 digest of `data` in lower-case hexadecimal.
pub fn sha512_hex(data: &[u8]) -> (r: String)
    ensures
        r@ == hex_text(sha512_digest(data@)),
        r@.len() == 128,
{
    let digest = sha512(data);
    proof {
        lemma_hex_text_len(digest@);
    }
    hex_lower(digest.as_slice())
}

proof fn lemma_hex_text_len(bytes: Seq<u8>)
    ensures
        hex_text(bytes).len() == 2 * bytes.len(),
    decreases bytes.len(),
{
    if bytes.len() > 0 {
        lemma_hex_text_len(bytes.drop_last());
        lemma_byte_digits(bytes.last());
    }
}

proof fn lemma_byte_digits(b: u8)
    ensures
        hexadecimal(b as nat, 2).len() == 2,
{
    reveal_with_fuel(crate::text::digits, 3);
}

/// Different bytes are written differently: the text tells the bytes.
pub proof fn hex_text_is_faithful(a: Seq<u8>, b: Seq<u8>)
    requires
        hex_text(a) == hex_text(b),
    ensures
        a == b,
    decreases a.len(),
{
    lemma_hex_text_len(a);
    lemma_hex_text_len(b);
    if a.len() > 0 {
        let x = hexadecimal(a.last() as nat, 2);
        let y = hexadecimal(b.last() as nat, 2);
        lemma_byte_digits(a.last());
        lemma_byte_digits(b.last());
        lemma_hex_text_len(a.drop_last());
        lemma_hex_text_len(b.drop_last());
        let n = hex_text(a.drop_last()).len() as int;
        assert(hex_text(a.drop_last()) =~= hex_text(a).take(n));
        assert(hex_text(b.drop_last()) =~= hex_text(b).take(n));
        assert(x =~= hex_text(a).skip(n));
        assert(y =~= hex_text(b).skip(n));
        hex_text_is_faithful(a.drop_last(), b.drop_last());
        assert(a.last() == b.last()) by {
            lemma_byte_text(a.last());
            lemma_byte_text(b.last());
        }
        assert(a =~= a.drop_last().push(a.last()));
        assert(b =~= b.drop_last().push(b.last()));
    } else {
        assert(a =~= b);
    }
}

proof fn lemma_byte_text(b: u8)
    ensures
        hexadecimal(b as nat, 2) == seq![
            crate::text::digit_char(b as nat / 16),
            crate::text::digit_char(b as nat % 16),
        ],
{
    reveal_with_fuel(crate::text::digits, 3);
    assert(hexadecimal(b as nat, 2) =~= seq![
        crate::text::digit_char(b as nat / 16),
        crate::text::digit_char(b as nat % 16),
    ]);
}

/// Each byte is written as two hexadecimal digits, in its own place.
pub proof fn each_byte_is_two_digits(bytes: Seq<u8>, i: int)
    requires
        0 <= i < bytes.len(),
    ensures
        hex_text(bytes).len() == 2 * bytes.len(),
        written_by_place(hex_text(bytes).subrange(2 * i, 2 * i + 2), bytes[i] as nat, 16, 2),
    decreases bytes.len(),
{
    let front = bytes.drop_last();
    lemma_hex_text_len(bytes);
    lemma_hex_text_len(front);
    lemma_byte_digits(bytes.last());
    if i < front.len() {
        each_byte_is_two_digits(front, i);
        assert(hex_text(bytes).subrange(2 * i, 2 * i + 2) =~= hex_text(front).subrange(
            2 * i,
            2 * i + 2,
        ));
    } else {
        numbers_are_written_by_place(bytes[i] as nat, 2);
        assert(hex_text(bytes).subrange(2 * i, 2 * i + 2) =~= hexadecimal(bytes[i] as nat, 2));
    }
}

} // verus!
