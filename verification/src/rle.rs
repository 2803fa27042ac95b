//! The run-length encoding of palette indices.

use vstd::arithmetic::power2::{lemma_pow2_adds, lemma_pow2_pos, pow2};
use vstd::prelude::*;

use crate::error::Error;
use crate::image_format::{expand, lemma_pow2_16, word_index, word_run};

verus! {

/// How many of the numbers at the beginning of `s` are equal to the first, up to `limit`.
pub open spec fn run_length(s: Seq<u8>, limit: nat) -> nat
    decreases s.len(),
{
    if s.len() >= 2 && limit >= 2 && s[1] == s[0] {
        1 + run_length(s.drop_first(), (limit - 1) as nat)
    } else {
        1
    }
}

/// The word for a run of `run` pixels of one index.
pub open spec fn run_word(index: u8, run: nat, bpp: nat) -> u16 {
    ((run - 1) * pow2(bpp) + index) as u16
}

/// The longest run that a word can give.
pub open spec fn longest_run(bpp: nat) -> nat {
    pow2((16 - bpp) as nat)
}

/// The words for `indices`: each run taken as far as it goes.
pub open spec fn runs_of(indices: Seq<u8>, bpp: nat) -> Seq<u16>
    decreases indices.len(),
{
    if indices.len() == 0 {
        Seq::empty()
    } else {
        let run = run_length(indices, longest_run(bpp));
        proof {
            runs_are_maximal(indices, longest_run(bpp));
        }
        seq![run_word(indices[0], run, bpp)] + runs_of(indices.skip(run as int), bpp)
    }
}

/// The first index that does not fit the colour depth.
pub open spec fn first_too_large(indices: Seq<u8>, bpp: nat, i: int) -> bool {
    &&& 0 <= i < indices.len()
    &&& indices[i] >= pow2(bpp)
    &&& forall|j: int| 0 <= j < i ==> (#[trigger] indices[j]) < pow2(bpp)
}

/// Whether all indices fit the colour depth.
pub open spec fn all_fit(indices: Seq<u8>, bpp: nat) -> bool {
    forall|i: int| 0 <= i < indices.len() ==> (#[trigger] indices[i]) < pow2(bpp)
}

/// A run is made of equal numbers and cannot be made longer within the limit.
pub proof fn runs_are_maximal(s: Seq<u8>, limit: nat)
    requires
        s.len() > 0,
    ensures
        1 <= run_length(s, limit) <= s.len(),
        limit >= 1 ==> run_length(s, limit) <= limit,
        forall|i: int| 0 <= i < run_length(s, limit) ==> #[trigger] s[i] == s[0],
        run_length(s, limit) < s.len() && run_length(s, limit) < limit ==> s[run_length(
            s,
            limit,
        ) as int] != s[0],
    decreases s.len(),
{
    if s.len() >= 2 && limit >= 2 && s[1] == s[0] {
        let t = s.drop_first();
        runs_are_maximal(t, (limit - 1) as nat);
        let n = run_length(s, limit);
        assert forall|i: int| 0 <= i < n implies #[trigger] s[i] == s[0] by {
            if i > 0 {
                assert(s[i] == t[i - 1]);
            }
        }
        if n < s.len() && n < limit {
            assert(s[n as int] == t[n - 1]);
        }
    }
}

/// A run that cannot be made longer is the one that is taken.
proof fn lemma_run_length_is(s: Seq<u8>, limit: nat, n: nat)
    requires
        1 <= n <= s.len(),
        n <= limit,
        forall|i: int| 0 <= i < n ==> #[trigger] s[i] == s[0],
        n == s.len() || n == limit || s[n as int] != s[0],
    ensures
        run_length(s, limit) == n,
{
    runs_are_maximal(s, limit);
}

proof fn lemma_run_word(index: u8, run: nat, bpp: nat)
    requires
        bpp < 16,
        index < pow2(bpp),
        1 <= run <= longest_run(bpp),
    ensures
        (run - 1) * pow2(bpp) + index <= 0xffff,
        word_index(run_word(index, run, bpp), bpp) == index,
        word_run(run_word(index, run, bpp), bpp) == run,
{
    let p = pow2(bpp) as int;
    let q = longest_run(bpp) as int;
    let r = run as int;
    lemma_pow2_pos(bpp);
    lemma_pow2_adds(bpp, (16 - bpp) as nat);
    vstd::arithmetic::power2::lemma2_to64();
    assert((r - 1) * p + index <= p * q - 1) by (nonlinear_arith)
        requires
            1 <= r <= q,
            0 <= index < p,
    ;
    assert((r - 1) * p >= 0) by (nonlinear_arith)
        requires
            1 <= r,
            0 < p,
    ;
    vstd::arithmetic::div_mod::lemma_fundamental_div_mod_converse(
        (r - 1) * p + index,
        p,
        r - 1,
        index as int,
    );
}

/// Encodes palette indices as words that each give an index and a run of pixels.
pub fn rle_encode(indices: &[u8], bpp: u16) -> (r: Result<Vec<u16>, Error>)
    requires
        indices@.len() > 0 ==> bpp < 16,
    ensures
        match r {
            Ok(words) => all_fit(indices@, bpp as nat) && words@ == runs_of(indices@, bpp as nat),
            Err(e) => exists|i: int| #[trigger]
                first_too_large(indices@, bpp as nat, i) && e == (Error::IndexTooLarge {
                    index: indices@[i],
                    bpp,
                }),
        },
{
    let mut words: Vec<u16> = Vec::new();
    if indices.len() == 0 {
        return Ok(words);
    }
    proof {
        lemma_pow2_16(bpp as nat);
        lemma_pow2_pos((16 - bpp) as nat);
        vstd::bits::lemma_u16_shl_is_mul(1, bpp);
        lemma_pow2_adds(bpp as nat, (16 - bpp) as nat);
        vstd::arithmetic::power2::lemma2_to64();
        assert(longest_run(bpp as nat) <= 0x1_0000) by (nonlinear_arith)
            requires
                pow2(bpp as nat) * longest_run(bpp as nat) == 0x1_0000,
                pow2(bpp as nat) >= 1,
        ;
        vstd::bits::lemma_u32_shl_is_mul(1, (16 - bpp) as u32);
    }
    let max_index = 1u16 << bpp;
    let max_run = (1u32 << (16 - bpp) as u32) as usize;
    let mut i: usize = 0;
    proof {
        assert(indices@.skip(0) =~= indices@);
        assert(words@ + runs_of(indices@, bpp as nat) =~= runs_of(indices@, bpp as nat));
    }
    while i < indices.len()
        invariant
            bpp < 16,
            max_index == pow2(bpp as nat),
            max_index == 1u16 << bpp,
            max_run == longest_run(bpp as nat),
            1 <= max_run <= 0x1_0000,
            i <= indices@.len(),
            forall|j: int| 0 <= j < i ==> (#[trigger] indices@[j]) < max_index,
            runs_of(indices@, bpp as nat) == words@ + runs_of(indices@.skip(i as int), bpp as nat),
        decreases indices@.len() - i,
    {
        let idx = indices[i];
        if idx as u16 >= max_index {
            assert(first_too_large(indices@, bpp as nat, i as int));
            return Err(Error::IndexTooLarge { index: idx, bpp });
        }
        let ghost rest = indices@.skip(i as int);
        let mut run: usize = 1;
        while run < indices.len() - i && indices[i + run] == idx && run < max_run
            invariant
                i < indices@.len(),
                idx == indices@[i as int],
                1 <= run <= indices@.len() - i,
                run <= max_run,
                forall|j: int| i <= j < i + run ==> (#[trigger] indices@[j]) == idx,
            decreases indices@.len() - i - run,
        {
            run += 1;
        }
        proof {
            assert forall|k: int| 0 <= k < run implies #[trigger] rest[k] == rest[0] by {
                assert(rest[k] == indices@[i + k]);
            }
            lemma_run_length_is(rest, max_run as nat, run as nat);
            lemma_run_word(idx, run as nat, bpp as nat);
        }
        let high = (run - 1) as u16;
        proof {
            assert(high * pow2(bpp as nat) <= 0xffff);
            vstd::bits::lemma_u16_shl_is_mul(high, bpp);
            let low = idx as u16;
            assert((high << bpp) | low == (high << bpp) + low) by (bit_vector)
                requires
                    bpp < 16,
                    low < (1u16 << bpp),
            ;
        }
        let word = (high << bpp) | idx as u16;
        assert(word == run_word(idx, run as nat, bpp as nat));
        let ghost before = words@;
        words.push(word);
        proof {
            let next = rest.skip(run as int);
            assert(next =~= indices@.skip(i + run));
            assert(before + (seq![word] + runs_of(next, bpp as nat)) =~= words@ + runs_of(
                next,
                bpp as nat,
            ));
        }
        i += run;
    }
    proof {
        assert(words@ + runs_of(indices@.skip(i as int), bpp as nat) =~= words@);
    }
    Ok(words)
}

/// The numbers of `indices`.
pub open spec fn as_numbers(indices: Seq<u8>) -> Seq<nat> {
    Seq::new(indices.len(), |i: int| indices[i] as nat)
}

proof fn lemma_expand_concat(a: Seq<u16>, b: Seq<u16>, bpp: nat)
    ensures
        expand(a + b, bpp) == expand(a, bpp) + expand(b, bpp),
    decreases b.len(),
{
    if b.len() == 0 {
        assert(a + b =~= a);
        assert(expand(a, bpp) + expand(b, bpp) =~= expand(a, bpp));
    } else {
        lemma_expand_concat(a, b.drop_last(), bpp);
        assert((a + b).drop_last() =~= a + b.drop_last());
        assert(expand(a + b, bpp) =~= expand(a, bpp) + expand(b, bpp));
    }
}

proof fn lemma_expand_one(word: u16, bpp: nat)
    ensures
        expand(seq![word], bpp) == Seq::new(word_run(word, bpp), |i: int| word_index(word, bpp)),
{
    assert(seq![word].drop_last() =~= Seq::<u16>::empty());
    assert(expand(Seq::<u16>::empty(), bpp) =~= Seq::<nat>::empty());
    assert(expand(seq![word], bpp) =~= Seq::new(
        word_run(word, bpp),
        |i: int| word_index(word, bpp),
    ));
}

/// Encoded indices are read back as they were: the words cover as many pixels as there are
/// indices, each with its own.
pub proof fn encoded_indices_are_read_back(indices: Seq<u8>, bpp: nat)
    requires
        bpp < 16,
        all_fit(indices, bpp),
    ensures
        expand(runs_of(indices, bpp), bpp) == as_numbers(indices),
        runs_of(indices, bpp).len() <= indices.len(),
        forall|i: int|
            0 <= i < runs_of(indices, bpp).len() ==> indices.contains(
                word_index(#[trigger] runs_of(indices, bpp)[i], bpp) as u8,
            ) && word_index(runs_of(indices, bpp)[i], bpp) < 0x100,
    decreases indices.len(),
{
    if indices.len() == 0 {
        assert(as_numbers(indices) =~= Seq::empty());
    } else {
        let limit = longest_run(bpp);
        let run = run_length(indices, limit);
        lemma_pow2_pos((16 - bpp) as nat);
        runs_are_maximal(indices, limit);
        let rest = indices.skip(run as int);
        let word = run_word(indices[0], run, bpp);
        lemma_run_word(indices[0], run, bpp);
        assert forall|i: int| 0 <= i < rest.len() implies (#[trigger] rest[i]) < pow2(bpp) by {
            assert(rest[i] == indices[run + i]);
        }
        encoded_indices_are_read_back(rest, bpp);
        lemma_expand_concat(seq![word], runs_of(rest, bpp), bpp);
        lemma_expand_one(word, bpp);
        let head = expand(seq![word], bpp);
        assert(head =~= Seq::new(run, |i: int| indices[0] as nat));
        assert(head + as_numbers(rest) =~= as_numbers(indices)) by {
            assert forall|i: int| 0 <= i < indices.len() implies #[trigger] (head + as_numbers(
                rest,
            ))[i] == indices[i] by {
                if i >= run {
                    assert(rest[i - run] == indices[i]);
                }
            }
        }
        let words = runs_of(indices, bpp);
        assert forall|i: int| 0 <= i < words.len() implies indices.contains(
            word_index(#[trigger] words[i], bpp) as u8,
        ) && word_index(words[i], bpp) < 0x100 by {
            if i > 0 {
                let v = word_index(runs_of(rest, bpp)[i - 1], bpp) as u8;
                assert(words[i] == runs_of(rest, bpp)[i - 1]);
                assert(rest.contains(v));
                let k = choose|k: int| 0 <= k < rest.len() && rest[k] == v;
                assert(indices[run + k] == v);
            }
        }
    }
}

/// Leaving out indices at the front takes no more words.
pub proof fn shorter_is_cheaper(s: Seq<u8>, bpp: nat, k: int)
    requires
        bpp < 16,
        0 <= k <= s.len(),
    ensures
        runs_of(s.skip(k), bpp).len() <= runs_of(s, bpp).len(),
    decreases s.len(),
{
    if k == 0 {
        assert(s.skip(0) =~= s);
    } else if k < s.len() {
        let limit = longest_run(bpp);
        lemma_pow2_pos((16 - bpp) as nat);
        let g = run_length(s, limit) as int;
        runs_are_maximal(s, limit);
        let after = s.skip(g);
        if k >= g {
            shorter_is_cheaper(after, bpp, k - g);
            assert(after.skip(k - g) =~= s.skip(k));
        } else {
            let t = s.skip(k);
            let h = run_length(t, limit) as int;
            runs_are_maximal(t, limit);
            assert(k + h >= g) by {
                if k + h < g {
                    assert(t[h] == s[k + h]);
                    assert(t[0] == s[k]);
                }
            }
            assert(t.skip(h) =~= after.skip(k + h - g));
            shorter_is_cheaper(after, bpp, k + h - g);
        }
    } else {
        assert(s.skip(k) =~= Seq::empty());
    }
}

/// A run at the front takes one word more than the rest alone at most.
proof fn lemma_front_run(s: Seq<u8>, bpp: nat, n: int)
    requires
        bpp < 16,
        1 <= n <= s.len(),
        n <= longest_run(bpp),
        forall|i: int| 0 <= i < n ==> #[trigger] s[i] == s[0],
    ensures
        runs_of(s, bpp).len() <= 1 + runs_of(s.skip(n), bpp).len(),
{
    let limit = longest_run(bpp);
    let g = run_length(s, limit) as int;
    runs_are_maximal(s, limit);
    assert(g >= n);
    assert(s.skip(n).skip(g - n) =~= s.skip(g));
    shorter_is_cheaper(s.skip(n), bpp, g - n);
}

/// No words are fewer: whatever words give equal indices where they give runs, the words of
/// [`rle_encode`] are not more. (`indices` may give one index for several of those in `words`.)
pub proof fn encoding_is_shortest(words: Seq<u16>, indices: Seq<u8>, bpp: nat)
    requires
        bpp < 16,
        expand(words, bpp).len() == indices.len(),
        forall|i: int, j: int|
            0 <= i < indices.len() && 0 <= j < indices.len() && #[trigger] expand(words, bpp)[i]
                == #[trigger] expand(words, bpp)[j] ==> indices[i] == indices[j],
    ensures
        runs_of(indices, bpp).len() <= words.len(),
    decreases words.len(),
{
    if words.len() > 0 {
        let word = words[0];
        let rest = words.drop_first();
        let run = word_run(word, bpp) as int;
        assert(words =~= seq![word] + rest);
        lemma_expand_concat(seq![word], rest, bpp);
        lemma_expand_one(word, bpp);
        let head = expand(seq![word], bpp);
        let all = expand(words, bpp);
        assert(all == head + expand(rest, bpp));
        lemma_word_run_bound(word, bpp);
        let later = indices.skip(run);
        assert forall|i: int| 0 <= i < run implies #[trigger] indices[i] == indices[0] by {
            assert(all[i] == all[0]);
        }
        lemma_front_run(indices, bpp, run);
        assert forall|i: int, j: int|
            0 <= i < later.len() && 0 <= j < later.len() && #[trigger] expand(rest, bpp)[i]
                == #[trigger] expand(rest, bpp)[j] implies later[i] == later[j] by {
            assert(all[run + i] == expand(rest, bpp)[i]);
            assert(all[run + j] == expand(rest, bpp)[j]);
        }
        encoding_is_shortest(rest, later, bpp);
    }
}

proof fn lemma_word_run_bound(word: u16, bpp: nat)
    requires
        bpp < 16,
    ensures
        1 <= word_run(word, bpp) <= longest_run(bpp),
{
    let p = pow2(bpp) as int;
    let q = longest_run(bpp) as int;
    lemma_pow2_pos(bpp);
    lemma_pow2_adds(bpp, (16 - bpp) as nat);
    vstd::arithmetic::power2::lemma2_to64();
    vstd::arithmetic::div_mod::lemma_fundamental_div_mod(word as int, p);
    assert(word as int / p < q) by (nonlinear_arith)
        requires
            word as int == p * (word as int / p) + word as int % p,
            word as int % p >= 0,
            word < p * q,
            p > 0,
    ;
    assert(word as int / p >= 0) by (nonlinear_arith)
        requires
            p > 0,
            word >= 0,
    ;
}

/// Every index is read back at its own place, however many there are.
pub proof fn every_index_is_read_back(indices: Seq<u8>, bpp: nat, i: int)
    requires
        bpp < 16,
        forall|k: int| 0 <= k < indices.len() ==> (#[trigger] indices[k]) < pow2(bpp),
        0 <= i < indices.len(),
    ensures
        expand(runs_of(indices, bpp), bpp).len() == indices.len(),
        expand(runs_of(indices, bpp), bpp)[i] == indices[i],
{
    encoded_indices_are_read_back(indices, bpp);
}

} // verus!
