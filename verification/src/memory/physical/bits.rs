//! Bits of sequences of 64-bit words, as the page bitmaps use them.
use vstd::prelude::*;

verus! {

/// Bit `b` of the word `w`.
pub open spec fn word_bit(w: u64, b: int) -> bool {
    (w >> (b as u64)) & 1u64 == 1u64
}

/// The bits of `words`, word after word, lowest bit first.
pub open spec fn bits_of(words: Seq<u64>) -> Seq<bool> {
    Seq::new(words.len() * 64, |j: int| word_bit(words[j / 64], j % 64))
}

/// `bits` with the positions in `[lo, hi)` replaced by `v`.
pub open spec fn fill_range(bits: Seq<bool>, lo: int, hi: int, v: bool) -> Seq<bool> {
    Seq::new(bits.len(), |j: int| if lo <= j < hi { v } else { bits[j] })
}

/// Testing a bit with a mask gives the bit.
pub proof fn lemma_bit_test(w: u64, b: u64)
    requires
        b < 64,
    ensures
        (w & (1u64 << b) != 0) == word_bit(w, b as int),
{
    assert((w & (1u64 << b) != 0) == ((w >> b) & 1u64 == 1u64)) by (bit_vector)
        requires
            b < 64,
    ;
}

proof fn lemma_word_set(w: u64, b: u64, c: u64)
    requires
        b < 64,
        c < 64,
    ensures
        word_bit(w | (1u64 << b), c as int) == (c == b || word_bit(w, c as int)),
{
    assert((((w | (1u64 << b)) >> c) & 1u64 == 1u64) == (c == b || ((w >> c) & 1u64 == 1u64)))
        by (bit_vector)
        requires
            b < 64,
            c < 64,
    ;
}

proof fn lemma_word_clear(w: u64, b: u64, c: u64)
    requires
        b < 64,
        c < 64,
    ensures
        word_bit(w & !(1u64 << b), c as int) == (c != b && word_bit(w, c as int)),
{
    assert((((w & !(1u64 << b)) >> c) & 1u64 == 1u64) == (c != b && ((w >> c) & 1u64 == 1u64)))
        by (bit_vector)
        requires
            b < 64,
            c < 64,
    ;
}

proof fn lemma_word_const(c: u64)
    requires
        c < 64,
    ensures
        word_bit(0xffff_ffff_ffff_ffffu64, c as int),
        !word_bit(0u64, c as int),
        word_bit(0xffu64, c as int) == (c < 8),
{
    assert((0xffff_ffff_ffff_ffffu64 >> c) & 1u64 == 1u64 && (0u64 >> c) & 1u64 != 1u64 && ((
    (0xffu64 >> c) & 1u64 == 1u64) == (c < 8))) by (bit_vector)
        requires
            c < 64,
    ;
}

/// Setting bit `j` through its word sets exactly that bit.
pub proof fn lemma_bits_set(words: Seq<u64>, j: int)
    requires
        0 <= j < words.len() * 64,
    ensures
        bits_of(words.update(j / 64, words[j / 64] | (1u64 << ((j % 64) as u64)))) == bits_of(
            words,
        ).update(j, true),
{
    let k = j / 64;
    let b = (j % 64) as u64;
    let w2 = words.update(k, words[k] | (1u64 << b));
    assert forall|i: int| 0 <= i < words.len() * 64 implies #[trigger] bits_of(w2)[i] == bits_of(
        words,
    ).update(j, true)[i] by {
        if i / 64 == k {
            lemma_word_set(words[k], b, (i % 64) as u64);
        }
    }
    assert(bits_of(w2) =~= bits_of(words).update(j, true));
}

/// Clearing bit `j` through its word clears exactly that bit.
pub proof fn lemma_bits_clear(words: Seq<u64>, j: int)
    requires
        0 <= j < words.len() * 64,
    ensures
        bits_of(words.update(j / 64, words[j / 64] & !(1u64 << ((j % 64) as u64)))) == bits_of(
            words,
        ).update(j, false),
{
    let k = j / 64;
    let b = (j % 64) as u64;
    let w2 = words.update(k, words[k] & !(1u64 << b));
    assert forall|i: int| 0 <= i < words.len() * 64 implies #[trigger] bits_of(w2)[i] == bits_of(
        words,
    ).update(j, false)[i] by {
        if i / 64 == k {
            lemma_word_clear(words[k], b, (i % 64) as u64);
        }
    }
    assert(bits_of(w2) =~= bits_of(words).update(j, false));
}

/// Overwriting whole words `[lo, hi)` with all ones or all zeros sets or clears their bits.
pub proof fn lemma_bits_fill(words: Seq<u64>, words2: Seq<u64>, lo: int, hi: int, v: u64)
    requires
        0 <= lo <= hi <= words.len(),
        words2.len() == words.len(),
        v == 0 || v == 0xffff_ffff_ffff_ffffu64,
        forall|k: int| 0 <= k < words.len() ==> #[trigger] words2[k] == if lo <= k < hi {
            v
        } else {
            words[k]
        },
    ensures
        bits_of(words2) == fill_range(bits_of(words), lo * 64, hi * 64, v != 0),
{
    assert forall|i: int| 0 <= i < words.len() * 64 implies #[trigger] bits_of(words2)[i]
        == fill_range(bits_of(words), lo * 64, hi * 64, v != 0)[i] by {
        let k = i / 64;
        assert(lo <= k < hi <==> lo * 64 <= i < hi * 64);
        lemma_word_const((i % 64) as u64);
    }
    assert(bits_of(words2) =~= fill_range(bits_of(words), lo * 64, hi * 64, v != 0));
}

/// The bits of words that all hold 0xff.
pub proof fn lemma_bits_fill_value(words: Seq<u64>)
    requires
        forall|k: int| 0 <= k < words.len() ==> #[trigger] words[k] == 0xffu64,
    ensures
        forall|j: int| 0 <= j < words.len() * 64 ==> #[trigger] bits_of(words)[j] == (j % 64 < 8),
{
    assert forall|j: int| 0 <= j < words.len() * 64 implies #[trigger] bits_of(words)[j] == (j % 64
        < 8) by {
        lemma_word_const((j % 64) as u64);
    }
}

} // verus!
