//! The bit-level model of the allocation bitmap: one bit per frame, packed
//! into 64-bit words, together with the lemmas about setting, clearing and
//! scanning bits that the frame allocator's proofs rest on.

use vstd::prelude::*;

verus! {

/// Whether bit `i` of the word `w` is set.
pub open spec fn word_bit(w: u64, i: u64) -> bool
    recommends
        i < 64,
{
    (w >> i) & 1u64 == 1u64
}

/// Allocation status of bit index `i` in a bitmap packed into 64-bit words.
pub open spec fn bitmap_bit(words: Seq<u64>, i: int) -> bool
    recommends
        0 <= i < words.len() * 64,
{
    word_bit(words[i / 64], (i % 64) as u64)
}

/// The per-frame allocation bits of a bitmap of `n` tracked frames.
pub open spec fn bits_of(words: Seq<u64>, n: nat) -> Seq<bool> {
    Seq::new(n, |i: int| bitmap_bit(words, i))
}

/// The smallest index `>= i` of a clear bit, or `s.len()` if every
/// bit from `i` on is set.
pub open spec fn first_free_from(s: Seq<bool>, i: int) -> int
    recommends
        0 <= i <= s.len(),
    decreases s.len() - i when 0 <= i <= s.len()
{
    if i >= s.len() {
        s.len() as int
    } else if !s[i] {
        i
    } else {
        first_free_from(s, i + 1)
    }
}

/// The index of the first free frame, or `s.len()` if every frame is allocated.
pub open spec fn first_free(s: Seq<bool>) -> int {
    first_free_from(s, 0)
}

proof fn lemma_first_free_from_bounds(s: Seq<bool>, i: int)
    requires
        0 <= i <= s.len(),
    ensures
        i <= first_free_from(s, i) <= s.len(),
        first_free_from(s, i) < s.len() ==> !s[first_free_from(s, i)],
        forall|j: int| i <= j < first_free_from(s, i) ==> s[j],
    decreases s.len() - i,
{
    if i < s.len() && s[i] {
        lemma_first_free_from_bounds(s, i + 1);
    }
}

/// What `first_free` returns: an index within bounds, pointing at a clear
/// bit when one exists, with every earlier bit set.
pub proof fn lemma_first_free_bounds(s: Seq<bool>)
    ensures
        0 <= first_free(s) <= s.len(),
        first_free(s) < s.len() ==> !s[first_free(s)],
        forall|j: int| 0 <= j < first_free(s) ==> s[j],
{
    lemma_first_free_from_bounds(s, 0);
}

proof fn lemma_first_free_from_is(s: Seq<bool>, i: int, k: int)
    requires
        0 <= i <= k <= s.len(),
        forall|j: int| i <= j < k ==> s[j],
        k < s.len() ==> !s[k],
    ensures
        first_free_from(s, i) == k,
    decreases k - i,
{
    if i < k {
        lemma_first_free_from_is(s, i + 1, k);
    }
}

/// `first_free` returns exactly the index below which every bit is set and
/// whose own bit (if within bounds) is clear.
pub proof fn lemma_first_free_is(s: Seq<bool>, k: int)
    requires
        0 <= k <= s.len(),
        forall|j: int| 0 <= j < k ==> s[j],
        k < s.len() ==> !s[k],
    ensures
        first_free(s) == k,
{
    lemma_first_free_from_is(s, 0, k);
}

/// The bitmap is exhausted exactly when every bit is set.
pub proof fn lemma_first_free_full_iff(s: Seq<bool>)
    ensures
        first_free(s) == s.len() <==> (forall|j: int| 0 <= j < s.len() ==> s[j]),
{
    lemma_first_free_bounds(s);
    if forall|j: int| 0 <= j < s.len() ==> s[j] {
        lemma_first_free_is(s, s.len() as int);
    }
}

/// Setting bit `i` of a word leaves every other bit as it was and sets bit `i`.
pub proof fn lemma_word_set_bit(w: u64, i: u64, j: u64)
    requires
        i < 64,
        j < 64,
    ensures
        word_bit(w | (1u64 << i), j) == (j == i || word_bit(w, j)),
{
    assert((((w | (1u64 << i)) >> j) & 1u64 == 1u64) == (j == i || (w >> j) & 1u64 == 1u64))
        by (bit_vector)
        requires
            i < 64,
            j < 64,
    ;
}

/// Clearing bit `i` of a word leaves every other bit as it was and clears bit `i`.
pub proof fn lemma_word_clear_bit(w: u64, i: u64, j: u64)
    requires
        i < 64,
        j < 64,
    ensures
        word_bit(w & !(1u64 << i), j) == (j != i && word_bit(w, j)),
{
    assert((((w & !(1u64 << i)) >> j) & 1u64 == 1u64) == (j != i && (w >> j) & 1u64 == 1u64))
        by (bit_vector)
        requires
            i < 64,
            j < 64,
    ;
}

/// Every bit of an all-ones word is set.
pub proof fn lemma_word_full(j: u64)
    requires
        j < 64,
    ensures
        word_bit(0xffff_ffff_ffff_ffffu64, j),
{
    assert((0xffff_ffff_ffff_ffffu64 >> j) & 1u64 == 1u64) by (bit_vector)
        requires
            j < 64,
    ;
}

/// No bit of a zero word is set.
pub proof fn lemma_word_zero(j: u64)
    requires
        j < 64,
    ensures
        !word_bit(0u64, j),
{
    assert((0u64 >> j) & 1u64 == 0u64) by (bit_vector)
        requires
            j < 64,
    ;
}

/// In an all-ones word shifted left by `r`, exactly the bits at
/// positions `>= r` are set.
pub proof fn lemma_word_tail_mask(r: u64, j: u64)
    requires
        r < 64,
        j < 64,
    ensures
        word_bit(0xffff_ffff_ffff_ffffu64 << r, j) == (j >= r),
{
    assert((((0xffff_ffff_ffff_ffffu64 << r) >> j) & 1u64 == 1u64) == (j >= r)) by (bit_vector)
        requires
            r < 64,
            j < 64,
    ;
}

/// A bit index decomposes uniquely into a word index and a bit position.
pub proof fn lemma_index_decompose(wi: int, b: int)
    requires
        0 <= wi,
        0 <= b < 64,
    ensures
        (wi * 64 + b) / 64 == wi,
        (wi * 64 + b) % 64 == b,
{
    vstd::arithmetic::div_mod::lemma_fundamental_div_mod_converse(wi * 64 + b, 64, wi, b);
}

} // verus!
