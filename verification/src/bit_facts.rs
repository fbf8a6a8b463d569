//! Bit-level facts about single 64-bit words: what each bitwise operation
//! does to every bit, and how the population count reacts.

use vstd::prelude::*;

verus! {

/// Bit `i` of the word `w`.
pub open spec fn bit64(w: u64, i: u64) -> bool {
    (w >> i) & 1u64 == 1u64
}

/// The number of set bits among the low `n` bits of `w`.
pub open spec fn word_pop(w: u64, n: int) -> int
    decreases n,
{
    if n <= 0 {
        0
    } else {
        word_pop(w, n - 1) + if bit64(w, (n - 1) as u64) {
            1int
        } else {
            0int
        }
    }
}

/// The number of set bits of `w`.
pub open spec fn pop64(w: u64) -> int {
    word_pop(w, 64)
}

pub proof fn lemma_word_pop_bound(w: u64, n: int)
    requires
        0 <= n <= 64,
    ensures
        0 <= word_pop(w, n) <= n,
    decreases n,
{
    if n > 0 {
        lemma_word_pop_bound(w, n - 1);
    }
}

/// Two words that agree on every bit below `n` have the same count there.
pub proof fn lemma_pop_same(w1: u64, w2: u64, n: int)
    requires
        0 <= n <= 64,
        forall|m: u64| m < n ==> (#[trigger] bit64(w1, m)) == bit64(w2, m),
    ensures
        word_pop(w1, n) == word_pop(w2, n),
    decreases n,
{
    if n > 0 {
        lemma_pop_same(w1, w2, n - 1);
    }
}

/// Two words that differ at most in bit `b` differ in count exactly by
/// that bit.
pub proof fn lemma_pop_flip(w1: u64, w2: u64, b: u64, n: int)
    requires
        b < 64,
        0 <= n <= 64,
        forall|m: u64| m < 64 && m != b ==> (#[trigger] bit64(w1, m)) == bit64(w2, m),
    ensures
        word_pop(w2, n) == word_pop(w1, n) + (if b < n && bit64(w2, b) && !bit64(w1, b) {
            1int
        } else {
            0int
        }) - (if b < n && bit64(w1, b) && !bit64(w2, b) {
            1int
        } else {
            0int
        }),
    decreases n,
{
    if n > 0 {
        lemma_pop_flip(w1, w2, b, n - 1);
    }
}

/// A word whose bits all agree with or lie below another's counts no more.
pub proof fn lemma_pop_mono(w1: u64, w2: u64, n: int)
    requires
        0 <= n <= 64,
        forall|m: u64| m < 64 && #[trigger] bit64(w1, m) ==> bit64(w2, m),
    ensures
        word_pop(w1, n) <= word_pop(w2, n),
    decreases n,
{
    if n > 0 {
        lemma_pop_mono(w1, w2, n - 1);
    }
}

/// Every bit of an OR is the OR of the bits.
pub proof fn lemma_word_or(w1: u64, w2: u64)
    ensures
        forall|m: u64| m < 64 ==> (#[trigger] bit64(w1 | w2, m) <==> bit64(w1, m) || bit64(w2, m)),
{
    assert forall|m: u64| m < 64 implies (#[trigger] bit64(w1 | w2, m) <==> bit64(w1, m) || bit64(
        w2,
        m,
    )) by {
        assert((((w1 | w2) >> m) & 1u64 == 1u64) <==> ((w1 >> m) & 1u64 == 1u64 || (w2 >> m) & 1u64
            == 1u64)) by (bit_vector);
    }
}

/// Every bit of an AND is the AND of the bits.
pub proof fn lemma_word_and(w1: u64, w2: u64)
    ensures
        forall|m: u64| m < 64 ==> (#[trigger] bit64(w1 & w2, m) <==> bit64(w1, m) && bit64(w2, m)),
{
    assert forall|m: u64| m < 64 implies (#[trigger] bit64(w1 & w2, m) <==> bit64(w1, m) && bit64(
        w2,
        m,
    )) by {
        assert((((w1 & w2) >> m) & 1u64 == 1u64) <==> ((w1 >> m) & 1u64 == 1u64 && (w2 >> m) & 1u64
            == 1u64)) by (bit_vector);
    }
}

/// Every bit of an XOR is the XOR of the bits.
pub proof fn lemma_word_xor(w1: u64, w2: u64)
    ensures
        forall|m: u64| m < 64 ==> (#[trigger] bit64(w1 ^ w2, m) <==> (bit64(w1, m) != bit64(
            w2,
            m,
        ))),
{
    assert forall|m: u64| m < 64 implies (#[trigger] bit64(w1 ^ w2, m) <==> (bit64(w1, m) != bit64(
        w2,
        m,
    ))) by {
        assert((((w1 ^ w2) >> m) & 1u64 == 1u64) <==> (((w1 >> m) & 1u64 == 1u64) != ((w2 >> m)
            & 1u64 == 1u64))) by (bit_vector);
    }
}

/// Every bit of an AND-NOT is the difference of the bits.
pub proof fn lemma_word_andnot(w1: u64, w2: u64)
    ensures
        forall|m: u64| m < 64 ==> (#[trigger] bit64(w1 & !w2, m) <==> bit64(w1, m) && !bit64(
            w2,
            m,
        )),
{
    assert forall|m: u64| m < 64 implies (#[trigger] bit64(w1 & !w2, m) <==> bit64(w1, m)
        && !bit64(w2, m)) by {
        assert((((w1 & !w2) >> m) & 1u64 == 1u64) <==> (((w1 >> m) & 1u64 == 1u64) && !((w2 >> m)
            & 1u64 == 1u64))) by (bit_vector);
    }
}

/// The single-bit mask has exactly bit `b` set.
pub proof fn lemma_one_bit(b: u64)
    requires
        b < 64,
    ensures
        forall|m: u64| m < 64 ==> (#[trigger] bit64(1u64 << b, m) <==> m == b),
{
    assert forall|m: u64| m < 64 implies (#[trigger] bit64(1u64 << b, m) <==> m == b) by {
        assert(m < 64 && b < 64 ==> ((((1u64 << b) >> m) & 1u64 == 1u64) <==> m == b))
            by (bit_vector);
    }
}

/// The dense mask covering the bit positions `lo` through `hi`.
pub open spec fn range_mask(lo: u64, hi: u64) -> u64 {
    ((!0u64) << lo) & ((!0u64) >> ((63u64 - hi) as u64))
}

/// The dense mask has exactly the bits of `[lo, hi]` set.
pub proof fn lemma_range_mask(lo: u64, hi: u64)
    requires
        lo <= hi < 64,
    ensures
        forall|m: u64| m < 64 ==> (#[trigger] bit64(range_mask(lo, hi), m) <==> lo <= m <= hi),
{
    assert forall|m: u64| m < 64 implies (#[trigger] bit64(range_mask(lo, hi), m) <==> lo <= m
        <= hi) by {
        assert(m < 64 && lo <= hi < 64 ==> (((((!0u64) << lo) & ((!0u64) >> ((63u64 - hi) as u64))) >> m)
            & 1u64 == 1u64 <==> lo <= m <= hi)) by (bit_vector);
    }
}

/// The zero word has no set bit.
pub proof fn lemma_zero_bits()
    ensures
        forall|m: u64| m < 64 ==> !(#[trigger] bit64(0u64, m)),
        pop64(0u64) == 0,
{
    assert forall|m: u64| m < 64 implies !(#[trigger] bit64(0u64, m)) by {
        assert((0u64 >> m) & 1u64 == 0u64) by (bit_vector);
    }
    lemma_pop_zero(0u64, 64);
}

pub proof fn lemma_pop_zero(w: u64, n: int)
    requires
        0 <= n <= 64,
        forall|m: u64| m < 64 ==> !(#[trigger] bit64(w, m)),
    ensures
        word_pop(w, n) == 0,
    decreases n,
{
    if n > 0 {
        lemma_pop_zero(w, n - 1);
    }
}

/// A word with no set bit is zero.
pub proof fn lemma_word_empty(w: u64)
    requires
        forall|m: u64| m < 64 ==> !(#[trigger] bit64(w, m)),
    ensures
        w == 0,
{
    lemma_low_zero(w, 63);
    assert(!bit64(w, 63u64));
    assert((w & (((1u64 << 63u64) - 1) as u64) == 0 && (w >> 63u64) & 1u64 != 1u64) ==> w == 0)
        by (bit_vector);
}

proof fn lemma_low_zero(w: u64, n: u64)
    requires
        n <= 63,
        forall|m: u64| m < 64 ==> !(#[trigger] bit64(w, m)),
    ensures
        w & (((1u64 << n) - 1) as u64) == 0,
    decreases n,
{
    if n == 0 {
        assert(n == 0 ==> w & (((1u64 << n) - 1) as u64) == 0) by (bit_vector);
    } else {
        lemma_low_zero(w, (n - 1) as u64);
        assert(!bit64(w, (n - 1) as u64));
        let p: u64 = (n - 1) as u64;
        assert((w & (((1u64 << p) - 1) as u64) == 0 && (w >> p) & 1u64 != 1u64 && 1 <= n <= 63 && p == n - 1)
            ==> w & (((1u64 << n) - 1) as u64) == 0) by (bit_vector);
    }
}

/// A word with a set bit has a positive count.
pub proof fn lemma_pop_positive(w: u64, b: u64, n: int)
    requires
        b < n <= 64,
        bit64(w, b),
    ensures
        word_pop(w, n) >= 1,
    decreases n,
{
    if b < n - 1 {
        lemma_pop_positive(w, b, n - 1);
        lemma_word_pop_bound(w, n - 1);
    } else {
        lemma_word_pop_bound(w, n - 1);
    }
}

} // verus!
