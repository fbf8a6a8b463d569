//! The dense container representation: 1024 words of 64 bits with a
//! cached population count.

use vstd::prelude::*;

use crate::array_store::ArrayStore;
use crate::bit_facts::{
    bit64, lemma_one_bit, lemma_pop_flip, lemma_pop_mono, lemma_pop_positive, lemma_pop_zero,
    lemma_range_mask, lemma_word_and, lemma_word_andnot, lemma_word_empty, lemma_word_or,
    lemma_word_pop_bound, lemma_word_xor, lemma_zero_bits, pop64, range_mask, word_pop,
};
use crate::util::{op_keeps, SetOp};
use crate::seq_facts::{lemma_push_contains, lemma_take_full, lemma_take_step};
use crate::util::sorted_strict;

verus! {

/// The number of 64-bit words in a dense container.
pub const BITMAP_LENGTH: usize = 1024;

/// Membership of a low-16 value in a word array.
pub open spec fn bm_contains(words: Seq<u64>, x: u16) -> bool {
    bit64(words[x as int / 64], (x as u64) % 64)
}

/// The number of set bits among the first `n` words.
pub open spec fn total_pop(words: Seq<u64>, n: int) -> int
    decreases n,
{
    if n <= 0 {
        0
    } else {
        total_pop(words, n - 1) + pop64(words[n - 1])
    }
}

/// A 65 536-bit dense bit array plus its cached population count.
#[derive(Debug)]
pub struct BitmapStore {
    len: u64,
    bits: Vec<u64>,
}

impl View for BitmapStore {
    type V = Seq<u64>;

    closed spec fn view(&self) -> Seq<u64> {
        self.bits@
    }
}

impl BitmapStore {
    /// The cached population count.
    pub closed spec fn len_spec(&self) -> u64 {
        self.len
    }

    /// The invariant: exactly 1024 words, and the cache equals the count
    /// of set bits.
    pub open spec fn wf(&self) -> bool {
        &&& self@.len() == 1024
        &&& self.len_spec() == total_pop(self@, 1024)
    }

    /// Membership of a low-16 value.
    pub open spec fn contains_spec(&self, x: u16) -> bool {
        bm_contains(self@, x)
    }

    pub fn new() -> (r: BitmapStore)
        ensures
            r.wf(),
            r.len_spec() == 0,
            forall|x: u16| !(#[trigger] r.contains_spec(x)),
    {
        let bits: Vec<u64> = vec![0u64; 1024];
        let r = BitmapStore { len: 0, bits };
        proof {
            lemma_zero_bits();
            lemma_total_zero(r@, 1024);
            assert forall|x: u16| !(#[trigger] r.contains_spec(x)) by {
                assert(r@[x as int / 64] == 0);
            }
        }
        r
    }

    pub fn len(&self) -> (r: u64)
        ensures
            r == self.len_spec(),
    {
        self.len
    }

    /// Membership test: one shift and one mask.
    pub fn contains(&self, index: u16) -> (r: bool)
        requires
            self.wf(),
        ensures
            r == self.contains_spec(index),
    {
        let w = self.bits[(index / 64) as usize];
        ((w >> ((index % 64) as u64)) & 1) == 1
    }

    /// Sets bit `index`; returns whether it was clear.
    pub fn insert(&mut self, index: u16) -> (r: bool)
        requires
            old(self).wf(),
        ensures
            final(self).wf(),
            r == !old(self).contains_spec(index),
            forall|x: u16| #[trigger]
                final(self).contains_spec(x) <==> old(self).contains_spec(x) || x == index,
            final(self).len_spec() == old(self).len_spec() + (if r {
                1int
            } else {
                0int
            }),
    {
        let key = (index / 64) as usize;
        let b = (index % 64) as u64;
        let w = self.bits[key];
        if (w >> b) & 1 == 1 {
            proof {
                lemma_same_contains(self@, self@, index);
            }
            false
        } else {
            let ghost words = self@;
            let neww = w | (1u64 << b);
            proof {
                lemma_one_bit(b);
                lemma_word_or(w, 1u64 << b);
                lemma_pop_flip(w, neww, b, 64);
                lemma_total_update(words, key as int, neww, 1024);
                lemma_total_bound(words, 1024);
            }
            self.bits[key] = neww;
            self.len = self.len + 1;
            proof {
                lemma_update_contains(words, key as int, neww, index);
            }
            true
        }
    }

    /// Clears bit `index`; returns whether it was set.
    pub fn remove(&mut self, index: u16) -> (r: bool)
        requires
            old(self).wf(),
        ensures
            final(self).wf(),
            r == old(self).contains_spec(index),
            forall|x: u16| #[trigger]
                final(self).contains_spec(x) <==> old(self).contains_spec(x) && x != index,
            final(self).len_spec() == old(self).len_spec() - (if r {
                1int
            } else {
                0int
            }),
    {
        let key = (index / 64) as usize;
        let b = (index % 64) as u64;
        let w = self.bits[key];
        if (w >> b) & 1 == 1 {
            let ghost words = self@;
            let neww = w & !(1u64 << b);
            proof {
                lemma_one_bit(b);
                lemma_word_andnot(w, 1u64 << b);
                lemma_pop_flip(w, neww, b, 64);
                lemma_total_update(words, key as int, neww, 1024);
                lemma_pop_positive(w, b, 64);
                lemma_total_at_least_word(words, key as int, 1024);
            }
            self.bits[key] = neww;
            self.len = self.len - 1;
            proof {
                lemma_update_contains(words, key as int, neww, index);
            }
            true
        } else {
            false
        }
    }

    /// The word at a position, for the wire encoder.
    pub fn word_at(&self, i: usize) -> (r: u64)
        requires
            i < self@.len(),
        ensures
            r == self@[i as int],
    {
        self.bits[i]
    }

    /// Wrap 1024 words read from the wire, counting their bits.
    pub fn from_words(words: Vec<u64>) -> (r: BitmapStore)
        requires
            words@.len() == 1024,
        ensures
            r.wf(),
            r@ == words@,
    {
        let mut r = BitmapStore { len: 0, bits: words };
        r.recompute_len();
        r
    }

    /// Recompute the cached count from the words.
    fn recompute_len(&mut self)
        requires
            old(self)@.len() == 1024,
        ensures
            final(self)@ == old(self)@,
            final(self).len_spec() == total_pop(final(self)@, 1024),
    {
        let mut acc: u64 = 0;
        let mut k: usize = 0;
        while k < 1024
            invariant
                self@ == old(self)@,
                self@.len() == 1024,
                k <= 1024,
                acc == total_pop(self@, k as int),
                acc <= 64 * k,
            decreases 1024 - k,
        {
            proof {
                lemma_word_pop_bound(self@[k as int], 64);
            }
            acc = acc + count_ones_u64(self.bits[k]);
            k += 1;
        }
        self.len = acc;
    }

    /// The smallest member, if any.
    pub fn min(&self) -> (r: Option<u16>)
        requires
            self.wf(),
        ensures
            match r {
                None => forall|x: u16| !(#[trigger] self.contains_spec(x)),
                Some(v) => self.contains_spec(v) && forall|x: u16|
                    x < v ==> !(#[trigger] self.contains_spec(x)),
            },
    {
        let mut k: usize = 0;
        while k < 1024
            invariant
                self.wf(),
                k <= 1024,
                forall|x: u16| x as int / 64 < k ==> !(#[trigger] self.contains_spec(x)),
            decreases 1024 - k,
        {
            let w = self.bits[k];
            if w != 0 {
                let mut b: usize = 0;
                while b < 64
                    invariant
                        self.wf(),
                        k < 1024,
                        b <= 64,
                        w == self@[k as int],
                        forall|m: u64| m < b ==> !(#[trigger] bit64(w, m)),
                        forall|x: u16| x as int / 64 < k ==> !(#[trigger] self.contains_spec(x)),
                    decreases 64 - b,
                {
                    if (w >> (b as u64)) & 1 == 1 {
                        let v = (k * 64 + b) as u16;
                        proof {
                            assert(v as int / 64 == k && (v as u64) % 64 == b);
                            assert(self.contains_spec(v));
                            assert forall|x: u16| x < v implies !(#[trigger] self.contains_spec(
                                x,
                            )) by {
                                if x as int / 64 == k {
                                    assert((x as u64) % 64 < b);
                                }
                            }
                        }
                        return Some(v);
                    }
                    b += 1;
                }
                proof {
                    lemma_word_empty(w);
                    assert(false);
                }
            }
            proof {
                lemma_zero_bits();
                assert forall|x: u16| x as int / 64 < k + 1 implies !(#[trigger] self.contains_spec(
                    x,
                )) by {
                    if x as int / 64 == k {
                        assert(self@[x as int / 64] == 0);
                    }
                }
            }
            k += 1;
        }
        None
    }

    /// The largest member, if any.
    pub fn max(&self) -> (r: Option<u16>)
        requires
            self.wf(),
        ensures
            match r {
                None => forall|x: u16| !(#[trigger] self.contains_spec(x)),
                Some(v) => self.contains_spec(v) && forall|x: u16|
                    x > v ==> !(#[trigger] self.contains_spec(x)),
            },
    {
        let mut k: usize = 1024;
        while k > 0
            invariant
                self.wf(),
                k <= 1024,
                forall|x: u16| x as int / 64 >= k ==> !(#[trigger] self.contains_spec(x)),
            decreases k,
        {
            k -= 1;
            let w = self.bits[k];
            if w != 0 {
                let mut b: usize = 64;
                while b > 0
                    invariant
                        self.wf(),
                        k < 1024,
                        b <= 64,
                        w == self@[k as int],
                        forall|m: u64| b <= m < 64 ==> !(#[trigger] bit64(w, m)),
                        forall|x: u16| x as int / 64 > k ==> !(#[trigger] self.contains_spec(x)),
                    decreases b,
                {
                    b -= 1;
                    if (w >> (b as u64)) & 1 == 1 {
                        let v = (k * 64 + b) as u16;
                        proof {
                            assert(v as int / 64 == k && (v as u64) % 64 == b);
                            assert(self.contains_spec(v));
                            assert forall|x: u16| x > v implies !(#[trigger] self.contains_spec(
                                x,
                            )) by {
                                if x as int / 64 == k {
                                    assert((x as u64) % 64 > b);
                                }
                            }
                        }
                        return Some(v);
                    }
                }
                proof {
                    lemma_word_empty(w);
                    assert(false);
                }
            }
            proof {
                lemma_zero_bits();
                assert forall|x: u16| x as int / 64 >= k implies !(#[trigger] self.contains_spec(
                    x,
                )) by {
                    if x as int / 64 == k {
                        assert(self@[x as int / 64] == 0);
                    }
                }
            }
        }
        proof {
            assert forall|x: u16| true implies !(#[trigger] self.contains_spec(x)) by {
                assert(x as int / 64 >= 0);
            }
        }
        None
    }

    /// Sets bit `index` only if it is above every member; returns whether
    /// it did.
    pub fn push(&mut self, index: u16) -> (r: bool)
        requires
            old(self).wf(),
        ensures
            final(self).wf(),
            r == (forall|x: u16| #[trigger] old(self).contains_spec(x) ==> x < index),
            r ==> final(self).len_spec() == old(self).len_spec() + 1 && forall|x: u16| #[trigger]
                final(self).contains_spec(x) <==> old(self).contains_spec(x) || x == index,
            !r ==> *final(self) == *old(self),
    {
        let do_push = match self.max() {
            Some(m) => m < index,
            None => true,
        };
        if do_push {
            proof {
                assert forall|x: u16| #[trigger] self.contains_spec(x) implies x < index by {}
            }
            self.insert(index);
            true
        } else {
            proof {
                let m = choose|m: u16| self.contains_spec(m) && m >= index;
                assert(!forall|x: u16| #[trigger] self.contains_spec(x) ==> x < index);
            }
            false
        }
    }

    /// Sets every bit of `[start, end]` by whole-word masks; returns the
    /// number of newly set bits.
    pub fn insert_range(&mut self, start: u16, end: u16) -> (r: u64)
        requires
            old(self).wf(),
            start <= end,
        ensures
            final(self).wf(),
            forall|x: u16| #[trigger]
                final(self).contains_spec(x) <==> old(self).contains_spec(x) || (start <= x
                    <= end),
            final(self).len_spec() == old(self).len_spec() + r,
    {
        let ghost words0 = self@;
        proof {
            lemma_total_bound(words0, 1024);
        }
        let kw_start = (start / 64) as usize;
        let kw_end = (end / 64) as usize;
        let mut r: u64 = 0;
        let mut k: usize = kw_start;
        while k <= kw_end
            invariant
                start <= end,
                kw_start == start as int / 64,
                kw_end == end as int / 64,
                kw_start <= k <= kw_end + 1,
                kw_end < 1024,
                self@.len() == 1024,
                words0.len() == 1024,
                self.len_spec() == total_pop(self@, 1024),
                self.len_spec() == total_pop(words0, 1024) + r,
                total_pop(words0, 1024) == old(self).len_spec(),
                0 <= total_pop(words0, 1024) <= 65536,
                0 <= total_pop(self@, 1024) <= 65536,
                r <= 65536,
                forall|x: u16|
                    kw_start <= x as int / 64 < k ==> (#[trigger] bm_contains(self@, x) <==> bm_contains(
                        words0,
                        x,
                    ) || (start <= x <= end)),
                forall|x: u16|
                    !(kw_start <= x as int / 64 < k) ==> (#[trigger] bm_contains(self@, x)
                        == bm_contains(words0, x)),
            decreases kw_end + 1 - k,
        {
            let lo: u64 = if k == kw_start {
                (start % 64) as u64
            } else {
                0
            };
            let hi: u64 = if k == kw_end {
                (end % 64) as u64
            } else {
                63
            };
            let mask = ((!0u64) << lo) & ((!0u64) >> ((63 - hi) as u64));
            let w = self.bits[k];
            let neww = w | mask;
            proof {
                assert(mask == range_mask(lo, hi));
                lemma_range_mask(lo, hi);
                lemma_word_or(w, mask);
                lemma_pop_mono(w, neww, 64);
                lemma_word_pop_bound(w, 64);
                lemma_word_pop_bound(neww, 64);
            }
            let added = count_ones_u64(neww) - count_ones_u64(w);
            let ghost pre = self@;
            self.bits[k] = neww;
            proof {
                lemma_total_update(pre, k as int, neww, 1024);
                lemma_total_bound(self@, 1024);
            }
            self.len = self.len + added;
            r = r + added;
            proof {
                assert forall|x: u16|
                    kw_start <= x as int / 64 < k + 1 implies (#[trigger] bm_contains(self@, x)
                    <==> bm_contains(words0, x) || (start <= x <= end)) by {
                    lemma_in_word_range(pre, self@, words0, x, k as int, start, end, lo, hi);
                }
                assert forall|x: u16|
                    !(kw_start <= x as int / 64 < k + 1) implies (#[trigger] bm_contains(self@, x)
                    == bm_contains(words0, x)) by {
                    assert(self@[x as int / 64] == pre[x as int / 64]);
                    assert(bm_contains(pre, x) == bm_contains(words0, x));
                }
            }
            k += 1;
        }
        proof {
            assert forall|x: u16| #[trigger]
                bm_contains(self@, x) <==> bm_contains(words0, x) || (start <= x <= end) by {
                if !(kw_start <= x as int / 64 < k) {
                    lemma_outside_words(x, start, end);
                }
            }
        }
        r
    }

    /// Clears every bit of `[start, end]` by whole-word masks; returns the
    /// number of cleared bits.
    pub fn remove_range(&mut self, start: u16, end: u16) -> (r: u64)
        requires
            old(self).wf(),
            start <= end,
        ensures
            final(self).wf(),
            forall|x: u16| #[trigger]
                final(self).contains_spec(x) <==> old(self).contains_spec(x) && !(start <= x
                    <= end),
            final(self).len_spec() == old(self).len_spec() - r,
    {
        let ghost words0 = self@;
        proof {
            lemma_total_bound(words0, 1024);
        }
        let kw_start = (start / 64) as usize;
        let kw_end = (end / 64) as usize;
        let mut r: u64 = 0;
        let mut k: usize = kw_start;
        while k <= kw_end
            invariant
                start <= end,
                kw_start == start as int / 64,
                kw_end == end as int / 64,
                kw_start <= k <= kw_end + 1,
                kw_end < 1024,
                self@.len() == 1024,
                words0.len() == 1024,
                self.len_spec() == total_pop(self@, 1024),
                self.len_spec() == total_pop(words0, 1024) - r,
                total_pop(words0, 1024) == old(self).len_spec(),
                0 <= total_pop(words0, 1024) <= 65536,
                0 <= total_pop(self@, 1024) <= 65536,
                r <= 65536,
                forall|x: u16|
                    kw_start <= x as int / 64 < k ==> (#[trigger] bm_contains(self@, x) <==> bm_contains(
                        words0,
                        x,
                    ) && !(start <= x <= end)),
                forall|x: u16|
                    !(kw_start <= x as int / 64 < k) ==> (#[trigger] bm_contains(self@, x)
                        == bm_contains(words0, x)),
            decreases kw_end + 1 - k,
        {
            let lo: u64 = if k == kw_start {
                (start % 64) as u64
            } else {
                0
            };
            let hi: u64 = if k == kw_end {
                (end % 64) as u64
            } else {
                63
            };
            let mask = ((!0u64) << lo) & ((!0u64) >> ((63 - hi) as u64));
            let w = self.bits[k];
            let neww = w & !mask;
            proof {
                assert(mask == range_mask(lo, hi));
                lemma_range_mask(lo, hi);
                lemma_word_andnot(w, mask);
                lemma_pop_mono(neww, w, 64);
                lemma_word_pop_bound(w, 64);
                lemma_word_pop_bound(neww, 64);
            }
            let removed = count_ones_u64(w) - count_ones_u64(neww);
            let ghost pre = self@;
            proof {
                lemma_total_at_least_word(pre, k as int, 1024);
            }
            self.bits[k] = neww;
            self.len = self.len - removed;
            r = r + removed;
            proof {
                lemma_total_update(pre, k as int, neww, 1024);
                assert forall|x: u16|
                    kw_start <= x as int / 64 < k + 1 implies (#[trigger] bm_contains(self@, x)
                    <==> bm_contains(words0, x) && !(start <= x <= end)) by {
                    lemma_in_word_range_clear(pre, self@, words0, x, k as int, start, end, lo, hi);
                }
                assert forall|x: u16|
                    !(kw_start <= x as int / 64 < k + 1) implies (#[trigger] bm_contains(self@, x)
                    == bm_contains(words0, x)) by {
                    assert(self@[x as int / 64] == pre[x as int / 64]);
                    assert(bm_contains(pre, x) == bm_contains(words0, x));
                }
            }
            k += 1;
        }
        proof {
            assert forall|x: u16| #[trigger]
                bm_contains(self@, x) <==> bm_contains(words0, x) && !(start <= x <= end) by {
                if !(kw_start <= x as int / 64 < k) {
                    lemma_outside_words(x, start, end);
                }
            }
        }
        r
    }
}

impl BitmapStore {
    /// Combine with another dense bitmap, word by word.
    fn apply_words(&mut self, op: SetOp, rhs: &BitmapStore)
        requires
            old(self).wf(),
            rhs.wf(),
        ensures
            final(self).wf(),
            forall|x: u16| #[trigger]
                final(self).contains_spec(x) <==> op_keeps(
                    op,
                    old(self).contains_spec(x),
                    rhs.contains_spec(x),
                ),
    {
        let ghost w0 = self@;
        let mut k: usize = 0;
        while k < 1024
            invariant
                self@.len() == 1024,
                rhs.wf(),
                w0.len() == 1024,
                k <= 1024,
                forall|x: u16|
                    x as int / 64 < k ==> (#[trigger] bm_contains(self@, x) <==> op_keeps(
                        op,
                        bm_contains(w0, x),
                        rhs.contains_spec(x),
                    )),
                forall|m: int| k <= m < 1024 ==> self@[m] == w0[m],
            decreases 1024 - k,
        {
            let w = self.bits[k];
            let v = rhs.bits[k];
            let neww = match op {
                SetOp::Union => w | v,
                SetOp::Intersection => w & v,
                SetOp::Difference => w & !v,
                SetOp::SymmetricDifference => w ^ v,
            };
            proof {
                lemma_word_or(w, v);
                lemma_word_and(w, v);
                lemma_word_andnot(w, v);
                lemma_word_xor(w, v);
            }
            let ghost pre = self@;
            self.bits[k] = neww;
            proof {
                assert forall|x: u16|
                    x as int / 64 < k + 1 implies (#[trigger] bm_contains(self@, x) <==> op_keeps(
                        op,
                        bm_contains(w0, x),
                        rhs.contains_spec(x),
                    )) by {
                    if x as int / 64 == k {
                        assert(self@[x as int / 64] == neww);
                        assert(w == w0[x as int / 64] && v == rhs@[x as int / 64]);
                    } else {
                        assert(self@[x as int / 64] == pre[x as int / 64]);
                        assert(bm_contains(pre, x) <==> op_keeps(
                            op,
                            bm_contains(w0, x),
                            rhs.contains_spec(x),
                        ));
                    }
                }
                assert forall|m: int| k + 1 <= m < 1024 implies self@[m] == w0[m] by {
                    assert(self@[m] == pre[m]);
                }
            }
            k += 1;
        }
        self.recompute_len();
    }

    /// Union in place with another dense bitmap.
    pub fn bitor_assign(&mut self, rhs: &BitmapStore)
        requires
            old(self).wf(),
            rhs.wf(),
        ensures
            final(self).wf(),
            forall|x: u16| #[trigger]
                final(self).contains_spec(x) <==> old(self).contains_spec(x) || rhs.contains_spec(
                    x,
                ),
    {
        self.apply_words(SetOp::Union, rhs);
    }

    /// Intersection in place with another dense bitmap.
    pub fn bitand_assign(&mut self, rhs: &BitmapStore)
        requires
            old(self).wf(),
            rhs.wf(),
        ensures
            final(self).wf(),
            forall|x: u16| #[trigger]
                final(self).contains_spec(x) <==> old(self).contains_spec(x) && rhs.contains_spec(
                    x,
                ),
    {
        self.apply_words(SetOp::Intersection, rhs);
    }

    /// Difference in place with another dense bitmap.
    pub fn sub_assign(&mut self, rhs: &BitmapStore)
        requires
            old(self).wf(),
            rhs.wf(),
        ensures
            final(self).wf(),
            forall|x: u16| #[trigger]
                final(self).contains_spec(x) <==> old(self).contains_spec(x) && !rhs.contains_spec(
                    x,
                ),
    {
        self.apply_words(SetOp::Difference, rhs);
    }

    /// Symmetric difference in place with another dense bitmap.
    pub fn bitxor_assign(&mut self, rhs: &BitmapStore)
        requires
            old(self).wf(),
            rhs.wf(),
        ensures
            final(self).wf(),
            forall|x: u16| #[trigger]
                final(self).contains_spec(x) <==> (old(self).contains_spec(x) != rhs.contains_spec(
                    x,
                )),
    {
        self.apply_words(SetOp::SymmetricDifference, rhs);
    }

    /// Union in place with a sorted array: set one bit per element.
    pub fn bitor_assign_array(&mut self, rhs: &ArrayStore)
        requires
            old(self).wf(),
            rhs.wf(),
        ensures
            final(self).wf(),
            forall|x: u16| #[trigger]
                final(self).contains_spec(x) <==> old(self).contains_spec(x) || rhs@.contains(x),
    {
        let ghost b0 = *self;
        let ghost a = rhs@;
        let s = rhs.as_slice();
        let mut i: usize = 0;
        while i < s.len()
            invariant
                self.wf(),
                a == s@,
                i <= a.len(),
                forall|x: u16| #[trigger]
                    self.contains_spec(x) <==> b0.contains_spec(x) || a.take(i as int).contains(x),
            decreases a.len() - i,
        {
            proof {
                lemma_take_step(a, i as int);
            }
            self.insert(s[i]);
            proof {
                assert(a.take(i + 1).contains(a[i as int])) by {
                    assert(a.take(i + 1)[i as int] == a[i as int]);
                }
            }
            i += 1;
        }
        proof {
            lemma_take_full(a);
        }
    }

    /// Difference in place with a sorted array: clear one bit per element.
    pub fn sub_assign_array(&mut self, rhs: &ArrayStore)
        requires
            old(self).wf(),
            rhs.wf(),
        ensures
            final(self).wf(),
            forall|x: u16| #[trigger]
                final(self).contains_spec(x) <==> old(self).contains_spec(x) && !rhs@.contains(x),
    {
        let ghost b0 = *self;
        let ghost a = rhs@;
        let s = rhs.as_slice();
        let mut i: usize = 0;
        while i < s.len()
            invariant
                self.wf(),
                a == s@,
                i <= a.len(),
                forall|x: u16| #[trigger]
                    self.contains_spec(x) <==> b0.contains_spec(x) && !a.take(i as int).contains(
                        x,
                    ),
            decreases a.len() - i,
        {
            proof {
                lemma_take_step(a, i as int);
            }
            self.remove(s[i]);
            proof {
                assert(a.take(i + 1).contains(a[i as int])) by {
                    assert(a.take(i + 1)[i as int] == a[i as int]);
                }
            }
            i += 1;
        }
        proof {
            lemma_take_full(a);
        }
    }

    /// Symmetric difference in place with a sorted array: toggle one bit
    /// per element; each element appears once, so each bit flips once.
    pub fn bitxor_assign_array(&mut self, rhs: &ArrayStore)
        requires
            old(self).wf(),
            rhs.wf(),
        ensures
            final(self).wf(),
            forall|x: u16| #[trigger]
                final(self).contains_spec(x) <==> (old(self).contains_spec(x) != rhs@.contains(x)),
    {
        let ghost b0 = *self;
        let ghost a = rhs@;
        let s = rhs.as_slice();
        let mut i: usize = 0;
        while i < s.len()
            invariant
                self.wf(),
                sorted_strict(a),
                a == s@,
                i <= a.len(),
                forall|x: u16| #[trigger]
                    self.contains_spec(x) <==> (b0.contains_spec(x) != a.take(i as int).contains(
                        x,
                    )),
            decreases a.len() - i,
        {
            let v = s[i];
            proof {
                lemma_take_step(a, i as int);
                // Each element appears once: it is not in the processed
                // prefix.
                if a.take(i as int).contains(v) {
                    let m = choose|m: int| 0 <= m < i && a.take(i as int)[m] == v;
                    assert(a[m] < a[i as int]);
                }
            }
            if self.contains(v) {
                self.remove(v);
            } else {
                self.insert(v);
            }
            proof {
                assert(a.take(i + 1).contains(a[i as int])) by {
                    assert(a.take(i + 1)[i as int] == a[i as int]);
                }
            }
            i += 1;
        }
        proof {
            lemma_take_full(a);
        }
    }

    /// Walk the words low to high and collect the set bits as a sorted
    /// array.
    pub fn to_array_store(&self) -> (r: ArrayStore)
        requires
            self.wf(),
        ensures
            r.wf(),
            r@.len() == self.len_spec(),
            forall|x: u16| #[trigger] r@.contains(x) <==> self.contains_spec(x),
    {
        let mut out: Vec<u16> = Vec::new();
        let mut k: usize = 0;
        while k < 1024
            invariant
                self.wf(),
                k <= 1024,
                sorted_strict(out@),
                out@.len() == total_pop(self@, k as int),
                forall|m: int| 0 <= m < out@.len() ==> out@[m] < 64 * k,
                forall|x: u16|
                    x as int / 64 < k ==> (#[trigger] out@.contains(x) == self.contains_spec(x)),
                forall|x: u16| x as int / 64 >= k ==> !(#[trigger] out@.contains(x)),
            decreases 1024 - k,
        {
            let w = self.bits[k];
            let mut b: usize = 0;
            while b < 64
                invariant
                    self.wf(),
                    k < 1024,
                    b <= 64,
                    w == self@[k as int],
                    sorted_strict(out@),
                    out@.len() == total_pop(self@, k as int) + word_pop(w, b as int),
                    forall|m: int| 0 <= m < out@.len() ==> out@[m] < 64 * k + b,
                    forall|x: u16|
                        x as int / 64 < k ==> (#[trigger] out@.contains(x) == self.contains_spec(
                            x,
                        )),
                    forall|x: u16|
                        x as int / 64 == k && (x as u64) % 64 < b ==> (#[trigger] out@.contains(x)
                            == self.contains_spec(x)),
                    forall|x: u16|
                        x as int / 64 > k || (x as int / 64 == k && (x as u64) % 64 >= b) ==> !(
                        #[trigger] out@.contains(x)),
                decreases 64 - b,
            {
                if (w >> (b as u64)) & 1 == 1 {
                    let v = (k * 64 + b) as u16;
                    proof {
                        assert(v as int / 64 == k && (v as u64) % 64 == b);
                        lemma_push_contains(out@, v);
                    }
                    out.push(v);
                }
                proof {
                    assert forall|x: u16|
                        x as int / 64 == k && (x as u64) % 64 < b + 1 implies (
                    #[trigger] out@.contains(x) == self.contains_spec(x)) by {
                        if (x as u64) % 64 == b {
                            assert(x as int == 64 * (x as int / 64) + (x as int) % 64);
                        }
                    }
                }
                b += 1;
            }
            k += 1;
        }
        proof {
            assert forall|x: u16| #[trigger] out@.contains(x) == self.contains_spec(x) by {
                assert(x as int / 64 < 1024);
            }
        }
        ArrayStore::from_vec_unchecked(out)
    }

    /// Whether no value is held: the cache is zero exactly when every bit
    /// is clear.
    pub fn is_empty(&self) -> (r: bool)
        requires
            self.wf(),
        ensures
            r == forall|x: u16| !(#[trigger] self.contains_spec(x)),
    {
        proof {
            lemma_count_empty(self@);
            if self.len_spec() == 0 {
                assert forall|x: u16| !(#[trigger] self.contains_spec(x)) by {
                    assert(!bm_contains(self@, x));
                }
            } else {
                if forall|x: u16| !(#[trigger] self.contains_spec(x)) {
                    assert forall|x: u16| !(#[trigger] bm_contains(self@, x)) by {
                        assert(!self.contains_spec(x));
                    }
                    assert(false);
                }
            }
        }
        self.len == 0
    }

    /// No bit in common with the other dense bitmap.
    pub fn is_disjoint(&self, other: &BitmapStore) -> (r: bool)
        requires
            self.wf(),
            other.wf(),
        ensures
            r == forall|x: u16| !(self.contains_spec(x) && other.contains_spec(x)),
    {
        let mut k: usize = 0;
        while k < 1024
            invariant
                self.wf(),
                other.wf(),
                k <= 1024,
                forall|x: u16|
                    x as int / 64 < k ==> !(#[trigger] self.contains_spec(x)
                        && other.contains_spec(x)),
            decreases 1024 - k,
        {
            let w = self.bits[k] & other.bits[k];
            if w != 0 {
                proof {
                    lemma_word_and(self@[k as int], other@[k as int]);
                    let b = choose|b: u64| b < 64 && bit64(w, b);
                    assert(exists|b: u64| b < 64 && bit64(w, b)) by {
                        if forall|m: u64| m < 64 ==> !(#[trigger] bit64(w, m)) {
                            lemma_word_empty(w);
                        }
                    }
                    let bw = choose|b: u64| b < 64 && bit64(w, b);
                    let xv = (64 * k + bw) as u16;
                    assert(xv as int / 64 == k && (xv as u64) % 64 == bw);
                    assert(self.contains_spec(xv) && other.contains_spec(xv));
                    assert(!forall|x: u16| !(self.contains_spec(x) && other.contains_spec(x)));
                }
                return false;
            }
            proof {
                lemma_word_and(self@[k as int], other@[k as int]);
                lemma_zero_bits();
                assert forall|x: u16| x as int / 64 < k + 1 implies !(#[trigger] self.contains_spec(
                    x,
                ) && other.contains_spec(x)) by {
                    if x as int / 64 == k {
                        assert(!bit64(w, (x as u64) % 64));
                    }
                }
            }
            k += 1;
        }
        proof {
            assert forall|x: u16| !(self.contains_spec(x) && other.contains_spec(x)) by {
                assert(x as int / 64 < 1024);
            }
        }
        true
    }

    /// Every bit of this bitmap is set in the other.
    pub fn is_subset(&self, other: &BitmapStore) -> (r: bool)
        requires
            self.wf(),
            other.wf(),
        ensures
            r == forall|x: u16| #[trigger] self.contains_spec(x) ==> other.contains_spec(x),
    {
        let mut k: usize = 0;
        while k < 1024
            invariant
                self.wf(),
                other.wf(),
                k <= 1024,
                forall|x: u16|
                    x as int / 64 < k && #[trigger] self.contains_spec(x)
                        ==> other.contains_spec(x),
            decreases 1024 - k,
        {
            let w = self.bits[k] & !other.bits[k];
            if w != 0 {
                proof {
                    lemma_word_andnot(self@[k as int], other@[k as int]);
                    assert(exists|b: u64| b < 64 && bit64(w, b)) by {
                        if forall|m: u64| m < 64 ==> !(#[trigger] bit64(w, m)) {
                            lemma_word_empty(w);
                        }
                    }
                    let bw = choose|b: u64| b < 64 && bit64(w, b);
                    let xv = (64 * k + bw) as u16;
                    assert(xv as int / 64 == k && (xv as u64) % 64 == bw);
                    assert(self.contains_spec(xv) && !other.contains_spec(xv));
                    assert(!forall|x: u16| #[trigger]
                        self.contains_spec(x) ==> other.contains_spec(x));
                }
                return false;
            }
            proof {
                lemma_word_andnot(self@[k as int], other@[k as int]);
                lemma_zero_bits();
                assert forall|x: u16|
                    x as int / 64 < k + 1 && #[trigger] self.contains_spec(x) implies other.contains_spec(
                    x,
                ) by {
                    if x as int / 64 == k {
                        assert(!bit64(w, (x as u64) % 64));
                    }
                }
            }
            k += 1;
        }
        proof {
            assert forall|x: u16| #[trigger]
                self.contains_spec(x) implies other.contains_spec(x) by {
                assert(x as int / 64 < 1024);
            }
        }
        true
    }
}

/// Whether two dense bitmaps hold the same cache and words.
pub fn bitmap_eq(a: &BitmapStore, b: &BitmapStore) -> (r: bool)
    ensures
        r == (a.len_spec() == b.len_spec() && a@ == b@),
{
    a.len == b.len && eq_vec_u64(&a.bits, &b.bits)
}

/// Element-wise comparison of two word vectors.
fn eq_vec_u64(a: &Vec<u64>, b: &Vec<u64>) -> (r: bool)
    ensures
        r == (a@ == b@),
{
    if a.len() != b.len() {
        proof {
            assert(a@ != b@);
        }
        return false;
    }
    let mut i: usize = 0;
    while i < a.len()
        invariant
            a@.len() == b@.len(),
            i <= a@.len(),
            forall|m: int| 0 <= m < i ==> a@[m] == #[trigger] b@[m],
        decreases a@.len() - i,
    {
        if a[i] != b[i] {
            proof {
                assert(a@[i as int] != b@[i as int]);
            }
            return false;
        }
        i += 1;
    }
    proof {
        assert(a@ =~= b@);
    }
    true
}

impl Clone for BitmapStore {
    fn clone(&self) -> (r: Self)
        ensures
            r@ == self@,
            r.len_spec() == self.len_spec(),
    {
        let bits = self.bits.clone();
        proof {
            assert(bits@ =~= self.bits@);
        }
        BitmapStore { len: self.len, bits }
    }
}

impl ArrayStore {
    /// Spread the sorted array over the 1024-word dense form, one bit per
    /// element.
    pub fn to_bitmap_store(&self) -> (r: BitmapStore)
        requires
            self.wf(),
        ensures
            r.wf(),
            r.len_spec() == self@.len(),
            forall|x: u16| #[trigger] r.contains_spec(x) <==> self@.contains(x),
    {
        let ghost a = self@;
        let mut bm = BitmapStore::new();
        let s = self.as_slice();
        let mut i: usize = 0;
        while i < s.len()
            invariant
                sorted_strict(a),
                a == s@,
                i <= a.len(),
                bm.wf(),
                bm.len_spec() == i,
                forall|x: u16| #[trigger] bm.contains_spec(x) <==> a.take(i as int).contains(x),
            decreases a.len() - i,
        {
            let v = s[i];
            proof {
                lemma_take_step(a, i as int);
                // The next element is new: everything seen so far is
                // smaller.
                if a.take(i as int).contains(v) {
                    let m = choose|m: int| 0 <= m < i && a.take(i as int)[m] == v;
                    assert(a[m] < a[i as int]);
                }
            }
            bm.insert(v);
            proof {
                assert(a.take(i + 1).contains(a[i as int])) by {
                    assert(a.take(i + 1)[i as int] == a[i as int]);
                }
            }
            i += 1;
        }
        proof {
            lemma_take_full(a);
        }
        bm
    }
}

/// Filter a sorted array down to the elements the dense bitmap holds.
pub fn and_assign_array_bitmap(lhs: &mut ArrayStore, rhs: &BitmapStore)
    requires
        old(lhs).wf(),
        rhs.wf(),
    ensures
        final(lhs).wf(),
        forall|x: u16| #[trigger]
            final(lhs)@.contains(x) <==> old(lhs)@.contains(x) && rhs.contains_spec(x),
{
    let ghost a = lhs@;
    let s = lhs.take_vec();
    let mut out: Vec<u16> = Vec::new();
    let mut i: usize = 0;
    while i < s.len()
        invariant
            sorted_strict(a),
            a == s@,
            rhs.wf(),
            i <= a.len(),
            sorted_strict(out@),
            forall|m: int| 0 <= m < out@.len() && i < a.len() ==> out@[m] < a[i as int],
            forall|x: u16| #[trigger]
                out@.contains(x) <==> a.take(i as int).contains(x) && rhs.contains_spec(x),
        decreases a.len() - i,
    {
        let v = s[i];
        proof {
            lemma_take_step(a, i as int);
            lemma_push_contains(out@, v);
            if out@.contains(v) {
                let m = choose|m: int| 0 <= m < out@.len() && out@[m] == v;
            }
            if a.take(i as int).contains(v) {
                let m = choose|m: int| 0 <= m < i && a.take(i as int)[m] == v;
                assert(a[m] < a[i as int]);
            }
            assert(a.take(i + 1).contains(a[i as int])) by {
                assert(a.take(i + 1)[i as int] == a[i as int]);
            }
        }
        if rhs.contains(v) {
            out.push(v);
        }
        i += 1;
    }
    proof {
        lemma_take_full(a);
    }
    lhs.replace_vec(out);
}

/// Filter a sorted array down to the elements the dense bitmap lacks.
pub fn sub_assign_array_bitmap(lhs: &mut ArrayStore, rhs: &BitmapStore)
    requires
        old(lhs).wf(),
        rhs.wf(),
    ensures
        final(lhs).wf(),
        forall|x: u16| #[trigger]
            final(lhs)@.contains(x) <==> old(lhs)@.contains(x) && !rhs.contains_spec(x),
{
    let ghost a = lhs@;
    let s = lhs.take_vec();
    let mut out: Vec<u16> = Vec::new();
    let mut i: usize = 0;
    while i < s.len()
        invariant
            sorted_strict(a),
            a == s@,
            rhs.wf(),
            i <= a.len(),
            sorted_strict(out@),
            forall|m: int| 0 <= m < out@.len() && i < a.len() ==> out@[m] < a[i as int],
            forall|x: u16| #[trigger]
                out@.contains(x) <==> a.take(i as int).contains(x) && !rhs.contains_spec(x),
        decreases a.len() - i,
    {
        let v = s[i];
        proof {
            lemma_take_step(a, i as int);
            lemma_push_contains(out@, v);
            if out@.contains(v) {
                let m = choose|m: int| 0 <= m < out@.len() && out@[m] == v;
            }
            if a.take(i as int).contains(v) {
                let m = choose|m: int| 0 <= m < i && a.take(i as int)[m] == v;
                assert(a[m] < a[i as int]);
            }
            assert(a.take(i + 1).contains(a[i as int])) by {
                assert(a.take(i + 1)[i as int] == a[i as int]);
            }
        }
        if !rhs.contains(v) {
            out.push(v);
        }
        i += 1;
    }
    proof {
        lemma_take_full(a);
    }
    lhs.replace_vec(out);
}

/// The cached count is zero exactly when no value is held.
pub proof fn lemma_count_empty(words: Seq<u64>)
    requires
        words.len() == 1024,
    ensures
        (total_pop(words, 1024) == 0) <==> (forall|x: u16| !(#[trigger] bm_contains(words, x))),
{
    if total_pop(words, 1024) == 0 {
        assert forall|x: u16| !(#[trigger] bm_contains(words, x)) by {
            let k = x as int / 64;
            lemma_each_word_zero(words, 1024, k);
            if bm_contains(words, x) {
                lemma_pop_positive(words[k], (x as u64) % 64, 64);
            }
        }
    }
    if forall|x: u16| !(#[trigger] bm_contains(words, x)) {
        assert forall|k: int| 0 <= k < 1024 implies pop64(#[trigger] words[k]) == 0 by {
            assert forall|m: u64| m < 64 implies !(#[trigger] bit64(words[k], m)) by {
                let xv = (64 * k + m) as u16;
                assert(xv as int / 64 == k && (xv as u64) % 64 == m);
                assert(!bm_contains(words, xv));
            }
            lemma_pop_zero(words[k], 64);
        }
        lemma_total_zero_pop(words, 1024);
    }
}

/// A zero total forces a zero count in every word.
proof fn lemma_each_word_zero(words: Seq<u64>, n: int, k: int)
    requires
        0 <= k < n <= words.len(),
        total_pop(words, n) == 0,
    ensures
        pop64(words[k]) == 0,
    decreases n,
{
    lemma_word_pop_bound(words[n - 1], 64);
    lemma_total_bound_local(words, n - 1);
    if k < n - 1 {
        lemma_each_word_zero(words, n - 1, k);
    }
}

proof fn lemma_total_bound_local(words: Seq<u64>, n: int)
    requires
        0 <= n <= words.len(),
    ensures
        0 <= total_pop(words, n),
    decreases n,
{
    if n > 0 {
        lemma_total_bound_local(words, n - 1);
        lemma_word_pop_bound(words[n - 1], 64);
    }
}

/// Zero counts in every word sum to a zero total.
proof fn lemma_total_zero_pop(words: Seq<u64>, n: int)
    requires
        0 <= n <= words.len(),
        forall|k: int| 0 <= k < n ==> pop64(#[trigger] words[k]) == 0,
    ensures
        total_pop(words, n) == 0,
    decreases n,
{
    if n > 0 {
        lemma_total_zero_pop(words, n - 1);
    }
}

/// Count the set bits of one word, bit by bit.
fn count_ones_u64(w: u64) -> (r: u64)
    ensures
        r == pop64(w),
        r <= 64,
{
    let mut c: u64 = 0;
    let mut i: usize = 0;
    while i < 64
        invariant
            i <= 64,
            c == word_pop(w, i as int),
            c <= i,
        decreases 64 - i,
    {
        if (w >> (i as u64)) & 1 == 1 {
            c = c + 1;
        }
        i += 1;
    }
    c
}

/// Update of one word shifts the total by that word's delta.
proof fn lemma_total_update(words: Seq<u64>, k: int, v: u64, n: int)
    requires
        0 <= k < words.len(),
        n <= words.len(),
    ensures
        total_pop(words.update(k, v), n) == total_pop(words, n) + (if k < n {
            pop64(v) - pop64(words[k])
        } else {
            0int
        }),
    decreases n,
{
    if n > 0 {
        lemma_total_update(words, k, v, n - 1);
    }
}

/// The total count of 1024 words stays within the bit capacity.
pub proof fn lemma_total_bound_pub(words: Seq<u64>, n: int)
    requires
        0 <= n <= words.len(),
    ensures
        0 <= total_pop(words, n) <= 64 * n,
{
    lemma_total_bound(words, n);
}

proof fn lemma_total_bound(words: Seq<u64>, n: int)
    requires
        0 <= n <= words.len(),
    ensures
        0 <= total_pop(words, n) <= 64 * n,
    decreases n,
{
    if n > 0 {
        lemma_total_bound(words, n - 1);
        lemma_word_pop_bound(words[n - 1], 64);
    }
}

/// The total count is at least any single word's count.
proof fn lemma_total_at_least_word(words: Seq<u64>, k: int, n: int)
    requires
        0 <= k < n <= words.len(),
    ensures
        total_pop(words, n) >= pop64(words[k]),
    decreases n,
{
    if k < n - 1 {
        lemma_total_at_least_word(words, k, n - 1);
        lemma_word_pop_bound(words[n - 1], 64);
    } else {
        lemma_total_bound(words, n - 1);
    }
}

/// All-zero words hold nothing.
proof fn lemma_total_zero(words: Seq<u64>, n: int)
    requires
        0 <= n <= words.len(),
        forall|m: int| 0 <= m < n ==> words[m] == 0,
    ensures
        total_pop(words, n) == 0,
    decreases n,
{
    if n > 0 {
        lemma_total_zero(words, n - 1);
        lemma_zero_bits();
    }
}

/// Unchanged words mean unchanged membership.
proof fn lemma_same_contains(w1: Seq<u64>, w2: Seq<u64>, index: u16)
    requires
        w1[index as int / 64] == w2[index as int / 64],
    ensures
        bm_contains(w1, index) == bm_contains(w2, index),
{
}

/// Membership after a single-bit update of one word.
proof fn lemma_update_contains(words: Seq<u64>, key: int, neww: u64, index: u16)
    requires
        words.len() == 1024,
        key == index as int / 64,
        forall|m: u64|
            m < 64 && m != (index as u64) % 64 ==> (#[trigger] bit64(neww, m) == bit64(
                words[key],
                m,
            )),
    ensures
        forall|x: u16|
            x != index ==> (#[trigger] bm_contains(words.update(key, neww), x) == bm_contains(
                words,
                x,
            )),
        bm_contains(words.update(key, neww), index) == bit64(neww, (index as u64) % 64),
{
    let t = words.update(key, neww);
    assert forall|x: u16| x != index implies (#[trigger] bm_contains(t, x) == bm_contains(
        words,
        x,
    )) by {
        if x as int / 64 == key {
            assert((x as u64) % 64 != (index as u64) % 64);
        } else {
            assert(t[x as int / 64] == words[x as int / 64]);
        }
    }
}

/// Membership after masking a word range in, for the values of that word.
#[verifier::spinoff_prover]
proof fn lemma_in_word_range(
    pre: Seq<u64>,
    post: Seq<u64>,
    words0: Seq<u64>,
    x: u16,
    k: int,
    start: u16,
    end: u16,
    lo: u64,
    hi: u64,
)
    requires
        pre.len() == 1024,
        post == pre.update(k, pre[k] | range_mask(lo, hi)),
        0 <= k < 1024,
        start <= end,
        start as int / 64 <= k <= end as int / 64,
        lo == (if k == start as int / 64 {
            (start as u64) % 64
        } else {
            0u64
        }),
        hi == (if k == end as int / 64 {
            (end as u64) % 64
        } else {
            63u64
        }),
        start as int / 64 <= x as int / 64 <= k,
        forall|y: u16|
            start as int / 64 <= y as int / 64 < k ==> (#[trigger] bm_contains(pre, y)
                <==> bm_contains(words0, y) || (start <= y <= end)),
        forall|y: u16|
            !(start as int / 64 <= y as int / 64 < k) ==> (#[trigger] bm_contains(pre, y)
                == bm_contains(words0, y)),
    ensures
        bm_contains(post, x) <==> bm_contains(words0, x) || (start <= x <= end),
{
    lemma_range_mask(lo, hi);
    lemma_word_or(pre[k], range_mask(lo, hi));
    if x as int / 64 < k {
        assert(post[x as int / 64] == pre[x as int / 64]);
        assert(bm_contains(pre, x) <==> bm_contains(words0, x) || (start <= x <= end));
    } else {
        assert(post[k] == pre[k] | range_mask(lo, hi));
        assert(bm_contains(pre, x) == bm_contains(words0, x));
        let m = (x as u64) % 64;
        assert(m < 64);
        assert(bm_contains(post, x) <==> (bm_contains(pre, x) || lo <= m <= hi));
        assert((lo <= m <= hi) <==> (start <= x <= end)) by {
            assert(x as int == 64 * (x as int / 64) + (x as int) % 64);
            assert(start as int == 64 * (start as int / 64) + (start as int) % 64);
            assert(end as int == 64 * (end as int / 64) + (end as int) % 64);
        }
    }
}

/// Membership after masking a word range out, for the values of that word.
#[verifier::spinoff_prover]
proof fn lemma_in_word_range_clear(
    pre: Seq<u64>,
    post: Seq<u64>,
    words0: Seq<u64>,
    x: u16,
    k: int,
    start: u16,
    end: u16,
    lo: u64,
    hi: u64,
)
    requires
        pre.len() == 1024,
        post == pre.update(k, pre[k] & !range_mask(lo, hi)),
        0 <= k < 1024,
        start <= end,
        start as int / 64 <= k <= end as int / 64,
        lo == (if k == start as int / 64 {
            (start as u64) % 64
        } else {
            0u64
        }),
        hi == (if k == end as int / 64 {
            (end as u64) % 64
        } else {
            63u64
        }),
        start as int / 64 <= x as int / 64 <= k,
        forall|y: u16|
            start as int / 64 <= y as int / 64 < k ==> (#[trigger] bm_contains(pre, y)
                <==> bm_contains(words0, y) && !(start <= y <= end)),
        forall|y: u16|
            !(start as int / 64 <= y as int / 64 < k) ==> (#[trigger] bm_contains(pre, y)
                == bm_contains(words0, y)),
    ensures
        bm_contains(post, x) <==> bm_contains(words0, x) && !(start <= x <= end),
{
    lemma_range_mask(lo, hi);
    lemma_word_andnot(pre[k], range_mask(lo, hi));
    if x as int / 64 < k {
        assert(post[x as int / 64] == pre[x as int / 64]);
        assert(bm_contains(pre, x) <==> bm_contains(words0, x) && !(start <= x <= end));
    } else {
        assert(post[k] == pre[k] & !range_mask(lo, hi));
        assert(bm_contains(pre, x) == bm_contains(words0, x));
        let m = (x as u64) % 64;
        assert(m < 64);
        assert(bm_contains(post, x) <==> (bm_contains(pre, x) && !(lo <= m <= hi)));
        assert((lo <= m <= hi) <==> (start <= x <= end)) by {
            assert(x as int == 64 * (x as int / 64) + (x as int) % 64);
            assert(start as int == 64 * (start as int / 64) + (start as int) % 64);
            assert(end as int == 64 * (end as int / 64) + (end as int) % 64);
        }
    }
}

/// A value whose word lies outside the masked window lies outside the
/// range itself.
proof fn lemma_outside_words(x: u16, start: u16, end: u16)
    requires
        start <= end,
        !(start as int / 64 <= x as int / 64 <= end as int / 64),
    ensures
        !(start <= x <= end),
{
    assert(x as int == 64 * (x as int / 64) + (x as int) % 64);
    assert(start as int == 64 * (start as int / 64) + (start as int) % 64);
    assert(end as int == 64 * (end as int / 64) + (end as int) % 64);
}

} // verus!
