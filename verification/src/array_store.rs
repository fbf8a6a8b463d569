//! The sparse container representation: a sorted, duplicate-free vector of
//! 16-bit values.

use vstd::prelude::*;

use crate::seq_facts::{
    lemma_concat_contains, lemma_push_contains, lemma_sorted_len, lemma_take_skip,
};
use crate::util::{exponential_search, lower_bound, sorted_strict, upper_bound};

verus! {

/// A sorted, duplicate-free sequence of low-16 values.
#[derive(Debug)]
pub struct ArrayStore {
    vec: Vec<u16>,
}

/// Why a vector was rejected as the contents of an `ArrayStore`.
#[derive(Clone, Copy, PartialEq, Eq, Structural, Debug)]
pub enum ErrorKind {
    /// An element equals its predecessor.
    Duplicate,
    /// An element is below its predecessor.
    OutOfOrder,
}

/// The first position at which a vector fails to be strictly increasing.
#[derive(Clone, Copy, PartialEq, Eq, Structural, Debug)]
pub struct Error {
    pub index: usize,
    pub kind: ErrorKind,
}

/// The number of elements of `s` outside the inclusive range
/// `[start, end]`.
pub open spec fn count_kept(s: Seq<u16>, start: u16, end: u16) -> int
    decreases s.len(),
{
    if s.len() == 0 {
        0
    } else {
        count_kept(s.drop_last(), start, end) + if s.last() < start || s.last() > end {
            1int
        } else {
            0int
        }
    }
}

impl View for ArrayStore {
    type V = Seq<u16>;

    closed spec fn view(&self) -> Seq<u16> {
        self.vec@
    }
}

impl ArrayStore {
    /// The invariant: the vector is strictly increasing.
    pub open spec fn wf(&self) -> bool {
        sorted_strict(self@)
    }

    pub fn new() -> (r: ArrayStore)
        ensures
            r.wf(),
            r@ == Seq::<u16>::empty(),
    {
        let r = ArrayStore { vec: Vec::new() };
        proof {
            assert(r@ =~= Seq::<u16>::empty());
        }
        r
    }

    /// Create a store from a vector the caller has already sorted and
    /// deduplicated; `try_from_vec` checks those invariants instead.
    pub fn from_vec_unchecked(vec: Vec<u16>) -> (r: ArrayStore)
        requires
            sorted_strict(vec@),
        ensures
            r.wf(),
            r@ == vec@,
    {
        ArrayStore { vec }
    }

    /// Create a store from a vector, rejecting one that is not strictly
    /// increasing, with the first offending position.
    pub fn try_from_vec(value: Vec<u16>) -> (r: Result<ArrayStore, Error>)
        ensures
            match r {
                Ok(s) => s.wf() && s@ == value@,
                Err(e) => {
                    &&& !sorted_strict(value@)
                    &&& 1 <= e.index < value@.len()
                    &&& forall|m: int|
                        1 <= m < e.index ==> value@[m - 1] < #[trigger] value@[m]
                    &&& (e.kind == ErrorKind::Duplicate <==> value@[e.index - 1] == value@[e.index as int])
                    &&& (e.kind == ErrorKind::OutOfOrder <==> value@[e.index - 1] > value@[e.index as int])
                },
            },
    {
        let mut i: usize = 1;
        while i < value.len()
            invariant
                1 <= i,
                forall|m: int| 1 <= m < i && m < value@.len() ==> value@[m - 1] < #[trigger] value@[m],
            decreases value@.len() - i,
        {
            let prev = value[i - 1];
            let cur = value[i];
            if cur < prev {
                return Err(Error { index: i, kind: ErrorKind::OutOfOrder });
            } else if cur == prev {
                return Err(Error { index: i, kind: ErrorKind::Duplicate });
            }
            i += 1;
        }
        proof {
            lemma_adjacent_sorted(value@);
        }
        Ok(ArrayStore { vec: value })
    }

    /// Capacity is not part of the model; releasing spare capacity changes
    /// nothing that the contracts speak of.
    pub fn shrink_to_fit(&mut self)
        ensures
            *final(self) == *old(self),
    {
    }

    /// Adds a value; returns whether it was absent.
    pub fn insert(&mut self, index: u16) -> (r: bool)
        requires
            old(self).wf(),
        ensures
            final(self).wf(),
            r == !old(self)@.contains(index),
            forall|x: u16| #[trigger]
                final(self)@.contains(x) <==> old(self)@.contains(x) || x == index,
            final(self)@.len() == old(self)@.len() + (if r {
                1int
            } else {
                0int
            }),
    {
        let ghost s = self@;
        let pos = lower_bound(self.vec.as_slice(), index);
        if pos < self.vec.len() && self.vec[pos] == index {
            proof {
                assert(s.contains(index));
            }
            false
        } else {
            proof {
                if s.contains(index) {
                    let k = choose|k: int| 0 <= k < s.len() && s[k] == index;
                    assert(k < pos ==> s[k] < index);
                    assert(k > pos ==> s[pos as int] < s[k]);
                    assert(false);
                }
            }
            self.vec.insert(pos, index);
            proof {
                lemma_insert_at(s, pos as int, index, self@);
            }
            true
        }
    }

    /// Removes a value; returns whether it was present.
    pub fn remove(&mut self, index: u16) -> (r: bool)
        requires
            old(self).wf(),
        ensures
            final(self).wf(),
            r == old(self)@.contains(index),
            forall|x: u16| #[trigger]
                final(self)@.contains(x) <==> old(self)@.contains(x) && x != index,
            final(self)@.len() == old(self)@.len() - (if r {
                1int
            } else {
                0int
            }),
    {
        let ghost s = self@;
        let pos = lower_bound(self.vec.as_slice(), index);
        if pos < self.vec.len() && self.vec[pos] == index {
            self.vec.remove(pos);
            proof {
                assert(s.contains(index));
                lemma_remove_at(s, pos as int, self@);
            }
            true
        } else {
            proof {
                if s.contains(index) {
                    let k = choose|k: int| 0 <= k < s.len() && s[k] == index;
                    assert(k < pos ==> s[k] < index);
                    assert(k > pos ==> s[pos as int] < s[k]);
                    assert(false);
                }
            }
            false
        }
    }

    /// Adds every value of the inclusive range `[start, end]`; returns how
    /// many were newly added.
    pub fn insert_range(&mut self, start: u16, end: u16) -> (r: u64)
        requires
            old(self).wf(),
            start <= end,
        ensures
            final(self).wf(),
            forall|x: u16| #[trigger]
                final(self)@.contains(x) <==> old(self)@.contains(x) || (start <= x <= end),
            final(self)@.len() == old(self)@.len() + r,
            r == end - start + 1 - (old(self)@.len() - count_kept(old(self)@, start, end)),
    {
        let ghost s = self@;
        let ps = lower_bound(self.vec.as_slice(), start);
        let pe = upper_bound(self.vec.as_slice(), end);
        proof {
            if pe < ps {
                assert(s[pe as int] < start);
            }
            lemma_sorted_len(s);
        }
        let mut out: Vec<u16> = vstd::slice::slice_to_vec(
            vstd::slice::slice_subrange(self.vec.as_slice(), 0, ps),
        );
        let mut v: u32 = start as u32;
        while v <= end as u32
            invariant
                s == self@,
                sorted_strict(s),
                start <= v <= end + 1,
                ps <= pe <= s.len(),
                forall|m: int| 0 <= m < ps ==> s[m] < start,
                out@.len() == ps + (v - start),
                forall|m: int| 0 <= m < ps ==> out@[m] == s[m],
                forall|m: int| ps <= m < out@.len() ==> out@[m] == start + (m - ps),
            decreases end + 1 - v,
        {
            out.push(v as u16);
            v += 1;
        }
        out.extend_from_slice(vstd::slice::slice_subrange(self.vec.as_slice(), pe, self.vec.len()));
        proof {
            assert(pe - ps <= end - start + 1) by {
                crate::seq_facts::lemma_window_len(s, ps as int, pe as int, start, end);
            }
        }
        let r: u64 = (end as u64 - start as u64 + 1) - ((pe - ps) as u64);
        self.vec = out;
        proof {
            lemma_range_rebuild(s, self@, ps as int, pe as int, start, end);
            assert(count_kept(s, start, end) == s.len() - (pe - ps)) by {
                lemma_count_outside(s, ps as int, pe as int, start, end);
            }
        }
        r
    }

    /// Removes every value of the inclusive range `[start, end]`; returns
    /// how many were removed.
    pub fn remove_range(&mut self, start: u16, end: u16) -> (r: u64)
        requires
            old(self).wf(),
            start <= end,
        ensures
            final(self).wf(),
            forall|x: u16| #[trigger]
                final(self)@.contains(x) <==> old(self)@.contains(x) && !(start <= x <= end),
            final(self)@.len() == old(self)@.len() - r,
    {
        let ghost s = self@;
        let ps = lower_bound(self.vec.as_slice(), start);
        let pe = upper_bound(self.vec.as_slice(), end);
        proof {
            if pe < ps {
                assert(s[pe as int] < start);
            }
        }
        let mut out: Vec<u16> = vstd::slice::slice_to_vec(
            vstd::slice::slice_subrange(self.vec.as_slice(), 0, ps),
        );
        out.extend_from_slice(vstd::slice::slice_subrange(self.vec.as_slice(), pe, self.vec.len()));
        let r: u64 = (pe - ps) as u64;
        self.vec = out;
        proof {
            lemma_range_drop(s, self@, ps as int, pe as int, start, end);
        }
        r
    }

    /// Membership test.
    pub fn contains(&self, index: u16) -> (r: bool)
        requires
            self.wf(),
        ensures
            r == self@.contains(index),
    {
        match exponential_search(self.vec.as_slice(), index) {
            Ok(i) => {
                proof {
                    assert(self@[i as int] == index);
                }
                true
            },
            Err(_) => false,
        }
    }

    /// Appends `index` only if it is above the current maximum; returns
    /// whether it was appended.
    pub fn push(&mut self, index: u16) -> (r: bool)
        requires
            old(self).wf(),
        ensures
            final(self).wf(),
            r == (old(self)@.len() == 0 || old(self)@.last() < index),
            r ==> final(self)@ == old(self)@.push(index),
            !r ==> final(self)@ == old(self)@,
    {
        let ghost s = self@;
        if self.vec.len() == 0 {
            self.vec.push(index);
            true
        } else {
            let last = self.vec[self.vec.len() - 1];
            if last < index {
                self.vec.push(index);
                proof {
                    assert forall|i: int, j: int| 0 <= i < j < self@.len() implies self@[i]
                        < self@[j] by {
                        if j == self@.len() - 1 {
                            assert(i < s.len() - 1 ==> s[i] < s[s.len() - 1]);
                        }
                    }
                }
                true
            } else {
                false
            }
        }
    }

    /// Appends `index` without testing it; the caller has already checked
    /// that it is above the current maximum.
    pub fn push_unchecked(&mut self, index: u16)
        requires
            old(self).wf(),
            old(self)@.len() == 0 || old(self)@.last() < index,
        ensures
            final(self).wf(),
            final(self)@ == old(self)@.push(index),
    {
        let ghost s = self@;
        self.vec.push(index);
        proof {
            assert forall|i: int, j: int| 0 <= i < j < self@.len() implies self@[i] < self@[j] by {
                if j == self@.len() - 1 {
                    assert(i < s.len() - 1 ==> s[i] < s[s.len() - 1]);
                }
            }
        }
    }

    pub fn len(&self) -> (r: u64)
        ensures
            r == self@.len(),
    {
        self.vec.len() as u64
    }

    pub fn min(&self) -> (r: Option<u16>)
        requires
            self.wf(),
        ensures
            r == (if self@.len() == 0 {
                Option::<u16>::None
            } else {
                Option::<u16>::Some(self@.first())
            }),
    {
        if self.vec.len() == 0 {
            None
        } else {
            Some(self.vec[0])
        }
    }

    pub fn max(&self) -> (r: Option<u16>)
        requires
            self.wf(),
        ensures
            r == (if self@.len() == 0 {
                Option::<u16>::None
            } else {
                Option::<u16>::Some(self@.last())
            }),
    {
        if self.vec.len() == 0 {
            None
        } else {
            Some(self.vec[self.vec.len() - 1])
        }
    }

    /// The elements, in ascending order.
    pub fn iter(&self) -> (r: &[u16])
        ensures
            r@ == self@,
    {
        self.vec.as_slice()
    }

    /// The elements, in ascending order, giving up the store.
    pub fn into_iter(self) -> (r: Vec<u16>)
        ensures
            r@ == self@,
    {
        self.vec
    }

    pub fn as_slice(&self) -> (r: &[u16])
        ensures
            r@ == self@,
    {
        self.vec.as_slice()
    }

    /// Move the contents out, leaving the store empty; the counterpart of
    /// `replace_vec` for operations that work on the bare vector.
    pub fn take_vec(&mut self) -> (r: Vec<u16>)
        ensures
            r@ == old(self)@,
            final(self)@ == Seq::<u16>::empty(),
    {
        let mut v: Vec<u16> = Vec::new();
        proof {
            assert(v@ =~= Seq::<u16>::empty());
        }
        core::mem::swap(&mut self.vec, &mut v);
        v
    }

    /// Replace the contents with an already-sorted vector.
    pub fn replace_vec(&mut self, vec: Vec<u16>)
        requires
            sorted_strict(vec@),
        ensures
            final(self).wf(),
            final(self)@ == vec@,
    {
        self.vec = vec;
    }
}

impl Default for ArrayStore {
    fn default() -> (r: Self)
        ensures
            r.wf(),
            r@ == Seq::<u16>::empty(),
    {
        ArrayStore::new()
    }
}

impl Clone for ArrayStore {
    fn clone(&self) -> (r: Self)
        ensures
            r@ == self@,
    {
        let vec = self.vec.clone();
        proof {
            assert(vec@ =~= self.vec@);
        }
        ArrayStore { vec }
    }
}

/// Whether two array stores hold the same sequence.
pub fn array_eq(a: &ArrayStore, b: &ArrayStore) -> (r: bool)
    ensures
        r == (a@ == b@),
{
    eq_vec_u16(&a.vec, &b.vec)
}

/// Element-wise comparison of two vectors of 16-bit values.
pub(crate) fn eq_vec_u16(a: &Vec<u16>, b: &Vec<u16>) -> (r: bool)
    ensures
        r == (a@ == b@),
{
    if a.len() != b.len() {
        proof {
            assert(a@ != b@);
        }
        return false;
    }
    let mut i: usize = 0;
    while i < a.len()
        invariant
            a@.len() == b@.len(),
            i <= a@.len(),
            forall|m: int| 0 <= m < i ==> a@[m] == #[trigger] b@[m],
        decreases a@.len() - i,
    {
        if a[i] != b[i] {
            proof {
                assert(a@[i as int] != b@[i as int]);
            }
            return false;
        }
        i += 1;
    }
    proof {
        assert(a@ =~= b@);
    }
    true
}

/// A sequence whose adjacent elements increase is strictly increasing.
proof fn lemma_adjacent_sorted(s: Seq<u16>)
    requires
        forall|m: int| 1 <= m < s.len() ==> s[m - 1] < #[trigger] s[m],
    ensures
        sorted_strict(s),
{
    assert forall|i: int, j: int| 0 <= i < j < s.len() implies s[i] < s[j] by {
        lemma_adjacent_mono(s, i, j);
    }
}

proof fn lemma_adjacent_mono(s: Seq<u16>, i: int, j: int)
    requires
        forall|m: int| 1 <= m < s.len() ==> s[m - 1] < #[trigger] s[m],
        0 <= i < j < s.len(),
    ensures
        s[i] < s[j],
    decreases j - i,
{
    if i + 1 < j {
        lemma_adjacent_mono(s, i + 1, j);
    }
}

/// What inserting at the lower-bound position does to a sorted sequence.
proof fn lemma_insert_at(s: Seq<u16>, pos: int, v: u16, t: Seq<u16>)
    requires
        sorted_strict(s),
        0 <= pos <= s.len(),
        forall|m: int| 0 <= m < pos ==> s[m] < v,
        forall|m: int| pos <= m < s.len() ==> s[m] > v,
        t == s.insert(pos, v),
    ensures
        sorted_strict(t),
        forall|x: u16| #[trigger] t.contains(x) <==> s.contains(x) || x == v,
        t.len() == s.len() + 1,
{
    assert(t =~= s.take(pos).push(v) + s.skip(pos));
    lemma_take_skip(s, pos);
    lemma_push_contains(s.take(pos), v);
    lemma_concat_contains(s.take(pos).push(v), s.skip(pos));
    assert forall|i: int, j: int| 0 <= i < j < t.len() implies t[i] < t[j] by {
        assert(i < pos ==> t[i] == s[i]);
        assert(i == pos ==> t[i] == v);
        assert(i > pos ==> t[i] == s[i - 1]);
        assert(j < pos ==> t[j] == s[j]);
        assert(j == pos ==> t[j] == v);
        assert(j > pos ==> t[j] == s[j - 1]);
    }
}

/// What removing the hit position does to a sorted sequence.
proof fn lemma_remove_at(s: Seq<u16>, pos: int, t: Seq<u16>)
    requires
        sorted_strict(s),
        0 <= pos < s.len(),
        t == s.remove(pos),
    ensures
        sorted_strict(t),
        forall|x: u16| #[trigger] t.contains(x) <==> s.contains(x) && x != s[pos],
        t.len() == s.len() - 1,
{
    assert(t =~= s.take(pos) + s.skip(pos + 1));
    lemma_concat_contains(s.take(pos), s.skip(pos + 1));
    assert forall|i: int, j: int| 0 <= i < j < t.len() implies t[i] < t[j] by {
        assert(i < pos ==> t[i] == s[i]);
        assert(i >= pos ==> t[i] == s[i + 1]);
        assert(j < pos ==> t[j] == s[j]);
        assert(j >= pos ==> t[j] == s[j + 1]);
    }
    assert forall|x: u16| #[trigger] t.contains(x) implies s.contains(x) && x != s[pos] by {
        let k = choose|k: int| 0 <= k < t.len() && t[k] == x;
        if k < pos {
            assert(s[k] == x);
        } else {
            assert(s[k + 1] == x);
        }
    }
    assert forall|x: u16| s.contains(x) && x != s[pos] implies #[trigger] t.contains(x) by {
        let k = choose|k: int| 0 <= k < s.len() && s[k] == x;
        if k < pos {
            assert(t[k] == x);
        } else {
            assert(t[k - 1] == x);
        }
    }
}

/// The shape of the vector rebuilt by a range insertion: the old prefix
/// below `start`, the full run `[start, end]`, the old suffix above `end`.
proof fn lemma_range_rebuild(s: Seq<u16>, t: Seq<u16>, ps: int, pe: int, start: u16, end: u16)
    requires
        sorted_strict(s),
        start <= end,
        0 <= ps <= pe <= s.len(),
        forall|m: int| 0 <= m < ps ==> s[m] < start,
        forall|m: int| ps <= m < s.len() ==> s[m] >= start,
        forall|m: int| 0 <= m < pe ==> s[m] <= end,
        forall|m: int| pe <= m < s.len() ==> s[m] > end,
        t.len() == ps + (end - start + 1) + (s.len() - pe),
        forall|m: int| 0 <= m < ps ==> t[m] == s[m],
        forall|m: int| ps <= m < ps + (end - start + 1) ==> t[m] == start + (m - ps),
        forall|m: int| ps + (end - start + 1) <= m < t.len() ==> t[m] == s[m - (end - start + 1) + (
        pe - ps)],
    ensures
        sorted_strict(t),
        forall|x: u16| #[trigger] t.contains(x) <==> s.contains(x) || (start <= x <= end),
{
    let run = (end - start + 1) as int;
    assert forall|i: int, j: int| 0 <= i < j < t.len() implies t[i] < t[j] by {
        if i < ps && ps <= j < ps + run {
            assert(t[i] == s[i] && s[i] < start);
        } else if i < ps && j >= ps + run {
            assert(s[i] < start && s[j - run + pe - ps] > end);
        } else if ps <= i < ps + run && j >= ps + run {
            assert(t[i] <= end && s[j - run + pe - ps] > end);
        }
    }
    assert forall|x: u16| #[trigger] t.contains(x) implies s.contains(x) || (start <= x
        <= end) by {
        let k = choose|k: int| 0 <= k < t.len() && t[k] == x;
        if k < ps {
            assert(s[k] == x);
        } else if k < ps + run {
        } else {
            assert(s[k - run + pe - ps] == x);
        }
    }
    assert forall|x: u16| s.contains(x) || (start <= x <= end) implies #[trigger] t.contains(
        x,
    ) by {
        if start <= x <= end {
            assert(t[ps + (x - start)] == x);
        } else {
            let k = choose|k: int| 0 <= k < s.len() && s[k] == x;
            if k < ps {
                assert(t[k] == x);
            } else {
                // An old element at or after `ps` that is not in the run
                // lies above `end`, hence at or after `pe`.
                assert(s[k] >= start);
                assert(k < pe ==> s[k] <= end);
                assert(t[k + run - (pe - ps)] == x);
            }
        }
    }
}

/// The old elements outside `[start, end]` are exactly those outside the
/// index window `[ps, pe)`.
proof fn lemma_count_outside(s: Seq<u16>, ps: int, pe: int, start: u16, end: u16)
    requires
        sorted_strict(s),
        0 <= ps <= pe <= s.len(),
        forall|m: int| 0 <= m < ps ==> s[m] < start,
        forall|m: int| ps <= m < pe ==> start <= #[trigger] s[m] <= end,
        forall|m: int| pe <= m < s.len() ==> s[m] > end,
    ensures
        count_kept(s, start, end) == s.len() - (pe - ps),
    decreases s.len(),
{
    if s.len() > 0 {
        let prefix = s.drop_last();
        if pe == s.len() {
            if ps == s.len() {
                // The window is empty; the last element lies below `start`.
                lemma_count_outside(prefix, ps - 1, pe - 1, start, end);
            } else {
                // The last element lies inside the window.
                lemma_count_outside(prefix, ps, pe - 1, start, end);
            }
        } else {
            // The last element lies above `end`.
            lemma_count_outside(prefix, ps, pe, start, end);
        }
    }
}

/// The shape of the vector rebuilt by a range removal: the old prefix
/// below `start` and the old suffix above `end`.
proof fn lemma_range_drop(s: Seq<u16>, t: Seq<u16>, ps: int, pe: int, start: u16, end: u16)
    requires
        sorted_strict(s),
        start <= end,
        0 <= ps <= pe <= s.len(),
        forall|m: int| 0 <= m < ps ==> s[m] < start,
        forall|m: int| ps <= m < s.len() ==> s[m] >= start,
        forall|m: int| 0 <= m < pe ==> s[m] <= end,
        forall|m: int| pe <= m < s.len() ==> s[m] > end,
        t.len() == ps + (s.len() - pe),
        forall|m: int| 0 <= m < ps ==> t[m] == s[m],
        forall|m: int| ps <= m < t.len() ==> t[m] == s[m + (pe - ps)],
    ensures
        sorted_strict(t),
        forall|x: u16| #[trigger] t.contains(x) <==> s.contains(x) && !(start <= x <= end),
{
    assert forall|i: int, j: int| 0 <= i < j < t.len() implies t[i] < t[j] by {}
    assert forall|x: u16| #[trigger] t.contains(x) implies s.contains(x) && !(start <= x
        <= end) by {
        let k = choose|k: int| 0 <= k < t.len() && t[k] == x;
        if k < ps {
            assert(s[k] == x && x < start);
        } else {
            assert(s[k + (pe - ps)] == x && x > end);
        }
    }
    assert forall|x: u16| s.contains(x) && !(start <= x <= end) implies #[trigger] t.contains(
        x,
    ) by {
        let k = choose|k: int| 0 <= k < s.len() && s[k] == x;
        if x < start {
            assert(k < ps);
            assert(t[k] == x);
        } else {
            assert(k >= pe);
            assert(t[k - (pe - ps)] == x);
        }
    }
}

} // verus!
