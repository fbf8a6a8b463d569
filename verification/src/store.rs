//! The tagged container representation: a sorted array while sparse, a
//! dense bitmap while full, with every operation dispatching on the pair
//! of variants.

use vstd::prelude::*;

use crate::array_store::ArrayStore;
use crate::bitmap_store::{
    and_assign_array_bitmap, sub_assign_array_bitmap, BitmapStore,
};
use crate::util::sorted_strict;

verus! {

/// One of the two physical representations inside a container.
#[derive(Debug)]
pub enum Store {
    Array(ArrayStore),
    Bitmap(BitmapStore),
}

/// An ascending cursor over the values a store held when it was made.
pub enum Iter {
    Array(Vec<u16>, usize),
    Bitmap(Vec<u16>, usize),
}

impl Store {
    /// The representation invariant of whichever variant is present.
    pub open spec fn wf(&self) -> bool {
        match self {
            Store::Array(a) => a.wf(),
            Store::Bitmap(b) => b.wf(),
        }
    }

    /// Membership of a low-16 value.
    pub open spec fn contains_spec(&self, x: u16) -> bool {
        match self {
            Store::Array(a) => a@.contains(x),
            Store::Bitmap(b) => b.contains_spec(x),
        }
    }

    /// The number of values held.
    pub open spec fn population(&self) -> int {
        match self {
            Store::Array(a) => a@.len() as int,
            Store::Bitmap(b) => b.len_spec() as int,
        }
    }

    pub fn new() -> (r: Store)
        ensures
            r.wf(),
            r is Array,
            r.population() == 0,
            forall|x: u16| !(#[trigger] r.contains_spec(x)),
    {
        Store::Array(ArrayStore::new())
    }

    /// Capacity is not modelled; nothing observable changes.
    pub fn shrink_to_fit(&mut self)
        ensures
            *final(self) == *old(self),
    {
        match self {
            Store::Array(a) => a.shrink_to_fit(),
            Store::Bitmap(..) => (),
        }
    }

    pub fn insert(&mut self, index: u16) -> (r: bool)
        requires
            old(self).wf(),
        ensures
            final(self).wf(),
            (*final(self)) is Array <==> (*old(self)) is Array,
            r == !old(self).contains_spec(index),
            forall|x: u16| #[trigger]
                final(self).contains_spec(x) <==> old(self).contains_spec(x) || x == index,
            final(self).population() == old(self).population() + (if r {
                1int
            } else {
                0int
            }),
    {
        match self {
            Store::Array(a) => a.insert(index),
            Store::Bitmap(b) => b.insert(index),
        }
    }

    /// Adds the values of `[start, end]`; an inverted range is empty and
    /// adds nothing.
    pub fn insert_range(&mut self, start: u16, end: u16) -> (r: u64)
        requires
            old(self).wf(),
        ensures
            final(self).wf(),
            (*final(self)) is Array <==> (*old(self)) is Array,
            forall|x: u16| #[trigger]
                final(self).contains_spec(x) <==> old(self).contains_spec(x) || (start <= x
                    <= end),
            final(self).population() == old(self).population() + r,
            start > end ==> r == 0 && *final(self) == *old(self),
    {
        if start > end {
            return 0;
        }
        match self {
            Store::Array(a) => a.insert_range(start, end),
            Store::Bitmap(b) => b.insert_range(start, end),
        }
    }

    /// Appends `index` only if it is above every value held; returns
    /// whether it was appended.
    pub fn push(&mut self, index: u16) -> (r: bool)
        requires
            old(self).wf(),
        ensures
            final(self).wf(),
            (*final(self)) is Array <==> (*old(self)) is Array,
            r == (forall|x: u16| #[trigger] old(self).contains_spec(x) ==> x < index),
            r ==> final(self).population() == old(self).population() + 1 && forall|x: u16|
                #[trigger] final(self).contains_spec(x) <==> old(self).contains_spec(x) || x
                    == index,
            !r ==> final(self).population() == old(self).population() && forall|x: u16|
                #[trigger] final(self).contains_spec(x) == old(self).contains_spec(x),
    {
        match self {
            Store::Array(a) => {
                let ghost s = a@;
                let r = a.push(index);
                proof {
                    if s.len() == 0 {
                        assert forall|x: u16| #[trigger] old(self).contains_spec(x) implies x
                            < index by {
                            assert(s.contains(x));
                        }
                    } else if s.last() < index {
                        assert forall|x: u16| #[trigger] old(self).contains_spec(x) implies x
                            < index by {
                            assert(s.contains(x));
                            let k = choose|k: int| 0 <= k < s.len() && s[k] == x;
                            assert(k < s.len() - 1 ==> s[k] < s[s.len() - 1]);
                        }
                        assert(r);
                    } else {
                        assert(s.contains(s.last()) && s.last() >= index) by {
                            assert(s[s.len() - 1] == s.last());
                        }
                        assert(old(self).contains_spec(s.last()));
                        assert(!r);
                    }
                    if r {
                        crate::seq_facts::lemma_push_contains(s, index);
                    }
                }
                r
            },
            Store::Bitmap(b) => {
                let ghost b0 = *b;
                let r = b.push(index);
                proof {
                    if r {
                        assert forall|x: u16| #[trigger] old(self).contains_spec(x) implies x
                            < index by {
                            assert(b0.contains_spec(x));
                        }
                    } else {
                        if forall|x: u16| #[trigger] old(self).contains_spec(x) ==> x < index {
                            assert forall|x: u16| #[trigger] b0.contains_spec(x) implies x
                                < index by {
                                assert(old(self).contains_spec(x));
                            }
                        }
                    }
                }
                r
            },
        }
    }

    pub fn remove(&mut self, index: u16) -> (r: bool)
        requires
            old(self).wf(),
        ensures
            final(self).wf(),
            (*final(self)) is Array <==> (*old(self)) is Array,
            r == old(self).contains_spec(index),
            forall|x: u16| #[trigger]
                final(self).contains_spec(x) <==> old(self).contains_spec(x) && x != index,
            final(self).population() == old(self).population() - (if r {
                1int
            } else {
                0int
            }),
    {
        match self {
            Store::Array(a) => a.remove(index),
            Store::Bitmap(b) => b.remove(index),
        }
    }

    /// Removes the values of `[start, end]`; an inverted range is empty
    /// and removes nothing.
    pub fn remove_range(&mut self, start: u16, end: u16) -> (r: u64)
        requires
            old(self).wf(),
        ensures
            final(self).wf(),
            (*final(self)) is Array <==> (*old(self)) is Array,
            forall|x: u16| #[trigger]
                final(self).contains_spec(x) <==> old(self).contains_spec(x) && !(start <= x
                    <= end),
            final(self).population() == old(self).population() - r,
            start > end ==> r == 0 && *final(self) == *old(self),
    {
        if start > end {
            return 0;
        }
        match self {
            Store::Array(a) => a.remove_range(start, end),
            Store::Bitmap(b) => b.remove_range(start, end),
        }
    }

    pub fn contains(&self, index: u16) -> (r: bool)
        requires
            self.wf(),
        ensures
            r == self.contains_spec(index),
    {
        match self {
            Store::Array(a) => a.contains(index),
            Store::Bitmap(b) => b.contains(index),
        }
    }

    pub fn is_disjoint(&self, other: &Store) -> (r: bool)
        requires
            self.wf(),
            other.wf(),
        ensures
            r == forall|x: u16| !(self.contains_spec(x) && other.contains_spec(x)),
    {
        match (self, other) {
            (Store::Array(a1), Store::Array(a2)) => {
                let r = a1.is_disjoint(a2);
                proof {
                    if r {
                        assert forall|x: u16| !(self.contains_spec(x) && other.contains_spec(
                            x,
                        )) by {
                            assert(!(a1@.contains(x) && a2@.contains(x)));
                        }
                    } else if forall|x: u16| !(self.contains_spec(x) && other.contains_spec(x)) {
                        assert forall|x: u16| !(a1@.contains(x) && a2@.contains(x)) by {
                            assert(!(self.contains_spec(x) && other.contains_spec(x)));
                        }
                    }
                }
                r
            },
            (Store::Bitmap(b1), Store::Bitmap(b2)) => {
                let r = b1.is_disjoint(b2);
                proof {
                    if r {
                        assert forall|x: u16| !(self.contains_spec(x) && other.contains_spec(
                            x,
                        )) by {
                            assert(!(b1.contains_spec(x) && b2.contains_spec(x)));
                        }
                    } else if forall|x: u16| !(self.contains_spec(x) && other.contains_spec(x)) {
                        assert forall|x: u16| !(b1.contains_spec(x) && b2.contains_spec(x)) by {
                            assert(!(self.contains_spec(x) && other.contains_spec(x)));
                        }
                    }
                }
                r
            },
            (Store::Array(a1), Store::Bitmap(b2)) => {
                let r = array_bitmap_disjoint(a1, b2);
                proof {
                    if r {
                        assert forall|x: u16| !(self.contains_spec(x) && other.contains_spec(
                            x,
                        )) by {
                            assert(!(a1@.contains(x) && b2.contains_spec(x)));
                        }
                    } else if forall|x: u16| !(self.contains_spec(x) && other.contains_spec(x)) {
                        assert forall|x: u16| !(a1@.contains(x) && b2.contains_spec(x)) by {
                            assert(!(self.contains_spec(x) && other.contains_spec(x)));
                        }
                    }
                }
                r
            },
            (Store::Bitmap(b1), Store::Array(a2)) => {
                let r = array_bitmap_disjoint(a2, b1);
                proof {
                    if r {
                        assert forall|x: u16| !(self.contains_spec(x) && other.contains_spec(
                            x,
                        )) by {
                            assert(!(a2@.contains(x) && b1.contains_spec(x)));
                        }
                    } else if forall|x: u16| !(self.contains_spec(x) && other.contains_spec(x)) {
                        assert forall|x: u16| !(a2@.contains(x) && b1.contains_spec(x)) by {
                            assert(!(self.contains_spec(x) && other.contains_spec(x)));
                        }
                    }
                }
                r
            },
        }
    }

    pub fn is_subset(&self, other: &Store) -> (r: bool)
        requires
            self.wf(),
            other.wf(),
            self is Bitmap && other is Array ==> self.population() > other.population(),
        ensures
            r == forall|x: u16| #[trigger] self.contains_spec(x) ==> other.contains_spec(x),
    {
        match (self, other) {
            (Store::Array(a1), Store::Array(a2)) => {
                let r = a1.is_subset(a2);
                proof {
                    if r {
                        assert forall|x: u16| #[trigger] self.contains_spec(x) implies other.contains_spec(
                            x,
                        ) by {
                            assert(a1@.contains(x) ==> a2@.contains(x));
                        }
                    } else if forall|x: u16| #[trigger] self.contains_spec(x) ==> other.contains_spec(x) {
                        assert forall|x: u16| #[trigger] a1@.contains(x) implies a2@.contains(
                            x,
                        ) by {
                            assert(self.contains_spec(x) ==> other.contains_spec(x));
                        }
                    }
                }
                r
            },
            (Store::Bitmap(b1), Store::Bitmap(b2)) => {
                let r = b1.is_subset(b2);
                proof {
                    if r {
                        assert forall|x: u16| #[trigger] self.contains_spec(x) implies other.contains_spec(
                            x,
                        ) by {
                            assert(b1.contains_spec(x) ==> b2.contains_spec(x));
                        }
                    } else if forall|x: u16| #[trigger] self.contains_spec(x) ==> other.contains_spec(x) {
                        assert forall|x: u16| #[trigger] b1.contains_spec(x) implies b2.contains_spec(
                            x,
                        ) by {
                            assert(self.contains_spec(x) ==> other.contains_spec(x));
                        }
                    }
                }
                r
            },
            (Store::Array(a1), Store::Bitmap(b2)) => {
                let r = array_in_bitmap(a1, b2);
                proof {
                    if r {
                        assert forall|x: u16| #[trigger] self.contains_spec(x) implies other.contains_spec(
                            x,
                        ) by {
                            assert(a1@.contains(x) ==> b2.contains_spec(x));
                        }
                    } else if forall|x: u16| #[trigger] self.contains_spec(x) ==> other.contains_spec(x) {
                        assert forall|x: u16| #[trigger] a1@.contains(x) implies b2.contains_spec(
                            x,
                        ) by {
                            assert(self.contains_spec(x) ==> other.contains_spec(x));
                        }
                    }
                }
                r
            },
            (Store::Bitmap(b1), Store::Array(a2)) => {
                // A dense store strictly outnumbers the array, so it holds
                // a value the array lacks.
                let arr = b1.to_array_store();
                proof {
                    if forall|x: u16| #[trigger] self.contains_spec(x) ==> other.contains_spec(x) {
                        assert forall|x: u16| #[trigger] arr@.contains(x) implies a2@.contains(
                            x,
                        ) by {
                            assert(b1.contains_spec(x));
                            assert(self.contains_spec(x) ==> other.contains_spec(x));
                        }
                        crate::seq_facts::lemma_subset_len(arr@, a2@);
                        assert(false);
                    }
                }
                false
            },
        }
    }

    pub fn len(&self) -> (r: u64)
        requires
            self.wf(),
        ensures
            r == self.population(),
    {
        match self {
            Store::Array(a) => a.len(),
            Store::Bitmap(b) => b.len(),
        }
    }

    pub fn min(&self) -> (r: Option<u16>)
        requires
            self.wf(),
        ensures
            match r {
                None => forall|x: u16| !(#[trigger] self.contains_spec(x)),
                Some(v) => self.contains_spec(v) && forall|x: u16|
                    x < v ==> !(#[trigger] self.contains_spec(x)),
            },
    {
        match self {
            Store::Array(a) => {
                let r = a.min();
                proof {
                    if a@.len() > 0 {
                        assert(a@.contains(a@.first())) by {
                            assert(a@[0] == a@.first());
                        }
                        assert forall|x: u16| x < a@.first() implies !(#[trigger] a@.contains(
                            x,
                        )) by {
                            if a@.contains(x) {
                                let k = choose|k: int| 0 <= k < a@.len() && a@[k] == x;
                                assert(k > 0 ==> a@[0] < a@[k]);
                            }
                        }
                    }
                }
                r
            },
            Store::Bitmap(b) => b.min(),
        }
    }

    pub fn max(&self) -> (r: Option<u16>)
        requires
            self.wf(),
        ensures
            match r {
                None => forall|x: u16| !(#[trigger] self.contains_spec(x)),
                Some(v) => self.contains_spec(v) && forall|x: u16|
                    x > v ==> !(#[trigger] self.contains_spec(x)),
            },
    {
        match self {
            Store::Array(a) => {
                let r = a.max();
                proof {
                    if a@.len() > 0 {
                        assert(a@.contains(a@.last())) by {
                            assert(a@[a@.len() - 1] == a@.last());
                        }
                        assert forall|x: u16| x > a@.last() implies !(#[trigger] a@.contains(
                            x,
                        )) by {
                            if a@.contains(x) {
                                let k = choose|k: int| 0 <= k < a@.len() && a@[k] == x;
                                assert(k < a@.len() - 1 ==> a@[k] < a@[a@.len() - 1]);
                            }
                        }
                    }
                }
                r
            },
            Store::Bitmap(b) => b.max(),
        }
    }

    /// The dense form of this store, whatever its current variant.
    pub fn to_bitmap(&self) -> (r: Store)
        requires
            self.wf(),
        ensures
            r.wf(),
            r is Bitmap,
            r.population() == self.population(),
            forall|x: u16| #[trigger] r.contains_spec(x) <==> self.contains_spec(x),
    {
        match self {
            Store::Array(a) => Store::Bitmap(a.to_bitmap_store()),
            Store::Bitmap(b) => Store::Bitmap(b.clone()),
        }
    }

    /// The values in ascending order.
    pub fn to_vec(&self) -> (r: Vec<u16>)
        requires
            self.wf(),
        ensures
            sorted_strict(r@),
            r@.len() == self.population(),
            forall|x: u16| #[trigger] r@.contains(x) <==> self.contains_spec(x),
    {
        match self {
            Store::Array(a) => {
                vstd::slice::slice_to_vec(a.as_slice())
            },
            Store::Bitmap(b) => {
                let arr = b.to_array_store();
                arr.into_iter()
            },
        }
    }

    /// An ascending cursor over the values currently held.
    pub fn into_iter(self) -> (r: Iter)
        requires
            self.wf(),
        ensures
            r.wf(),
            forall|x: u16| #[trigger] r.remaining().contains(x) <==> self.contains_spec(x),
    {
        let v = self.to_vec();
        proof {
            assert(v@.skip(0) =~= v@);
        }
        let r = match self {
            Store::Array(..) => Iter::Array(v, 0),
            Store::Bitmap(..) => Iter::Bitmap(v, 0),
        };
        proof {
            assert forall|x: u16| #[trigger]
                r.remaining().contains(x) <==> self.contains_spec(x) by {
                assert(r.remaining() == v@);
                assert(v@.contains(x) <==> self.contains_spec(x));
            }
        }
        r
    }
}

impl Store {
    /// Union with another store, as a new store.
    pub fn bitor(&self, rhs: &Store) -> (r: Store)
        requires
            self.wf(),
            rhs.wf(),
        ensures
            r.wf(),
            forall|x: u16| #[trigger] r.contains_spec(x) <==> self.contains_spec(x) || rhs.contains_spec(x),
    {
        match (self, rhs) {
            (Store::Array(a1), Store::Array(a2)) => Store::Array(a1.bitor(a2)),
            (Store::Bitmap(b1), _) => {
                let mut out = b1.clone();
                match rhs {
                    Store::Array(a2) => out.bitor_assign_array(a2),
                    Store::Bitmap(b2) => out.bitor_assign(b2),
                }
                Store::Bitmap(out)
            },
            (Store::Array(a1), Store::Bitmap(b2)) => {
                let mut out = b2.clone();
                out.bitor_assign_array(a1);
                Store::Bitmap(out)
            },
        }
    }

    /// Intersection with another store, as a new store.
    pub fn bitand(&self, rhs: &Store) -> (r: Store)
        requires
            self.wf(),
            rhs.wf(),
        ensures
            r.wf(),
            forall|x: u16| #[trigger] r.contains_spec(x) <==> self.contains_spec(x) && rhs.contains_spec(x),
    {
        match (self, rhs) {
            (Store::Array(a1), Store::Array(a2)) => Store::Array(a1.bitand(a2)),
            (Store::Bitmap(b1), Store::Bitmap(b2)) => {
                let mut out = b1.clone();
                out.bitand_assign(b2);
                Store::Bitmap(out)
            },
            (Store::Array(a1), Store::Bitmap(b2)) => {
                let mut out = a1.clone();
                and_assign_array_bitmap(&mut out, b2);
                Store::Array(out)
            },
            (Store::Bitmap(b1), Store::Array(a2)) => {
                let mut out = a2.clone();
                and_assign_array_bitmap(&mut out, b1);
                Store::Array(out)
            },
        }
    }

    /// Difference with another store, as a new store.
    pub fn sub(&self, rhs: &Store) -> (r: Store)
        requires
            self.wf(),
            rhs.wf(),
        ensures
            r.wf(),
            forall|x: u16| #[trigger] r.contains_spec(x) <==> self.contains_spec(x) && !rhs.contains_spec(x),
    {
        match (self, rhs) {
            (Store::Array(a1), Store::Array(a2)) => Store::Array(a1.sub(a2)),
            (Store::Bitmap(b1), Store::Array(a2)) => {
                let mut out = b1.clone();
                out.sub_assign_array(a2);
                Store::Bitmap(out)
            },
            (Store::Bitmap(b1), Store::Bitmap(b2)) => {
                let mut out = b1.clone();
                out.sub_assign(b2);
                Store::Bitmap(out)
            },
            (Store::Array(a1), Store::Bitmap(b2)) => {
                let mut out = a1.clone();
                sub_assign_array_bitmap(&mut out, b2);
                Store::Array(out)
            },
        }
    }

    /// Symmetric difference with another store, as a new store.
    pub fn bitxor(&self, rhs: &Store) -> (r: Store)
        requires
            self.wf(),
            rhs.wf(),
        ensures
            r.wf(),
            forall|x: u16| #[trigger] r.contains_spec(x) <==> (self.contains_spec(x) != rhs.contains_spec(x)),
    {
        match (self, rhs) {
            (Store::Array(a1), Store::Array(a2)) => Store::Array(a1.bitxor(a2)),
            (Store::Bitmap(b1), Store::Array(a2)) => {
                let mut out = b1.clone();
                out.bitxor_assign_array(a2);
                Store::Bitmap(out)
            },
            (Store::Bitmap(b1), Store::Bitmap(b2)) => {
                let mut out = b1.clone();
                out.bitxor_assign(b2);
                Store::Bitmap(out)
            },
            (Store::Array(a1), Store::Bitmap(b2)) => {
                let mut out = b2.clone();
                out.bitxor_assign_array(a1);
                Store::Bitmap(out)
            },
        }
    }

    /// Union in place.
    pub fn bitor_assign(&mut self, rhs: &Store)
        requires
            old(self).wf(),
            rhs.wf(),
        ensures
            final(self).wf(),
            forall|x: u16| #[trigger]
                final(self).contains_spec(x) <==> old(self).contains_spec(x) || rhs.contains_spec(x),
    {
        let r = self.bitor(rhs);
        *self = r;
    }

    /// Intersection in place, the smaller array driving the merge.
    pub fn bitand_assign(&mut self, rhs: &Store)
        requires
            old(self).wf(),
            rhs.wf(),
        ensures
            final(self).wf(),
            forall|x: u16| #[trigger]
                final(self).contains_spec(x) <==> old(self).contains_spec(x) && rhs.contains_spec(x),
    {
        match (&mut *self, rhs) {
            (Store::Array(a1), Store::Array(a2)) => a1.bitand_assign(a2),
            (Store::Bitmap(b1), Store::Bitmap(b2)) => b1.bitand_assign(b2),
            (Store::Array(a1), Store::Bitmap(b2)) => and_assign_array_bitmap(a1, b2),
            (Store::Bitmap(..), Store::Array(..)) => {
                let r = self.bitand(rhs);
                *self = r;
            },
        }
    }

    /// Difference in place.
    pub fn sub_assign(&mut self, rhs: &Store)
        requires
            old(self).wf(),
            rhs.wf(),
        ensures
            final(self).wf(),
            forall|x: u16| #[trigger]
                final(self).contains_spec(x) <==> old(self).contains_spec(x) && !rhs.contains_spec(x),
    {
        match (&mut *self, rhs) {
            (Store::Array(a1), Store::Array(a2)) => a1.sub_assign(a2),
            (Store::Bitmap(b1), Store::Array(a2)) => b1.sub_assign_array(a2),
            (Store::Bitmap(b1), Store::Bitmap(b2)) => b1.sub_assign(b2),
            (Store::Array(a1), Store::Bitmap(b2)) => sub_assign_array_bitmap(a1, b2),
        }
    }

    /// Symmetric difference in place.
    pub fn bitxor_assign(&mut self, rhs: &Store)
        requires
            old(self).wf(),
            rhs.wf(),
        ensures
            final(self).wf(),
            forall|x: u16| #[trigger]
                final(self).contains_spec(x) <==> (old(self).contains_spec(x) != rhs.contains_spec(x)),
    {
        match (&mut *self, rhs) {
            (Store::Array(a1), Store::Array(a2)) => a1.bitxor_assign(a2),
            (Store::Bitmap(b1), Store::Array(a2)) => b1.bitxor_assign_array(a2),
            (Store::Bitmap(b1), Store::Bitmap(b2)) => b1.bitxor_assign(b2),
            (Store::Array(..), Store::Bitmap(..)) => {
                let r = self.bitxor(rhs);
                *self = r;
            },
        }
    }

    /// Union in place, galloping over a pair of arrays.
    pub fn union_gallop(&mut self, rhs: &Store)
        requires
            old(self).wf(),
            rhs.wf(),
        ensures
            final(self).wf(),
            forall|x: u16| #[trigger]
                final(self).contains_spec(x) <==> old(self).contains_spec(x) || rhs.contains_spec(x),
    {
        match (&mut *self, rhs) {
            (Store::Array(a1), Store::Array(a2)) => {
                let merged = crate::array_gallop::union_gallop(a1.as_slice(), a2.as_slice());
                a1.replace_vec(merged);
            },
            (Store::Bitmap(b1), Store::Array(a2)) => b1.bitor_assign_array(a2),
            (Store::Bitmap(b1), Store::Bitmap(b2)) => b1.bitor_assign(b2),
            (Store::Array(..), Store::Bitmap(..)) => {
                let r = self.bitor(rhs);
                *self = r;
            },
        }
    }
}

/// Sameness of representation and contents: the comparison containers
/// use; stores of different variants never compare equal.
pub open spec fn store_eq_spec(a: &Store, b: &Store) -> bool {
    match (a, b) {
        (Store::Array(a1), Store::Array(a2)) => a1@ == a2@,
        (Store::Bitmap(b1), Store::Bitmap(b2)) => b1.len_spec() == b2.len_spec() && b1@ == b2@,
        _ => false,
    }
}

/// Whether two stores have the same variant and contents.
pub fn store_eq(a: &Store, b: &Store) -> (r: bool)
    ensures
        r == store_eq_spec(a, b),
{
    match (a, b) {
        (Store::Array(a1), Store::Array(a2)) => crate::array_store::array_eq(a1, a2),
        (Store::Bitmap(b1), Store::Bitmap(b2)) => crate::bitmap_store::bitmap_eq(b1, b2),
        _ => false,
    }
}

impl Clone for Store {
    fn clone(&self) -> (r: Self)
        ensures
            r.wf() == self.wf(),
            forall|x: u16| #[trigger] r.contains_spec(x) == self.contains_spec(x),
            r.population() == self.population(),
            r is Array <==> self is Array,
    {
        match self {
            Store::Array(a) => Store::Array(a.clone()),
            Store::Bitmap(b) => Store::Bitmap(b.clone()),
        }
    }
}

impl Iter {
    /// The values not yet yielded.
    pub open spec fn remaining(&self) -> Seq<u16> {
        match self {
            Iter::Array(v, i) => v@.skip(*i as int),
            Iter::Bitmap(v, i) => v@.skip(*i as int),
        }
    }

    pub open spec fn wf(&self) -> bool {
        match self {
            Iter::Array(v, i) => sorted_strict(v@) && *i <= v@.len(),
            Iter::Bitmap(v, i) => sorted_strict(v@) && *i <= v@.len(),
        }
    }

    /// The next value in ascending order, if one is left.
    pub fn next(&mut self) -> (r: Option<u16>)
        requires
            old(self).wf(),
        ensures
            final(self).wf(),
            match r {
                None => old(self).remaining().len() == 0 && final(self).remaining()
                    == old(self).remaining(),
                Some(v) => old(self).remaining().len() > 0 && v == old(self).remaining()[0]
                    && final(self).remaining() == old(self).remaining().skip(1),
            },
    {
        let (v, i) = match self {
            Iter::Array(v, i) => (v, i),
            Iter::Bitmap(v, i) => (v, i),
        };
        if *i < v.len() {
            let out = v[*i];
            *i += 1;
            proof {
                assert(old(self).remaining().skip(1) =~= final(self).remaining());
                assert(old(self).remaining()[0] == out);
            }
            Some(out)
        } else {
            proof {
                assert(old(self).remaining() =~= final(self).remaining());
            }
            None
        }
    }
}

/// A sorted array has no element inside the bitmap.
fn array_bitmap_disjoint(a: &ArrayStore, b: &BitmapStore) -> (r: bool)
    requires
        a.wf(),
        b.wf(),
    ensures
        r == forall|x: u16| !(a@.contains(x) && b.contains_spec(x)),
{
    let ghost s = a@;
    let v = a.as_slice();
    let mut i: usize = 0;
    while i < v.len()
        invariant
            a.wf(),
            b.wf(),
            s == v@,
            s == a@,
            i <= s.len(),
            forall|m: int| 0 <= m < i ==> !b.contains_spec(#[trigger] s[m]),
        decreases s.len() - i,
    {
        if b.contains(v[i]) {
            proof {
                assert(s.contains(s[i as int]));
                assert(!forall|x: u16| !(a@.contains(x) && b.contains_spec(x))) by {
                    assert(a@.contains(s[i as int]) && b.contains_spec(s[i as int]));
                }
            }
            return false;
        }
        i += 1;
    }
    proof {
        assert forall|x: u16| !(a@.contains(x) && b.contains_spec(x)) by {
            if a@.contains(x) {
                let k = choose|k: int| 0 <= k < s.len() && s[k] == x;
                assert(!b.contains_spec(s[k]));
            }
        }
    }
    true
}

/// Every element of the sorted array is inside the bitmap.
fn array_in_bitmap(a: &ArrayStore, b: &BitmapStore) -> (r: bool)
    requires
        a.wf(),
        b.wf(),
    ensures
        r == forall|x: u16| #[trigger] a@.contains(x) ==> b.contains_spec(x),
{
    let ghost s = a@;
    let v = a.as_slice();
    let mut i: usize = 0;
    while i < v.len()
        invariant
            a.wf(),
            b.wf(),
            s == v@,
            s == a@,
            i <= s.len(),
            forall|m: int| 0 <= m < i ==> b.contains_spec(#[trigger] s[m]),
        decreases s.len() - i,
    {
        if !b.contains(v[i]) {
            proof {
                assert(s.contains(s[i as int]));
                assert(!forall|x: u16| #[trigger] a@.contains(x) ==> b.contains_spec(x)) by {
                    assert(a@.contains(s[i as int]) && !b.contains_spec(s[i as int]));
                }
            }
            return false;
        }
        i += 1;
    }
    proof {
        assert forall|x: u16| #[trigger] a@.contains(x) implies b.contains_spec(x) by {
            let k = choose|k: int| 0 <= k < s.len() && s[k] == x;
            assert(b.contains_spec(s[k]));
        }
    }
    true
}

} // verus!
