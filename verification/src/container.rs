//! A container: one high-16 key, the store of low-16 values sharing it,
//! and the cached population, kept in the representation the density
//! policy picks.

use vstd::prelude::*;

use crate::store::Store;

verus! {

/// The population at which the array and bitmap representations cross in
/// bytes per element.
pub const DENSITY_THRESHOLD: u64 = 4096;

/// A high-16 key with the store of its low-16 values.
#[derive(Debug)]
pub struct Container {
    pub key: u16,
    pub len: u64,
    pub store: Store,
}

impl Container {
    /// The invariant: a sound store, an accurate cache, and the variant
    /// that the density policy picks for the population.
    pub open spec fn wf(&self) -> bool {
        &&& self.store.wf()
        &&& self.len == self.store.population()
        &&& (self.store is Array ==> self.store.population() <= DENSITY_THRESHOLD)
        &&& (self.store is Bitmap ==> self.store.population() > DENSITY_THRESHOLD)
    }

    /// The store invariant alone, before normalization has run.
    pub open spec fn pre_wf(&self) -> bool {
        self.store.wf() && self.len == self.store.population()
    }

    /// Membership of a low-16 value.
    pub open spec fn contains_spec(&self, x: u16) -> bool {
        self.store.contains_spec(x)
    }

    pub fn new(key: u16) -> (r: Container)
        ensures
            r.wf(),
            r.key == key,
            r.len == 0,
            forall|x: u16| !(#[trigger] r.contains_spec(x)),
    {
        Container { key, len: 0, store: Store::new() }
    }

    /// Re-establish the density policy: an overfull array becomes a
    /// bitmap, an underfull bitmap becomes an array.
    pub fn ensure_correct_store(&mut self)
        requires
            old(self).pre_wf(),
        ensures
            final(self).wf(),
            final(self).key == old(self).key,
            final(self).len == old(self).len,
            forall|x: u16| #[trigger]
                final(self).contains_spec(x) == old(self).contains_spec(x),
    {
        let stay = match &self.store {
            Store::Array(a) => self.len <= DENSITY_THRESHOLD,
            Store::Bitmap(b) => self.len > DENSITY_THRESHOLD,
        };
        if !stay {
            match &self.store {
                Store::Array(a) => {
                    self.store = Store::Bitmap(a.to_bitmap_store());
                },
                Store::Bitmap(b) => {
                    self.store = Store::Array(b.to_array_store());
                },
            }
        }
    }

    /// The cached population.
    pub fn len(&self) -> (r: u64)
        ensures
            r == self.len,
    {
        self.len
    }

    /// Adds a value; the container may change representation.
    pub fn insert(&mut self, index: u16) -> (r: bool)
        requires
            old(self).wf(),
        ensures
            final(self).wf(),
            final(self).key == old(self).key,
            r == !old(self).contains_spec(index),
            forall|x: u16| #[trigger]
                final(self).contains_spec(x) <==> old(self).contains_spec(x) || x == index,
            final(self).len == old(self).len + (if r {
                1int
            } else {
                0int
            }),
    {
        let r = self.store.insert(index);
        if r {
            self.len = self.len + 1;
        }
        self.ensure_correct_store();
        r
    }

    /// Removes a value; the container may change representation, and may
    /// become empty: the caller drops it then.
    pub fn remove(&mut self, index: u16) -> (r: bool)
        requires
            old(self).wf(),
        ensures
            final(self).wf(),
            final(self).key == old(self).key,
            r == old(self).contains_spec(index),
            forall|x: u16| #[trigger]
                final(self).contains_spec(x) <==> old(self).contains_spec(x) && x != index,
            final(self).len == old(self).len - (if r {
                1int
            } else {
                0int
            }),
    {
        let r = self.store.remove(index);
        if r {
            self.len = self.len - 1;
        }
        self.ensure_correct_store();
        r
    }

    pub fn contains(&self, index: u16) -> (r: bool)
        requires
            self.wf(),
        ensures
            r == self.contains_spec(index),
    {
        self.store.contains(index)
    }

    /// Union with a container of the same key, as a new normalized
    /// container.
    pub fn bitor(&self, rhs: &Container) -> (r: Container)
        requires
            self.wf(),
            rhs.wf(),
            self.key == rhs.key,
        ensures
            r.wf(),
            r.key == self.key,
            forall|x: u16| #[trigger]
                r.contains_spec(x) <==> self.contains_spec(x) || rhs.contains_spec(x),
    {
        let store = self.store.bitor(&rhs.store);
        let len = store.len();
        let mut out = Container { key: self.key, len, store };
        out.ensure_correct_store();
        out
    }

    /// Intersection with a container of the same key; the result may be
    /// empty and is then dropped by the caller.
    pub fn bitand(&self, rhs: &Container) -> (r: Container)
        requires
            self.wf(),
            rhs.wf(),
            self.key == rhs.key,
        ensures
            r.wf(),
            r.key == self.key,
            forall|x: u16| #[trigger]
                r.contains_spec(x) <==> self.contains_spec(x) && rhs.contains_spec(x),
    {
        let store = self.store.bitand(&rhs.store);
        let len = store.len();
        let mut out = Container { key: self.key, len, store };
        out.ensure_correct_store();
        out
    }

    /// Difference with a container of the same key.
    pub fn sub(&self, rhs: &Container) -> (r: Container)
        requires
            self.wf(),
            rhs.wf(),
            self.key == rhs.key,
        ensures
            r.wf(),
            r.key == self.key,
            forall|x: u16| #[trigger]
                r.contains_spec(x) <==> self.contains_spec(x) && !rhs.contains_spec(x),
    {
        let store = self.store.sub(&rhs.store);
        let len = store.len();
        let mut out = Container { key: self.key, len, store };
        out.ensure_correct_store();
        out
    }

    /// Symmetric difference with a container of the same key.
    pub fn bitxor(&self, rhs: &Container) -> (r: Container)
        requires
            self.wf(),
            rhs.wf(),
            self.key == rhs.key,
        ensures
            r.wf(),
            r.key == self.key,
            forall|x: u16| #[trigger]
                r.contains_spec(x) <==> (self.contains_spec(x) != rhs.contains_spec(x)),
    {
        let store = self.store.bitxor(&rhs.store);
        let len = store.len();
        let mut out = Container { key: self.key, len, store };
        out.ensure_correct_store();
        out
    }

    /// The values, in ascending order.
    pub fn to_vec(&self) -> (r: Vec<u16>)
        requires
            self.wf(),
        ensures
            crate::util::sorted_strict(r@),
            r@.len() == self.len,
            forall|x: u16| #[trigger] r@.contains(x) <==> self.contains_spec(x),
    {
        self.store.to_vec()
    }

    /// A non-empty container has a member; an empty one has none.
    pub proof fn lemma_member_of_len(&self)
        requires
            self.wf(),
        ensures
            self.len > 0 <==> exists|x: u16| self.contains_spec(x),
    {
        lemma_store_member(&self.store);
        if self.len > 0 {
            let x = choose|x: u16| self.store.contains_spec(x);
            assert(self.contains_spec(x));
        }
        if exists|x: u16| self.contains_spec(x) {
            let x = choose|x: u16| self.contains_spec(x);
            assert(self.store.contains_spec(x));
        }
    }
}

/// A store's population is positive exactly when it has a member.
pub proof fn lemma_store_member(s: &Store)
    requires
        s.wf(),
    ensures
        s.population() > 0 <==> exists|x: u16| s.contains_spec(x),
{
    match s {
        Store::Array(a) => {
            if a@.len() > 0 {
                assert(a@.contains(a@[0]));
                assert(s.contains_spec(a@[0]));
            }
            if exists|x: u16| s.contains_spec(x) {
                let x = choose|x: u16| s.contains_spec(x);
                assert(a@.contains(x));
            }
        },
        Store::Bitmap(b) => {
            crate::bitmap_store::lemma_count_empty(b@);
            if b.len_spec() > 0 {
                assert(total_pop_of(b) != 0);
                if forall|x: u16| !(#[trigger] b.contains_spec(x)) {
                    assert forall|x: u16| !(#[trigger] crate::bitmap_store::bm_contains(
                        b@,
                        x,
                    )) by {
                        assert(!b.contains_spec(x));
                    }
                    assert(false);
                }
                let x = choose|x: u16| b.contains_spec(x);
                assert(s.contains_spec(x));
            }
            if exists|x: u16| s.contains_spec(x) {
                let x = choose|x: u16| s.contains_spec(x);
                assert(crate::bitmap_store::bm_contains(b@, x));
            }
        },
    }
}

/// Shorthand for the bitmap's total count in the lemma above.
pub open spec fn total_pop_of(b: &crate::bitmap_store::BitmapStore) -> int {
    crate::bitmap_store::total_pop(b@, 1024)
}

/// Sameness of key, cached count and store contents.
pub open spec fn container_eq_spec(a: &Container, b: &Container) -> bool {
    a.key == b.key && a.len == b.len && crate::store::store_eq_spec(&a.store, &b.store)
}

/// Whether two containers are the same record.
pub fn container_eq(a: &Container, b: &Container) -> (r: bool)
    ensures
        r == container_eq_spec(a, b),
{
    a.key == b.key && a.len == b.len && crate::store::store_eq(&a.store, &b.store)
}

impl Clone for Container {
    fn clone(&self) -> (r: Self)
        ensures
            r.key == self.key,
            r.len == self.len,
            r.wf() == self.wf(),
            r.store.wf() == self.store.wf(),
            r.store.population() == self.store.population(),
            (r.store is Array) == (self.store is Array),
            forall|x: u16| #[trigger] r.contains_spec(x) == self.contains_spec(x),
            forall|x: u16| #[trigger] r.store.contains_spec(x) == self.store.contains_spec(x),
    {
        Container { key: self.key, len: self.len, store: self.store.clone() }
    }
}

} // verus!
