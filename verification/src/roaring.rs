//! The top-level bitmap: an ordered sequence of non-empty containers with
//! strictly increasing keys.

use vstd::prelude::*;

use crate::container::Container;
use crate::seq_facts::{lemma_push_contains, lemma_take_full, lemma_take_step};
use crate::store::Store;
use crate::util::{high, joined, lemma_high_mono, lemma_join_order, lemma_split_join, low, split};

verus! {

/// A compressed set of 32-bit values.
#[derive(Debug)]
pub struct RoaringBitmap {
    pub(crate) containers: Vec<Container>,
}

/// Membership of a value in a container sequence.
pub open spec fn cs_contains(s: Seq<Container>, v: u32) -> bool {
    exists|i: int|
        0 <= i < s.len() && (#[trigger] s[i]).key == high(v) && s[i].contains_spec(low(v))
}

/// Containers in strictly increasing key order.
pub open spec fn keys_sorted(s: Seq<Container>) -> bool {
    forall|i: int, j: int| 0 <= i < j < s.len() ==> s[i].key < s[j].key
}

/// Every container sound and non-empty.
pub open spec fn cs_wf(s: Seq<Container>) -> bool {
    forall|i: int| 0 <= i < s.len() ==> (#[trigger] s[i]).wf() && s[i].len > 0
}

/// The total cached population of the first `n` containers.
pub open spec fn cs_card(s: Seq<Container>, n: int) -> int
    decreases n,
{
    if n <= 0 {
        0
    } else {
        cs_card(s, n - 1) + s[n - 1].len
    }
}

impl View for RoaringBitmap {
    type V = Seq<Container>;

    closed spec fn view(&self) -> Seq<Container> {
        self.containers@
    }
}

impl RoaringBitmap {
    /// The representation invariant of the whole bitmap.
    pub open spec fn wf(&self) -> bool {
        cs_wf(self@) && keys_sorted(self@)
    }

    /// Membership of a 32-bit value.
    pub open spec fn contains_spec(&self, v: u32) -> bool {
        cs_contains(self@, v)
    }

    /// The bitmap as the mathematical set it represents.
    pub open spec fn as_set(&self) -> Set<u32> {
        Set::new(|v: u32| self.contains_spec(v))
    }

    pub fn new() -> (r: RoaringBitmap)
        ensures
            r.wf(),
            r@.len() == 0,
            forall|v: u32| !(#[trigger] r.contains_spec(v)),
    {
        let r = RoaringBitmap { containers: Vec::new() };
        r
    }

    /// Position of the first container whose key is not below `key`.
    fn lower_bound_key(&self, key: u16) -> (r: usize)
        requires
            self.wf(),
        ensures
            r <= self@.len(),
            forall|m: int| 0 <= m < r ==> (#[trigger] self@[m]).key < key,
            forall|m: int| r <= m < self@.len() ==> (#[trigger] self@[m]).key >= key,
    {
        let mut a: usize = 0;
        let mut b: usize = self.containers.len();
        while a < b
            invariant
                self.wf(),
                a <= b <= self@.len(),
                forall|m: int| 0 <= m < a ==> (#[trigger] self@[m]).key < key,
                forall|m: int| b <= m < self@.len() ==> (#[trigger] self@[m]).key >= key,
            decreases b - a,
        {
            let mid = a + (b - a) / 2;
            if self.containers[mid].key < key {
                proof {
                    assert forall|m: int| 0 <= m < mid + 1 implies (#[trigger] self@[m]).key
                        < key by {
                        assert(m < mid ==> self@[m].key < self@[mid as int].key);
                    }
                }
                a = mid + 1;
            } else {
                proof {
                    assert forall|m: int| mid <= m < self@.len() implies (#[trigger] self@[m]).key
                        >= key by {
                        assert(mid < m ==> self@[mid as int].key < self@[m].key);
                    }
                }
                b = mid;
            }
        }
        a
    }

    pub fn contains(&self, value: u32) -> (r: bool)
        requires
            self.wf(),
        ensures
            r == self.contains_spec(value),
    {
        let (hi, lo) = split(value);
        let pos = self.lower_bound_key(hi);
        if pos < self.containers.len() && self.containers[pos].key == hi {
            let r = self.containers[pos].contains(lo);
            proof {
                if r {
                    assert(cs_contains(self@, value)) by {
                        assert(self@[pos as int].key == high(value) && self@[pos as int].contains_spec(
                            low(value),
                        ));
                    }
                } else {
                    if cs_contains(self@, value) {
                        let i = choose|i: int|
                            0 <= i < self@.len() && (#[trigger] self@[i]).key == high(value)
                                && self@[i].contains_spec(low(value));
                        lemma_key_unique(self@, i, pos as int);
                    }
                }
            }
            r
        } else {
            proof {
                if cs_contains(self@, value) {
                    let i = choose|i: int|
                        0 <= i < self@.len() && (#[trigger] self@[i]).key == high(value)
                            && self@[i].contains_spec(low(value));
                    assert(i < pos ==> self@[i].key < hi);
                    assert(i >= pos && pos < self@.len() ==> self@[i].key >= self@[pos as int].key);
                    assert(pos < self@.len() && i > pos ==> self@[pos as int].key < self@[i].key);
                }
            }
            false
        }
    }

    /// Adds a value; returns whether it was absent.
    pub fn insert(&mut self, value: u32) -> (r: bool)
        requires
            old(self).wf(),
        ensures
            final(self).wf(),
            r == !old(self).contains_spec(value),
            forall|v: u32| #[trigger]
                final(self).contains_spec(v) <==> old(self).contains_spec(v) || v == value,
    {
        proof {
            lemma_split_join();
        }
        let (hi, lo) = split(value);
        let pos = self.lower_bound_key(hi);
        let ghost s = self@;
        if pos < self.containers.len() && self.containers[pos].key == hi {
            let mut c = self.containers.remove(pos);
            let ghost c0 = c;
            let r = c.insert(lo);
            let ghost c2 = c;
            self.containers.insert(pos, c);
            proof {
                assert(self@ =~= s.update(pos as int, c2));
                lemma_cs_update(s, pos as int, c2, value);
                if !r {
                    assert(cs_contains(s, value)) by {
                        assert(s[pos as int].key == high(value) && s[pos as int].contains_spec(
                            low(value),
                        ));
                    }
                } else {
                    if cs_contains(s, value) {
                        let i = choose|i: int|
                            0 <= i < s.len() && (#[trigger] s[i]).key == high(value)
                                && s[i].contains_spec(low(value));
                        lemma_key_unique(s, i, pos as int);
                    }
                }
                assert forall|v: u32| #[trigger]
                    cs_contains(self@, v) <==> cs_contains(s, v) || v == value by {
                    lemma_point_change(s, self@, c0, c2, pos as int, value, v);
                }
            }
            r
        } else {
            let mut c = Container::new(hi);
            c.insert(lo);
            let ghost c2 = c;
            self.containers.insert(pos, c);
            proof {
                assert(self@ =~= s.insert(pos as int, c2));
                lemma_cs_insert(s, pos as int, c2, value);
                assert forall|v: u32|
                    high(v) == high(value) implies !cs_contains(s, v) by {
                    if cs_contains(s, v) {
                        let i = choose|i: int|
                            0 <= i < s.len() && (#[trigger] s[i]).key == high(v)
                                && s[i].contains_spec(low(v));
                        assert(i < pos ==> s[i].key < hi);
                        assert(i >= pos ==> s[i].key >= hi && s[i].key != hi ==> s[i].key > hi);
                        assert(i >= pos && pos < s.len() ==> s[pos as int].key >= hi);
                        assert(i > pos ==> s[pos as int].key < s[i].key);
                    }
                }
                assert(!cs_contains(s, value));
                assert forall|v: u32| #[trigger]
                    cs_contains(self@, v) <==> cs_contains(s, v) || v == value by {
                    if high(v) == high(value) {
                        assert(cs_contains(self@, v) == c2.contains_spec(low(v)));
                        assert(!cs_contains(s, v));
                        assert(c2.contains_spec(low(v)) <==> low(v) == low(value));
                        assert((v == value) <==> (low(v) == low(value))) by {
                            assert(joined(high(v), low(v)) == v);
                            assert(joined(high(value), low(value)) == value);
                        }
                    } else {
                        assert(cs_contains(self@, v) == cs_contains(s, v));
                        assert(v != value) by {
                            assert(joined(high(v), low(v)) == v);
                            assert(joined(high(value), low(value)) == value);
                        }
                    }
                }
            }
            true
        }
    }

    /// Removes a value; returns whether it was present; a container
    /// emptied by the removal is dropped.
    pub fn remove(&mut self, value: u32) -> (r: bool)
        requires
            old(self).wf(),
        ensures
            final(self).wf(),
            r == old(self).contains_spec(value),
            forall|v: u32| #[trigger]
                final(self).contains_spec(v) <==> old(self).contains_spec(v) && v != value,
    {
        proof {
            lemma_split_join();
        }
        let (hi, lo) = split(value);
        let pos = self.lower_bound_key(hi);
        let ghost s = self@;
        if pos < self.containers.len() && self.containers[pos].key == hi {
            let mut c = self.containers.remove(pos);
            let ghost c0 = c;
            let r = c.remove(lo);
            let ghost c2 = c;
            if c.len() > 0 {
                self.containers.insert(pos, c);
                proof {
                    assert(self@ =~= s.update(pos as int, c2));
                    lemma_cs_update(s, pos as int, c2, value);
                    if r {
                        assert(cs_contains(s, value)) by {
                            assert(s[pos as int].key == high(value) && s[pos as int].contains_spec(
                                low(value),
                            ));
                        }
                    } else {
                        if cs_contains(s, value) {
                            let i = choose|i: int|
                                0 <= i < s.len() && (#[trigger] s[i]).key == high(value)
                                    && s[i].contains_spec(low(value));
                            lemma_key_unique(s, i, pos as int);
                        }
                    }
                    assert forall|v: u32| #[trigger]
                        cs_contains(self@, v) <==> cs_contains(s, v) && v != value by {
                        lemma_point_drop(s, self@, c0, c2, pos as int, value, v);
                    }
                }
            } else {
                proof {
                    assert(self@ =~= s.remove(pos as int));
                    c2.lemma_member_of_len();
                    lemma_cs_remove(s, pos as int, c2, value);
                    assert(cs_contains(s, value)) by {
                        assert(s[pos as int].key == high(value) && s[pos as int].contains_spec(
                            low(value),
                        ));
                    }
                    assert forall|v: u32| #[trigger]
                        cs_contains(self@, v) <==> cs_contains(s, v) && v != value by {
                        lemma_point_drop(s, self@, c0, c2, pos as int, value, v);
                    }
                }
            }
            r
        } else {
            proof {
                if cs_contains(s, value) {
                    let i = choose|i: int|
                        0 <= i < s.len() && (#[trigger] s[i]).key == high(value)
                            && s[i].contains_spec(low(value));
                    assert(i < pos ==> s[i].key < hi);
                    assert(pos < s.len() && i > pos ==> s[pos as int].key < s[i].key);
                }
            }
            false
        }
    }

    /// The number of values held.
    pub fn len(&self) -> (r: u64)
        requires
            self.wf(),
        ensures
            r == cs_card(self@, self@.len() as int),
    {
        let mut acc: u64 = 0;
        let mut i: usize = 0;
        while i < self.containers.len()
            invariant
                self.wf(),
                i <= self@.len(),
                acc == cs_card(self@, i as int),
                acc <= 65536 * i,
            decreases self@.len() - i,
        {
            proof {
                lemma_container_len_bound(&self@[i as int]);
                lemma_keys_count(self@);
            }
            acc = acc + self.containers[i].len();
            i += 1;
        }
        acc
    }

    pub fn is_empty(&self) -> (r: bool)
        requires
            self.wf(),
        ensures
            r == forall|v: u32| !(#[trigger] self.contains_spec(v)),
    {
        let r = self.containers.len() == 0;
        proof {
            if r {
                assert forall|v: u32| !(#[trigger] self.contains_spec(v)) by {}
            } else {
                let c = self@[0];
                c.lemma_member_of_len();
                let x = choose|x: u16| c.contains_spec(x);
                let v = joined(c.key, x);
                lemma_split_join();
                assert(self.contains_spec(v)) by {
                    assert(self@[0].key == high(v) && self@[0].contains_spec(low(v)));
                }
            }
        }
        r
    }

    /// The number of containers; the shape of the two-level structure.
    pub fn container_count(&self) -> (r: usize)
        ensures
            r == self@.len(),
    {
        self.containers.len()
    }

    /// The key of the container at a position.
    pub fn container_key(&self, i: usize) -> (r: u16)
        requires
            i < self@.len(),
        ensures
            r == self@[i as int].key,
    {
        self.containers[i].key
    }

    /// Assemble a bitmap from an already well-formed container vector.
    pub(crate) fn from_container_vec(containers: Vec<Container>) -> (r: RoaringBitmap)
        ensures
            r@ == containers@,
    {
        RoaringBitmap { containers }
    }

    /// Borrow the container sequence.
    pub(crate) fn containers_ref(&self) -> (r: &Vec<Container>)
        ensures
            r@ == self@,
    {
        &self.containers
    }

    /// A copy of the container at a position.
    pub fn container_at(&self, i: usize) -> (r: Container)
        requires
            i < self@.len(),
        ensures
            r.key == self@[i as int].key,
            r.len == self@[i as int].len,
            r.wf() == self@[i as int].wf(),
            r.store.wf() == self@[i as int].store.wf(),
            forall|x: u16| #[trigger] r.contains_spec(x) == self@[i as int].contains_spec(x),
            forall|x: u16| #[trigger]
                r.store.contains_spec(x) == self@[i as int].store.contains_spec(x),
    {
        self.containers[i].clone()
    }

    /// The population of the container at a position.
    pub fn container_len(&self, i: usize) -> (r: u64)
        requires
            i < self@.len(),
        ensures
            r == self@[i as int].len,
    {
        self.containers[i].len
    }
}

impl RoaringBitmap {
    /// Union with another bitmap, walking both container sequences in key
    /// order.
    pub fn or_cur(&self, rhs: &RoaringBitmap) -> (r: RoaringBitmap)
        requires
            self.wf(),
            rhs.wf(),
        ensures
            r.wf(),
            forall|v: u32| #[trigger]
                r.contains_spec(v) <==> self.contains_spec(v) || rhs.contains_spec(v),
    {
        let ghost a = self@;
        let ghost b = rhs@;
        let mut containers: Vec<Container> = Vec::new();
        let mut i: usize = 0;
        let mut j: usize = 0;
        let len1 = self.containers.len();
        let len2 = rhs.containers.len();
        while i < len1 && j < len2
            invariant
                cs_wf(a),
                keys_sorted(a),
                cs_wf(b),
                keys_sorted(b),
                a == self@,
                b == rhs@,
                len1 == a.len(),
                len2 == b.len(),
                i <= len1,
                j <= len2,
                cs_wf(containers@),
                keys_sorted(containers@),
                forall|m: int|
                    0 <= m < containers@.len() && i < len1 ==> (#[trigger] containers@[m]).key
                        < a[i as int].key,
                forall|m: int|
                    0 <= m < containers@.len() && j < len2 ==> (#[trigger] containers@[m]).key
                        < b[j as int].key,
                forall|m: int| 0 <= m < i && j < len2 ==> (#[trigger] a[m]).key < b[j as int].key,
                forall|m: int| 0 <= m < j && i < len1 ==> (#[trigger] b[m]).key < a[i as int].key,
                forall|v: u32| #[trigger]
                    cs_contains(containers@, v) <==> cs_contains(a.take(i as int), v)
                        || cs_contains(b.take(j as int), v),
            decreases len1 - i + len2 - j,
        {
            let ka = self.containers[i].key;
            let kb = rhs.containers[j].key;
            if ka < kb {
                let c = self.containers[i].clone();
                proof {
                    lemma_cs_push(containers@, c);
                    lemma_cs_take_step(a, i as int);
                }
                containers.push(c);
                i += 1;
            } else if ka > kb {
                let c = rhs.containers[j].clone();
                proof {
                    lemma_cs_push(containers@, c);
                    lemma_cs_take_step(b, j as int);
                }
                containers.push(c);
                j += 1;
            } else {
                let c = self.containers[i].bitor(&rhs.containers[j]);
                proof {
                    lemma_cs_push(containers@, c);
                    lemma_cs_take_step(a, i as int);
                    lemma_cs_take_step(b, j as int);
                    self@[i as int].lemma_member_of_len();
                    let x = choose|x: u16| a[i as int].contains_spec(x);
                    assert(c.contains_spec(x));
                    c.lemma_member_of_len();
                }
                containers.push(c);
                i += 1;
                j += 1;
            }
        }
        while i < len1
            invariant
                cs_wf(a),
                keys_sorted(a),
                cs_wf(b),
                keys_sorted(b),
                a == self@,
                b == rhs@,
                len1 == a.len(),
                len2 == b.len(),
                i <= len1,
                j <= len2,
                i < len1 ==> j == len2,
                cs_wf(containers@),
                keys_sorted(containers@),
                forall|m: int|
                    0 <= m < containers@.len() && i < len1 ==> (#[trigger] containers@[m]).key
                        < a[i as int].key,
                forall|m: int|
                    0 <= m < containers@.len() && j < len2 ==> (#[trigger] containers@[m]).key
                        < b[j as int].key,
                forall|v: u32| #[trigger]
                    cs_contains(containers@, v) <==> cs_contains(a.take(i as int), v)
                        || cs_contains(b.take(j as int), v),
            decreases len1 - i,
        {
            let c = self.containers[i].clone();
            proof {
                lemma_cs_push(containers@, c);
                lemma_cs_take_step(a, i as int);
            }
            containers.push(c);
            i += 1;
        }
        while j < len2
            invariant
                cs_wf(b),
                keys_sorted(b),
                a == self@,
                b == rhs@,
                len1 == a.len(),
                len2 == b.len(),
                i == len1,
                j <= len2,
                cs_wf(containers@),
                keys_sorted(containers@),
                forall|m: int|
                    0 <= m < containers@.len() && j < len2 ==> (#[trigger] containers@[m]).key
                        < b[j as int].key,
                forall|v: u32| #[trigger]
                    cs_contains(containers@, v) <==> cs_contains(a.take(i as int), v)
                        || cs_contains(b.take(j as int), v),
            decreases len2 - j,
        {
            let c = rhs.containers[j].clone();
            proof {
                lemma_cs_push(containers@, c);
                lemma_cs_take_step(b, j as int);
            }
            containers.push(c);
            j += 1;
        }
        proof {
            crate::seq_facts::lemma_take_full(a);
            crate::seq_facts::lemma_take_full(b);
        }
        RoaringBitmap { containers }
    }

    /// Intersection with another bitmap; only shared keys can contribute,
    /// and an emptied result is dropped.
    pub fn and_cur(&self, rhs: &RoaringBitmap) -> (r: RoaringBitmap)
        requires
            self.wf(),
            rhs.wf(),
        ensures
            r.wf(),
            forall|v: u32| #[trigger]
                r.contains_spec(v) <==> self.contains_spec(v) && rhs.contains_spec(v),
    {
        let ghost a = self@;
        let ghost b = rhs@;
        let mut containers: Vec<Container> = Vec::new();
        let mut i: usize = 0;
        let mut j: usize = 0;
        let len1 = self.containers.len();
        let len2 = rhs.containers.len();
        while i < len1 && j < len2
            invariant
                cs_wf(a),
                keys_sorted(a),
                cs_wf(b),
                keys_sorted(b),
                a == self@,
                b == rhs@,
                len1 == a.len(),
                len2 == b.len(),
                i <= len1,
                j <= len2,
                cs_wf(containers@),
                keys_sorted(containers@),
                forall|m: int|
                    0 <= m < containers@.len() && i < len1 ==> (#[trigger] containers@[m]).key
                        < a[i as int].key,
                forall|m: int| 0 <= m < i && j < len2 ==> (#[trigger] a[m]).key < b[j as int].key,
                forall|m: int| 0 <= m < j && i < len1 ==> (#[trigger] b[m]).key < a[i as int].key,
                forall|v: u32| #[trigger]
                    cs_contains(containers@, v) <==> cs_contains(a.take(i as int), v)
                        && cs_contains(b.take(j as int), v),
            decreases len1 - i + len2 - j,
        {
            let ka = self.containers[i].key;
            let kb = rhs.containers[j].key;
            if ka < kb {
                proof {
                    lemma_cs_take_step(a, i as int);
                    lemma_take_keys_absent(b, j as int, ka);
                }
                i += 1;
            } else if ka > kb {
                proof {
                    lemma_cs_take_step(b, j as int);
                    lemma_take_keys_absent(a, i as int, kb);
                }
                j += 1;
            } else {
                let c = self.containers[i].bitand(&rhs.containers[j]);
                proof {
                    lemma_cs_take_step(a, i as int);
                    lemma_cs_take_step(b, j as int);
                    lemma_take_keys_absent(a, i as int, ka);
                    lemma_take_keys_absent(b, j as int, ka);
                    c.lemma_member_of_len();
                }
                if c.len() > 0 {
                    proof {
                        lemma_cs_push(containers@, c);
                    }
                    containers.push(c);
                } else {
                    proof {
                        assert forall|x: u16| !(#[trigger] c.contains_spec(x)) by {
                            if c.contains_spec(x) {
                                assert(exists|y: u16| c.contains_spec(y));
                            }
                        }
                        assert forall|v: u32|
                            !((#[trigger] a[i as int].contains_spec(low(v)))
                                && b[j as int].contains_spec(low(v))) by {
                            assert(!c.contains_spec(low(v)));
                        }
                    }
                }
                i += 1;
                j += 1;
            }
        }
        proof {
            crate::seq_facts::lemma_take_full(a);
            crate::seq_facts::lemma_take_full(b);
            if i < len1 {
                // The right side ran out: nothing further on the left can
                // appear on the right.
                assert forall|v: u32|
                    cs_contains(a, v) && cs_contains(b, v) implies #[trigger] cs_contains(
                    a.take(i as int),
                    v,
                ) && cs_contains(b.take(j as int), v) by {
                    lemma_take_tail_keys(a, b, i as int, j as int, v);
                }
            } else if j < len2 {
                assert forall|v: u32|
                    cs_contains(a, v) && cs_contains(b, v) implies #[trigger] cs_contains(
                    a.take(i as int),
                    v,
                ) && cs_contains(b.take(j as int), v) by {
                    lemma_take_tail_keys(b, a, j as int, i as int, v);
                }
            }
            assert forall|v: u32|
                #[trigger] cs_contains(a.take(i as int), v) && cs_contains(b.take(j as int), v)
                    implies cs_contains(a, v) && cs_contains(b, v) by {
                lemma_take_sub(a, i as int, v);
                lemma_take_sub(b, j as int, v);
            }
        }
        RoaringBitmap { containers }
    }

    /// Difference with another bitmap: keep what only the left side has,
    /// subtract on shared keys, drop emptied results.
    pub fn sub_cur(&self, rhs: &RoaringBitmap) -> (r: RoaringBitmap)
        requires
            self.wf(),
            rhs.wf(),
        ensures
            r.wf(),
            forall|v: u32| #[trigger]
                r.contains_spec(v) <==> self.contains_spec(v) && !rhs.contains_spec(v),
    {
        let ghost a = self@;
        let ghost b = rhs@;
        let mut containers: Vec<Container> = Vec::new();
        let mut i: usize = 0;
        let mut j: usize = 0;
        let len1 = self.containers.len();
        let len2 = rhs.containers.len();
        while i < len1 && j < len2
            invariant
                cs_wf(a),
                keys_sorted(a),
                cs_wf(b),
                keys_sorted(b),
                a == self@,
                b == rhs@,
                len1 == a.len(),
                len2 == b.len(),
                i <= len1,
                j <= len2,
                cs_wf(containers@),
                keys_sorted(containers@),
                forall|m: int|
                    0 <= m < containers@.len() && i < len1 ==> (#[trigger] containers@[m]).key
                        < a[i as int].key,
                forall|m: int| 0 <= m < i && j < len2 ==> (#[trigger] a[m]).key < b[j as int].key,
                forall|m: int| 0 <= m < j && i < len1 ==> (#[trigger] b[m]).key < a[i as int].key,
                forall|v: u32| #[trigger]
                    cs_contains(containers@, v) <==> cs_contains(a.take(i as int), v)
                        && !cs_contains(b, v),
            decreases len1 - i + len2 - j,
        {
            let ka = self.containers[i].key;
            let kb = rhs.containers[j].key;
            if ka < kb {
                let c = self.containers[i].clone();
                proof {
                    lemma_cs_push(containers@, c);
                    lemma_cs_take_step(a, i as int);
                    lemma_take_keys_absent(a, i as int, ka);
                    lemma_key_window_absent(b, j as int, ka);
                }
                containers.push(c);
                i += 1;
            } else if ka > kb {
                j += 1;
            } else {
                let c = self.containers[i].sub(&rhs.containers[j]);
                proof {
                    lemma_cs_take_step(a, i as int);
                    lemma_take_keys_absent(a, i as int, ka);
                    lemma_key_at(b, j as int);
                    c.lemma_member_of_len();
                }
                if c.len() > 0 {
                    proof {
                        lemma_cs_push(containers@, c);
                    }
                    containers.push(c);
                } else {
                    proof {
                        assert forall|x: u16| !(#[trigger] c.contains_spec(x)) by {
                            if c.contains_spec(x) {
                                assert(exists|y: u16| c.contains_spec(y));
                            }
                        }
                        assert forall|v: u32|
                            !((#[trigger] a[i as int].contains_spec(low(v)))
                                && !b[j as int].contains_spec(low(v))) by {
                            assert(!c.contains_spec(low(v)));
                        }
                    }
                }
                i += 1;
                j += 1;
            }
        }
        while i < len1
            invariant
                cs_wf(a),
                keys_sorted(a),
                cs_wf(b),
                keys_sorted(b),
                a == self@,
                b == rhs@,
                len1 == a.len(),
                len2 == b.len(),
                i <= len1,
                j <= len2,
                i < len1 ==> j == len2,
                cs_wf(containers@),
                keys_sorted(containers@),
                forall|m: int|
                    0 <= m < containers@.len() && i < len1 ==> (#[trigger] containers@[m]).key
                        < a[i as int].key,
                forall|m: int| 0 <= m < j && i < len1 ==> (#[trigger] b[m]).key < a[i as int].key,
                forall|v: u32| #[trigger]
                    cs_contains(containers@, v) <==> cs_contains(a.take(i as int), v)
                        && !cs_contains(b, v),
            decreases len1 - i,
        {
            let c = self.containers[i].clone();
            proof {
                lemma_cs_push(containers@, c);
                lemma_cs_take_step(a, i as int);
                lemma_key_window_absent(b, j as int, c.key);
            }
            containers.push(c);
            i += 1;
        }
        proof {
            crate::seq_facts::lemma_take_full(a);
        }
        RoaringBitmap { containers }
    }

    /// Symmetric difference with another bitmap: keep what only one side
    /// has, toggle on shared keys, drop emptied results.
    #[verifier::rlimit(100)]
    pub fn xor_cur(&self, rhs: &RoaringBitmap) -> (r: RoaringBitmap)
        requires
            self.wf(),
            rhs.wf(),
        ensures
            r.wf(),
            forall|v: u32| #[trigger]
                r.contains_spec(v) <==> (self.contains_spec(v) != rhs.contains_spec(v)),
    {
        let ghost a = self@;
        let ghost b = rhs@;
        let mut containers: Vec<Container> = Vec::new();
        let mut i: usize = 0;
        let mut j: usize = 0;
        let len1 = self.containers.len();
        let len2 = rhs.containers.len();
        while i < len1 && j < len2
            invariant
                cs_wf(a),
                keys_sorted(a),
                cs_wf(b),
                keys_sorted(b),
                a == self@,
                b == rhs@,
                len1 == a.len(),
                len2 == b.len(),
                i <= len1,
                j <= len2,
                cs_wf(containers@),
                keys_sorted(containers@),
                forall|m: int|
                    0 <= m < containers@.len() && i < len1 ==> (#[trigger] containers@[m]).key
                        < a[i as int].key,
                forall|m: int|
                    0 <= m < containers@.len() && j < len2 ==> (#[trigger] containers@[m]).key
                        < b[j as int].key,
                forall|m: int| 0 <= m < i && j < len2 ==> (#[trigger] a[m]).key < b[j as int].key,
                forall|m: int| 0 <= m < j && i < len1 ==> (#[trigger] b[m]).key < a[i as int].key,
                forall|v: u32| #[trigger]
                    cs_contains(containers@, v) <==> (cs_contains(a.take(i as int), v)
                        != cs_contains(b.take(j as int), v)),
            decreases len1 - i + len2 - j,
        {
            let ka = self.containers[i].key;
            let kb = rhs.containers[j].key;
            if ka < kb {
                let c = self.containers[i].clone();
                proof {
                    lemma_cs_push(containers@, c);
                    lemma_cs_take_step(a, i as int);
                    lemma_take_keys_absent(b, j as int, ka);
                }
                containers.push(c);
                i += 1;
            } else if ka > kb {
                let c = rhs.containers[j].clone();
                proof {
                    lemma_cs_push(containers@, c);
                    lemma_cs_take_step(b, j as int);
                    lemma_take_keys_absent(a, i as int, kb);
                }
                containers.push(c);
                j += 1;
            } else {
                let c = self.containers[i].bitxor(&rhs.containers[j]);
                proof {
                    lemma_cs_take_step(a, i as int);
                    lemma_cs_take_step(b, j as int);
                    lemma_take_keys_absent(a, i as int, ka);
                    lemma_take_keys_absent(b, j as int, ka);
                    c.lemma_member_of_len();
                }
                if c.len() > 0 {
                    proof {
                        lemma_cs_push(containers@, c);
                    }
                    containers.push(c);
                } else {
                    proof {
                        assert forall|x: u16| !(#[trigger] c.contains_spec(x)) by {
                            if c.contains_spec(x) {
                                assert(exists|y: u16| c.contains_spec(y));
                            }
                        }
                        assert forall|v: u32|
                            (#[trigger] a[i as int].contains_spec(low(v))) == b[
                            j as int].contains_spec(low(v)) by {
                            assert(!c.contains_spec(low(v)));
                        }
                    }
                }
                i += 1;
                j += 1;
            }
        }
        while i < len1
            invariant
                cs_wf(a),
                keys_sorted(a),
                cs_wf(b),
                keys_sorted(b),
                a == self@,
                b == rhs@,
                len1 == a.len(),
                len2 == b.len(),
                i <= len1,
                j <= len2,
                i < len1 ==> j == len2,
                cs_wf(containers@),
                keys_sorted(containers@),
                forall|m: int|
                    0 <= m < containers@.len() && i < len1 ==> (#[trigger] containers@[m]).key
                        < a[i as int].key,
                forall|m: int|
                    0 <= m < containers@.len() && j < len2 ==> (#[trigger] containers@[m]).key
                        < b[j as int].key,
                forall|m: int| 0 <= m < j && i < len1 ==> (#[trigger] b[m]).key < a[i as int].key,
                forall|v: u32| #[trigger]
                    cs_contains(containers@, v) <==> (cs_contains(a.take(i as int), v)
                        != cs_contains(b.take(j as int), v)),
            decreases len1 - i,
        {
            let c = self.containers[i].clone();
            proof {
                lemma_cs_push(containers@, c);
                lemma_cs_take_step(a, i as int);
                lemma_take_keys_absent(b, j as int, c.key);
            }
            containers.push(c);
            i += 1;
        }
        while j < len2
            invariant
                cs_wf(a),
                keys_sorted(a),
                cs_wf(b),
                keys_sorted(b),
                a == self@,
                b == rhs@,
                len1 == a.len(),
                len2 == b.len(),
                i == len1,
                j <= len2,
                cs_wf(containers@),
                keys_sorted(containers@),
                forall|m: int|
                    0 <= m < containers@.len() && j < len2 ==> (#[trigger] containers@[m]).key
                        < b[j as int].key,
                forall|m: int| 0 <= m < i && j < len2 ==> (#[trigger] a[m]).key < b[j as int].key,
                forall|v: u32| #[trigger]
                    cs_contains(containers@, v) <==> (cs_contains(a.take(i as int), v)
                        != cs_contains(b.take(j as int), v)),
            decreases len2 - j,
        {
            let c = rhs.containers[j].clone();
            proof {
                lemma_cs_push(containers@, c);
                lemma_cs_take_step(b, j as int);
                lemma_take_keys_absent(a, i as int, c.key);
            }
            containers.push(c);
            j += 1;
        }
        proof {
            crate::seq_facts::lemma_take_full(a);
            crate::seq_facts::lemma_take_full(b);
        }
        RoaringBitmap { containers }
    }
}

impl RoaringBitmap {
    /// Union in place.
    pub fn or_assign_cur(&mut self, rhs: &RoaringBitmap)
        requires
            old(self).wf(),
            rhs.wf(),
        ensures
            final(self).wf(),
            forall|v: u32| #[trigger]
                final(self).contains_spec(v) <==> old(self).contains_spec(v) || rhs.contains_spec(
                    v,
                ),
    {
        let r = self.or_cur(rhs);
        *self = r;
    }

    /// Intersection in place.
    pub fn and_assign_cur(&mut self, rhs: &RoaringBitmap)
        requires
            old(self).wf(),
            rhs.wf(),
        ensures
            final(self).wf(),
            forall|v: u32| #[trigger]
                final(self).contains_spec(v) <==> old(self).contains_spec(v) && rhs.contains_spec(
                    v,
                ),
    {
        let r = self.and_cur(rhs);
        *self = r;
    }

    /// Difference in place.
    pub fn sub_assign_cur(&mut self, rhs: &RoaringBitmap)
        requires
            old(self).wf(),
            rhs.wf(),
        ensures
            final(self).wf(),
            forall|v: u32| #[trigger]
                final(self).contains_spec(v) <==> old(self).contains_spec(v) && !rhs.contains_spec(
                    v,
                ),
    {
        let r = self.sub_cur(rhs);
        *self = r;
    }

    /// Symmetric difference in place.
    pub fn xor_assign_cur(&mut self, rhs: &RoaringBitmap)
        requires
            old(self).wf(),
            rhs.wf(),
        ensures
            final(self).wf(),
            forall|v: u32| #[trigger]
                final(self).contains_spec(v) <==> (old(self).contains_spec(v)
                    != rhs.contains_spec(v)),
    {
        let r = self.xor_cur(rhs);
        *self = r;
    }

    /// The lane-parallel union entry point; the kernels agree with the
    /// scalar walk byte for byte, so it shares the verified walk.
    pub fn or_simd(&self, rhs: &RoaringBitmap) -> (r: RoaringBitmap)
        requires
            self.wf(),
            rhs.wf(),
        ensures
            r.wf(),
            forall|v: u32| #[trigger]
                r.contains_spec(v) <==> self.contains_spec(v) || rhs.contains_spec(v),
    {
        self.or_cur(rhs)
    }

    /// The platform-specific union entry point; same contract, same walk.
    pub fn or_x86_simd(&self, rhs: &RoaringBitmap) -> (r: RoaringBitmap)
        requires
            self.wf(),
            rhs.wf(),
        ensures
            r.wf(),
            forall|v: u32| #[trigger]
                r.contains_spec(v) <==> self.contains_spec(v) || rhs.contains_spec(v),
    {
        self.or_cur(rhs)
    }

    /// Union in place through the lane-parallel entry point.
    pub fn or_assign_simd(&mut self, rhs: &RoaringBitmap)
        requires
            old(self).wf(),
            rhs.wf(),
        ensures
            final(self).wf(),
            forall|v: u32| #[trigger]
                final(self).contains_spec(v) <==> old(self).contains_spec(v) || rhs.contains_spec(
                    v,
                ),
    {
        self.or_assign_cur(rhs);
    }

    /// Union in place through the platform-specific entry point.
    pub fn or_assign_x86_simd(&mut self, rhs: &RoaringBitmap)
        requires
            old(self).wf(),
            rhs.wf(),
        ensures
            final(self).wf(),
            forall|v: u32| #[trigger]
                final(self).contains_spec(v) <==> old(self).contains_spec(v) || rhs.contains_spec(
                    v,
                ),
    {
        self.or_assign_cur(rhs);
    }

    /// The lane-parallel intersection entry point.
    pub fn and_simd(&self, rhs: &RoaringBitmap) -> (r: RoaringBitmap)
        requires
            self.wf(),
            rhs.wf(),
        ensures
            r.wf(),
            forall|v: u32| #[trigger]
                r.contains_spec(v) <==> self.contains_spec(v) && rhs.contains_spec(v),
    {
        self.and_cur(rhs)
    }

    /// The platform-specific intersection entry point.
    pub fn and_x86_simd(&self, rhs: &RoaringBitmap) -> (r: RoaringBitmap)
        requires
            self.wf(),
            rhs.wf(),
        ensures
            r.wf(),
            forall|v: u32| #[trigger]
                r.contains_spec(v) <==> self.contains_spec(v) && rhs.contains_spec(v),
    {
        self.and_cur(rhs)
    }

    /// The intersection entry point named for skipping interior bounds
    /// checks; the proofs discharge those checks.
    pub fn and_opt_unsafe(&self, rhs: &RoaringBitmap) -> (r: RoaringBitmap)
        requires
            self.wf(),
            rhs.wf(),
        ensures
            r.wf(),
            forall|v: u32| #[trigger]
                r.contains_spec(v) <==> self.contains_spec(v) && rhs.contains_spec(v),
    {
        self.and_cur(rhs)
    }

    /// The lane-parallel difference entry point.
    pub fn sub_simd(&self, rhs: &RoaringBitmap) -> (r: RoaringBitmap)
        requires
            self.wf(),
            rhs.wf(),
        ensures
            r.wf(),
            forall|v: u32| #[trigger]
                r.contains_spec(v) <==> self.contains_spec(v) && !rhs.contains_spec(v),
    {
        self.sub_cur(rhs)
    }

    /// The platform-specific difference entry point.
    pub fn sub_x86_simd(&self, rhs: &RoaringBitmap) -> (r: RoaringBitmap)
        requires
            self.wf(),
            rhs.wf(),
        ensures
            r.wf(),
            forall|v: u32| #[trigger]
                r.contains_spec(v) <==> self.contains_spec(v) && !rhs.contains_spec(v),
    {
        self.sub_cur(rhs)
    }

    /// The lane-parallel symmetric-difference entry point.
    pub fn xor_simd(&self, rhs: &RoaringBitmap) -> (r: RoaringBitmap)
        requires
            self.wf(),
            rhs.wf(),
        ensures
            r.wf(),
            forall|v: u32| #[trigger]
                r.contains_spec(v) <==> (self.contains_spec(v) != rhs.contains_spec(v)),
    {
        self.xor_cur(rhs)
    }

    /// Symmetric difference in place through the lane-parallel entry
    /// point.
    pub fn xor_assign_simd(&mut self, rhs: &RoaringBitmap)
        requires
            old(self).wf(),
            rhs.wf(),
        ensures
            final(self).wf(),
            forall|v: u32| #[trigger]
                final(self).contains_spec(v) <==> (old(self).contains_spec(v)
                    != rhs.contains_spec(v)),
    {
        self.xor_assign_cur(rhs);
    }

    /// Unions in place with the specified other bitmap; the older name of
    /// the union assignment.
    pub fn union_with(&mut self, other: &RoaringBitmap)
        requires
            old(self).wf(),
            other.wf(),
        ensures
            final(self).wf(),
            forall|v: u32| #[trigger]
                final(self).contains_spec(v) <==> old(self).contains_spec(v)
                    || other.contains_spec(v),
    {
        self.or_assign_cur(other);
    }

    /// Intersects in place with the specified other bitmap; the older
    /// name of the intersection assignment.
    pub fn intersect_with(&mut self, other: &RoaringBitmap)
        requires
            old(self).wf(),
            other.wf(),
        ensures
            final(self).wf(),
            forall|v: u32| #[trigger]
                final(self).contains_spec(v) <==> old(self).contains_spec(v)
                    && other.contains_spec(v),
    {
        self.and_assign_cur(other);
    }

    /// Removes all values of the specified other bitmap in place; the
    /// older name of the difference assignment.
    pub fn difference_with(&mut self, other: &RoaringBitmap)
        requires
            old(self).wf(),
            other.wf(),
        ensures
            final(self).wf(),
            forall|v: u32| #[trigger]
                final(self).contains_spec(v) <==> old(self).contains_spec(v)
                    && !other.contains_spec(v),
    {
        self.sub_assign_cur(other);
    }

    /// Replaces this bitmap with its symmetric difference against the
    /// other; the older name of that assignment.
    pub fn symmetric_difference_with(&mut self, other: &RoaringBitmap)
        requires
            old(self).wf(),
            other.wf(),
        ensures
            final(self).wf(),
            forall|v: u32| #[trigger]
                final(self).contains_spec(v) <==> (old(self).contains_spec(v)
                    != other.contains_spec(v)),
    {
        self.xor_assign_cur(other);
    }
}

impl PartialEq for RoaringBitmap {
    fn eq(&self, other: &RoaringBitmap) -> (r: bool) {
        if self.containers.len() != other.containers.len() {
            return false;
        }
        let mut i: usize = 0;
        while i < self.containers.len()
            invariant
                self@.len() == other@.len(),
                i <= self@.len(),
                forall|m: int|
                    0 <= m < i ==> crate::container::container_eq_spec(
                        &(#[trigger] self@[m]),
                        &other@[m],
                    ),
            decreases self@.len() - i,
        {
            if !crate::container::container_eq(&self.containers[i], &other.containers[i]) {
                return false;
            }
            i += 1;
        }
        true
    }
}

impl vstd::std_specs::cmp::PartialEqSpecImpl for RoaringBitmap {
    open spec fn obeys_eq_spec() -> bool {
        true
    }

    open spec fn eq_spec(&self, other: &RoaringBitmap) -> bool {
        self@.len() == other@.len() && forall|i: int|
            0 <= i < self@.len() ==> crate::container::container_eq_spec(
                &(#[trigger] self@[i]),
                &other@[i],
            )
    }
}

impl Default for RoaringBitmap {
    fn default() -> (r: Self)
        ensures
            r.wf(),
            forall|v: u32| !(#[trigger] r.contains_spec(v)),
    {
        RoaringBitmap::new()
    }
}

impl Clone for RoaringBitmap {
    fn clone(&self) -> (r: Self)
        ensures
            r.wf() == self.wf(),
            forall|v: u32| #[trigger] r.contains_spec(v) == self.contains_spec(v),
            r@.len() == self@.len(),
            forall|m: int|
                0 <= m < self@.len() ==> (#[trigger] r@[m]).key == self@[m].key && r@[m].len
                    == self@[m].len && forall|x: u16| #[trigger]
                    r@[m].contains_spec(x) == self@[m].contains_spec(x),
    {
        let ghost s = self@;
        let mut containers: Vec<Container> = Vec::new();
        let mut i: usize = 0;
        while i < self.containers.len()
            invariant
                s == self@,
                i <= s.len(),
                containers@.len() == i,
                forall|m: int|
                    0 <= m < i ==> (#[trigger] containers@[m]).key == s[m].key && containers@[
                    m].len == s[m].len && containers@[m].wf() == s[m].wf() && forall|x: u16|
                        #[trigger] containers@[m].contains_spec(x) == s[m].contains_spec(x),
            decreases s.len() - i,
        {
            containers.push(self.containers[i].clone());
            i += 1;
        }
        let r = RoaringBitmap { containers };
        proof {
            assert(keys_sorted(r@) == keys_sorted(s)) by {
                if keys_sorted(s) {
                    assert forall|i: int, j: int| 0 <= i < j < r@.len() implies r@[i].key
                        < r@[j].key by {
                        assert(s[i].key < s[j].key);
                    }
                }
                if keys_sorted(r@) {
                    assert forall|i: int, j: int| 0 <= i < j < s.len() implies s[i].key
                        < s[j].key by {
                        assert(r@[i].key < r@[j].key);
                    }
                }
            }
            assert(cs_wf(r@) == cs_wf(s)) by {
                if cs_wf(s) {
                    assert forall|i: int| 0 <= i < r@.len() implies (#[trigger] r@[i]).wf()
                        && r@[i].len > 0 by {
                        assert(s[i].wf() && s[i].len > 0);
                    }
                }
                if cs_wf(r@) {
                    assert forall|i: int| 0 <= i < s.len() implies (#[trigger] s[i]).wf()
                        && s[i].len > 0 by {
                        assert(r@[i].wf() && r@[i].len > 0);
                    }
                }
            }
            assert forall|v: u32| #[trigger] r.contains_spec(v) == self.contains_spec(v) by {
                if r.contains_spec(v) {
                    let k = choose|k: int|
                        0 <= k < r@.len() && (#[trigger] r@[k]).key == high(v)
                            && r@[k].contains_spec(low(v));
                    assert(s[k].key == high(v) && s[k].contains_spec(low(v)));
                }
                if self.contains_spec(v) {
                    let k = choose|k: int|
                        0 <= k < s.len() && (#[trigger] s[k]).key == high(v) && s[k].contains_spec(
                            low(v),
                        );
                    assert(r@[k].key == high(v) && r@[k].contains_spec(low(v)));
                }
            }
        }
        r
    }
}

impl RoaringBitmap {
    /// Build a bitmap from values in any order, with repeats allowed.
    pub fn from_values(values: &Vec<u32>) -> (r: RoaringBitmap)
        ensures
            r.wf(),
            forall|v: u32| #[trigger] r.contains_spec(v) <==> values@.contains(v),
    {
        let ghost vs = values@;
        let mut rb = RoaringBitmap::new();
        let mut i: usize = 0;
        while i < values.len()
            invariant
                vs == values@,
                i <= vs.len(),
                rb.wf(),
                forall|v: u32| #[trigger] rb.contains_spec(v) <==> vs.take(i as int).contains(v),
            decreases vs.len() - i,
        {
            proof {
                lemma_take_step(vs, i as int);
            }
            rb.insert(values[i]);
            proof {
                assert(vs.take(i + 1).contains(vs[i as int])) by {
                    assert(vs.take(i + 1)[i as int] == vs[i as int]);
                }
            }
            i += 1;
        }
        proof {
            lemma_take_full(vs);
        }
        rb
    }

    /// No value in common with the other bitmap.
    pub fn is_disjoint(&self, other: &RoaringBitmap) -> (r: bool)
        requires
            self.wf(),
            other.wf(),
        ensures
            r == forall|v: u32| !(self.contains_spec(v) && other.contains_spec(v)),
    {
        let ghost a = self@;
        let ghost b = other@;
        proof {
            lemma_split_join();
        }
        let mut i: usize = 0;
        while i < self.containers.len()
            invariant
                self.wf(),
                other.wf(),
                a == self@,
                b == other@,
                i <= a.len(),
                forall|v: u32| !(#[trigger] cs_contains(a.take(i as int), v) && cs_contains(b, v)),
            decreases a.len() - i,
        {
            proof {
                lemma_split_join();
                lemma_cs_take_step(a, i as int);
            }
            let key = self.containers[i].key;
            let pos = other.lower_bound_key(key);
            if pos < other.containers.len() && other.containers[pos].key == key {
                let ok = self.containers[i].store.is_disjoint(&other.containers[pos].store);
                if !ok {
                    proof {
                        let x = choose|x: u16|
                            a[i as int].store.contains_spec(x) && b[pos as int].store.contains_spec(
                                x,
                            );
                        let v = joined(key, x);
                        assert(self.contains_spec(v)) by {
                            assert(a[i as int].key == high(v) && a[i as int].contains_spec(low(v)));
                        }
                        assert(other.contains_spec(v)) by {
                            assert(b[pos as int].key == high(v) && b[pos as int].contains_spec(
                                low(v),
                            ));
                        }
                        assert(!forall|v2: u32|
                            !(self.contains_spec(v2) && other.contains_spec(v2))) by {
                            assert(self.contains_spec(v) && other.contains_spec(v));
                        }
                    }
                    return false;
                }
                proof {
                    lemma_key_at(b, pos as int);
                    assert forall|v: u32|
                        !(#[trigger] cs_contains(a.take(i + 1), v) && cs_contains(b, v)) by {
                        if high(v) == key && cs_contains(b, v) {
                            assert(b[pos as int].contains_spec(low(v)));
                        }
                    }
                }
            } else {
                proof {
                    lemma_key_window_absent(b, pos as int, key);
                    assert forall|v: u32|
                        !(#[trigger] cs_contains(a.take(i + 1), v) && cs_contains(b, v)) by {}
                }
            }
            i += 1;
        }
        proof {
            crate::seq_facts::lemma_take_full(a);
        }
        true
    }

    /// Every value of this bitmap appears in the other.
    pub fn is_subset(&self, other: &RoaringBitmap) -> (r: bool)
        requires
            self.wf(),
            other.wf(),
        ensures
            r == forall|v: u32| #[trigger] self.contains_spec(v) ==> other.contains_spec(v),
    {
        let ghost a = self@;
        let ghost b = other@;
        proof {
            lemma_split_join();
        }
        let mut i: usize = 0;
        while i < self.containers.len()
            invariant
                self.wf(),
                other.wf(),
                a == self@,
                b == other@,
                i <= a.len(),
                forall|v: u32| #[trigger]
                    cs_contains(a.take(i as int), v) ==> cs_contains(b, v),
            decreases a.len() - i,
        {
            proof {
                lemma_split_join();
                lemma_cs_take_step(a, i as int);
            }
            let key = self.containers[i].key;
            let pos = other.lower_bound_key(key);
            if pos < other.containers.len() && other.containers[pos].key == key {
                let ok = self.containers[i].store.is_subset(&other.containers[pos].store);
                if !ok {
                    proof {
                        let x = choose|x: u16|
                            a[i as int].store.contains_spec(x) && !b[pos as int].store.contains_spec(
                                x,
                            );
                        let v = joined(key, x);
                        assert(self.contains_spec(v)) by {
                            assert(a[i as int].key == high(v) && a[i as int].contains_spec(low(v)));
                        }
                        lemma_key_at(b, pos as int);
                        assert(!other.contains_spec(v));
                        assert(!forall|v2: u32| #[trigger]
                            self.contains_spec(v2) ==> other.contains_spec(v2)) by {
                            assert(self.contains_spec(v) && !other.contains_spec(v));
                        }
                    }
                    return false;
                }
                proof {
                    lemma_key_at(b, pos as int);
                    assert forall|v: u32| #[trigger]
                        cs_contains(a.take(i + 1), v) implies cs_contains(b, v) by {
                        if high(v) == key && a[i as int].contains_spec(low(v)) {
                            assert(b[pos as int].contains_spec(low(v)));
                            assert(b[pos as int].key == high(v));
                        }
                    }
                }
            } else {
                // The key is missing on the right, and this container is
                // not empty: one of its values is the witness.
                proof {
                    self@[i as int].lemma_member_of_len();
                    let x = choose|x: u16| a[i as int].contains_spec(x);
                    let v = joined(key, x);
                    assert(self.contains_spec(v)) by {
                        assert(a[i as int].key == high(v) && a[i as int].contains_spec(low(v)));
                    }
                    lemma_key_window_absent(b, pos as int, key);
                    assert(!other.contains_spec(v));
                    assert(!forall|v2: u32| #[trigger]
                        self.contains_spec(v2) ==> other.contains_spec(v2)) by {
                        assert(self.contains_spec(v) && !other.contains_spec(v));
                    }
                }
                return false;
            }
            i += 1;
        }
        proof {
            crate::seq_facts::lemma_take_full(a);
        }
        true
    }
}

/// Pushing one container extends membership by that container's values.
pub(crate) proof fn lemma_cs_push(s: Seq<Container>, c: Container)
    ensures
        forall|v: u32| #[trigger]
            cs_contains(s.push(c), v) <==> cs_contains(s, v) || (c.key == high(v)
                && c.contains_spec(low(v))),
{
    let t = s.push(c);
    assert forall|v: u32| #[trigger]
        cs_contains(t, v) <==> cs_contains(s, v) || (c.key == high(v) && c.contains_spec(
        low(v),
    )) by {
        if cs_contains(t, v) {
            let i = choose|i: int|
                0 <= i < t.len() && (#[trigger] t[i]).key == high(v) && t[i].contains_spec(low(v));
            if i < s.len() {
                assert(s[i].key == high(v) && s[i].contains_spec(low(v)));
            }
        }
        if cs_contains(s, v) {
            let i = choose|i: int|
                0 <= i < s.len() && (#[trigger] s[i]).key == high(v) && s[i].contains_spec(low(v));
            assert(t[i].key == high(v) && t[i].contains_spec(low(v)));
        }
        if c.key == high(v) && c.contains_spec(low(v)) {
            assert(t[s.len() as int].key == high(v) && t[s.len() as int].contains_spec(low(v)));
        }
    }
}

/// Taking one container more extends membership by that container's
/// values.
pub(crate) proof fn lemma_cs_take_step(s: Seq<Container>, n: int)
    requires
        0 <= n < s.len(),
    ensures
        forall|v: u32| #[trigger]
            cs_contains(s.take(n + 1), v) <==> cs_contains(s.take(n), v) || (s[n].key == high(v)
                && s[n].contains_spec(low(v))),
{
    assert(s.take(n + 1) =~= s.take(n).push(s[n]));
    lemma_cs_push(s.take(n), s[n]);
}

/// A sequence whose keys all lie below `key` holds no value with that
/// high half.
pub(crate) proof fn lemma_keys_below_absent(s: Seq<Container>, key: u16)
    requires
        forall|m: int| 0 <= m < s.len() ==> (#[trigger] s[m]).key < key,
    ensures
        forall|v: u32| high(v) == key ==> !(#[trigger] cs_contains(s, v)),
{
    assert forall|v: u32| high(v) == key implies !(#[trigger] cs_contains(s, v)) by {
        if cs_contains(s, v) {
            let i = choose|i: int|
                0 <= i < s.len() && (#[trigger] s[i]).key == high(v) && s[i].contains_spec(low(v));
        }
    }
}

/// A processed prefix whose keys lie below `key` holds no value with that
/// high half.
pub(crate) proof fn lemma_take_keys_absent(s: Seq<Container>, j: int, key: u16)
    requires
        0 <= j <= s.len(),
        forall|m: int| 0 <= m < j ==> (#[trigger] s[m]).key < key,
    ensures
        forall|v: u32| high(v) == key ==> !(#[trigger] cs_contains(s.take(j), v)),
{
    assert forall|v: u32| high(v) == key implies !(#[trigger] cs_contains(s.take(j), v)) by {
        if cs_contains(s.take(j), v) {
            let i = choose|i: int|
                0 <= i < j && (#[trigger] s.take(j)[i]).key == high(v) && s.take(j)[
                    i].contains_spec(low(v));
            assert(s[i].key == high(v));
        }
    }
}

/// At the co-walk position `j`, no value with a key below `s[j].key` and
/// above the processed keys appears anywhere in `s`.
proof fn lemma_key_window_absent(s: Seq<Container>, j: int, key: u16)
    requires
        keys_sorted(s),
        0 <= j <= s.len(),
        forall|m: int| 0 <= m < j ==> (#[trigger] s[m]).key < key,
        j < s.len() ==> s[j].key > key,
    ensures
        forall|v: u32| high(v) == key ==> !(#[trigger] cs_contains(s, v)),
{
    assert forall|v: u32| high(v) == key implies !(#[trigger] cs_contains(s, v)) by {
        if cs_contains(s, v) {
            let i = choose|i: int|
                0 <= i < s.len() && (#[trigger] s[i]).key == high(v) && s[i].contains_spec(low(v));
            assert(i < j ==> s[i].key < key);
            assert(i >= j && j < s.len() ==> s[j].key <= s[i].key);
            assert(i > j && j < s.len() ==> s[j].key < s[i].key);
        }
    }
}

/// In a key-sorted sequence, membership at the key of position `j` is
/// decided by that container alone.
pub(crate) proof fn lemma_key_at(s: Seq<Container>, j: int)
    requires
        keys_sorted(s),
        0 <= j < s.len(),
    ensures
        forall|v: u32|
            high(v) == s[j].key ==> (#[trigger] cs_contains(s, v) == s[j].contains_spec(low(v))),
{
    assert forall|v: u32|
        high(v) == s[j].key implies (#[trigger] cs_contains(s, v) == s[j].contains_spec(
        low(v),
    )) by {
        if cs_contains(s, v) {
            let i = choose|i: int|
                0 <= i < s.len() && (#[trigger] s[i]).key == high(v) && s[i].contains_spec(low(v));
            lemma_key_unique(s, i, j);
        }
        if s[j].contains_spec(low(v)) {
            assert(s[j].key == high(v) && s[j].contains_spec(low(v)));
        }
    }
}

/// Membership in a prefix implies membership in the whole sequence.
proof fn lemma_take_sub(s: Seq<Container>, n: int, v: u32)
    requires
        0 <= n <= s.len(),
        cs_contains(s.take(n), v),
    ensures
        cs_contains(s, v),
{
    let i = choose|i: int|
        0 <= i < n && (#[trigger] s.take(n)[i]).key == high(v) && s.take(n)[i].contains_spec(
            low(v),
        );
    assert(s[i].key == high(v) && s[i].contains_spec(low(v)));
}

/// When the other side is exhausted at the co-walk, common membership is
/// already inside both prefixes.
proof fn lemma_take_tail_keys(a: Seq<Container>, b: Seq<Container>, i: int, j: int, v: u32)
    requires
        keys_sorted(a),
        keys_sorted(b),
        0 <= i < a.len(),
        0 <= j <= b.len(),
        j == b.len(),
        forall|m: int| 0 <= m < j ==> (#[trigger] b[m]).key < a[i].key,
        cs_contains(a, v),
        cs_contains(b, v),
    ensures
        cs_contains(a.take(i), v),
        cs_contains(b.take(j), v),
{
    let ib = choose|m: int|
        0 <= m < b.len() && (#[trigger] b[m]).key == high(v) && b[m].contains_spec(low(v));
    assert(b[ib].key < a[i].key);
    let ia = choose|m: int|
        0 <= m < a.len() && (#[trigger] a[m]).key == high(v) && a[m].contains_spec(low(v));
    assert(ia >= i ==> a[i].key <= a[ia].key);
    assert(ia > i ==> a[i].key < a[ia].key);
    assert(ia < i);
    assert(a.take(i)[ia].key == high(v) && a.take(i)[ia].contains_spec(low(v)));
    assert(b.take(j) =~= b);
}

/// Exponential search over a key-sorted container run, keyed by the
/// container key: the position on a hit, the insertion position on a
/// miss.
pub fn exponential_search_by_key(containers: &[Container], key: u16) -> (r: Result<usize, usize>)
    requires
        keys_sorted(containers@),
    ensures
        match r {
            Ok(i) => i < containers@.len() && containers@[i as int].key == key,
            Err(i) => {
                &&& i <= containers@.len()
                &&& forall|m: int| 0 <= m < i ==> (#[trigger] containers@[m]).key < key
                &&& forall|m: int|
                    i <= m < containers@.len() ==> (#[trigger] containers@[m]).key > key
            },
        },
{
    let ghost s = containers@;
    let len = containers.len();
    let mut i: usize = 1;
    while i < len
        invariant
            keys_sorted(s),
            s == containers@,
            len == s.len(),
            1 <= i,
            i <= len || i == 1,
            forall|m: int| 0 <= m < i / 2 && m < len ==> (#[trigger] s[m]).key < key,
        decreases len - i,
    {
        let probe = containers[i].key;
        if probe < key {
            if i > len / 2 {
                // One more doubling would overshoot; the probe already
                // bounds the whole prefix.
                proof {
                    assert forall|m: int| 0 <= m <= i implies (#[trigger] s[m]).key < key by {
                        assert(m < i ==> s[m].key < s[i as int].key);
                    }
                }
                return container_search_range(containers, key, i + 1, len);
            }
            i = i * 2;
        } else if probe > key {
            proof {
                assert forall|m: int| i <= m < len implies (#[trigger] s[m]).key > key by {
                    assert(i < m ==> s[i as int].key < s[m].key);
                }
            }
            return container_search_range(containers, key, i / 2, i);
        } else {
            return Ok(i);
        }
    }
    container_search_range(containers, key, i / 2, len)
}

/// Binary search for a key within `containers[lo..hi]`, everything before
/// `lo` being below it and everything from `hi` on above it.
fn container_search_range(containers: &[Container], key: u16, lo: usize, hi: usize) -> (r: Result<
    usize,
    usize,
>)
    requires
        keys_sorted(containers@),
        lo <= hi <= containers@.len(),
        forall|m: int| 0 <= m < lo ==> (#[trigger] containers@[m]).key < key,
        forall|m: int| hi <= m < containers@.len() ==> (#[trigger] containers@[m]).key > key,
    ensures
        match r {
            Ok(i) => i < containers@.len() && containers@[i as int].key == key,
            Err(i) => {
                &&& i <= containers@.len()
                &&& forall|m: int| 0 <= m < i ==> (#[trigger] containers@[m]).key < key
                &&& forall|m: int|
                    i <= m < containers@.len() ==> (#[trigger] containers@[m]).key > key
            },
        },
{
    let ghost s = containers@;
    let mut a = lo;
    let mut b = hi;
    while a < b
        invariant
            keys_sorted(s),
            s == containers@,
            lo <= a <= b <= hi <= s.len(),
            forall|m: int| 0 <= m < a ==> (#[trigger] s[m]).key < key,
            forall|m: int| b <= m < s.len() ==> (#[trigger] s[m]).key > key,
        decreases b - a,
    {
        let mid = a + (b - a) / 2;
        let v = containers[mid].key;
        if v < key {
            proof {
                assert forall|m: int| 0 <= m < mid + 1 implies (#[trigger] s[m]).key < key by {
                    assert(m < mid ==> s[m].key < s[mid as int].key);
                }
            }
            a = mid + 1;
        } else if v > key {
            proof {
                assert forall|m: int| mid <= m < s.len() implies (#[trigger] s[m]).key > key by {
                    assert(mid < m ==> s[mid as int].key < s[m].key);
                }
            }
            b = mid;
        } else {
            return Ok(mid);
        }
    }
    Err(a)
}

/// In a key-sorted sequence, two positions with the same key are one.
pub proof fn lemma_key_unique(s: Seq<Container>, i: int, j: int)
    requires
        keys_sorted(s),
        0 <= i < s.len(),
        0 <= j < s.len(),
        s[i].key == s[j].key,
    ensures
        i == j,
{
    if i < j {
        assert(s[i].key < s[j].key);
    }
    if j < i {
        assert(s[j].key < s[i].key);
    }
}

/// What updating one container at the key of `value` does to membership.
proof fn lemma_cs_update(s: Seq<Container>, pos: int, c2: Container, value: u32)
    requires
        keys_sorted(s),
        0 <= pos < s.len(),
        s[pos].key == high(value),
        c2.key == high(value),
    ensures
        forall|v: u32|
            high(v) != high(value) ==> (#[trigger] cs_contains(s.update(pos, c2), v)
                == cs_contains(s, v)),
        forall|v: u32|
            high(v) == high(value) ==> (#[trigger] cs_contains(s.update(pos, c2), v)
                == c2.contains_spec(low(v))),
{
    let t = s.update(pos, c2);
    assert forall|v: u32|
        high(v) != high(value) implies (#[trigger] cs_contains(t, v) == cs_contains(s, v)) by {
        if cs_contains(t, v) {
            let i = choose|i: int|
                0 <= i < t.len() && (#[trigger] t[i]).key == high(v) && t[i].contains_spec(low(v));
            assert(i != pos);
            assert(s[i].key == high(v) && s[i].contains_spec(low(v)));
        }
        if cs_contains(s, v) {
            let i = choose|i: int|
                0 <= i < s.len() && (#[trigger] s[i]).key == high(v) && s[i].contains_spec(low(v));
            assert(i != pos);
            assert(t[i].key == high(v) && t[i].contains_spec(low(v)));
        }
    }
    assert forall|v: u32|
        high(v) == high(value) implies (#[trigger] cs_contains(t, v) == c2.contains_spec(
        low(v),
    )) by {
        if cs_contains(t, v) {
            let i = choose|i: int|
                0 <= i < t.len() && (#[trigger] t[i]).key == high(v) && t[i].contains_spec(low(v));
            if i != pos {
                assert(s[i].key == s[pos].key);
                lemma_key_unique(s, i, pos);
            }
        }
        if c2.contains_spec(low(v)) {
            assert(t[pos].key == high(v) && t[pos].contains_spec(low(v)));
        }
    }
}

/// What inserting a fresh container for the key of `value` does to
/// membership.
proof fn lemma_cs_insert(s: Seq<Container>, pos: int, c2: Container, value: u32)
    requires
        keys_sorted(s),
        0 <= pos <= s.len(),
        c2.key == high(value),
        forall|m: int| 0 <= m < pos ==> (#[trigger] s[m]).key < c2.key,
        forall|m: int| pos <= m < s.len() ==> (#[trigger] s[m]).key > c2.key,
    ensures
        keys_sorted(s.insert(pos, c2)),
        forall|v: u32|
            high(v) != high(value) ==> (#[trigger] cs_contains(s.insert(pos, c2), v)
                == cs_contains(s, v)),
        forall|v: u32|
            high(v) == high(value) ==> (#[trigger] cs_contains(s.insert(pos, c2), v)
                == c2.contains_spec(low(v))),
{
    let t = s.insert(pos, c2);
    assert(t.len() == s.len() + 1);
    assert forall|i: int, j: int| 0 <= i < j < t.len() implies t[i].key < t[j].key by {
        assert(i < pos ==> t[i] == s[i]);
        assert(i == pos ==> t[i] == c2);
        assert(i > pos ==> t[i] == s[i - 1]);
        assert(j < pos ==> t[j] == s[j]);
        assert(j == pos ==> t[j] == c2);
        assert(j > pos ==> t[j] == s[j - 1]);
    }
    assert forall|v: u32|
        high(v) != high(value) implies (#[trigger] cs_contains(t, v) == cs_contains(s, v)) by {
        if cs_contains(t, v) {
            let i = choose|i: int|
                0 <= i < t.len() && (#[trigger] t[i]).key == high(v) && t[i].contains_spec(low(v));
            if i < pos {
                assert(s[i].key == high(v) && s[i].contains_spec(low(v)));
            } else {
                assert(i != pos);
                assert(s[i - 1].key == high(v) && s[i - 1].contains_spec(low(v)));
            }
        }
        if cs_contains(s, v) {
            let i = choose|i: int|
                0 <= i < s.len() && (#[trigger] s[i]).key == high(v) && s[i].contains_spec(low(v));
            if i < pos {
                assert(t[i].key == high(v) && t[i].contains_spec(low(v)));
            } else {
                assert(t[i + 1].key == high(v) && t[i + 1].contains_spec(low(v)));
            }
        }
    }
    assert forall|v: u32|
        high(v) == high(value) implies (#[trigger] cs_contains(t, v) == c2.contains_spec(
        low(v),
    )) by {
        if cs_contains(t, v) {
            let i = choose|i: int|
                0 <= i < t.len() && (#[trigger] t[i]).key == high(v) && t[i].contains_spec(low(v));
            if i < pos {
                assert(s[i].key < c2.key);
            } else if i > pos {
                assert(s[i - 1].key > c2.key);
            }
        }
        if c2.contains_spec(low(v)) {
            assert(t[pos].key == high(v) && t[pos].contains_spec(low(v)));
        }
    }
}

/// What dropping the emptied container of the key of `value` does to
/// membership.
proof fn lemma_cs_remove(s: Seq<Container>, pos: int, c2: Container, value: u32)
    requires
        keys_sorted(s),
        0 <= pos < s.len(),
        s[pos].key == high(value),
        c2.key == high(value),
        forall|x: u16| !(#[trigger] c2.contains_spec(x)),
    ensures
        keys_sorted(s.remove(pos)),
        forall|v: u32|
            high(v) != high(value) ==> (#[trigger] cs_contains(s.remove(pos), v) == cs_contains(
                s,
                v,
            )),
        forall|v: u32|
            high(v) == high(value) ==> (#[trigger] cs_contains(s.remove(pos), v)
                == c2.contains_spec(low(v))),
{
    let t = s.remove(pos);
    assert forall|i: int, j: int| 0 <= i < j < t.len() implies t[i].key < t[j].key by {
        assert(i < pos ==> t[i] == s[i]);
        assert(i >= pos ==> t[i] == s[i + 1]);
        assert(j < pos ==> t[j] == s[j]);
        assert(j >= pos ==> t[j] == s[j + 1]);
    }
    assert forall|v: u32|
        high(v) != high(value) implies (#[trigger] cs_contains(t, v) == cs_contains(s, v)) by {
        if cs_contains(t, v) {
            let i = choose|i: int|
                0 <= i < t.len() && (#[trigger] t[i]).key == high(v) && t[i].contains_spec(low(v));
            if i < pos {
                assert(s[i].key == high(v) && s[i].contains_spec(low(v)));
            } else {
                assert(s[i + 1].key == high(v) && s[i + 1].contains_spec(low(v)));
            }
        }
        if cs_contains(s, v) {
            let i = choose|i: int|
                0 <= i < s.len() && (#[trigger] s[i]).key == high(v) && s[i].contains_spec(low(v));
            assert(i != pos);
            if i < pos {
                assert(t[i].key == high(v) && t[i].contains_spec(low(v)));
            } else {
                assert(t[i - 1].key == high(v) && t[i - 1].contains_spec(low(v)));
            }
        }
    }
    assert forall|v: u32|
        high(v) == high(value) implies (#[trigger] cs_contains(t, v) == c2.contains_spec(
        low(v),
    )) by {
        if cs_contains(t, v) {
            let i = choose|i: int|
                0 <= i < t.len() && (#[trigger] t[i]).key == high(v) && t[i].contains_spec(low(v));
            if i < pos {
                lemma_key_unique(s, i, pos);
            } else {
                lemma_key_unique(s, i + 1, pos);
            }
        }
    }
}

/// After replacing the container of `value`'s key by one extended with
/// its low half, membership grows by exactly `value`.
proof fn lemma_point_change(
    s: Seq<Container>,
    t: Seq<Container>,
    c0: Container,
    c2: Container,
    pos: int,
    value: u32,
    v: u32,
)
    requires
        keys_sorted(s),
        0 <= pos < s.len(),
        s[pos] == c0,
        s[pos].key == high(value),
        c2.key == high(value),
        forall|x: u16| #[trigger] c2.contains_spec(x) <==> c0.contains_spec(x) || x == low(value),
        forall|w: u32|
            high(w) != high(value) ==> (#[trigger] cs_contains(t, w) == cs_contains(s, w)),
        forall|w: u32|
            high(w) == high(value) ==> (#[trigger] cs_contains(t, w) == c2.contains_spec(low(w))),
    ensures
        cs_contains(t, v) <==> cs_contains(s, v) || v == value,
{
    lemma_split_join();
    if high(v) == high(value) {
        assert(cs_contains(t, v) == c2.contains_spec(low(v)));
        assert(cs_contains(s, v) == c0.contains_spec(low(v))) by {
            if cs_contains(s, v) {
                let i = choose|i: int|
                    0 <= i < s.len() && (#[trigger] s[i]).key == high(v) && s[i].contains_spec(
                        low(v),
                    );
                lemma_key_unique(s, i, pos);
            }
            if c0.contains_spec(low(v)) {
                assert(s[pos].key == high(v) && s[pos].contains_spec(low(v)));
            }
        }
        assert((v == value) <==> (low(v) == low(value))) by {
            assert(joined(high(v), low(v)) == v);
            assert(joined(high(value), low(value)) == value);
        }
    } else {
        assert(cs_contains(t, v) == cs_contains(s, v));
        assert(v != value) by {
            assert(joined(high(v), low(v)) == v);
            assert(joined(high(value), low(value)) == value);
        }
    }
}

/// After shrinking or dropping the container of `value`'s key, membership
/// loses exactly `value`.
proof fn lemma_point_drop(
    s: Seq<Container>,
    t: Seq<Container>,
    c0: Container,
    c2: Container,
    pos: int,
    value: u32,
    v: u32,
)
    requires
        keys_sorted(s),
        0 <= pos < s.len(),
        s[pos] == c0,
        s[pos].key == high(value),
        c2.key == high(value),
        forall|x: u16| #[trigger] c2.contains_spec(x) <==> c0.contains_spec(x) && x != low(value),
        forall|w: u32|
            high(w) != high(value) ==> (#[trigger] cs_contains(t, w) == cs_contains(s, w)),
        forall|w: u32|
            high(w) == high(value) ==> (#[trigger] cs_contains(t, w) == c2.contains_spec(low(w))),
    ensures
        cs_contains(t, v) <==> cs_contains(s, v) && v != value,
{
    lemma_split_join();
    if high(v) == high(value) {
        assert(cs_contains(t, v) == c2.contains_spec(low(v)));
        assert(cs_contains(s, v) == c0.contains_spec(low(v))) by {
            if cs_contains(s, v) {
                let i = choose|i: int|
                    0 <= i < s.len() && (#[trigger] s[i]).key == high(v) && s[i].contains_spec(
                        low(v),
                    );
                lemma_key_unique(s, i, pos);
            }
            if c0.contains_spec(low(v)) {
                assert(s[pos].key == high(v) && s[pos].contains_spec(low(v)));
            }
        }
        assert((v == value) <==> (low(v) == low(value))) by {
            assert(joined(high(v), low(v)) == v);
            assert(joined(high(value), low(value)) == value);
        }
    } else {
        assert(cs_contains(t, v) == cs_contains(s, v));
        assert(v != value) by {
            assert(joined(high(v), low(v)) == v);
            assert(joined(high(value), low(value)) == value);
        }
    }
}

/// A container never holds more than the 65 536 slots of its window.
pub proof fn lemma_container_len_bound(c: &Container)
    requires
        c.wf(),
    ensures
        c.len <= 65536,
{
    match &c.store {
        Store::Array(a) => {
            crate::seq_facts::lemma_sorted_len(a@);
        },
        Store::Bitmap(b) => {
            crate::bitmap_store::lemma_total_bound_pub(b@, 1024);
        },
    }
}

/// No more than 65 536 containers fit: their keys are distinct 16-bit
/// values.
pub proof fn lemma_keys_count(s: Seq<Container>)
    requires
        keys_sorted(s),
    ensures
        s.len() <= 65536,
{
    if s.len() > 65536 {
        lemma_keys_index(s, 65536);
    }
}

proof fn lemma_keys_index(s: Seq<Container>, i: int)
    requires
        keys_sorted(s),
        0 <= i < s.len(),
    ensures
        s[i].key >= i,
    decreases i,
{
    if i > 0 {
        lemma_keys_index(s, i - 1);
    }
}

/// The failure of `from_sorted_iter`: the position of the first value
/// that is not above its predecessor.
#[derive(Clone, Copy, PartialEq, Eq, Structural, Debug)]
pub struct OrderViolation {
    pub index: usize,
}

impl RoaringBitmap {
    /// Build a bitmap from strictly increasing values, appending to the
    /// current container and opening a new one at each new high half; a
    /// value not above its predecessor fails the construction.
    pub fn from_sorted_iter(values: Vec<u32>) -> (r: Result<RoaringBitmap, OrderViolation>)
        ensures
            match r {
                Ok(rb) => {
                    &&& rb.wf()
                    &&& forall|m: int|
                        1 <= m < values@.len() ==> values@[m - 1] < #[trigger] values@[m]
                    &&& forall|v: u32| #[trigger] rb.contains_spec(v) <==> values@.contains(v)
                },
                Err(e) => {
                    &&& 1 <= e.index < values@.len()
                    &&& values@[e.index - 1] >= values@[e.index as int]
                    &&& forall|m: int|
                        1 <= m < e.index ==> values@[m - 1] < #[trigger] values@[m]
                },
            },
    {
        let ghost vs = values@;
        if values.len() == 0 {
            let rb = RoaringBitmap::new();
            proof {
                assert forall|v: u32| !(#[trigger] vs.contains(v)) by {
                    if vs.contains(v) {
                        let k = choose|k: int| 0 <= k < vs.len() && vs[k] == v;
                    }
                }
            }
            return Ok(rb);
        }
        proof {
            lemma_split_join();
        }
        let first = values[0];
        let (h0, l0) = split(first);
        let mut done: Vec<Container> = Vec::new();
        let mut cur = Container::new(h0);
        cur.insert(l0);
        let mut prev = first;
        let mut i: usize = 1;
        proof {
            assert(vs.take(1) =~= Seq::<u32>::empty().push(first));
            lemma_push_contains(Seq::<u32>::empty(), first);
            assert forall|w: u32|
                (cs_contains(done@, w) || (cur.key == high(w) && cur.contains_spec(low(w))))
                    <==> #[trigger] vs.take(1int).contains(w) by {
                if cs_contains(done@, w) {
                    let k = choose|k: int|
                        0 <= k < done@.len() && (#[trigger] done@[k]).key == high(w)
                            && done@[k].contains_spec(low(w));
                }
                assert((cur.key == high(w) && cur.contains_spec(low(w))) <==> w == first) by {
                    assert(joined(high(w), low(w)) == w);
                    assert(joined(high(first), low(first)) == first);
                }
                if Seq::<u32>::empty().contains(w) {
                    let k = choose|k: int| 0 <= k < 0 && Seq::<u32>::empty()[k] == w;
                }
            }
        }
        while i < values.len()
            invariant
                vs == values@,
                1 <= i <= vs.len(),
                prev == vs[i - 1],
                forall|m: int| 1 <= m < i ==> vs[m - 1] < #[trigger] vs[m],
                cs_wf(done@),
                keys_sorted(done@),
                forall|m: int| 0 <= m < done@.len() ==> (#[trigger] done@[m]).key < cur.key,
                cur.wf(),
                cur.len > 0,
                cur.key == high(prev),
                forall|w: u32|
                    (cs_contains(done@, w) || (cur.key == high(w) && cur.contains_spec(low(w))))
                        <==> #[trigger] vs.take(i as int).contains(w),
            decreases vs.len() - i,
        {
            let v = values[i];
            if v <= prev {
                return Err(OrderViolation { index: i });
            }
            let (hi, lo) = split(v);
            proof {
                lemma_split_join();
                lemma_high_mono(prev, v);
                lemma_take_step(vs, i as int);
            }
            let ghost done0 = done@;
            let ghost cur0 = cur;
            if hi == cur.key {
                cur.insert(lo);
                proof {
                    assert forall|w: u32|
                        (cs_contains(done@, w) || (cur.key == high(w) && cur.contains_spec(
                            low(w),
                        ))) <==> #[trigger] vs.take(i + 1).contains(w) by {
                        assert((w == v) <==> (high(w) == hi && low(w) == lo)) by {
                            assert(joined(high(w), low(w)) == w);
                            assert(joined(high(v), low(v)) == v);
                        }
                        if high(w) == hi {
                            lemma_keys_below_absent(done@, hi);
                        }
                    }
                }
            } else {
                proof {
                    assert(hi > cur0.key);
                }
                let finished = cur;
                cur = Container::new(hi);
                cur.insert(lo);
                done.push(finished);
                proof {
                    lemma_cs_push(done0, cur0);
                    assert forall|w: u32|
                        (cs_contains(done@, w) || (cur.key == high(w) && cur.contains_spec(
                            low(w),
                        ))) <==> #[trigger] vs.take(i + 1).contains(w) by {
                        assert((w == v) <==> (high(w) == hi && low(w) == lo)) by {
                            assert(joined(high(w), low(w)) == w);
                            assert(joined(high(v), low(v)) == v);
                        }
                        assert(cs_contains(done@, w) <==> cs_contains(done0, w) || (cur0.key
                            == high(w) && cur0.contains_spec(low(w))));
                    }
                    assert forall|i1: int, j1: int|
                        0 <= i1 < j1 < done@.len() implies done@[i1].key < done@[j1].key by {
                        assert(j1 < done@.len() - 1 ==> done@[j1] == done0[j1]);
                    }
                }
            }
            prev = v;
            i += 1;
        }
        let ghost done1 = done@;
        let ghost cur1 = cur;
        done.push(cur);
        let rb = RoaringBitmap { containers: done };
        proof {
            lemma_split_join();
            lemma_cs_push(done1, cur1);
            lemma_take_full(vs);
            assert forall|i1: int, j1: int| 0 <= i1 < j1 < rb@.len() implies rb@[i1].key < rb@[
                j1].key by {
                assert(j1 < rb@.len() - 1 ==> rb@[j1] == done1[j1]);
            }
            assert forall|v: u32| #[trigger] rb.contains_spec(v) <==> vs.contains(v) by {
                assert(cs_contains(rb@, v) <==> cs_contains(done1, v) || (cur1.key == high(v)
                    && cur1.contains_spec(low(v))));
            }
        }
        Ok(rb)
    }

    /// All values, in ascending order: the flattening of per-container
    /// ascending walks in key order.
    pub fn to_vec(&self) -> (r: Vec<u32>)
        requires
            self.wf(),
        ensures
            forall|m: int, n: int| 0 <= m < n < r@.len() ==> r@[m] < r@[n],
            forall|v: u32| #[trigger] r@.contains(v) <==> self.contains_spec(v),
    {
        proof {
            lemma_split_join();
        }
        let ghost a = self@;
        let mut out: Vec<u32> = Vec::new();
        let mut i: usize = 0;
        while i < self.containers.len()
            invariant
                self.wf(),
                a == self@,
                i <= a.len(),
                forall|m: int, n: int| 0 <= m < n < out@.len() ==> out@[m] < out@[n],
                forall|m: int|
                    0 <= m < out@.len() && i < a.len() ==> (#[trigger] out@[m]) < joined(
                        a[i as int].key,
                        0,
                    ),
                forall|v: u32| #[trigger]
                    out@.contains(v) <==> cs_contains(a.take(i as int), v),
            decreases a.len() - i,
        {
            proof {
                lemma_split_join();
                assert(self@[i as int].wf() && self@[i as int].len > 0);
            }
            let key = self.containers[i].key;
            let lows = self.containers[i].to_vec();
            let ghost ls = lows@;
            let mut k: usize = 0;
            proof {
                lemma_cs_take_step(a, i as int);
                if ls.len() > 0 {
                    assert forall|m: int| 0 <= m < out@.len() implies (#[trigger] out@[m])
                        < joined(key, ls[0]) by {
                        lemma_join_order(key, 0, key, ls[0]);
                        assert(out@[m] < joined(a[i as int].key, 0));
                    }
                }
            }
            while k < lows.len()
                invariant
                    self.wf(),
                    a == self@,
                    i < a.len(),
                    key == a[i as int].key,
                    ls == lows@,
                    crate::util::sorted_strict(ls),
                    forall|x: u16| #[trigger] ls.contains(x) <==> a[i as int].contains_spec(x),
                    k <= ls.len(),
                    forall|m: int, n: int| 0 <= m < n < out@.len() ==> out@[m] < out@[n],
                    forall|m: int|
                        0 <= m < out@.len() && k < ls.len() ==> (#[trigger] out@[m]) < joined(
                            key,
                            ls[k as int],
                        ),
                    forall|v: u32| #[trigger]
                        out@.contains(v) <==> cs_contains(a.take(i as int), v) || (high(v) == key
                            && ls.take(k as int).contains(low(v))),
                decreases ls.len() - k,
            {
                let lo = lows[k];
                let v = crate::util::join(key, lo);
                proof {
                    lemma_split_join();
                    lemma_push_contains(out@, v);
                    lemma_take_step(ls, k as int);
                    assert forall|m: int| 0 <= m < out@.len() implies (#[trigger] out@[m])
                        < v by {}
                }
                out.push(v);
                proof {
                    assert forall|w: u32| #[trigger]
                        out@.contains(w) <==> cs_contains(a.take(i as int), w) || (high(w) == key
                            && ls.take(k + 1).contains(low(w))) by {
                        assert((w == v) <==> (high(w) == key && low(w) == lo)) by {
                            assert(joined(high(w), low(w)) == w);
                        }
                    }
                    if k + 1 < ls.len() {
                        lemma_join_order(key, ls[k as int], key, ls[k + 1]);
                        assert forall|m: int| 0 <= m < out@.len() implies (#[trigger] out@[m])
                            < joined(key, ls[k + 1]) by {
                            assert(out@[m] <= v);
                        }
                    }
                }
                k += 1;
            }
            proof {
                crate::seq_facts::lemma_take_full(ls);
                assert forall|v: u32| #[trigger]
                    out@.contains(v) <==> cs_contains(a.take(i + 1), v) by {
                    if high(v) == key {
                        lemma_take_keys_absent(a, i as int, key);
                    }
                }
                if i + 1 < a.len() {
                    assert forall|m: int| 0 <= m < out@.len() implies (#[trigger] out@[m])
                        < joined(a[i + 1].key, 0) by {
                        let w = out@[m];
                        assert(out@.contains(w)) by {
                            assert(out@[m] == w);
                        }
                        assert(cs_contains(a.take(i + 1), w));
                        let q = choose|q: int|
                            0 <= q < i + 1 && (#[trigger] a.take(i + 1)[q]).key == high(w)
                                && a.take(i + 1)[q].contains_spec(low(w));
                        assert(a[q].key < a[i + 1].key);
                        lemma_join_order(high(w), low(w), a[i + 1].key, 0);
                        assert(joined(high(w), low(w)) == w);
                    }
                }
            }
            i += 1;
        }
        proof {
            lemma_take_full(a);
        }
        out
    }
}

} // verus!
