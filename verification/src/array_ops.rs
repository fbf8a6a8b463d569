//! Pair-wise set operations on sorted arrays: the scalar walk kernels and
//! the predicates built on the same co-walk.

use vstd::prelude::*;

use crate::array_store::ArrayStore;
use crate::seq_facts::{lemma_concat_contains, lemma_push_contains, lemma_take_full, lemma_take_skip, lemma_take_step};
use crate::util::{op_keeps, sorted_strict, SetOp};

verus! {

/// What every pair-wise kernel returns: a sorted, duplicate-free sequence
/// holding exactly the values that the operation keeps.
pub open spec fn merge_post(op: SetOp, a: Seq<u16>, b: Seq<u16>, out: Seq<u16>) -> bool {
    &&& sorted_strict(out)
    &&& forall|x: u16| #[trigger] out.contains(x) <==> op_keeps(op, a.contains(x), b.contains(x))
}

/// Append `src[from..to]` to a vector whose elements all lie below that
/// window.
pub(crate) fn extend_run(out: &mut Vec<u16>, src: &[u16], from: usize, to: usize)
    requires
        sorted_strict(old(out)@),
        sorted_strict(src@),
        from <= to <= src@.len(),
        forall|m: int, n: int|
            0 <= m < old(out)@.len() && from <= n < to ==> old(out)@[m] < src@[n],
    ensures
        final(out)@ == old(out)@ + src@.subrange(from as int, to as int),
        sorted_strict(final(out)@),
        forall|x: u16| #[trigger]
            final(out)@.contains(x) <==> old(out)@.contains(x) || src@.subrange(
                from as int,
                to as int,
            ).contains(x),
{
    let ghost orig = out@;
    out.extend_from_slice(vstd::slice::slice_subrange(src, from, to));
    proof {
        lemma_concat_contains(orig, src@.subrange(from as int, to as int));
        assert forall|p: int, q: int| 0 <= p < q < out@.len() implies out@[p] < out@[q] by {
            if p >= orig.len() {
                assert(src@[from + (p - orig.len())] < src@[from + (q - orig.len())]);
            } else if q >= orig.len() {
                assert(orig[p] < src@[from + (q - orig.len())]);
            }
        }
    }
}

/// The scalar co-walk over two sorted arrays, producing the union,
/// intersection, difference or symmetric difference as `op` says.
pub fn merge_walk(op: SetOp, lhs: &[u16], rhs: &[u16]) -> (out: Vec<u16>)
    requires
        sorted_strict(lhs@),
        sorted_strict(rhs@),
    ensures
        merge_post(op, lhs@, rhs@, out@),
{
    let ghost a = lhs@;
    let ghost b = rhs@;
    let mut out: Vec<u16> = Vec::new();
    let mut i: usize = 0;
    let mut j: usize = 0;
    let len1 = lhs.len();
    let len2 = rhs.len();
    while i < len1 && j < len2
        invariant
            sorted_strict(a),
            sorted_strict(b),
            a == lhs@,
            b == rhs@,
            len1 == a.len(),
            len2 == b.len(),
            i <= len1,
            j <= len2,
            sorted_strict(out@),
            forall|m: int| 0 <= m < i && j < len2 ==> a[m] < b[j as int],
            forall|m: int| 0 <= m < j && i < len1 ==> b[m] < a[i as int],
            forall|m: int| 0 <= m < out@.len() && i < len1 ==> out@[m] < a[i as int],
            forall|m: int| 0 <= m < out@.len() && j < len2 ==> out@[m] < b[j as int],
            forall|x: u16| #[trigger]
                out@.contains(x) <==> (a.take(i as int).contains(x) || b.take(j as int).contains(x))
                    && op_keeps(op, a.contains(x), b.contains(x)),
        decreases len1 - i + len2 - j,
    {
        let va = lhs[i];
        let vb = rhs[j];
        if va < vb {
            proof {
                lemma_less_only_left(a, b, i as int, j as int, out@);
                lemma_take_step(a, i as int);
                lemma_push_contains(out@, va);
            }
            let emit = match op {
                SetOp::Intersection => false,
                _ => true,
            };
            if emit {
                out.push(va);
            }
            i += 1;
        } else if va > vb {
            proof {
                lemma_less_only_left(b, a, j as int, i as int, out@);
                lemma_take_step(b, j as int);
                lemma_push_contains(out@, vb);
            }
            let emit = match op {
                SetOp::Union => true,
                SetOp::SymmetricDifference => true,
                _ => false,
            };
            if emit {
                out.push(vb);
            }
            j += 1;
        } else {
            proof {
                assert(a[i as int] == va && b[j as int] == va);
                lemma_absent_in_prefixes(a, b, i as int, j as int, out@);
                lemma_take_step(a, i as int);
                lemma_take_step(b, j as int);
                lemma_push_contains(out@, va);
            }
            let emit = match op {
                SetOp::Union => true,
                SetOp::Intersection => true,
                _ => false,
            };
            if emit {
                out.push(va);
            }
            i += 1;
            j += 1;
        }
    }
    // At most one side still has elements; none of them appears on the
    // other side.
    let keep_left = match op {
        SetOp::Intersection => false,
        _ => true,
    };
    let keep_right = match op {
        SetOp::Union => true,
        SetOp::SymmetricDifference => true,
        _ => false,
    };
    let ghost i0 = i as int;
    let ghost j0 = j as int;
    let ghost out0 = out@;
    if keep_left && i < len1 {
        extend_run(&mut out, lhs, i, len1);
    }
    if keep_right && j < len2 {
        extend_run(&mut out, rhs, j, len2);
    }
    proof {
        lemma_take_skip(a, i0);
        lemma_take_skip(b, j0);
        lemma_take_full(a);
        lemma_take_full(b);
        assert(a.subrange(i0, a.len() as int) == a.skip(i0));
        assert(b.subrange(j0, b.len() as int) == b.skip(j0));
        assert forall|x: u16| #[trigger] out@.contains(x) implies op_keeps(
            op,
            a.contains(x),
            b.contains(x),
        ) by {
            if !out0.contains(x) {
                if i0 < a.len() && a.skip(i0).contains(x) {
                    lemma_tail_absent(a, b, i0, j0, x);
                } else if j0 < b.len() && b.skip(j0).contains(x) {
                    lemma_tail_absent(b, a, j0, i0, x);
                }
            }
        }
        assert forall|x: u16| op_keeps(op, a.contains(x), b.contains(x)) implies #[trigger] out@.contains(x) by {
            if !(a.take(i0).contains(x) || b.take(j0).contains(x)) {
                if a.contains(x) && a.skip(i0).contains(x) {
                    lemma_tail_absent(a, b, i0, j0, x);
                } else if b.contains(x) && b.skip(j0).contains(x) {
                    lemma_tail_absent(b, a, j0, i0, x);
                }
            }
        }
    }
    out
}

/// Union of two sorted arrays by the scalar walk.
pub fn or_array_walk(lhs: &[u16], rhs: &[u16]) -> (out: Vec<u16>)
    requires
        sorted_strict(lhs@),
        sorted_strict(rhs@),
    ensures
        sorted_strict(out@),
        forall|x: u16| #[trigger] out@.contains(x) <==> lhs@.contains(x) || rhs@.contains(x),
{
    merge_walk(SetOp::Union, lhs, rhs)
}

/// Symmetric difference of two sorted arrays by the scalar walk.
pub fn xor_array_walk(lhs: &[u16], rhs: &[u16]) -> (out: Vec<u16>)
    requires
        sorted_strict(lhs@),
        sorted_strict(rhs@),
    ensures
        sorted_strict(out@),
        forall|x: u16| #[trigger] out@.contains(x) <==> lhs@.contains(x) != rhs@.contains(x),
{
    merge_walk(SetOp::SymmetricDifference, lhs, rhs)
}

/// Difference of two sorted arrays by the scalar walk.
pub fn sub_walk(lhs: &[u16], rhs: &[u16]) -> (out: Vec<u16>)
    requires
        sorted_strict(lhs@),
        sorted_strict(rhs@),
    ensures
        sorted_strict(out@),
        forall|x: u16| #[trigger] out@.contains(x) <==> lhs@.contains(x) && !rhs@.contains(x),
{
    merge_walk(SetOp::Difference, lhs, rhs)
}

/// In-place intersection: compact the matches into the front of `lhs` and
/// cut it there.
pub fn and_assign_walk(lhs: &mut Vec<u16>, rhs: &[u16])
    requires
        sorted_strict(old(lhs)@),
        sorted_strict(rhs@),
    ensures
        merge_post(SetOp::Intersection, old(lhs)@, rhs@, final(lhs)@),
{
    let ghost a = lhs@;
    let ghost b = rhs@;
    let mut i: usize = 0;
    let mut j: usize = 0;
    let mut k: usize = 0;
    while i < lhs.len() && j < rhs.len()
        invariant
            sorted_strict(a),
            sorted_strict(b),
            b == rhs@,
            lhs@.len() == a.len(),
            k <= i <= a.len(),
            j <= b.len(),
            forall|m: int| i <= m < a.len() ==> lhs@[m] == a[m],
            sorted_strict(lhs@.take(k as int)),
            forall|m: int| 0 <= m < k && i < a.len() ==> lhs@[m] < a[i as int],
            forall|m: int| 0 <= m < i && j < b.len() ==> a[m] < b[j as int],
            forall|m: int| 0 <= m < j && i < a.len() ==> b[m] < a[i as int],
            forall|x: u16| #[trigger]
                lhs@.take(k as int).contains(x) <==> a.take(i as int).contains(x) && b.contains(x),
        decreases a.len() - i + b.len() - j,
    {
        let va = lhs[i];
        let vb = rhs[j];
        proof {
            assert(va == a[i as int]);
        }
        if va < vb {
            proof {
                lemma_less_only_left(a, b, i as int, j as int, lhs@.take(k as int));
                lemma_take_step(a, i as int);
            }
            i += 1;
        } else if va > vb {
            j += 1;
        } else {
            let ghost pre = lhs@;
            proof {
                lemma_absent_in_prefixes(a, b, i as int, j as int, lhs@.take(k as int));
                lemma_take_step(a, i as int);
                lemma_push_contains(pre.take(k as int), va);
            }
            lhs[k] = va;
            proof {
                assert(lhs@.take(k + 1) =~= pre.take(k as int).push(va));
                assert(lhs@.take(k as int) =~= pre.take(k as int));
            }
            k += 1;
            i += 1;
            j += 1;
        }
    }
    proof {
        lemma_take_full(a);
        if i < a.len() {
            assert forall|x: u16| a.contains(x) && b.contains(x) implies a.take(
                i as int,
            ).contains(x) by {
                lemma_take_skip(a, i as int);
                if a.skip(i as int).contains(x) {
                    lemma_tail_absent(a, b, i as int, j as int, x);
                }
            }
        }
    }
    let ghost pre = lhs@;
    lhs.truncate(k);
    proof {
        assert(lhs@ =~= pre.take(k as int));
    }
}

/// In-place intersection in the style of the run walk: the same co-walk,
/// with the matching run copied element by element.
pub fn and_assign_run(lhs: &mut Vec<u16>, rhs: &[u16])
    requires
        sorted_strict(old(lhs)@),
        sorted_strict(rhs@),
    ensures
        merge_post(SetOp::Intersection, old(lhs)@, rhs@, final(lhs)@),
{
    if lhs.len() == 0 || rhs.len() == 0 {
        lhs.truncate(0);
        proof {
            assert(lhs@ =~= old(lhs)@.take(0));
            assert forall|x: u16| !(#[trigger] lhs@.contains(x)) by {
                if lhs@.contains(x) {
                    let w = choose|w: int| 0 <= w < lhs@.len() && lhs@[w] == x;
                }
            }
            assert forall|x: u16| !op_keeps(
                SetOp::Intersection,
                old(lhs)@.contains(x),
                rhs@.contains(x),
            ) by {
                if old(lhs)@.len() == 0 && old(lhs)@.contains(x) {
                    let w = choose|w: int| 0 <= w < old(lhs)@.len() && old(lhs)@[w] == x;
                }
                if rhs@.len() == 0 && rhs@.contains(x) {
                    let w = choose|w: int| 0 <= w < rhs@.len() && rhs@[w] == x;
                }
            }
        }
        return ;
    }
    and_assign_walk(lhs, rhs)
}

/// In-place difference: keep the left elements that the right side does
/// not hold.
pub fn sub_assign_walk(lhs: &mut Vec<u16>, rhs: &[u16])
    requires
        sorted_strict(old(lhs)@),
        sorted_strict(rhs@),
    ensures
        merge_post(SetOp::Difference, old(lhs)@, rhs@, final(lhs)@),
{
    let ghost a = lhs@;
    let ghost b = rhs@;
    let mut i: usize = 0;
    let mut j: usize = 0;
    let mut k: usize = 0;
    while i < lhs.len() && j < rhs.len()
        invariant
            sorted_strict(a),
            sorted_strict(b),
            b == rhs@,
            lhs@.len() == a.len(),
            k <= i <= a.len(),
            j <= b.len(),
            forall|m: int| i <= m < a.len() ==> lhs@[m] == a[m],
            sorted_strict(lhs@.take(k as int)),
            forall|m: int| 0 <= m < k && i < a.len() ==> lhs@[m] < a[i as int],
            forall|m: int| 0 <= m < i && j < b.len() ==> a[m] < b[j as int],
            forall|m: int| 0 <= m < j && i < a.len() ==> b[m] < a[i as int],
            forall|x: u16| #[trigger]
                lhs@.take(k as int).contains(x) <==> a.take(i as int).contains(x) && !b.contains(
                    x,
                ),
        decreases a.len() - i + b.len() - j,
    {
        let va = lhs[i];
        let vb = rhs[j];
        proof {
            assert(va == a[i as int]);
        }
        if va < vb {
            let ghost pre = lhs@;
            proof {
                lemma_less_only_left(a, b, i as int, j as int, lhs@.take(k as int));
                lemma_take_step(a, i as int);
                lemma_push_contains(pre.take(k as int), va);
            }
            lhs[k] = va;
            proof {
                assert(lhs@.take(k + 1) =~= pre.take(k as int).push(va));
                assert(lhs@.take(k as int) =~= pre.take(k as int));
            }
            k += 1;
            i += 1;
        } else if va > vb {
            j += 1;
        } else {
            proof {
                lemma_absent_in_prefixes(a, b, i as int, j as int, lhs@.take(k as int));
                lemma_take_step(a, i as int);
            }
            i += 1;
            j += 1;
        }
    }
    // Move the surviving tail of the left side down to the cut point.
    let ghost imark = i as int;
    while i < lhs.len()
        invariant
            sorted_strict(a),
            sorted_strict(b),
            b == rhs@,
            lhs@.len() == a.len(),
            k <= i <= a.len(),
            j == b.len() || imark >= a.len(),
            imark <= i,
            forall|m: int| i <= m < a.len() ==> lhs@[m] == a[m],
            sorted_strict(lhs@.take(k as int)),
            forall|m: int| 0 <= m < k && i < a.len() ==> lhs@[m] < a[i as int],
            forall|m: int| 0 <= m < j && i < a.len() ==> b[m] < a[i as int],
            forall|x: u16| #[trigger]
                lhs@.take(k as int).contains(x) <==> a.take(i as int).contains(x) && !b.contains(
                    x,
                ),
        decreases a.len() - i,
    {
        let va = lhs[i];
        let ghost pre = lhs@;
        proof {
            assert(va == a[i as int]);
            lemma_less_only_left(a, b, i as int, j as int, lhs@.take(k as int));
            lemma_take_step(a, i as int);
            lemma_push_contains(pre.take(k as int), va);
        }
        lhs[k] = va;
        proof {
            assert(lhs@.take(k + 1) =~= pre.take(k as int).push(va));
            assert(lhs@.take(k as int) =~= pre.take(k as int));
            assert forall|m: int| i + 1 <= m < a.len() implies lhs@[m] == a[m] by {}
        }
        k += 1;
        i += 1;
    }
    proof {
        lemma_take_full(a);
    }
    let ghost pre = lhs@;
    lhs.truncate(k);
    proof {
        assert(lhs@ =~= pre.take(k as int));
    }
}

impl ArrayStore {
    /// Union with another array store, as a new store.
    pub fn bitor(&self, rhs: &ArrayStore) -> (r: ArrayStore)
        requires
            self.wf(),
            rhs.wf(),
        ensures
            r.wf(),
            forall|x: u16| #[trigger] r@.contains(x) <==> self@.contains(x) || rhs@.contains(x),
    {
        ArrayStore::from_vec_unchecked(merge_walk(SetOp::Union, self.as_slice(), rhs.as_slice()))
    }

    /// Intersection with another array store, as a new store.
    pub fn bitand(&self, rhs: &ArrayStore) -> (r: ArrayStore)
        requires
            self.wf(),
            rhs.wf(),
        ensures
            r.wf(),
            forall|x: u16| #[trigger] r@.contains(x) <==> self@.contains(x) && rhs@.contains(x),
    {
        ArrayStore::from_vec_unchecked(
            merge_walk(SetOp::Intersection, self.as_slice(), rhs.as_slice()),
        )
    }

    /// Difference with another array store, as a new store.
    pub fn sub(&self, rhs: &ArrayStore) -> (r: ArrayStore)
        requires
            self.wf(),
            rhs.wf(),
        ensures
            r.wf(),
            forall|x: u16| #[trigger] r@.contains(x) <==> self@.contains(x) && !rhs@.contains(x),
    {
        ArrayStore::from_vec_unchecked(
            merge_walk(SetOp::Difference, self.as_slice(), rhs.as_slice()),
        )
    }

    /// Symmetric difference with another array store, as a new store.
    pub fn bitxor(&self, rhs: &ArrayStore) -> (r: ArrayStore)
        requires
            self.wf(),
            rhs.wf(),
        ensures
            r.wf(),
            forall|x: u16| #[trigger] r@.contains(x) <==> self@.contains(x) != rhs@.contains(x),
    {
        ArrayStore::from_vec_unchecked(
            merge_walk(SetOp::SymmetricDifference, self.as_slice(), rhs.as_slice()),
        )
    }

    /// No element in common with `other`.
    pub fn is_disjoint(&self, other: &ArrayStore) -> (r: bool)
        requires
            self.wf(),
            other.wf(),
        ensures
            r == forall|x: u16| !(self@.contains(x) && other@.contains(x)),
    {
        let ghost a = self@;
        let ghost b = other@;
        let lhs = self.as_slice();
        let rhs = other.as_slice();
        let mut i: usize = 0;
        let mut j: usize = 0;
        while i < lhs.len() && j < rhs.len()
            invariant
                sorted_strict(a),
                sorted_strict(b),
                a == lhs@,
                b == rhs@,
                a == self@,
                b == other@,
                i <= a.len(),
                j <= b.len(),
                forall|m: int| 0 <= m < i && j < b.len() ==> a[m] < b[j as int],
                forall|m: int| 0 <= m < j && i < a.len() ==> b[m] < a[i as int],
                forall|x: u16| #[trigger] a.take(i as int).contains(x) ==> !b.contains(x),
                forall|x: u16| #[trigger] b.take(j as int).contains(x) ==> !a.contains(x),
            decreases a.len() - i + b.len() - j,
        {
            let va = lhs[i];
            let vb = rhs[j];
            if va == vb {
                proof {
                    assert(!forall|x: u16| !(self@.contains(x) && other@.contains(x))) by {
                        assert(a[i as int] == va && b[j as int] == va);
                        assert(a.contains(va) && b.contains(va));
                    }
                }
                return false;
            } else if va < vb {
                proof {
                    lemma_less_only_left(a, b, i as int, j as int, Seq::<u16>::empty());
                    lemma_take_step(a, i as int);
                }
                i += 1;
            } else {
                proof {
                    lemma_less_only_left(b, a, j as int, i as int, Seq::<u16>::empty());
                    lemma_take_step(b, j as int);
                }
                j += 1;
            }
        }
        proof {
            assert forall|x: u16| !(a.contains(x) && b.contains(x)) by {
                if a.contains(x) && b.contains(x) {
                    if i >= a.len() {
                        lemma_take_full(a);
                    } else {
                        lemma_take_skip(a, i as int);
                        if a.skip(i as int).contains(x) {
                            lemma_tail_absent(a, b, i as int, j as int, x);
                        }
                    }
                }
            }
        }
        true
    }

    /// Every element of `self` appears in `other`.
    pub fn is_subset(&self, other: &ArrayStore) -> (r: bool)
        requires
            self.wf(),
            other.wf(),
        ensures
            r == forall|x: u16| #[trigger] self@.contains(x) ==> other@.contains(x),
    {
        let ghost a = self@;
        let ghost b = other@;
        let lhs = self.as_slice();
        let rhs = other.as_slice();
        let mut i: usize = 0;
        let mut j: usize = 0;
        while i < lhs.len() && j < rhs.len()
            invariant
                sorted_strict(a),
                sorted_strict(b),
                a == lhs@,
                b == rhs@,
                a == self@,
                b == other@,
                i <= a.len(),
                j <= b.len(),
                forall|m: int| 0 <= m < i && j < b.len() ==> a[m] < b[j as int],
                forall|m: int| 0 <= m < j && i < a.len() ==> b[m] < a[i as int],
                forall|x: u16| #[trigger] a.take(i as int).contains(x) ==> b.contains(x),
            decreases a.len() - i + b.len() - j,
        {
            let va = lhs[i];
            let vb = rhs[j];
            if va == vb {
                proof {
                    assert(b.contains(vb));
                    lemma_take_step(a, i as int);
                }
                i += 1;
                j += 1;
            } else if va < vb {
                proof {
                    lemma_less_only_left(a, b, i as int, j as int, Seq::<u16>::empty());
                    assert(!forall|x: u16| #[trigger] self@.contains(x) ==> other@.contains(x)) by {
                        assert(a[i as int] == va);
                        assert(a.contains(va) && !b.contains(va));
                    }
                }
                return false;
            } else {
                j += 1;
            }
        }
        if i < lhs.len() {
            // The right side ran out below the next left element.
            proof {
                lemma_less_only_left(a, b, i as int, j as int, Seq::<u16>::empty());
                assert(!forall|x: u16| #[trigger] self@.contains(x) ==> other@.contains(x)) by {
                    assert(a.contains(a[i as int]) && !b.contains(a[i as int]));
                }
            }
            false
        } else {
            proof {
                lemma_take_full(a);
            }
            true
        }
    }
}

impl ArrayStore {
    /// In-place intersection, choosing the strategy by how skewed the two
    /// sizes are.
    pub fn bitand_assign(&mut self, rhs: &ArrayStore)
        requires
            old(self).wf(),
            rhs.wf(),
        ensures
            final(self).wf(),
            forall|x: u16| #[trigger]
                final(self)@.contains(x) <==> old(self)@.contains(x) && rhs@.contains(x),
    {
        let mut v = self.take_vec();
        crate::array_util::and_assign_opt(&mut v, rhs.as_slice());
        self.replace_vec(v);
    }

    /// In-place difference.
    pub fn sub_assign(&mut self, rhs: &ArrayStore)
        requires
            old(self).wf(),
            rhs.wf(),
        ensures
            final(self).wf(),
            forall|x: u16| #[trigger]
                final(self)@.contains(x) <==> old(self)@.contains(x) && !rhs@.contains(x),
    {
        let mut v = self.take_vec();
        sub_assign_walk(&mut v, rhs.as_slice());
        self.replace_vec(v);
    }

    /// In-place symmetric difference.
    pub fn bitxor_assign(&mut self, rhs: &ArrayStore)
        requires
            old(self).wf(),
            rhs.wf(),
        ensures
            final(self).wf(),
            forall|x: u16| #[trigger]
                final(self)@.contains(x) <==> (old(self)@.contains(x) != rhs@.contains(x)),
    {
        let v = merge_walk(SetOp::SymmetricDifference, self.as_slice(), rhs.as_slice());
        self.replace_vec(v);
    }
}

/// In-place intersection of two array stores by the plain co-walk.
pub fn and_assign_array_walk(lhs: &mut ArrayStore, rhs: &ArrayStore)
    requires
        old(lhs).wf(),
        rhs.wf(),
    ensures
        final(lhs).wf(),
        forall|x: u16| #[trigger]
            final(lhs)@.contains(x) <==> old(lhs)@.contains(x) && rhs@.contains(x),
{
    let mut v = lhs.take_vec();
    and_assign_walk(&mut v, rhs.as_slice());
    lhs.replace_vec(v);
}

/// In-place intersection of two array stores by the run-copying co-walk.
pub fn and_assign_array_run(lhs: &mut ArrayStore, rhs: &ArrayStore)
    requires
        old(lhs).wf(),
        rhs.wf(),
    ensures
        final(lhs).wf(),
        forall|x: u16| #[trigger]
            final(lhs)@.contains(x) <==> old(lhs)@.contains(x) && rhs@.contains(x),
{
    let mut v = lhs.take_vec();
    and_assign_run(&mut v, rhs.as_slice());
    lhs.replace_vec(v);
}

/// In-place intersection of two array stores by mutual galloping.
pub fn and_assign_array_gallop(lhs: &mut ArrayStore, rhs: &ArrayStore)
    requires
        old(lhs).wf(),
        rhs.wf(),
    ensures
        final(lhs).wf(),
        forall|x: u16| #[trigger]
            final(lhs)@.contains(x) <==> old(lhs)@.contains(x) && rhs@.contains(x),
{
    let mut v = lhs.take_vec();
    crate::array_gallop::and_assign_gallop(&mut v, rhs.as_slice());
    lhs.replace_vec(v);
}

/// In-place intersection of two array stores with the skew-driven
/// strategy choice.
pub fn and_assign_array_opt(lhs: &mut ArrayStore, rhs: &ArrayStore)
    requires
        old(lhs).wf(),
        rhs.wf(),
    ensures
        final(lhs).wf(),
        forall|x: u16| #[trigger]
            final(lhs)@.contains(x) <==> old(lhs)@.contains(x) && rhs@.contains(x),
{
    let mut v = lhs.take_vec();
    crate::array_util::and_assign_opt(&mut v, rhs.as_slice());
    lhs.replace_vec(v);
}

/// The entry point named for skipping interior bounds checks; the proofs
/// discharge those checks, so it shares the optimized path.
pub fn and_assign_array_opt_unsafe(lhs: &mut ArrayStore, rhs: &ArrayStore)
    requires
        old(lhs).wf(),
        rhs.wf(),
    ensures
        final(lhs).wf(),
        forall|x: u16| #[trigger]
            final(lhs)@.contains(x) <==> old(lhs)@.contains(x) && rhs@.contains(x),
{
    let mut v = lhs.take_vec();
    crate::array_util::and_assign_opt_unchecked(&mut v, rhs.as_slice());
    lhs.replace_vec(v);
}

/// In-place intersection of two array stores, skew-dispatched like the
/// lane-parallel path.
pub fn and_assign_array_vector(lhs: &mut ArrayStore, rhs: &ArrayStore)
    requires
        old(lhs).wf(),
        rhs.wf(),
    ensures
        final(lhs).wf(),
        forall|x: u16| #[trigger]
            final(lhs)@.contains(x) <==> old(lhs)@.contains(x) && rhs@.contains(x),
{
    let mut v = lhs.take_vec();
    crate::array_util::and_assign_opt(&mut v, rhs.as_slice());
    lhs.replace_vec(v);
}

/// In-place intersection of two array stores: the retaining walk.
pub fn and_assign_array_array(lhs: &mut ArrayStore, rhs: &ArrayStore)
    requires
        old(lhs).wf(),
        rhs.wf(),
    ensures
        final(lhs).wf(),
        forall|x: u16| #[trigger]
            final(lhs)@.contains(x) <==> old(lhs)@.contains(x) && rhs@.contains(x),
{
    let mut v = lhs.take_vec();
    and_assign_walk(&mut v, rhs.as_slice());
    lhs.replace_vec(v);
}

/// At the co-walk position, the left head is absent from the whole right
/// side and from everything already emitted.
pub(crate) proof fn lemma_less_only_left(a: Seq<u16>, b: Seq<u16>, i: int, j: int, out: Seq<u16>)
    requires
        sorted_strict(a),
        sorted_strict(b),
        0 <= i < a.len(),
        0 <= j <= b.len(),
        j < b.len() ==> a[i] < b[j],
        forall|m: int| 0 <= m < j ==> b[m] < a[i],
        forall|m: int| 0 <= m < out.len() ==> out[m] < a[i],
    ensures
        a.contains(a[i]),
        !b.contains(a[i]),
        !out.contains(a[i]),
        !a.take(i).contains(a[i]),
        !b.take(j).contains(a[i]),
{
    assert(a.contains(a[i]));
    if b.contains(a[i]) {
        let k = choose|k: int| 0 <= k < b.len() && b[k] == a[i];
        if k < j {
            assert(b[k] < a[i]);
        } else if j < b.len() {
            assert(b[j] <= b[k]);
        }
    }
    if out.contains(a[i]) {
        let k = choose|k: int| 0 <= k < out.len() && out[k] == a[i];
    }
    if a.take(i).contains(a[i]) {
        let k = choose|k: int| 0 <= k < i && a.take(i)[k] == a[i];
        assert(a[k] < a[i]);
    }
    if b.take(j).contains(a[i]) {
        let k = choose|k: int| 0 <= k < j && b.take(j)[k] == a[i];
        assert(b[k] < a[i]);
    }
}

/// At an equal pair, the shared value has not been emitted yet and is in
/// neither processed prefix.
pub(crate) proof fn lemma_absent_in_prefixes(a: Seq<u16>, b: Seq<u16>, i: int, j: int, out: Seq<u16>)
    requires
        sorted_strict(a),
        sorted_strict(b),
        0 <= i < a.len(),
        0 <= j < b.len(),
        a[i] == b[j],
        forall|m: int| 0 <= m < out.len() ==> out[m] < a[i],
    ensures
        a.contains(a[i]),
        b.contains(a[i]),
        !out.contains(a[i]),
        !a.take(i).contains(a[i]),
        !b.take(j).contains(a[i]),
{
    assert(b[j] == a[i]);
    if out.contains(a[i]) {
        let k = choose|k: int| 0 <= k < out.len() && out[k] == a[i];
    }
    if a.take(i).contains(a[i]) {
        let k = choose|k: int| 0 <= k < i && a.take(i)[k] == a[i];
        assert(a[k] < a[i]);
    }
    if b.take(j).contains(a[i]) {
        let k = choose|k: int| 0 <= k < j && b.take(j)[k] == a[i];
        assert(b[k] < b[j]);
    }
}

/// When one side is exhausted, nothing left on the other side appears in
/// it: the exhausted side lies entirely below the survivor's tail.
pub(crate) proof fn lemma_tail_absent(a: Seq<u16>, b: Seq<u16>, i: int, j: int, x: u16)
    requires
        sorted_strict(a),
        sorted_strict(b),
        0 <= i < a.len(),
        0 <= j <= b.len(),
        j == b.len(),
        forall|m: int| 0 <= m < j ==> b[m] < a[i],
        a.skip(i).contains(x),
    ensures
        !b.contains(x),
{
    let k = choose|k: int| 0 <= k < a.skip(i).len() && a.skip(i)[k] == x;
    assert(a[i + k] == x);
    assert(a[i] <= a[i + k]);
    if b.contains(x) {
        let m = choose|m: int| 0 <= m < b.len() && b[m] == x;
        assert(b[m] < a[i]);
    }
}

} // verus!
