//! Skewed intersection: branchless multi-target binary search over the
//! larger side, driven four targets at a time from the smaller side.

use vstd::prelude::*;

use crate::array_gallop::lemma_skip_window;
use crate::array_ops::{and_assign_run, lemma_tail_absent, merge_post};
use crate::seq_facts::{lemma_push_contains, lemma_sorted_len, lemma_take_full, lemma_take_skip};
use crate::util::{exponential_search, lower_bound_in, sorted_strict, SetOp};

verus! {

/// Branchless binary search going after 4 values at once over one shared
/// shrinking window; each result is the position of the first element not
/// below its target.
pub fn binary_search_4(array: &[u16], t1: u16, t2: u16, t3: u16, t4: u16) -> (r: (
    usize,
    usize,
    usize,
    usize,
))
    requires
        sorted_strict(array@),
        array@.len() > 0,
    ensures
        lower_bound_in(array@, t1, r.0 as int),
        lower_bound_in(array@, t2, r.1 as int),
        lower_bound_in(array@, t3, r.2 as int),
        lower_bound_in(array@, t4, r.3 as int),
{
    let mut base1: usize = 0;
    let mut base2: usize = 0;
    let mut base3: usize = 0;
    let mut base4: usize = 0;
    let mut n: usize = array.len();
    while n > 1
        invariant
            sorted_strict(array@),
            1 <= n,
            base1 + n <= array@.len(),
            base2 + n <= array@.len(),
            base3 + n <= array@.len(),
            base4 + n <= array@.len(),
            forall|m: int| 0 <= m < base1 ==> array@[m] < t1,
            forall|m: int| base1 + n <= m < array@.len() ==> array@[m] >= t1,
            forall|m: int| 0 <= m < base2 ==> array@[m] < t2,
            forall|m: int| base2 + n <= m < array@.len() ==> array@[m] >= t2,
            forall|m: int| 0 <= m < base3 ==> array@[m] < t3,
            forall|m: int| base3 + n <= m < array@.len() ==> array@[m] >= t3,
            forall|m: int| 0 <= m < base4 ==> array@[m] < t4,
            forall|m: int| base4 + n <= m < array@.len() ==> array@[m] >= t4,
        decreases n,
    {
        let half = n / 2;
        base1 = step_base(array, base1, n, half, t1);
        base2 = step_base(array, base2, n, half, t2);
        base3 = step_base(array, base3, n, half, t3);
        base4 = step_base(array, base4, n, half, t4);
        n = n - half;
    }
    let r1 = finish_base(array, base1, t1);
    let r2 = finish_base(array, base2, t2);
    let r3 = finish_base(array, base3, t3);
    let r4 = finish_base(array, base4, t4);
    (r1, r2, r3, r4)
}

/// Branchless binary search going after 2 values at once.
pub fn binary_search_2(array: &[u16], t1: u16, t2: u16) -> (r: (usize, usize))
    requires
        sorted_strict(array@),
        array@.len() > 0,
    ensures
        lower_bound_in(array@, t1, r.0 as int),
        lower_bound_in(array@, t2, r.1 as int),
{
    let mut base1: usize = 0;
    let mut base2: usize = 0;
    let mut n: usize = array.len();
    while n > 1
        invariant
            sorted_strict(array@),
            1 <= n,
            base1 + n <= array@.len(),
            base2 + n <= array@.len(),
            forall|m: int| 0 <= m < base1 ==> array@[m] < t1,
            forall|m: int| base1 + n <= m < array@.len() ==> array@[m] >= t1,
            forall|m: int| 0 <= m < base2 ==> array@[m] < t2,
            forall|m: int| base2 + n <= m < array@.len() ==> array@[m] >= t2,
        decreases n,
    {
        let half = n / 2;
        base1 = step_base(array, base1, n, half, t1);
        base2 = step_base(array, base2, n, half, t2);
        n = n - half;
    }
    (finish_base(array, base1, t1), finish_base(array, base2, t2))
}

/// One halving step of the shared window for a single target.
fn step_base(array: &[u16], base: usize, n: usize, half: usize, t: u16) -> (r: usize)
    requires
        sorted_strict(array@),
        half == n / 2,
        2 <= n,
        base + n <= array@.len(),
        forall|m: int| 0 <= m < base ==> array@[m] < t,
        forall|m: int| base + n <= m < array@.len() ==> array@[m] >= t,
    ensures
        r == base || r == base + half,
        r + (n - half) <= array@.len(),
        forall|m: int| 0 <= m < r ==> array@[m] < t,
        forall|m: int| r + (n - half) <= m < array@.len() ==> array@[m] >= t,
{
    let total = array.len();
    if array[base + half] < t {
        proof {
            assert forall|m: int| 0 <= m < base + half implies array@[m] < t by {
                assert(m < base + half ==> array@[m] <= array@[base + half]);
            }
        }
        base + half
    } else {
        proof {
            assert forall|m: int| base + (n - half) <= m < array@.len() implies array@[m]
                >= t by {
                assert(m >= base + half);
                assert(m > base + half ==> array@[base + half] < array@[m]);
            }
        }
        base
    }
}

/// Close the window of size one into a lower-bound position.
fn finish_base(array: &[u16], base: usize, t: u16) -> (r: usize)
    requires
        sorted_strict(array@),
        base < array@.len(),
        forall|m: int| 0 <= m < base ==> array@[m] < t,
        forall|m: int| base + 1 <= m < array@.len() ==> array@[m] >= t,
    ensures
        lower_bound_in(array@, t, r as int),
{
    if array[base] < t {
        base + 1
    } else {
        base
    }
}

/// A lower-bound position in the unsearched suffix decides membership in
/// the whole sequence, once the searched prefix lies below the target.
proof fn lemma_present(l: Seq<u16>, lo: int, ik: int, t: u16)
    requires
        sorted_strict(l),
        0 <= lo <= l.len(),
        lower_bound_in(l.skip(lo), t, ik),
        forall|m: int| 0 <= m < lo ==> l[m] < t,
    ensures
        (ik < l.len() - lo && l[lo + ik] == t) <==> l.contains(t),
{
    let s = l.skip(lo);
    if ik < s.len() && s[ik] == t {
        assert(l[lo + ik] == t);
        assert(l.contains(t));
    }
    if l.contains(t) {
        let k = choose|k: int| 0 <= k < l.len() && l[k] == t;
        assert(k >= lo);
        assert(s[k - lo] == t);
        if k - lo < ik {
            assert(s[k - lo] < t);
        }
        if k - lo > ik {
            assert(s[ik] >= t);
            assert(s[ik] < s[k - lo]);
        }
        assert(l[lo + ik] == t && ik < l.len() - lo);
    }
}

/// Append `target` to the partial intersection when it was found.
fn probe_push(out: &mut Vec<u16>, target: u16, present: bool, Ghost(l): Ghost<Seq<u16>>, Ghost(
    p,
): Ghost<Seq<u16>>)
    requires
        present == l.contains(target),
        sorted_strict(old(out)@),
        forall|m: int| 0 <= m < old(out)@.len() ==> old(out)@[m] < target,
        forall|x: u16| #[trigger] old(out)@.contains(x) <==> p.contains(x) && l.contains(x),
    ensures
        sorted_strict(final(out)@),
        forall|m: int| 0 <= m < final(out)@.len() ==> final(out)@[m] <= target,
        forall|x: u16| #[trigger]
            final(out)@.contains(x) <==> p.push(target).contains(x) && l.contains(x),
{
    proof {
        lemma_push_contains(out@, target);
        lemma_push_contains(p, target);
    }
    if present {
        out.push(target);
    }
}

/// Intersect the smaller sorted vector in place with the larger sorted
/// slice, probing four targets per round with the branchless search.
pub fn intersect_skewed_small(small: &mut Vec<u16>, large: &[u16])
    requires
        sorted_strict(old(small)@),
        sorted_strict(large@),
        old(small)@.len() < large@.len(),
    ensures
        merge_post(SetOp::Intersection, old(small)@, large@, final(small)@),
{
    let ghost a = small@;
    let ghost l = large@;
    let size_s = small.len();
    let size_l = large.len();
    proof {
        lemma_sorted_len(a);
    }
    let mut out: Vec<u16> = Vec::new();
    let mut idx_s: usize = 0;
    let mut idx_l: usize = 0;
    while idx_s + 4 <= size_s && idx_l < size_l
        invariant
            sorted_strict(a),
            sorted_strict(l),
            a == small@,
            l == large@,
            size_s <= 65536,
            size_s == a.len(),
            size_l == l.len(),
            idx_s <= size_s,
            idx_l <= size_l,
            sorted_strict(out@),
            forall|m: int| 0 <= m < out@.len() && idx_s < size_s ==> out@[m] < a[idx_s as int],
            forall|m: int| 0 <= m < idx_l && idx_s < size_s ==> l[m] < a[idx_s as int],
            forall|x: u16| #[trigger]
                out@.contains(x) <==> a.take(idx_s as int).contains(x) && l.contains(x),
        decreases size_s - idx_s,
    {
        let t1 = small[idx_s];
        let t2 = small[idx_s + 1];
        let t3 = small[idx_s + 2];
        let t4 = small[idx_s + 3];
        let sub = vstd::slice::slice_subrange(large, idx_l, size_l);
        let (i1, i2, i3, i4) = binary_search_4(sub, t1, t2, t3, t4);
        let p1 = i1 + idx_l < size_l && *vstd::slice::slice_index_get(large, idx_l + i1) == t1;
        let p2 = i2 + idx_l < size_l && *vstd::slice::slice_index_get(large, idx_l + i2) == t2;
        let p3 = i3 + idx_l < size_l && *vstd::slice::slice_index_get(large, idx_l + i3) == t3;
        let p4 = i4 + idx_l < size_l && *vstd::slice::slice_index_get(large, idx_l + i4) == t4;
        proof {
            lemma_present(l, idx_l as int, i1 as int, t1);
            lemma_present(l, idx_l as int, i2 as int, t2);
            lemma_present(l, idx_l as int, i3 as int, t3);
            lemma_present(l, idx_l as int, i4 as int, t4);
        }
        let ghost q0 = a.take(idx_s as int);
        probe_push(&mut out, t1, p1, Ghost(l), Ghost(q0));
        probe_push(&mut out, t2, p2, Ghost(l), Ghost(q0.push(t1)));
        probe_push(&mut out, t3, p3, Ghost(l), Ghost(q0.push(t1).push(t2)));
        probe_push(&mut out, t4, p4, Ghost(l), Ghost(q0.push(t1).push(t2).push(t3)));
        proof {
            assert(q0.push(t1).push(t2).push(t3).push(t4) =~= a.take(idx_s + 4));
            lemma_skip_window(l, idx_l as int, i4 as int, t4);
        }
        idx_s = idx_s + 4;
        idx_l = idx_l + i4;
    }
    if idx_s + 2 <= size_s && idx_l < size_l {
        let t1 = small[idx_s];
        let t2 = small[idx_s + 1];
        let sub = vstd::slice::slice_subrange(large, idx_l, size_l);
        let (i1, i2) = binary_search_2(sub, t1, t2);
        let p1 = i1 + idx_l < size_l && *vstd::slice::slice_index_get(large, idx_l + i1) == t1;
        let p2 = i2 + idx_l < size_l && *vstd::slice::slice_index_get(large, idx_l + i2) == t2;
        proof {
            lemma_present(l, idx_l as int, i1 as int, t1);
            lemma_present(l, idx_l as int, i2 as int, t2);
        }
        let ghost q0 = a.take(idx_s as int);
        probe_push(&mut out, t1, p1, Ghost(l), Ghost(q0));
        probe_push(&mut out, t2, p2, Ghost(l), Ghost(q0.push(t1)));
        proof {
            assert(q0.push(t1).push(t2) =~= a.take(idx_s + 2));
            lemma_skip_window(l, idx_l as int, i2 as int, t2);
        }
        idx_s = idx_s + 2;
        idx_l = idx_l + i2;
    }
    if idx_s < size_s && idx_l < size_l {
        let t1 = small[idx_s];
        let sub = vstd::slice::slice_subrange(large, idx_l, size_l);
        let p1 = match exponential_search(sub, t1) {
            Ok(i) => {
                proof {
                    assert(l[idx_l + i] == t1);
                }
                true
            },
            Err(_) => {
                proof {
                    if l.contains(t1) {
                        let k = choose|k: int| 0 <= k < l.len() && l[k] == t1;
                        assert(k >= idx_l);
                        assert(l.skip(idx_l as int)[k - idx_l] == t1);
                    }
                }
                false
            },
        };
        probe_push(&mut out, t1, p1, Ghost(l), Ghost(a.take(idx_s as int)));
        proof {
            assert(a.take(idx_s as int).push(t1) =~= a.take(idx_s + 1));
        }
        idx_s = idx_s + 1;
    }
    proof {
        if idx_s == size_s {
            lemma_take_full(a);
        } else {
            assert forall|x: u16| a.contains(x) && l.contains(x) implies a.take(
                idx_s as int,
            ).contains(x) by {
                lemma_take_skip(a, idx_s as int);
                if a.skip(idx_s as int).contains(x) {
                    lemma_tail_absent(a, l, idx_s as int, idx_l as int, x);
                }
            }
        }
    }
    *small = out;
}

/// Intersect the larger sorted vector in place with the smaller sorted
/// slice; the smaller side drives the probing.
pub fn intersect_skewed_large(small: &[u16], large: &mut Vec<u16>)
    requires
        sorted_strict(small@),
        sorted_strict(old(large)@),
        small@.len() < old(large)@.len(),
    ensures
        merge_post(SetOp::Intersection, old(large)@, small@, final(large)@),
{
    let ghost a = small@;
    let ghost l = large@;
    let size_s = small.len();
    let size_l = large.len();
    proof {
        lemma_sorted_len(a);
    }
    let mut out: Vec<u16> = Vec::new();
    let mut idx_s: usize = 0;
    let mut idx_l: usize = 0;
    while idx_s + 4 <= size_s && idx_l < size_l
        invariant
            sorted_strict(a),
            sorted_strict(l),
            a == small@,
            l == large@,
            size_s <= 65536,
            size_s == a.len(),
            size_l == l.len(),
            idx_s <= size_s,
            idx_l <= size_l,
            sorted_strict(out@),
            forall|m: int| 0 <= m < out@.len() && idx_s < size_s ==> out@[m] < a[idx_s as int],
            forall|m: int| 0 <= m < idx_l && idx_s < size_s ==> l[m] < a[idx_s as int],
            forall|x: u16| #[trigger]
                out@.contains(x) <==> a.take(idx_s as int).contains(x) && l.contains(x),
        decreases size_s - idx_s,
    {
        let t1 = small[idx_s];
        let t2 = small[idx_s + 1];
        let t3 = small[idx_s + 2];
        let t4 = small[idx_s + 3];
        let sub = vstd::slice::slice_subrange(large.as_slice(), idx_l, size_l);
        let (i1, i2, i3, i4) = binary_search_4(sub, t1, t2, t3, t4);
        let p1 = i1 + idx_l < size_l && *vstd::slice::slice_index_get(large.as_slice(), idx_l + i1)
            == t1;
        let p2 = i2 + idx_l < size_l && *vstd::slice::slice_index_get(large.as_slice(), idx_l + i2)
            == t2;
        let p3 = i3 + idx_l < size_l && *vstd::slice::slice_index_get(large.as_slice(), idx_l + i3)
            == t3;
        let p4 = i4 + idx_l < size_l && *vstd::slice::slice_index_get(large.as_slice(), idx_l + i4)
            == t4;
        proof {
            lemma_present(l, idx_l as int, i1 as int, t1);
            lemma_present(l, idx_l as int, i2 as int, t2);
            lemma_present(l, idx_l as int, i3 as int, t3);
            lemma_present(l, idx_l as int, i4 as int, t4);
        }
        let ghost q0 = a.take(idx_s as int);
        probe_push(&mut out, t1, p1, Ghost(l), Ghost(q0));
        probe_push(&mut out, t2, p2, Ghost(l), Ghost(q0.push(t1)));
        probe_push(&mut out, t3, p3, Ghost(l), Ghost(q0.push(t1).push(t2)));
        probe_push(&mut out, t4, p4, Ghost(l), Ghost(q0.push(t1).push(t2).push(t3)));
        proof {
            assert(q0.push(t1).push(t2).push(t3).push(t4) =~= a.take(idx_s + 4));
            lemma_skip_window(l, idx_l as int, i4 as int, t4);
        }
        idx_s = idx_s + 4;
        idx_l = idx_l + i4;
    }
    if idx_s + 2 <= size_s && idx_l < size_l {
        let t1 = small[idx_s];
        let t2 = small[idx_s + 1];
        let sub = vstd::slice::slice_subrange(large.as_slice(), idx_l, size_l);
        let (i1, i2) = binary_search_2(sub, t1, t2);
        let p1 = i1 + idx_l < size_l && *vstd::slice::slice_index_get(large.as_slice(), idx_l + i1)
            == t1;
        let p2 = i2 + idx_l < size_l && *vstd::slice::slice_index_get(large.as_slice(), idx_l + i2)
            == t2;
        proof {
            lemma_present(l, idx_l as int, i1 as int, t1);
            lemma_present(l, idx_l as int, i2 as int, t2);
        }
        let ghost q0 = a.take(idx_s as int);
        probe_push(&mut out, t1, p1, Ghost(l), Ghost(q0));
        probe_push(&mut out, t2, p2, Ghost(l), Ghost(q0.push(t1)));
        proof {
            assert(q0.push(t1).push(t2) =~= a.take(idx_s + 2));
            lemma_skip_window(l, idx_l as int, i2 as int, t2);
        }
        idx_s = idx_s + 2;
        idx_l = idx_l + i2;
    }
    if idx_s < size_s && idx_l < size_l {
        let t1 = small[idx_s];
        let sub = vstd::slice::slice_subrange(large.as_slice(), idx_l, size_l);
        let p1 = match exponential_search(sub, t1) {
            Ok(i) => {
                proof {
                    assert(l[idx_l + i] == t1);
                }
                true
            },
            Err(_) => {
                proof {
                    if l.contains(t1) {
                        let k = choose|k: int| 0 <= k < l.len() && l[k] == t1;
                        assert(k >= idx_l);
                        assert(l.skip(idx_l as int)[k - idx_l] == t1);
                    }
                }
                false
            },
        };
        probe_push(&mut out, t1, p1, Ghost(l), Ghost(a.take(idx_s as int)));
        proof {
            assert(a.take(idx_s as int).push(t1) =~= a.take(idx_s + 1));
        }
        idx_s = idx_s + 1;
    }
    proof {
        if idx_s == size_s {
            lemma_take_full(a);
        } else {
            assert forall|x: u16| a.contains(x) && l.contains(x) implies a.take(
                idx_s as int,
            ).contains(x) by {
                lemma_take_skip(a, idx_s as int);
                if a.skip(idx_s as int).contains(x) {
                    lemma_tail_absent(a, l, idx_s as int, idx_l as int, x);
                }
            }
        }
    }
    *large = out;
}

/// Intersection with the strategy choice of the optimized path: gallop a
/// strongly skewed pair, walk a balanced one.
pub fn and_assign_opt(lhs: &mut Vec<u16>, rhs: &[u16])
    requires
        sorted_strict(old(lhs)@),
        sorted_strict(rhs@),
    ensures
        merge_post(SetOp::Intersection, old(lhs)@, rhs@, final(lhs)@),
{
    proof {
        lemma_sorted_len(lhs@);
        lemma_sorted_len(rhs@);
    }
    if lhs.len() * 64 < rhs.len() {
        intersect_skewed_small(lhs, rhs);
    } else if rhs.len() * 64 < lhs.len() {
        intersect_skewed_large(rhs, lhs);
    } else {
        and_assign_run(lhs, rhs);
    }
}

/// The same strategy choice, under the name that promises no interior
/// bounds checks; the proofs discharge them.
pub fn and_assign_opt_unchecked(lhs: &mut Vec<u16>, rhs: &[u16])
    requires
        sorted_strict(old(lhs)@),
        sorted_strict(rhs@),
    ensures
        merge_post(SetOp::Intersection, old(lhs)@, rhs@, final(lhs)@),
{
    and_assign_opt(lhs, rhs)
}

} // verus!
