//! The algebra of the pair-wise operations, stated over the sets the
//! bitmaps represent and proved from the operations' own contracts: each
//! lemma takes the operands and results as they come out of the
//! operations, with exactly the membership clauses those operations
//! ensure.

use vstd::prelude::*;

use crate::multi_ops::fold_contains;
use crate::roaring::RoaringBitmap;
use crate::util::{op_keeps, SetOp};

verus! {

/// The result of a union, as its contract states it.
pub open spec fn is_union(x: &RoaringBitmap, a: &RoaringBitmap, b: &RoaringBitmap) -> bool {
    forall|v: u32| #[trigger] x.contains_spec(v) <==> a.contains_spec(v) || b.contains_spec(v)
}

/// The result of an intersection, as its contract states it.
pub open spec fn is_intersection(x: &RoaringBitmap, a: &RoaringBitmap, b: &RoaringBitmap) -> bool {
    forall|v: u32| #[trigger] x.contains_spec(v) <==> a.contains_spec(v) && b.contains_spec(v)
}

/// The result of a difference, as its contract states it.
pub open spec fn is_difference(x: &RoaringBitmap, a: &RoaringBitmap, b: &RoaringBitmap) -> bool {
    forall|v: u32| #[trigger] x.contains_spec(v) <==> a.contains_spec(v) && !b.contains_spec(v)
}

/// The result of a symmetric difference, as its contract states it.
pub open spec fn is_sym_diff(x: &RoaringBitmap, a: &RoaringBitmap, b: &RoaringBitmap) -> bool {
    forall|v: u32| #[trigger] x.contains_spec(v) <==> (a.contains_spec(v) != b.contains_spec(v))
}

/// A bitmap with no member.
pub open spec fn is_empty_map(x: &RoaringBitmap) -> bool {
    forall|v: u32| !(#[trigger] x.contains_spec(v))
}

/// The subset relation between the represented sets.
pub open spec fn is_subset_of(a: &RoaringBitmap, b: &RoaringBitmap) -> bool {
    forall|v: u32| #[trigger] a.contains_spec(v) ==> b.contains_spec(v)
}

/// Two bitmaps representing the same set.
pub open spec fn same_set(x: &RoaringBitmap, y: &RoaringBitmap) -> bool {
    forall|v: u32| #[trigger] x.contains_spec(v) == y.contains_spec(v)
}

/// Union is commutative: either order of the operands yields the same set.
pub proof fn lemma_union_commutative(a: &RoaringBitmap, b: &RoaringBitmap, x: &RoaringBitmap, y: &RoaringBitmap)
    requires
        is_union(x, a, b),
        is_union(y, b, a),
    ensures
        same_set(x, y),
        x.as_set() == y.as_set(),
{
    assert(x.as_set() =~= y.as_set());
}

/// Intersection is commutative.
pub proof fn lemma_intersection_commutative(a: &RoaringBitmap, b: &RoaringBitmap, x: &RoaringBitmap, y: &RoaringBitmap)
    requires
        is_intersection(x, a, b),
        is_intersection(y, b, a),
    ensures
        same_set(x, y),
        x.as_set() == y.as_set(),
{
    assert(x.as_set() =~= y.as_set());
}

/// Symmetric difference is commutative.
pub proof fn lemma_sym_diff_commutative(a: &RoaringBitmap, b: &RoaringBitmap, x: &RoaringBitmap, y: &RoaringBitmap)
    requires
        is_sym_diff(x, a, b),
        is_sym_diff(y, b, a),
    ensures
        same_set(x, y),
        x.as_set() == y.as_set(),
{
    assert(x.as_set() =~= y.as_set());
}

/// Union is associative: grouping does not change the set.
pub proof fn lemma_union_associative(a: &RoaringBitmap, b: &RoaringBitmap, c: &RoaringBitmap, bc: &RoaringBitmap, l: &RoaringBitmap, ab: &RoaringBitmap, r: &RoaringBitmap)
    requires
        is_union(bc, b, c),
        is_union(l, a, bc),
        is_union(ab, a, b),
        is_union(r, ab, c),
    ensures
        same_set(l, r),
        l.as_set() == r.as_set(),
{
    assert(l.as_set() =~= r.as_set());
}

/// Intersection is associative.
pub proof fn lemma_intersection_associative(a: &RoaringBitmap, b: &RoaringBitmap, c: &RoaringBitmap, bc: &RoaringBitmap, l: &RoaringBitmap, ab: &RoaringBitmap, r: &RoaringBitmap)
    requires
        is_intersection(bc, b, c),
        is_intersection(l, a, bc),
        is_intersection(ab, a, b),
        is_intersection(r, ab, c),
    ensures
        same_set(l, r),
        l.as_set() == r.as_set(),
{
    assert(l.as_set() =~= r.as_set());
}

/// Symmetric difference is associative.
pub proof fn lemma_sym_diff_associative(a: &RoaringBitmap, b: &RoaringBitmap, c: &RoaringBitmap, bc: &RoaringBitmap, l: &RoaringBitmap, ab: &RoaringBitmap, r: &RoaringBitmap)
    requires
        is_sym_diff(bc, b, c),
        is_sym_diff(l, a, bc),
        is_sym_diff(ab, a, b),
        is_sym_diff(r, ab, c),
    ensures
        same_set(l, r),
        l.as_set() == r.as_set(),
{
    assert(l.as_set() =~= r.as_set());
}

/// Union distributes over intersection.
pub proof fn lemma_union_distributes_over_intersection(a: &RoaringBitmap, b: &RoaringBitmap, c: &RoaringBitmap, bc: &RoaringBitmap, l: &RoaringBitmap, ab: &RoaringBitmap, ac: &RoaringBitmap, r: &RoaringBitmap)
    requires
        is_intersection(bc, b, c),
        is_union(l, a, bc),
        is_union(ab, a, b),
        is_union(ac, a, c),
        is_intersection(r, ab, ac),
    ensures
        same_set(l, r),
        l.as_set() == r.as_set(),
{
    assert(l.as_set() =~= r.as_set());
}

/// Intersection distributes over union.
pub proof fn lemma_intersection_distributes_over_union(a: &RoaringBitmap, b: &RoaringBitmap, c: &RoaringBitmap, bc: &RoaringBitmap, l: &RoaringBitmap, ab: &RoaringBitmap, ac: &RoaringBitmap, r: &RoaringBitmap)
    requires
        is_union(bc, b, c),
        is_intersection(l, a, bc),
        is_intersection(ab, a, b),
        is_intersection(ac, a, c),
        is_union(r, ab, ac),
    ensures
        same_set(l, r),
        l.as_set() == r.as_set(),
{
    assert(l.as_set() =~= r.as_set());
}

/// Intersection distributes over symmetric difference.
pub proof fn lemma_intersection_distributes_over_sym_diff(a: &RoaringBitmap, b: &RoaringBitmap, c: &RoaringBitmap, bc: &RoaringBitmap, l: &RoaringBitmap, ab: &RoaringBitmap, ac: &RoaringBitmap, r: &RoaringBitmap)
    requires
        is_sym_diff(bc, b, c),
        is_intersection(l, a, bc),
        is_intersection(ab, a, b),
        is_intersection(ac, a, c),
        is_sym_diff(r, ab, ac),
    ensures
        same_set(l, r),
        l.as_set() == r.as_set(),
{
    assert(l.as_set() =~= r.as_set());
}

/// The empty set is the identity of union.
pub proof fn lemma_union_empty_identity(a: &RoaringBitmap, e: &RoaringBitmap, x: &RoaringBitmap)
    requires
        is_empty_map(e),
        is_union(x, a, e),
    ensures
        same_set(x, a),
        x.as_set() == a.as_set(),
{
    assert(x.as_set() =~= a.as_set());
}

/// The empty set is the identity of symmetric difference.
pub proof fn lemma_sym_diff_empty_identity(a: &RoaringBitmap, e: &RoaringBitmap, x: &RoaringBitmap)
    requires
        is_empty_map(e),
        is_sym_diff(x, a, e),
    ensures
        same_set(x, a),
        x.as_set() == a.as_set(),
{
    assert(x.as_set() =~= a.as_set());
}

/// The empty set absorbs intersection.
pub proof fn lemma_intersection_empty_absorbing(a: &RoaringBitmap, e: &RoaringBitmap, x: &RoaringBitmap)
    requires
        is_empty_map(e),
        is_intersection(x, a, e),
    ensures
        same_set(x, e),
        x.as_set() == e.as_set(),
{
    assert(x.as_set() =~= e.as_set());
}

/// Union with itself changes nothing.
pub proof fn lemma_union_idempotent(a: &RoaringBitmap, x: &RoaringBitmap)
    requires
        is_union(x, a, a),
    ensures
        same_set(x, a),
        x.as_set() == a.as_set(),
{
    assert(x.as_set() =~= a.as_set());
}

/// Intersection with itself changes nothing.
pub proof fn lemma_intersection_idempotent(a: &RoaringBitmap, x: &RoaringBitmap)
    requires
        is_intersection(x, a, a),
    ensures
        same_set(x, a),
        x.as_set() == a.as_set(),
{
    assert(x.as_set() =~= a.as_set());
}

/// Every set includes itself.
pub proof fn lemma_subset_reflexive(a: &RoaringBitmap)
    ensures
        is_subset_of(a, a),
{
}

/// Mutual inclusion makes the sets equal.
pub proof fn lemma_subset_antisymmetric(a: &RoaringBitmap, b: &RoaringBitmap)
    requires
        is_subset_of(a, b),
        is_subset_of(b, a),
    ensures
        same_set(a, b),
        a.as_set() == b.as_set(),
{
    assert(a.as_set() =~= b.as_set());
}

/// Inclusion is transitive.
pub proof fn lemma_subset_transitive(a: &RoaringBitmap, b: &RoaringBitmap, c: &RoaringBitmap)
    requires
        is_subset_of(a, b),
        is_subset_of(b, c),
    ensures
        is_subset_of(a, c),
{
}

/// Removing an intersection removes what both held.
pub proof fn lemma_diff_of_intersection(a: &RoaringBitmap, b: &RoaringBitmap, c: &RoaringBitmap, ab: &RoaringBitmap, l: &RoaringBitmap, ca: &RoaringBitmap, cb: &RoaringBitmap, r: &RoaringBitmap)
    requires
        is_intersection(ab, a, b),
        is_difference(l, c, ab),
        is_difference(ca, c, a),
        is_difference(cb, c, b),
        is_union(r, ca, cb),
    ensures
        same_set(l, r),
        l.as_set() == r.as_set(),
{
    assert(l.as_set() =~= r.as_set());
}

/// Removing a union removes what either held.
pub proof fn lemma_diff_of_union(a: &RoaringBitmap, b: &RoaringBitmap, c: &RoaringBitmap, ab: &RoaringBitmap, l: &RoaringBitmap, ca: &RoaringBitmap, cb: &RoaringBitmap, r: &RoaringBitmap)
    requires
        is_union(ab, a, b),
        is_difference(l, c, ab),
        is_difference(ca, c, a),
        is_difference(cb, c, b),
        is_intersection(r, ca, cb),
    ensures
        same_set(l, r),
        l.as_set() == r.as_set(),
{
    assert(l.as_set() =~= r.as_set());
}

/// Removing a difference keeps the shared part and the remainder.
pub proof fn lemma_diff_of_diff(a: &RoaringBitmap, b: &RoaringBitmap, c: &RoaringBitmap, ba: &RoaringBitmap, l: &RoaringBitmap, ac: &RoaringBitmap, cb: &RoaringBitmap, r: &RoaringBitmap)
    requires
        is_difference(ba, b, a),
        is_difference(l, c, ba),
        is_intersection(ac, a, c),
        is_difference(cb, c, b),
        is_union(r, ac, cb),
    ensures
        same_set(l, r),
        l.as_set() == r.as_set(),
{
    assert(l.as_set() =~= r.as_set());
}

/// Intersecting a difference is intersecting then subtracting.
pub proof fn lemma_diff_intersects_left(a: &RoaringBitmap, b: &RoaringBitmap, c: &RoaringBitmap, ba: &RoaringBitmap, l: &RoaringBitmap, bc: &RoaringBitmap, m: &RoaringBitmap, ca: &RoaringBitmap, r: &RoaringBitmap)
    requires
        is_difference(ba, b, a),
        is_intersection(l, ba, c),
        is_intersection(bc, b, c),
        is_difference(m, bc, a),
        is_difference(ca, c, a),
        is_intersection(r, b, ca),
    ensures
        same_set(l, m),
        l.as_set() == m.as_set(),
        same_set(m, r),
        m.as_set() == r.as_set(),
{
    assert(l.as_set() =~= m.as_set());
    assert(m.as_set() =~= r.as_set());
}

/// A set minus itself is empty.
pub proof fn lemma_diff_self_empty(a: &RoaringBitmap, x: &RoaringBitmap)
    requires
        is_difference(x, a, a),
    ensures
        is_empty_map(x),
{
}

/// The empty set minus anything is empty.
pub proof fn lemma_empty_diff(a: &RoaringBitmap, e: &RoaringBitmap, x: &RoaringBitmap)
    requires
        is_empty_map(e),
        is_difference(x, e, a),
    ensures
        is_empty_map(x),
{
}

/// Toggling by two overlapping toggles composes to the outer toggle.
pub proof fn lemma_sym_diff_chain(a: &RoaringBitmap, b: &RoaringBitmap, c: &RoaringBitmap, ab: &RoaringBitmap, bc: &RoaringBitmap, l: &RoaringBitmap, r: &RoaringBitmap)
    requires
        is_sym_diff(ab, a, b),
        is_sym_diff(bc, b, c),
        is_sym_diff(l, ab, bc),
        is_sym_diff(r, a, c),
    ensures
        same_set(l, r),
        l.as_set() == r.as_set(),
{
    assert(l.as_set() =~= r.as_set());
}

/// A set toggled by itself is empty.
pub proof fn lemma_sym_diff_self_empty(a: &RoaringBitmap, x: &RoaringBitmap)
    requires
        is_sym_diff(x, a, a),
    ensures
        is_empty_map(x),
{
}

/// The symmetric difference is the union of the two one-sided differences.
pub proof fn lemma_sym_diff_as_diffs(a: &RoaringBitmap, b: &RoaringBitmap, x: &RoaringBitmap, ab: &RoaringBitmap, ba: &RoaringBitmap, r: &RoaringBitmap)
    requires
        is_sym_diff(x, a, b),
        is_difference(ab, a, b),
        is_difference(ba, b, a),
        is_union(r, ab, ba),
    ensures
        same_set(x, r),
        x.as_set() == r.as_set(),
{
    assert(x.as_set() =~= r.as_set());
}

/// The symmetric difference is the union without the intersection.
pub proof fn lemma_sym_diff_as_union_minus_intersection(a: &RoaringBitmap, b: &RoaringBitmap, x: &RoaringBitmap, u: &RoaringBitmap, n: &RoaringBitmap, r: &RoaringBitmap)
    requires
        is_sym_diff(x, a, b),
        is_union(u, a, b),
        is_intersection(n, a, b),
        is_difference(r, u, n),
    ensures
        same_set(x, r),
        x.as_set() == r.as_set(),
{
    assert(x.as_set() =~= r.as_set());
}

/// A two-operand fold is the binary operation itself.
pub proof fn lemma_fold_pair(bs: Seq<RoaringBitmap>, op: SetOp)
    requires
        bs.len() == 2,
    ensures
        forall|v: u32| #[trigger]
            fold_contains(bs, 2, op, v) == op_keeps(
                op,
                bs[0].contains_spec(v),
                bs[1].contains_spec(v),
            ),
{
    assert forall|v: u32| #[trigger]
        fold_contains(bs, 2, op, v) == op_keeps(
            op,
            bs[0].contains_spec(v),
            bs[1].contains_spec(v),
        ) by {
        assert(fold_contains(bs, 1, op, v) == bs[0].contains_spec(v));
    }
}

/// The difference fold of an empty first operand is empty, however many
/// operands follow.
pub proof fn lemma_diff_fold_empty_first(bs: Seq<RoaringBitmap>, n: int)
    requires
        1 <= n <= bs.len(),
        is_empty_map(&bs[0]),
    ensures
        forall|v: u32| !(#[trigger] fold_contains(bs, n, SetOp::Difference, v)),
    decreases n,
{
    if n > 1 {
        lemma_diff_fold_empty_first(bs, n - 1);
        assert forall|v: u32| !(#[trigger] fold_contains(bs, n, SetOp::Difference, v)) by {
            assert(!fold_contains(bs, n - 1, SetOp::Difference, v));
        }
    } else {
        assert forall|v: u32| !(#[trigger] fold_contains(bs, 1, SetOp::Difference, v)) by {
            assert(!bs[0].contains_spec(v));
        }
    }
}

/// A set minus itself through the multi-operand fold is empty.
pub proof fn lemma_diff_fold_self(bs: Seq<RoaringBitmap>)
    requires
        bs.len() == 2,
        same_set(&bs[0], &bs[1]),
    ensures
        forall|v: u32| !(#[trigger] fold_contains(bs, 2, SetOp::Difference, v)),
{
    assert forall|v: u32| !(#[trigger] fold_contains(bs, 2, SetOp::Difference, v)) by {
        assert(fold_contains(bs, 1, SetOp::Difference, v) == bs[0].contains_spec(v));
        assert(bs[0].contains_spec(v) == bs[1].contains_spec(v));
    }
}

/// A set toggled by itself through the multi-operand fold is empty.
pub proof fn lemma_sym_diff_fold_self(bs: Seq<RoaringBitmap>)
    requires
        bs.len() == 2,
        same_set(&bs[0], &bs[1]),
    ensures
        forall|v: u32| !(#[trigger] fold_contains(bs, 2, SetOp::SymmetricDifference, v)),
{
    assert forall|v: u32|
        !(#[trigger] fold_contains(bs, 2, SetOp::SymmetricDifference, v)) by {
        assert(fold_contains(bs, 1, SetOp::SymmetricDifference, v) == bs[0].contains_spec(v));
        assert(bs[0].contains_spec(v) == bs[1].contains_spec(v));
    }
}

} // verus!
