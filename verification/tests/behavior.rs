//! End-to-end scenarios, representation invariants, error paths, the
//! algebraic laws on concrete values, and the lower-level kernels.

use roaring::array_gallop::union_gallop;
use roaring::array_ops::{merge_walk, or_array_walk, sub_walk, xor_array_walk};
use roaring::array_store::{ArrayStore, ErrorKind};
use roaring::array_util::{and_assign_opt, intersect_skewed_large, intersect_skewed_small};
use roaring::bitmap_store::BitmapStore;
use roaring::multi_ops::{
    fold_bitmaps, naive_multi_and_ref, naive_multi_or_ref, naive_multi_sub_ref,
    naive_multi_xor_ref, naive_multi_xor_ref_btreemap, MultiBitAnd, MultiBitOr,
};
use roaring::roaring::RoaringBitmap;
use roaring::store::Store;
use roaring::util::{exponential_search, SetOp};

fn from_range(r: std::ops::Range<u32>) -> RoaringBitmap {
    RoaringBitmap::from_sorted_iter(r.collect()).unwrap()
}

fn from_values(v: Vec<u32>) -> RoaringBitmap {
    RoaringBitmap::from_sorted_iter(v).unwrap()
}

#[test]
fn union_of_overlapping_ranges() {
    let a = from_range(1..4);
    let b = from_range(3..5);
    assert_eq!(from_range(1..5), a.or_cur(&b));
}

#[test]
fn intersection_of_overlapping_ranges() {
    let a = from_range(1..4);
    let b = from_range(3..5);
    assert_eq!(from_values(vec![3]), a.and_cur(&b));
}

#[test]
fn difference_of_overlapping_ranges() {
    let a = from_range(1..4);
    let b = from_range(3..5);
    assert_eq!(from_values(vec![1, 2]), a.sub_cur(&b));
}

#[test]
fn symmetric_difference_of_overlapping_ranges() {
    let a = from_range(1..4);
    let b = from_range(3..6);
    assert_eq!(from_values(vec![1, 2, 4, 5]), a.xor_cur(&b));
}

#[test]
fn union_iterates_across_the_threshold() {
    let a = from_range(0..4096);
    let b = from_range(4096..8192);
    let u = a.or_cur(&b);
    let values = u.to_vec();
    assert_eq!(values, (0..8192).collect::<Vec<u32>>());
}

#[test]
fn sorted_iter_splits_containers_by_high_half() {
    let rb = from_values(vec![0, 65535, 65536, 131072]);
    assert_eq!(rb.container_count(), 3);
    assert_eq!(rb.container_key(0), 0);
    assert_eq!(rb.container_key(1), 1);
    assert_eq!(rb.container_key(2), 2);
    assert_eq!(rb.container_len(0), 2);
    assert_eq!(rb.container_len(1), 1);
    assert_eq!(rb.container_len(2), 1);
}

#[test]
fn keys_ascend_and_containers_stay_populated() {
    let mut rb = from_range(0..5000);
    rb.insert(200_000);
    rb.insert(100_000);
    rb.remove(2);
    let mut last_key = None;
    for i in 0..rb.container_count() {
        let key = rb.container_key(i);
        if let Some(prev) = last_key {
            assert!(prev < key);
        }
        last_key = Some(key);
        assert!(rb.container_len(i) > 0);
    }
}

#[test]
fn container_matches_density_policy() {
    // 5000 values in one window force the dense form; removing down to
    // the threshold turns it back into the sparse form.
    let mut rb = from_range(0..4097);
    assert_eq!(rb.container_count(), 1);
    assert_eq!(rb.container_len(0), 4097);
    assert!(rb.contains(4096));
    rb.remove(0);
    assert_eq!(rb.container_len(0), 4096);
    for v in 1..4097u32 {
        assert!(rb.contains(v));
    }
}

#[test]
fn cached_len_counts_members() {
    let mut rb = from_range(10..20);
    assert_eq!(rb.len(), 10);
    rb.insert(5);
    assert_eq!(rb.len(), 11);
    rb.insert(5);
    assert_eq!(rb.len(), 11);
    rb.remove(19);
    assert_eq!(rb.len(), 10);
}

#[test]
fn from_sorted_iter_rejects_disorder() {
    let err = RoaringBitmap::from_sorted_iter(vec![1, 2, 2, 3]).unwrap_err();
    assert_eq!(err.index, 2);
    let err = RoaringBitmap::from_sorted_iter(vec![5, 4]).unwrap_err();
    assert_eq!(err.index, 1);
}

#[test]
fn try_from_vec_names_the_first_violation() {
    let err = ArrayStore::try_from_vec(vec![1, 2, 2]).unwrap_err();
    assert_eq!(err.index, 2);
    assert_eq!(err.kind, ErrorKind::Duplicate);
    let err = ArrayStore::try_from_vec(vec![1, 0]).unwrap_err();
    assert_eq!(err.index, 1);
    assert_eq!(err.kind, ErrorKind::OutOfOrder);
    assert!(ArrayStore::try_from_vec(vec![1, 2, 3]).is_ok());
}

#[test]
fn inverted_range_changes_nothing() {
    let mut s = Store::Array(ArrayStore::from_vec_unchecked(vec![7]));
    assert_eq!(s.insert_range(9, 3), 0);
    assert_eq!(s.remove_range(9, 3), 0);
    assert!(s.contains(7));
    assert_eq!(s.len(), 1);
}

#[test]
fn union_commutes_on_values() {
    let a = from_values(vec![1, 70000, 200000]);
    let b = from_values(vec![2, 70000]);
    assert_eq!(a.or_cur(&b), b.or_cur(&a));
    assert_eq!(a.and_cur(&b), b.and_cur(&a));
    assert_eq!(a.xor_cur(&b), b.xor_cur(&a));
}

#[test]
fn union_associates_on_values() {
    let a = from_range(0..10);
    let b = from_range(5..15);
    let c = from_values(vec![7, 70000]);
    assert_eq!(a.or_cur(&b.or_cur(&c)), a.or_cur(&b).or_cur(&c));
    assert_eq!(a.and_cur(&b.and_cur(&c)), a.and_cur(&b).and_cur(&c));
    assert_eq!(a.xor_cur(&b.xor_cur(&c)), a.xor_cur(&b).xor_cur(&c));
}

#[test]
fn operations_distribute_on_values() {
    let a = from_range(0..10);
    let b = from_range(5..15);
    let c = from_values(vec![7, 9, 70000]);
    assert_eq!(a.or_cur(&b.and_cur(&c)), a.or_cur(&b).and_cur(&a.or_cur(&c)));
    assert_eq!(a.and_cur(&b.or_cur(&c)), a.and_cur(&b).or_cur(&a.and_cur(&c)));
    assert_eq!(a.and_cur(&b.xor_cur(&c)), a.and_cur(&b).xor_cur(&a.and_cur(&c)));
}

#[test]
fn empty_map_is_identity_and_absorbing() {
    let a = from_values(vec![3, 65536]);
    let e = RoaringBitmap::new();
    assert_eq!(a.or_cur(&e), a);
    assert_eq!(a.xor_cur(&e), a);
    assert_eq!(a.and_cur(&e), e);
    assert_eq!(a.or_cur(&a), a);
    assert_eq!(a.and_cur(&a), a);
}

#[test]
fn difference_identities_on_values() {
    let a = from_range(0..8);
    let b = from_range(4..12);
    let c = from_range(2..10);
    assert_eq!(c.sub_cur(&a.and_cur(&b)), c.sub_cur(&a).or_cur(&c.sub_cur(&b)));
    assert_eq!(c.sub_cur(&a.or_cur(&b)), c.sub_cur(&a).and_cur(&c.sub_cur(&b)));
    assert_eq!(c.sub_cur(&b.sub_cur(&a)), a.and_cur(&c).or_cur(&c.sub_cur(&b)));
    assert_eq!(b.sub_cur(&a).and_cur(&c), b.and_cur(&c).sub_cur(&a));
    assert_eq!(b.and_cur(&c).sub_cur(&a), b.and_cur(&c.sub_cur(&a)));
    assert!(a.sub_cur(&a).is_empty());
    assert!(RoaringBitmap::new().sub_cur(&a).is_empty());
}

#[test]
fn xor_identities_on_values() {
    let a = from_range(0..8);
    let b = from_range(4..12);
    let c = from_range(2..10);
    assert_eq!(a.xor_cur(&b).xor_cur(&b.xor_cur(&c)), a.xor_cur(&c));
    assert!(a.xor_cur(&a).is_empty());
    assert_eq!(a.xor_cur(&b), a.sub_cur(&b).or_cur(&b.sub_cur(&a)));
    assert_eq!(a.xor_cur(&b), a.or_cur(&b).sub_cur(&a.and_cur(&b)));
}

#[test]
fn subset_laws_on_values() {
    let a = from_range(2..5);
    let b = from_range(0..10);
    assert!(a.and_cur(&b) == a);
    assert!(b.or_cur(&a) == b);
    assert!(a.is_subset(&b));
    assert!(!b.is_subset(&a));
    assert!(a.is_subset(&a));
    assert!(!a.is_disjoint(&b));
    assert!(a.is_disjoint(&from_values(vec![70000])));
    assert!(from_range(0..5000).is_subset(&from_range(0..5000)));
}

#[test]
fn arbitrary_order_construction() {
    let rb = RoaringBitmap::from_values(&vec![9, 2, 70000, 2, 9]);
    assert_eq!(rb.to_vec(), vec![2, 9, 70000]);
    assert_eq!(rb.len(), 3);
}

#[test]
fn deprecated_aliases_still_combine() {
    let mut x = from_range(1..4);
    x.union_with(&from_range(3..5));
    assert_eq!(x, from_range(1..5));
    x.intersect_with(&from_range(2..9));
    assert_eq!(x, from_range(2..5));
    x.difference_with(&from_range(4..6));
    assert_eq!(x, from_range(2..4));
    x.symmetric_difference_with(&from_range(3..6));
    assert_eq!(x, from_values(vec![2, 4, 5]));
}

#[test]
fn lane_entry_points_match_the_walk() {
    let a = from_range(0..1000);
    let b = from_range(500..1500);
    assert_eq!(a.or_simd(&b), a.or_cur(&b));
    assert_eq!(a.or_x86_simd(&b), a.or_cur(&b));
    assert_eq!(a.and_simd(&b), a.and_cur(&b));
    assert_eq!(a.and_x86_simd(&b), a.and_cur(&b));
    assert_eq!(a.and_opt_unsafe(&b), a.and_cur(&b));
    assert_eq!(a.sub_simd(&b), a.sub_cur(&b));
    assert_eq!(a.sub_x86_simd(&b), a.sub_cur(&b));
    assert_eq!(a.xor_simd(&b), a.xor_cur(&b));
}

#[test]
fn multi_union_folds_every_operand() {
    let maps = vec![from_range(0..4), from_range(2..6), from_values(vec![70000])];
    let want = from_values(vec![0, 1, 2, 3, 4, 5, 70000]);
    assert_eq!(naive_multi_or_ref(&maps), want);
    assert_eq!(fold_bitmaps(&maps, SetOp::Union), want);
    assert_eq!(maps.clone().bitor(), want);
}

#[test]
fn multi_intersection_folds_every_operand() {
    let maps = vec![from_range(0..10), from_range(2..8), from_range(4..12)];
    assert_eq!(fold_bitmaps(&maps, SetOp::Intersection), from_range(4..8));
    assert_eq!(maps.clone().bitand(), from_range(4..8));
    assert_eq!(naive_multi_and_ref(&maps), from_range(4..8));
    // A key held by only one operand dies in the intersection fold.
    let split_keys = vec![from_values(vec![1, 2]), from_values(vec![2, 70000])];
    assert_eq!(naive_multi_and_ref(&split_keys), from_values(vec![2]));
    let disjoint_keys = vec![from_values(vec![1]), from_values(vec![70000])];
    assert!(naive_multi_and_ref(&disjoint_keys).is_empty());
}

#[test]
fn multi_sub_and_xor_fold() {
    let maps = vec![from_range(0..10), from_range(2..4), from_range(6..8)];
    assert_eq!(
        naive_multi_sub_ref(&maps),
        from_values(vec![0, 1, 4, 5, 8, 9])
    );
    assert_eq!(
        naive_multi_xor_ref(&maps),
        from_values(vec![0, 1, 4, 5, 8, 9])
    );
    // The first operand also loses values at keys only later operands
    // carry: the fold subtracts, it never seeds.
    let across_keys = vec![from_values(vec![1, 70000]), from_values(vec![130000])];
    assert_eq!(naive_multi_sub_ref(&across_keys), from_values(vec![1, 70000]));
}

#[test]
fn multi_diff_fold_identities() {
    let a = from_values(vec![3, 70000, 200000]);
    // An empty first operand stays empty through the difference fold.
    assert!(naive_multi_sub_ref(&vec![RoaringBitmap::new(), a.clone()]).is_empty());
    // A set minus itself is empty through the difference fold.
    assert!(naive_multi_sub_ref(&vec![a.clone(), a.clone()]).is_empty());
}

#[test]
fn xor_named_reductions_toggle() {
    let a = from_values(vec![3, 70000]);
    let b = from_values(vec![3, 5, 130000]);
    assert!(naive_multi_xor_ref_btreemap(&vec![a.clone(), a.clone()]).is_empty());
    assert_eq!(
        naive_multi_xor_ref_btreemap(&vec![a.clone(), b.clone()]),
        a.xor_cur(&b)
    );
}

#[test]
fn array_kernels_agree() {
    let a: Vec<u16> = vec![1, 3, 5, 7, 9, 11, 13, 15, 17];
    let b: Vec<u16> = vec![2, 3, 4, 7, 10, 15];
    assert_eq!(or_array_walk(&a, &b), vec![1, 2, 3, 4, 5, 7, 9, 10, 11, 13, 15, 17]);
    assert_eq!(merge_walk(SetOp::Intersection, &a, &b), vec![3, 7, 15]);
    assert_eq!(sub_walk(&a, &b), vec![1, 5, 9, 11, 13, 17]);
    assert_eq!(xor_array_walk(&a, &b), vec![1, 2, 4, 5, 9, 10, 11, 13, 17]);
    assert_eq!(union_gallop(&a, &b), or_array_walk(&a, &b));
}

#[test]
fn skewed_intersection_matches_walk() {
    let small: Vec<u16> = vec![5, 100, 1000, 4000, 9000];
    let large: Vec<u16> = (0..4096).map(|x| (x * 2) as u16).collect();
    let mut s1 = small.clone();
    intersect_skewed_small(&mut s1, &large);
    assert_eq!(s1, vec![100, 1000, 4000]);
    let mut l1 = large.clone();
    intersect_skewed_large(&small, &mut l1);
    assert_eq!(l1, vec![100, 1000, 4000]);
    let mut s2 = small.clone();
    and_assign_opt(&mut s2, &large);
    assert_eq!(s2, vec![100, 1000, 4000]);
}

#[test]
fn gallop_union_handles_long_runs() {
    let a: Vec<u16> = (0..200).collect();
    let b: Vec<u16> = vec![500, 501];
    let mut want: Vec<u16> = (0..200).collect();
    want.extend([500, 501]);
    assert_eq!(union_gallop(&a, &b), want);
    assert_eq!(union_gallop(&b, &a), want);
    let empty: Vec<u16> = Vec::new();
    assert_eq!(union_gallop(&empty, &b), b);
}

#[test]
fn array_store_point_ops() {
    let mut s = ArrayStore::new();
    assert!(s.insert(7));
    assert!(!s.insert(7));
    assert!(s.insert(3));
    assert!(s.push(9));
    assert!(!s.push(4));
    assert_eq!(s.len(), 3);
    assert_eq!(s.min(), Some(3));
    assert_eq!(s.max(), Some(9));
    assert!(s.contains(7));
    assert!(s.remove(7));
    assert!(!s.remove(7));
    assert_eq!(s.as_slice(), &[3, 9]);
    assert_eq!(s.insert_range(4, 6), 3);
    assert_eq!(s.as_slice(), &[3, 4, 5, 6, 9]);
    assert_eq!(s.remove_range(4, 5), 2);
    assert_eq!(s.as_slice(), &[3, 6, 9]);
}

#[test]
fn bitmap_store_point_ops() {
    let mut b = BitmapStore::new();
    assert!(b.insert(70));
    assert!(!b.insert(70));
    assert!(b.contains(70));
    assert_eq!(b.len(), 1);
    assert_eq!(b.insert_range(64, 191), 127);
    assert_eq!(b.len(), 128);
    assert_eq!(b.min(), Some(64));
    assert_eq!(b.max(), Some(191));
    assert!(b.push(200));
    assert!(!b.push(100));
    assert_eq!(b.remove_range(0, 99), 36);
    assert!(b.remove(100));
    assert!(!b.remove(100));
    let arr = b.to_array_store();
    assert_eq!(arr.len(), b.len());
    assert!(b.is_subset(&arr.to_bitmap_store()));
    assert!(!b.is_empty());
}

#[test]
fn store_predicates_cross_representations() {
    let sparse = Store::Array(ArrayStore::from_vec_unchecked(vec![1, 100, 200]));
    let dense = {
        let mut all = ArrayStore::new();
        let added = all.insert_range(0, 8000);
        assert_eq!(added, 8001);
        Store::Bitmap(all.to_bitmap_store())
    };
    assert!(sparse.is_subset(&dense));
    assert!(!sparse.is_disjoint(&dense));
    assert!(!dense.is_subset(&sparse));
    let far = Store::Array(ArrayStore::from_vec_unchecked(vec![9000, 9001]));
    assert!(far.is_disjoint(&dense));
    assert_eq!(dense.min(), Some(0));
    assert_eq!(dense.max(), Some(8000));
}

#[test]
fn search_finds_and_places() {
    let s: Vec<u16> = vec![2, 4, 6, 8, 10];
    assert_eq!(exponential_search(&s, 6), Ok(2));
    assert_eq!(exponential_search(&s, 7), Err(3));
    assert_eq!(exponential_search(&s, 1), Err(0));
    assert_eq!(exponential_search(&s, 11), Err(5));
}

#[test]
fn search_containers_by_key() {
    let rb = RoaringBitmap::from_values(&vec![5, 70000, 200000]);
    let mut containers = Vec::new();
    for i in 0..rb.container_count() {
        containers.push(rb.container_at(i));
    }
    assert_eq!(
        roaring::roaring::exponential_search_by_key(&containers, 1),
        Ok(1)
    );
    assert_eq!(
        roaring::roaring::exponential_search_by_key(&containers, 2),
        Err(2)
    );
}

#[test]
fn bitmap_membership_after_mixed_ops() {
    let mut rb = RoaringBitmap::new();
    assert!(rb.is_empty());
    assert!(rb.insert(42));
    assert!(rb.insert(1_000_000));
    assert!(!rb.insert(42));
    assert!(rb.contains(42));
    assert!(rb.contains(1_000_000));
    assert!(!rb.contains(43));
    assert!(rb.remove(42));
    assert!(!rb.remove(42));
    assert!(!rb.contains(42));
    assert_eq!(rb.to_vec(), vec![1_000_000]);
}
