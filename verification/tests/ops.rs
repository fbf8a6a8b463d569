//! The pair-wise operations at the top level, in every calling form the
//! operators once offered.

use roaring::roaring::RoaringBitmap;

fn from_range(r: std::ops::Range<u32>) -> RoaringBitmap {
    RoaringBitmap::from_sorted_iter(r.collect()).unwrap()
}

#[test]
fn or() {
    let mut rb1 = from_range(1..4);
    let rb2 = from_range(3..6);
    let rb3 = from_range(1..6);

    assert_eq!(rb3, rb1.or_cur(&rb2));
    assert_eq!(rb3, rb1.or_cur(&rb2.clone()));
    assert_eq!(rb3, rb1.clone().or_cur(&rb2));
    assert_eq!(rb3, rb1.clone().or_cur(&rb2.clone()));

    rb1.or_assign_cur(&rb2);
    rb1.or_assign_cur(&rb2);

    assert_eq!(rb3, rb1);
}

#[test]
fn and() {
    let mut rb1 = from_range(1..4);
    let rb2 = from_range(3..6);
    let rb3 = from_range(3..4);

    assert_eq!(rb3, rb1.and_cur(&rb2));
    assert_eq!(rb3, rb1.and_cur(&rb2.clone()));
    assert_eq!(rb3, rb1.clone().and_cur(&rb2));
    assert_eq!(rb3, rb1.clone().and_cur(&rb2.clone()));

    rb1.and_assign_cur(&rb2);
    rb1.and_assign_cur(&rb2);

    assert_eq!(rb3, rb1);
}

#[test]
fn sub() {
    let mut rb1 = from_range(1..4000);
    let rb2 = from_range(3..5000);
    let rb3 = from_range(1..3);

    assert_eq!(rb3, rb1.sub_cur(&rb2));
    assert_eq!(rb3, rb1.sub_cur(&rb2.clone()));
    assert_eq!(rb3, rb1.clone().sub_cur(&rb2));
    assert_eq!(rb3, rb1.clone().sub_cur(&rb2.clone()));

    rb1.sub_assign_cur(&rb2);
    rb1.sub_assign_cur(&rb2);

    assert_eq!(rb3, rb1);
}

#[test]
fn xor() {
    let mut rb1 = from_range(1..4);
    let rb2 = from_range(3..6);
    let rb3 = RoaringBitmap::from_sorted_iter((1..3).chain(4..6).collect()).unwrap();
    let rb4 = from_range(0..0);

    assert_eq!(rb3, rb1.xor_cur(&rb2));
    assert_eq!(rb3, rb1.xor_cur(&rb2.clone()));
    assert_eq!(rb3, rb1.clone().xor_cur(&rb2));
    assert_eq!(rb3, rb1.clone().xor_cur(&rb2.clone()));

    rb1.xor_assign_cur(&rb2);

    assert_eq!(rb3, rb1);

    rb1.xor_assign_cur(&rb3);

    assert_eq!(rb4, rb1);
}

// Edge case for the eight-lane kernels.
#[test]
fn xor_self_len_8() {
    let rb1 = from_range(0..7);

    let rb2 = rb1.xor_cur(&rb1);

    assert_eq!(RoaringBitmap::new(), rb2);
}

// Edge case for the eight-lane kernels.
#[test]
fn xor_combined_len_8192() {
    let rb1 = from_range(0..4096);
    let rb2 = from_range(4096..8192);

    let rb3 = rb1.xor_cur(&rb2);

    assert_eq!(from_range(0..8192), rb3);
}

// Edge case for the eight-lane kernels.
#[test]
fn or_self_len_8() {
    let rb1 = from_range(0..8);

    let rb2 = rb1.or_cur(&rb1);

    assert_eq!(from_range(0..8), rb2);
}
