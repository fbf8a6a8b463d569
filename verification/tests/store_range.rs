//! Range insertion on both container representations.

use roaring::array_store::ArrayStore;
use roaring::store::Store;

fn into_vec(s: Store) -> Vec<u16> {
    match s {
        Store::Array(vec) => vec.into_iter(),
        Store::Bitmap(bits) => bits.to_array_store().into_iter(),
    }
}

fn into_bitmap_store(s: Store) -> Store {
    match s {
        Store::Array(vec) => Store::Bitmap(vec.to_bitmap_store()),
        Store::Bitmap(..) => s,
    }
}

#[test]
fn test_array_insert_invalid_range() {
    let mut store = Store::Array(ArrayStore::from_vec_unchecked(vec![1, 2, 8, 9]));

    // Insert a range with start > end.
    let new = store.insert_range(6, 1);
    assert_eq!(new, 0);

    assert_eq!(into_vec(store), vec![1, 2, 8, 9]);
}

#[test]
fn test_array_insert_range() {
    let mut store = Store::Array(ArrayStore::from_vec_unchecked(vec![1, 2, 8, 9]));

    let new = store.insert_range(4, 5);
    assert_eq!(new, 2);

    assert_eq!(into_vec(store), vec![1, 2, 4, 5, 8, 9]);
}

#[test]
fn test_array_insert_range_left_overlap() {
    let mut store = Store::Array(ArrayStore::from_vec_unchecked(vec![1, 2, 8, 9]));

    let new = store.insert_range(2, 5);
    assert_eq!(new, 3);

    assert_eq!(into_vec(store), vec![1, 2, 3, 4, 5, 8, 9]);
}

#[test]
fn test_array_insert_range_right_overlap() {
    let mut store = Store::Array(ArrayStore::from_vec_unchecked(vec![1, 2, 8, 9]));

    let new = store.insert_range(4, 8);
    assert_eq!(new, 4);

    assert_eq!(into_vec(store), vec![1, 2, 4, 5, 6, 7, 8, 9]);
}

#[test]
fn test_array_insert_range_full_overlap() {
    let mut store = Store::Array(ArrayStore::from_vec_unchecked(vec![1, 2, 8, 9]));

    let new = store.insert_range(1, 9);
    assert_eq!(new, 5);

    assert_eq!(into_vec(store), vec![1, 2, 3, 4, 5, 6, 7, 8, 9]);
}

#[test]
fn test_bitmap_insert_invalid_range() {
    let store = Store::Array(ArrayStore::from_vec_unchecked(vec![1, 2, 8, 9]));
    let mut store = into_bitmap_store(store);

    // Insert a range with start > end.
    let new = store.insert_range(6, 1);
    assert_eq!(new, 0);

    assert_eq!(into_vec(store), vec![1, 2, 8, 9]);
}

#[test]
fn test_bitmap_insert_same_key_overlap() {
    let store = Store::Array(ArrayStore::from_vec_unchecked(vec![1, 2, 3, 62, 63]));
    let mut store = into_bitmap_store(store);

    let new = store.insert_range(1, 62);
    assert_eq!(new, 58);

    assert_eq!(into_vec(store), (1..64).collect::<Vec<_>>());
}

#[test]
fn test_bitmap_insert_range() {
    let store = Store::Array(ArrayStore::from_vec_unchecked(vec![1, 2, 130]));
    let mut store = into_bitmap_store(store);

    let new = store.insert_range(4, 128);
    assert_eq!(new, 125);

    let mut want = vec![1, 2];
    want.extend(4..129);
    want.extend(&[130]);

    assert_eq!(into_vec(store), want);
}

#[test]
fn test_bitmap_insert_range_left_overlap() {
    let store = Store::Array(ArrayStore::from_vec_unchecked(vec![1, 2, 130]));
    let mut store = into_bitmap_store(store);

    let new = store.insert_range(1, 128);
    assert_eq!(new, 126);

    let mut want = Vec::new();
    want.extend(1..129);
    want.extend(&[130]);

    assert_eq!(into_vec(store), want);
}

#[test]
fn test_bitmap_insert_range_right_overlap() {
    let store = Store::Array(ArrayStore::from_vec_unchecked(vec![1, 2, 130]));
    let mut store = into_bitmap_store(store);

    let new = store.insert_range(4, 132);
    assert_eq!(new, 128);

    let mut want = vec![1, 2];
    want.extend(4..133);

    assert_eq!(into_vec(store), want);
}

#[test]
fn test_bitmap_insert_range_full_overlap() {
    let store = Store::Array(ArrayStore::from_vec_unchecked(vec![1, 2, 130]));
    let mut store = into_bitmap_store(store);

    let new = store.insert_range(1, 134);
    assert_eq!(new, 131);

    let mut want = Vec::new();
    want.extend(1..135);

    assert_eq!(into_vec(store), want);
}
