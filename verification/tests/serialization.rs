//! The wire format: round trips, the predicted size, and each failure
//! shape.

use roaring::roaring::RoaringBitmap;
use roaring::serial::DeserializeError;

fn from_values(v: Vec<u32>) -> RoaringBitmap {
    RoaringBitmap::from_sorted_iter(v).unwrap()
}

#[test]
fn round_trip_empty() {
    let rb = RoaringBitmap::new();
    let bytes = rb.serialize();
    assert_eq!(bytes.len() as u64, rb.serialized_size());
    assert_eq!(RoaringBitmap::deserialize(&bytes).unwrap(), rb);
}

#[test]
fn round_trip_sparse() {
    let rb = from_values(vec![1, 2, 3, 70000, 1_000_000]);
    let bytes = rb.serialize();
    assert_eq!(bytes.len() as u64, rb.serialized_size());
    assert_eq!(RoaringBitmap::deserialize(&bytes).unwrap(), rb);
}

#[test]
fn round_trip_dense_and_offset_table() {
    // Five containers force the offset table; the first is dense.
    let mut vals: Vec<u32> = (0..5000).collect();
    vals.push(65536);
    vals.push(131072);
    vals.push(196608);
    vals.push(262144);
    let rb = from_values(vals);
    assert_eq!(rb.container_count(), 5);
    let bytes = rb.serialize();
    assert_eq!(bytes.len() as u64, rb.serialized_size());
    assert_eq!(RoaringBitmap::deserialize(&bytes).unwrap(), rb);
}

#[test]
fn deserialize_rejects_short_input() {
    assert_eq!(
        RoaringBitmap::deserialize(&vec![]),
        Err(DeserializeError::Truncated)
    );
    assert_eq!(
        RoaringBitmap::deserialize(&vec![0x31, 0x3B, 0x00, 0x00]),
        Err(DeserializeError::Truncated)
    );
}

#[test]
fn deserialize_rejects_bad_cookie() {
    let bytes = vec![0x99, 0x99, 0x00, 0x00, 0x00, 0xFF];
    assert_eq!(
        RoaringBitmap::deserialize(&bytes),
        Err(DeserializeError::InvalidCookie)
    );
}

#[test]
fn deserialize_rejects_truncated_body() {
    let rb = from_values(vec![1, 2, 3]);
    let mut bytes = rb.serialize();
    bytes.pop();
    assert_eq!(
        RoaringBitmap::deserialize(&bytes),
        Err(DeserializeError::Truncated)
    );
}

#[test]
fn deserialize_rejects_run_flags() {
    // The long layout with one container and a set run flag.
    let bytes = vec![0x30, 0x3B, 0x00, 0x00, 0x01];
    assert_eq!(
        RoaringBitmap::deserialize(&bytes),
        Err(DeserializeError::NonZeroRunFlag)
    );
}

#[test]
fn deserialize_rejects_population_mismatch() {
    // A dense body of zero words under a descriptor declaring 5000.
    let mut bytes = vec![0x31, 0x3B, 0x00, 0x00, 0x00, 0x00];
    bytes.extend_from_slice(&[0x00, 0x00]);
    bytes.extend_from_slice(&(4999u16).to_le_bytes());
    bytes.extend(std::iter::repeat(0u8).take(8192));
    assert_eq!(
        RoaringBitmap::deserialize(&bytes),
        Err(DeserializeError::PopulationMismatch)
    );
}

#[test]
fn deserialize_rejects_unsorted_array() {
    // One sparse container whose two values descend.
    let mut bytes = vec![0x31, 0x3B, 0x00, 0x00, 0x00, 0x00];
    bytes.extend_from_slice(&[0x00, 0x00]);
    bytes.extend_from_slice(&(1u16).to_le_bytes());
    bytes.extend_from_slice(&(5u16).to_le_bytes());
    bytes.extend_from_slice(&(3u16).to_le_bytes());
    assert_eq!(
        RoaringBitmap::deserialize(&bytes),
        Err(DeserializeError::OutOfOrder)
    );
}

#[test]
fn long_layout_with_zero_flags_reads_back() {
    // Build the long layout by hand for the same single container the
    // short writer produces, and check both parse to the same bitmap.
    let rb = from_values(vec![7, 9]);
    let short = rb.serialize();
    let mut long = vec![0x30, 0x3B, 0x00, 0x00, 0x00];
    long.extend_from_slice(&short[6..]);
    assert_eq!(RoaringBitmap::deserialize(&long).unwrap(), rb);
}
