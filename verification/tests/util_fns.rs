//! Splitting, joining and range normalization.

use roaring::util::{convert_range_to_inclusive, join, split, RangeBound};

#[test]
fn test_split_u32() {
    assert_eq!((0x0000u16, 0x0000u16), split(0x0000_0000u32));
    assert_eq!((0x0000u16, 0x0001u16), split(0x0000_0001u32));
    assert_eq!((0x0000u16, 0xFFFEu16), split(0x0000_FFFEu32));
    assert_eq!((0x0000u16, 0xFFFFu16), split(0x0000_FFFFu32));
    assert_eq!((0x0001u16, 0x0000u16), split(0x0001_0000u32));
    assert_eq!((0x0001u16, 0x0001u16), split(0x0001_0001u32));
    assert_eq!((0xFFFFu16, 0xFFFEu16), split(0xFFFF_FFFEu32));
    assert_eq!((0xFFFFu16, 0xFFFFu16), split(0xFFFF_FFFFu32));
}

#[test]
fn test_join_u32() {
    assert_eq!(0x0000_0000u32, join(0x0000u16, 0x0000u16));
    assert_eq!(0x0000_0001u32, join(0x0000u16, 0x0001u16));
    assert_eq!(0x0000_FFFEu32, join(0x0000u16, 0xFFFEu16));
    assert_eq!(0x0000_FFFFu32, join(0x0000u16, 0xFFFFu16));
    assert_eq!(0x0001_0000u32, join(0x0001u16, 0x0000u16));
    assert_eq!(0x0001_0001u32, join(0x0001u16, 0x0001u16));
    assert_eq!(0xFFFF_FFFEu32, join(0xFFFFu16, 0xFFFEu16));
    assert_eq!(0xFFFF_FFFFu32, join(0xFFFFu16, 0xFFFFu16));
}

#[test]
fn test_convert_range_to_inclusive() {
    assert_eq!(
        Some((1, 5)),
        convert_range_to_inclusive(RangeBound::Included(1), RangeBound::Excluded(6))
    );
    assert_eq!(
        Some((1, u32::MAX)),
        convert_range_to_inclusive(RangeBound::Included(1), RangeBound::Unbounded)
    );
    assert_eq!(
        Some((0, u32::MAX)),
        convert_range_to_inclusive(RangeBound::Unbounded, RangeBound::Unbounded)
    );
    assert_eq!(
        None,
        convert_range_to_inclusive(RangeBound::Included(5), RangeBound::Excluded(5))
    );
    assert_eq!(
        Some((16, 16)),
        convert_range_to_inclusive(RangeBound::Included(16), RangeBound::Included(16))
    )
}
