use space_time::zorder::z_2::Z2;
use space_time::zorder::z_n::{longest_common_prefix, zranges_default, ZN};
use space_time::zorder::z_range::ZRange;

#[test]
fn test_z2_encoding() {
    assert_eq!(Z2::new(1, 0).z(), 1);
    assert_eq!(Z2::new(2, 0).z(), 4);
    assert_eq!(Z2::new(3, 0).z(), 5);
    assert_eq!(Z2::new(4, 0).z(), 16);
    assert_eq!(Z2::new(0, 1).z(), 2);
    assert_eq!(Z2::new(0, 2).z(), 8);
    assert_eq!(Z2::new(0, 3).z(), 10);
}

#[test]
fn test_z2_decoding() {
    assert_eq!(Z2::new(23, 13).decode(), (23, 13));
    assert_eq!(
        Z2::new(Z2::MAX_MASK as u32, 0).decode(),
        (Z2::MAX_MASK as u32, 0)
    );
    assert_eq!(
        Z2::new(0, Z2::MAX_MASK as u32).decode(),
        (0, Z2::MAX_MASK as u32)
    );
    assert_eq!(
        Z2::new(Z2::MAX_MASK as u32, Z2::MAX_MASK as u32).decode(),
        (Z2::MAX_MASK as u32, Z2::MAX_MASK as u32)
    );
    assert_eq!(
        Z2::new(Z2::MAX_MASK as u32 - 10, Z2::MAX_MASK as u32 - 10).decode(),
        (Z2::MAX_MASK as u32 - 10, Z2::MAX_MASK as u32 - 10)
    );
}

#[test]
fn test_longest_common_prefix() {
    assert_eq!(
        longest_common_prefix::<Z2>(&[u64::MAX, u64::MAX - 15]).prefix,
        u64::MAX - 15
    );
    assert_eq!(longest_common_prefix::<Z2>(&[15, 13]).prefix, 12);
    assert_eq!(longest_common_prefix::<Z2>(&[12, 15]).prefix, 12);
}

#[test]
fn test_zrange() {
    let ranges = zranges_default::<Z2>(&[ZRange { min: 12, max: 15 }]);

    assert_eq!(ranges.len(), 1);
    assert_eq!(ranges[0].lower(), 12);
    assert_eq!(ranges[0].upper(), 15);

    let ranges = zranges_default::<Z2>(&[ZRange { min: 0, max: 15 }]);
    assert_eq!(ranges.len(), 1);
    assert_eq!(ranges[0].lower(), 0);
    assert_eq!(ranges[0].upper(), 15);

    let ranges = zranges_default::<Z2>(&[ZRange { min: 0, max: 27 }]);
    assert_eq!(ranges.len(), 2);
    assert_eq!(ranges[0].lower(), 0);
    assert_eq!(ranges[0].upper(), 19);
    assert_eq!(ranges[1].lower(), 24);
    assert_eq!(ranges[1].upper(), 27);
}

#[test]
fn test_contains() {
    let z_range_1 = ZRange { min: 0, max: 3 };
    let z_range_2 = ZRange { min: 2, max: 3 };
    assert!(Z2::contains_value(z_range_1, z_range_2));

    assert!(Z2::contains(ZRange { min: 2, max: 6 }, 3));
}

#[test]
fn test_overlaps() {
    assert!(Z2::overlaps(
        ZRange { min: 0, max: 1 },
        ZRange { min: 1, max: 4 }
    ));
    // Smaller overlaps larger
    assert!(Z2::overlaps(
        ZRange {
            min: Z2::new(1, 0).z(),
            max: Z2::new(2, 0).z()
        },
        ZRange {
            min: Z2::new(0, 0).z(),
            max: Z2::new(4, 0).z()
        }
    ));
    // larger overlaps smaller
    assert!(Z2::overlaps(
        ZRange {
            min: Z2::new(0, 0).z(),
            max: Z2::new(4, 0).z()
        },
        ZRange {
            min: Z2::new(1, 0).z(),
            max: Z2::new(2, 0).z()
        }
    ));
}
