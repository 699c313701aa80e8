use quickcheck::QuickCheck;
use space_time::index_range::IndexRange;
use space_time::zorder::z_2::Z2;
use space_time::zorder::z_3::Z3;
use space_time::zorder::z_n::{
    bottom_out, check_value, is_contained, is_overlapped, longest_common_prefix, raw_zranges,
    zranges, zranges_default, ZPrefix, DEFAULT_RECURSE, ZN,
};
use space_time::zorder::z_range::ZRange;

fn tuples(ranges: &[IndexRange]) -> Vec<(u64, u64, bool)> {
    ranges.iter().map(|r| r.tuple()).collect()
}

fn z2_split_and_combine(x: u32) -> bool {
    Z2::combine(Z2::split(x)) == x & Z2::MAX_MASK as u32
}

fn z2_userspace_to_index_and_back(x: u32, y: u32) -> bool {
    if x > Z2::MAX_MASK as u32 || y > Z2::MAX_MASK as u32 {
        true
    } else {
        Z2::new(x, y).decode() == (x, y)
    }
}

fn z3_encode_decode(x: u16, y: u16, z: u16) -> bool {
    Z3::new(x.into(), y.into(), z.into()).decode() == (x.into(), y.into(), z.into())
}

fn z3_split_and_combine(x: u32) -> bool {
    Z3::combine(Z3::split(x)) == x & Z3::MAX_MASK as u32
}

#[test]
fn test_split_and_combine() {
    QuickCheck::new().quickcheck(z2_split_and_combine as fn(u32) -> bool);
    QuickCheck::new().quickcheck(z3_split_and_combine as fn(u32) -> bool);
}

#[test]
fn test_userspace_to_z2_and_back() {
    QuickCheck::new().quickcheck(z2_userspace_to_index_and_back as fn(u32, u32) -> bool);
}

#[test]
fn test_encode_decode() {
    QuickCheck::new().quickcheck(z3_encode_decode as fn(u16, u16, u16) -> bool);
}

#[test]
fn the_constants_of_the_curves() {
    assert_eq!(Z2::DIMENSIONS, 2);
    assert_eq!(Z2::BITS_PER_DIMENSION, 31);
    assert_eq!(Z2::TOTAL_BITS, 62);
    assert_eq!(Z2::MAX_MASK, 0x7fff_ffff);
    assert_eq!(Z2::QUADRANTS, 4);
    assert_eq!(Z3::DIMENSIONS, 3);
    assert_eq!(Z3::BITS_PER_DIMENSION, 21);
    assert_eq!(Z3::TOTAL_BITS, 63);
    assert_eq!(Z3::MAX_MASK, 0x1f_ffff);
    assert_eq!(Z3::QUADRANTS, 8);
    assert_eq!(DEFAULT_RECURSE, 7);
}

#[test]
fn split_spreads_the_bits() {
    assert_eq!(Z2::split(0b1011), 0b100_0101);
    assert_eq!(Z2::split(0x7fff_ffff), 0x1555_5555_5555_5555);
    assert_eq!(Z2::split(0xffff_ffff), 0x1555_5555_5555_5555);
    assert_eq!(Z2::combine(0b100_0101), 0b1011);
    assert_eq!(Z2::combine(0b1010_1010), 0);
    assert_eq!(Z2::combine(u64::MAX), 0xffff_ffff);
}

#[test]
fn the_prefix_and_its_precision() {
    assert_eq!(
        longest_common_prefix::<Z2>(&[15, 13]),
        ZPrefix { prefix: 12, precision: 62 }
    );
    assert_eq!(
        longest_common_prefix::<Z2>(&[0, 27]),
        ZPrefix { prefix: 0, precision: 58 }
    );
    // equal values leave one step free
    assert_eq!(
        longest_common_prefix::<Z2>(&[7, 7]),
        ZPrefix { prefix: 4, precision: 62 }
    );
    assert_eq!(
        longest_common_prefix::<Z2>(&[5]),
        ZPrefix { prefix: 4, precision: 62 }
    );
    // values that differ at the top share nothing
    assert_eq!(
        longest_common_prefix::<Z2>(&[0, 1 << 61]),
        ZPrefix { prefix: 0, precision: 2 }
    );
    assert_eq!(
        longest_common_prefix::<Z3>(&[0, 1 << 62]),
        ZPrefix { prefix: 0, precision: 1 }
    );
    assert_eq!(
        longest_common_prefix::<Z3>(&[8, 15, 9]),
        ZPrefix { prefix: 8, precision: 61 }
    );
}

#[test]
fn several_bounds_are_covered_together() {
    let ranges = zranges_default::<Z2>(&[ZRange { min: 0, max: 3 }, ZRange { min: 12, max: 15 }]);
    assert_eq!(tuples(&ranges), vec![(0, 3, true), (12, 15, true)]);
}

#[test]
fn a_depth_of_nothing_gives_the_children_of_the_first_block() {
    // the block of the prefix is split once before the depth is looked at
    let ranges = zranges::<Z2>(&[ZRange { min: 0, max: 27 }], 64, None, Some(0));
    assert_eq!(tuples(&ranges), vec![(0, 31, false)]);
    let deeper = zranges::<Z2>(&[ZRange { min: 0, max: 27 }], 64, None, Some(2));
    assert_eq!(tuples(&deeper), vec![(0, 19, true), (24, 27, true)]);
}

#[test]
fn a_budget_of_ranges_ends_the_descent() {
    let ranges = zranges::<Z2>(&[ZRange { min: 0, max: 27 }], 64, Some(1), None);
    assert_eq!(tuples(&ranges), vec![(0, 31, false)]);
    let unlimited = zranges::<Z2>(&[ZRange { min: 0, max: 27 }], 64, Some(usize::MAX), None);
    assert_eq!(tuples(&unlimited), vec![(0, 19, true), (24, 27, true)]);
}

#[test]
fn low_precision_covers_whole_blocks() {
    // below 64 - 60 = 4 free bits every block that is reached counts as
    // covered: the four children of the block from 16 to 31
    let ranges = zranges::<Z2>(&[ZRange { min: 0, max: 27 }], 60, None, None);
    assert_eq!(tuples(&ranges), vec![(0, 31, true)]);
    let coarse = zranges::<Z2>(&[ZRange { min: 0, max: 27 }], 1, None, None);
    assert_eq!(tuples(&coarse), vec![(0, 63, true)]);
    let fine = zranges::<Z2>(&[ZRange { min: 0, max: 27 }], 62, None, None);
    assert_eq!(tuples(&fine), vec![(0, 19, true), (24, 27, true)]);
}

#[test]
fn checking_a_block() {
    let bounds = [ZRange { min: 0, max: 27 }];
    let mut ranges = Vec::new();
    let mut pending = Vec::new();
    // child 0 of the block at 0 with four free bits: 0 to 15, inside
    check_value::<Z2>(0, 0, 4, &bounds, 64, &mut ranges, &mut pending);
    // child 1: 16 to 31, overlapping
    check_value::<Z2>(0, 1, 4, &bounds, 64, &mut ranges, &mut pending);
    // child 2: 32 to 47, apart
    check_value::<Z2>(0, 2, 4, &bounds, 64, &mut ranges, &mut pending);
    assert_eq!(tuples(&ranges), vec![(0, 15, true)]);
    assert_eq!(pending, vec![ZRange { min: 16, max: 31 }]);

    bottom_out(&mut ranges, &pending, 0);
    assert_eq!(tuples(&ranges), vec![(0, 15, true), (16, 31, false)]);

    assert!(is_contained::<Z2>(ZRange { min: 0, max: 15 }, &bounds));
    assert!(!is_contained::<Z2>(ZRange { min: 16, max: 31 }, &bounds));
    assert!(is_overlapped::<Z2>(ZRange { min: 16, max: 31 }, &bounds));
    assert!(!is_overlapped::<Z2>(ZRange { min: 32, max: 47 }, &bounds));
}

#[test]
fn z_ranges_in_index_space() {
    let range = ZRange { min: 10, max: 20 };
    assert_eq!(range.mid(), 15);
    assert_eq!(ZRange { min: 10, max: 21 }.mid(), 15);
    assert_eq!(ZRange { min: u64::MAX - 1, max: u64::MAX }.mid(), u64::MAX - 1);
    assert_eq!(range.length(), 11);
    assert_eq!(ZRange { min: 7, max: 7 }.length(), 1);
    assert!(range.contains(10));
    assert!(range.contains(20));
    assert!(!range.contains(9));
    assert!(!range.contains(21));
    assert!(range.contains_zrange(ZRange { min: 12, max: 20 }));
    assert!(!range.contains_zrange(ZRange { min: 12, max: 21 }));
    assert!(range.overlaps(ZRange { min: 0, max: 10 }));
    assert!(range.overlaps(ZRange { min: 20, max: 30 }));
    assert!(!range.overlaps(ZRange { min: 0, max: 9 }));
    // only the ends of the other range are looked at
    assert!(!range.overlaps(ZRange { min: 0, max: 30 }));
}

#[test]
fn covered_ranges_hold_only_points_of_the_query() {
    let bound = ZRange {
        min: Z2::new(3, 5).z(),
        max: Z2::new(12, 9).z(),
    };
    let ranges = zranges::<Z2>(&[bound], 64, None, Some(3));
    for range in &ranges {
        for z in range.lower()..=range.upper() {
            if range.contained() {
                assert!(Z2::contains(bound, z));
            }
        }
    }
    for x in 3..=12 {
        for y in 5..=9 {
            let z = Z2::new(x, y).z();
            assert!(ranges.iter().any(|r| r.lower() <= z && z <= r.upper()));
        }
    }
    for pair in ranges.windows(2) {
        assert!(pair[0].upper() + 1 < pair[1].lower());
    }
}

#[test]
fn the_ranges_as_they_are_found() {
    let raw = raw_zranges::<Z2>(&[ZRange { min: 0, max: 27 }], 64, usize::MAX, 7);
    assert_eq!(
        tuples(&raw),
        vec![(0, 15, true), (16, 19, true), (24, 27, true)]
    );
    let shallow = raw_zranges::<Z2>(&[ZRange { min: 0, max: 27 }], 64, usize::MAX, 1);
    assert_eq!(tuples(&shallow), vec![(0, 15, true), (16, 31, false)]);
}

#[test]
fn overlapping_ranges_are_no_smaller_than_the_precision_allows() {
    let bound = ZRange {
        min: Z2::new(3, 5).z(),
        max: Z2::new(300, 90).z(),
    };
    for precision in [64u64, 60, 56, 50] {
        for depth in [0usize, 1, 3, 5, 32] {
            for budget in [1usize, 10, usize::MAX] {
                let raw = raw_zranges::<Z2>(&[bound], precision, budget, depth);
                for range in raw.iter().filter(|r| !r.contained()) {
                    let size = range.upper() - range.lower() + 1;
                    assert!(size.is_power_of_two());
                    assert!(size.trailing_zeros() as u64 + precision >= 64);
                    assert_eq!(range.lower() % size, 0);
                }
            }
        }
    }
}
