use space_time::index_range::{CoveredRange, IndexRange, OverlappingRange};
use space_time::merge::{merge_sorted, sort_and_merge};
use std::cmp::Ordering;

fn tuples(ranges: &[IndexRange]) -> Vec<(u64, u64, bool)> {
    ranges.iter().map(|r| r.tuple()).collect()
}

#[test]
fn the_parts_of_a_range() {
    let covered = CoveredRange::new(3, 9);
    assert_eq!(covered.lower(), 3);
    assert_eq!(covered.upper(), 9);
    assert!(covered.contained());
    assert_eq!(covered.tuple(), (3, 9, true));

    let overlapping = OverlappingRange::new(4, 4);
    assert_eq!(overlapping.tuple(), (4, 4, false));
    assert_eq!(IndexRange::new(0, u64::MAX, false).tuple(), (0, u64::MAX, false));
}

#[test]
fn equality_ignores_the_flag() {
    assert_eq!(CoveredRange::new(3, 9), OverlappingRange::new(3, 9));
    assert_ne!(CoveredRange::new(3, 9), CoveredRange::new(3, 10));
    assert_ne!(CoveredRange::new(2, 9), CoveredRange::new(3, 9));
}

#[test]
fn ranges_are_ordered_by_lower_then_upper() {
    let a = CoveredRange::new(3, 9);
    assert_eq!(a.cmp(&OverlappingRange::new(4, 5)), Ordering::Less);
    assert_eq!(a.cmp(&OverlappingRange::new(2, 20)), Ordering::Greater);
    assert_eq!(a.cmp(&OverlappingRange::new(3, 10)), Ordering::Less);
    assert_eq!(a.cmp(&OverlappingRange::new(3, 8)), Ordering::Greater);
    assert_eq!(a.cmp(&OverlappingRange::new(3, 9)), Ordering::Equal);
    assert_eq!(
        a.partial_cmp(&OverlappingRange::new(3, 9)),
        Some(Ordering::Equal)
    );
    assert!(CoveredRange::new(3, 9) < CoveredRange::new(3, 10));
    assert!(CoveredRange::new(4, 4) > CoveredRange::new(3, 10));
    assert!(CoveredRange::new(3, 9) <= OverlappingRange::new(3, 9));
}

#[test]
fn sorting_comes_before_merging() {
    let merged = sort_and_merge(vec![
        CoveredRange::new(30, 40),
        CoveredRange::new(1, 5),
        CoveredRange::new(20, 22),
        CoveredRange::new(6, 10),
    ]);
    assert_eq!(
        tuples(&merged),
        vec![(1, 10, true), (20, 22, true), (30, 40, true)]
    );
}

#[test]
fn adjacent_and_overlapping_ranges_are_joined() {
    let merged = merge_sorted(&vec![
        CoveredRange::new(0, 3),
        CoveredRange::new(4, 7),
        CoveredRange::new(6, 9),
        CoveredRange::new(11, 12),
    ]);
    assert_eq!(tuples(&merged), vec![(0, 9, true), (11, 12, true)]);
}

#[test]
fn a_range_inside_another_does_not_shorten_it() {
    let merged = sort_and_merge(vec![CoveredRange::new(0, 100), CoveredRange::new(5, 6)]);
    assert_eq!(tuples(&merged), vec![(0, 100, true)]);
}

#[test]
fn a_joined_range_is_covered_only_if_all_its_parts_are() {
    let merged = sort_and_merge(vec![
        CoveredRange::new(0, 3),
        OverlappingRange::new(4, 7),
        CoveredRange::new(8, 9),
        CoveredRange::new(20, 30),
        CoveredRange::new(31, 40),
        OverlappingRange::new(50, 50),
    ]);
    assert_eq!(
        tuples(&merged),
        vec![(0, 9, false), (20, 40, true), (50, 50, false)]
    );
}

#[test]
fn equal_bounds_with_different_flags_give_an_overlapping_range() {
    let one = sort_and_merge(vec![CoveredRange::new(5, 8), OverlappingRange::new(5, 8)]);
    let other = sort_and_merge(vec![OverlappingRange::new(5, 8), CoveredRange::new(5, 8)]);
    assert_eq!(tuples(&one), vec![(5, 8, false)]);
    assert_eq!(tuples(&other), vec![(5, 8, false)]);
}

#[test]
fn merged_ranges_are_apart() {
    let merged = sort_and_merge(vec![
        OverlappingRange::new(9, 9),
        CoveredRange::new(0, 1),
        CoveredRange::new(3, 4),
        CoveredRange::new(2, 2),
        OverlappingRange::new(7, 7),
        CoveredRange::new(u64::MAX - 1, u64::MAX),
        CoveredRange::new(u64::MAX, u64::MAX),
    ]);
    for pair in merged.windows(2) {
        assert!(pair[0].upper() + 1 < pair[1].lower());
    }
    assert_eq!(
        tuples(&merged),
        vec![
            (0, 4, true),
            (7, 7, false),
            (9, 9, false),
            (u64::MAX - 1, u64::MAX, true)
        ]
    );
}

#[test]
fn nothing_merges_to_nothing() {
    assert!(sort_and_merge(Vec::new()).is_empty());
    assert!(merge_sorted(&Vec::new()).is_empty());
    assert_eq!(tuples(&sort_and_merge(vec![OverlappingRange::new(7, 7)])), vec![(7, 7, false)]);
}
