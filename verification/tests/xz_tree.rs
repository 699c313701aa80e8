use space_time::xzorder::tree::{full_subtree, pow};
use space_time::xzorder::xz2_sfc::{QueryWindow, XElement, XZ2SFC};
use space_time::xzorder::xz3_sfc::{
    QueryWindow as QueryWindow3, XElement as XElement3, XZ3SFC,
};
use space_time::{SpaceFillingCurves, SpaceTimeFillingCurves};

#[test]
fn powers_and_sizes_of_subtrees() {
    assert_eq!(pow(4, 0), 1);
    assert_eq!(pow(4, 3), 64);
    assert_eq!(pow(8, 21), 1 << 63);
    assert_eq!(pow(1, 50), 1);
    // (4^3 - 1) / 3 and (8^2 - 1) / 7
    assert_eq!(full_subtree(4, 0), 0);
    assert_eq!(full_subtree(4, 1), 1);
    assert_eq!(full_subtree(4, 3), 21);
    assert_eq!(full_subtree(8, 2), 9);
    assert_eq!(full_subtree(4, 31), 1_537_228_672_809_129_301);
}

#[test]
fn sequence_codes_walk_the_quadtree_in_preorder() {
    let sfc = XZ2SFC::new(2);
    assert_eq!(sfc.g(), 2);
    // level 1: one for the cell, and five codes for each sibling before it
    assert_eq!(sfc.sequence_code(0, 0, 0), 0);
    assert_eq!(sfc.sequence_code(0, 0, 1), 1);
    assert_eq!(sfc.sequence_code(2, 0, 1), 6);
    assert_eq!(sfc.sequence_code(0, 2, 1), 11);
    assert_eq!(sfc.sequence_code(2, 2, 1), 16);
    // level 2: the children follow their parent
    assert_eq!(sfc.sequence_code(0, 0, 2), 2);
    assert_eq!(sfc.sequence_code(1, 0, 2), 3);
    assert_eq!(sfc.sequence_code(0, 1, 2), 4);
    assert_eq!(sfc.sequence_code(1, 1, 2), 5);
    assert_eq!(sfc.sequence_code(3, 3, 2), 20);
    // the last grid line counts to the last cell
    assert_eq!(sfc.sequence_code(4, 4, 2), 20);
    assert_eq!(sfc.sequence_code(4, 0, 1), 6);
}

#[test]
fn sequence_intervals() {
    let sfc = XZ2SFC::new(2);
    assert_eq!(sfc.sequence_interval(2, 0, 1, true), (6, 6));
    assert_eq!(sfc.sequence_interval(2, 0, 1, false), (6, 11));
    assert_eq!(sfc.sequence_interval(3, 3, 2, false), (20, 21));
    let sfc3 = XZ3SFC::new(2);
    assert_eq!(sfc3.sequence_interval(0, 0, 0, 1, false), (1, 10));
    assert_eq!(sfc3.sequence_interval(2, 0, 0, 1, false), (10, 19));
    assert_eq!(sfc3.sequence_interval(2, 2, 2, 1, true), (64, 64));
    assert_eq!(sfc3.sequence_interval(3, 3, 3, 2, false), (72, 73));
    assert_eq!(sfc3.sequence_code(1, 0, 0, 2), 3);
}

#[test]
fn intervals_of_siblings() {
    let sfc = XZ2SFC::new(12);
    let parent = XElement::new(1024, 2048, 2048, 3072, 1024);
    let children = parent.children();
    let intervals: Vec<(u64, u64)> = children
        .iter()
        .map(|c| sfc.sequence_interval(c.xmin, c.ymin, 3, false))
        .collect();
    let below = full_subtree(4, 10);
    for k in 0..4 {
        assert_eq!(intervals[k].0, intervals[0].0 + k as u64 * below);
        assert_eq!(intervals[k].1, intervals[k].0 + below);
    }
    // adjacent ranks share the start of the later, others are disjoint
    assert_eq!(intervals[0].1, intervals[1].0);
    assert!(intervals[0].1 < intervals[2].0);
    assert!(intervals[1].1 < intervals[3].0);
}

#[test]
fn the_cells_of_the_quadtree() {
    let cells = XElement::level_one_elements(3);
    assert_eq!(
        cells,
        vec![
            XElement::new(0, 0, 4, 4, 4),
            XElement::new(4, 0, 8, 4, 4),
            XElement::new(0, 4, 4, 8, 4),
            XElement::new(4, 4, 8, 8, 4),
        ]
    );
    let cell = cells[1];
    assert_eq!(cell.xext(), 12);
    assert_eq!(cell.yext(), 8);
    assert_eq!(
        cell.children(),
        vec![
            XElement::new(4, 0, 6, 2, 2),
            XElement::new(6, 0, 8, 2, 2),
            XElement::new(4, 2, 6, 4, 2),
            XElement::new(6, 2, 8, 4, 2),
        ]
    );
    let window = QueryWindow { xmin: 4, ymin: 0, xmax: 12, ymax: 8 };
    assert!(cell.is_contained(&window));
    assert!(cell.overlaps(&window));
    let smaller = QueryWindow { xmin: 4, ymin: 0, xmax: 11, ymax: 8 };
    assert!(!cell.is_contained(&smaller));
    assert!(cell.overlaps(&smaller));
    let apart = QueryWindow { xmin: 0, ymin: 0, xmax: 3, ymax: 8 };
    assert!(!cell.overlaps(&apart));
    assert!(XZ2SFC::is_contained(cell, &[apart, window]));
    assert!(!XZ2SFC::is_contained(cell, &[apart, smaller]));
    assert!(XZ2SFC::is_overlapped(cell, &[apart, smaller]));
    assert!(!XZ2SFC::is_overlapped(cell, &[apart]));
}

#[test]
fn the_cells_of_the_octree() {
    let cells = XElement3::level_one_elements(2);
    assert_eq!(cells.len(), 8);
    assert_eq!(cells[0], XElement3::new(0, 0, 0, 2, 2, 2, 2));
    assert_eq!(cells[1], XElement3::new(2, 0, 0, 4, 2, 2, 2));
    assert_eq!(cells[2], XElement3::new(0, 2, 0, 2, 4, 2, 2));
    assert_eq!(cells[4], XElement3::new(0, 0, 2, 2, 2, 4, 2));
    assert_eq!(cells[7], XElement3::new(2, 2, 2, 4, 4, 4, 2));
    assert_eq!(cells[7].zext(), 6);
    let window = QueryWindow3 { xmin: 0, ymin: 0, zmin: 0, xmax: 4, ymax: 4, zmax: 4 };
    assert!(cells[0].is_contained(&window));
    assert!(!cells[1].is_contained(&window));
    assert!(cells[1].is_overlapped(&window));
    let sfc = XZ3SFC::new(2);
    let intervals: Vec<(u64, u64)> = cells
        .iter()
        .map(|c| sfc.sequence_interval(c.xmin, c.ymin, c.zmin, 1, false))
        .collect();
    for k in 0..8 {
        assert_eq!(intervals[k], (1 + 9 * k as u64, 10 + 9 * k as u64));
    }
}

#[test]
fn the_level_of_an_index() {
    let sfc = SpaceFillingCurves::get_non_point_curve(3);
    // a point is indexed at the last level
    assert_eq!(sfc.index(5, 5, 5, 5), sfc.sequence_code(5, 5, 3));
    // the doubled cells of level 1 hold the whole grid
    assert_eq!(sfc.index(0, 0, 8, 8), 1);
    assert_eq!(sfc.index(5, 0, 8, 8), sfc.sequence_code(5, 0, 1));
    // a box of two cells fits the doubled cell of level 3 that holds its corner
    assert_eq!(sfc.index(2, 2, 4, 4), sfc.sequence_code(2, 2, 3));
    // a box of three cells does not
    assert_eq!(sfc.index(2, 2, 5, 4), sfc.sequence_code(2, 2, 2));
    // both axes count
    assert_eq!(sfc.index(2, 2, 4, 5), sfc.sequence_code(2, 2, 2));
    assert!(XZ2SFC::predicate(2, 4, 1));
    assert!(!XZ2SFC::predicate(2, 5, 1));
    assert!(XZ2SFC::predicate(3, 6, 2));
    let sfc3 = SpaceTimeFillingCurves::get_non_point_curve(3);
    assert_eq!(sfc3.index(2, 2, 2, 4, 4, 4), sfc3.sequence_code(2, 2, 2, 3));
    assert_eq!(sfc3.index(2, 2, 2, 4, 4, 5), sfc3.sequence_code(2, 2, 2, 2));
    assert_eq!(sfc3.index(0, 0, 0, 8, 1, 1), 1);
}

#[test]
fn ranges_of_a_small_quadtree() {
    let sfc = XZ2SFC::new(1);
    // with one level the four cells are drained unchecked
    let all: Vec<(u64, u64, bool)> = sfc.ranges(0, 0, 0, 0, None).iter().map(|r| r.tuple()).collect();
    assert_eq!(all, vec![(1, 5, false)]);

    let sfc = XZ2SFC::new(2);
    let whole: Vec<(u64, u64, bool)> = sfc.ranges(0, 0, 4, 4, None).iter().map(|r| r.tuple()).collect();
    // only the first cell of level 1 has its doubled square in the window
    assert_eq!(whole, vec![(1, 21, false)]);
    let corner: Vec<(u64, u64, bool)> =
        sfc.ranges(0, 0, 0, 0, None).iter().map(|r| r.tuple()).collect();
    assert_eq!(corner, vec![(1, 6, false)]);
}

#[test]
fn a_budget_of_ranges_ends_the_walk() {
    let sfc = XZ2SFC::new(20);
    let window = (522_822, 521_366, 525_753, 527_191);
    let all = sfc.ranges(window.0, window.1, window.2, window.3, None);
    let few = sfc.ranges(window.0, window.1, window.2, window.3, Some(10));
    assert!(few.len() < all.len());
    for pair in few.windows(2) {
        assert!(pair[0].upper() + 1 < pair[1].lower());
    }
    // what the full walk finds, the shortened walk still covers
    for range in &all {
        assert!(few
            .iter()
            .any(|r| r.lower() <= range.lower() && range.upper() <= r.upper()));
    }
    let none = sfc.ranges(window.0, window.1, window.2, window.3, Some(0));
    assert_eq!(none.len(), 1);
    assert_eq!(none[0].tuple(), (1, 1 + 4 * full_subtree(4, 20), false));
}

#[test]
fn every_box_that_a_window_meets_is_found() {
    let sfc = XZ2SFC::new(3);
    let windows = [(0u64, 0u64, 8u64, 8u64), (3, 2, 5, 5), (5, 5, 5, 5), (7, 0, 8, 1), (4, 4, 3, 3)];
    for stop in [None, Some(0u16), Some(3), Some(9)] {
        for w in windows {
            let ranges = sfc.ranges(w.0, w.1, w.2, w.3, stop);
            for xmin in 0..=8u64 {
                for ymin in 0..=8u64 {
                    for xmax in xmin..=8 {
                        for ymax in ymin..=8 {
                            let meets = w.2 >= xmin && w.3 >= ymin && w.0 <= xmax && w.1 <= ymax;
                            if meets {
                                let index = sfc.index(xmin, ymin, xmax, ymax);
                                assert!(ranges
                                    .iter()
                                    .any(|r| r.lower() <= index && index <= r.upper()));
                            }
                        }
                    }
                }
            }
        }
    }
}

#[test]
fn every_box_in_time_that_a_window_meets_is_found() {
    let sfc = XZ3SFC::new(2);
    let windows = [(0u64, 0u64, 0u64, 4u64, 4u64, 4u64), (1, 2, 3, 2, 3, 4), (3, 3, 3, 3, 3, 3)];
    for stop in [None, Some(0u16), Some(5)] {
        for w in windows {
            let ranges = sfc.ranges(w.0, w.1, w.2, w.3, w.4, w.5, stop);
            for xmin in 0..=4u64 {
                for ymin in 0..=4u64 {
                    for zmin in 0..=4u64 {
                        for size in 0..=2u64 {
                            let (xmax, ymax, zmax) =
                                ((xmin + size).min(4), (ymin + 1).min(4), (zmin + size).min(4));
                            let meets = w.3 >= xmin
                                && w.4 >= ymin
                                && w.5 >= zmin
                                && w.0 <= xmax
                                && w.1 <= ymax
                                && w.2 <= zmax;
                            if meets {
                                let index = sfc.index(xmin, ymin, zmin, xmax, ymax, zmax);
                                assert!(ranges
                                    .iter()
                                    .any(|r| r.lower() <= index && index <= r.upper()));
                            }
                        }
                    }
                }
            }
        }
    }
}
