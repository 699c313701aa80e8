use space_time::zorder::z_curve_2d::ZCurve2D;
use space_time::{RangeComputeHints, SpaceFillingCurves};

/// A curve over a box of the plane, as a caller with floating-point
/// coordinates sets it up: points are mapped to the cells of the grid.
struct Plane {
    grid: ZCurve2D,
    resolution: u32,
    x_min: f64,
    x_max: f64,
    y_min: f64,
    y_max: f64,
}

impl Plane {
    fn new(resolution: u32, x_min: f64, y_min: f64, x_max: f64, y_max: f64) -> Self {
        Plane {
            grid: SpaceFillingCurves::get_point_curve(resolution),
            resolution,
            x_min,
            x_max,
            y_min,
            y_max,
        }
    }

    fn default() -> Self {
        let grid = ZCurve2D::default();
        Plane {
            resolution: grid.resolution(),
            grid,
            x_min: -180.0,
            x_max: 180.0,
            y_min: -90.0,
            y_max: 90.0,
        }
    }

    fn cell_width(&self) -> f64 {
        (self.x_max - self.x_min) / f64::from(self.resolution)
    }

    fn cell_height(&self) -> f64 {
        (self.y_max - self.y_min) / f64::from(self.resolution)
    }

    fn map_to_col(&self, x: f64) -> u32 {
        ((x - self.x_min) / self.cell_width()) as u32
    }

    fn map_to_row(&self, y: f64) -> u32 {
        ((self.y_max - y) / self.cell_height()) as u32
    }

    fn col_to_map(&self, col: u32) -> f64 {
        (f64::from(col) * self.cell_width() + self.x_min + self.cell_width() / 2.0)
            .min(self.x_max)
            .max(self.x_min)
    }

    fn row_to_map(&self, row: u32) -> f64 {
        (self.y_max - f64::from(row) * self.cell_height() - self.cell_height() / 2.0)
            .max(self.y_min)
            .min(self.y_max)
    }

    fn index(&self, x: f64, y: f64) -> u64 {
        self.grid.index(self.map_to_col(x), self.map_to_row(y))
    }

    fn point(&self, index: u64) -> (f64, f64) {
        let (col, row) = self.grid.point(index);
        (self.col_to_map(col), self.row_to_map(row))
    }

    fn ranges(
        &self,
        x_min: f64,
        y_min: f64,
        x_max: f64,
        y_max: f64,
        hints: &[RangeComputeHints],
    ) -> Vec<(u64, u64, bool)> {
        self.grid
            .ranges(
                self.map_to_col(x_min),
                self.map_to_row(y_max),
                self.map_to_col(x_max),
                self.map_to_row(y_min),
                hints,
            )
            .iter()
            .map(|r| r.tuple())
            .collect()
    }
}

#[test]
fn test_produce_covering_ranges() {
    let curve = Plane::new(1024, -180.0, -90.0, 180.0, 90.0);

    let ranges = curve.ranges(
        -80.0,
        35.0,
        -75.0,
        40.0,
        &[RangeComputeHints::MaxRecurse(32)],
    );

    assert_eq!(ranges.len(), 44);

    let (l, r, contains) = ranges[0];
    assert_eq!(l, 197616);
    assert_eq!(r, 197631);
    assert!(contains);
}

#[test]
fn test_col_to_map_map_to_col() {
    let curve = Plane::default();
    let m = curve.col_to_map(27);
    let col = curve.map_to_col(m);
    assert_eq!(col, 27);
}

#[test]
fn point_to_index_to_point() {
    let curve = Plane::default();
    let index = curve.index(-45.0, -45.0);
    let point = curve.point(index);
    assert!(point > (-45.0 - 1.0, -45.0 - 1.0));
    assert!(point < (-45.0 + 1.0, -45.0 + 1.0));
}

#[test]
fn z_curve_2d_test_sweep_through_map() {
    let curve = Plane::default();

    let mut lon = -180.0;
    let mut lat = -90.0;

    while lon < 180.0 {
        while lat < 90.0 {
            let indexed_point = curve.index(lon, lat);
            let range = curve.ranges(
                (lon - 10.0).max(-180.0),
                (lat - 10.0).max(-90.0),
                (lon + 10.0).min(180.0),
                (lat + 10.0).min(90.0),
                &[],
            );
            assert!(range
                .iter()
                .any(|r| r.0 <= indexed_point && indexed_point <= r.1));

            lat += 1.0;
        }
        lon += 1.0;
    }
}

#[test]
fn cells_of_the_box_are_covered() {
    let grid = ZCurve2D::new(64);
    for depth in [0usize, 1, 3, 32, 100] {
        let ranges = grid.ranges(5, 9, 21, 30, &[RangeComputeHints::MaxRecurse(depth)]);
        for col in 5..=21 {
            for row in 9..=30 {
                let z = grid.index(col, row);
                assert!(ranges.iter().any(|r| r.lower() <= z && z <= r.upper()));
            }
        }
    }
}

#[test]
fn full_depth_covers_the_box_and_nothing_else() {
    let grid = ZCurve2D::new(64);
    let ranges = grid.ranges(5, 9, 21, 30, &[RangeComputeHints::MaxRecurse(32)]);
    for col in 0..=64 {
        for row in 0..=64 {
            let z = grid.index(col, row);
            let inside = (5..=21).contains(&col) && (9..=30).contains(&row);
            let held = ranges.iter().any(|r| r.lower() <= z && z <= r.upper());
            assert_eq!(inside, held);
        }
    }
    assert!(ranges.iter().all(|r| r.contained()));
}

#[test]
fn cells_beyond_the_grid_are_taken_for_its_edge() {
    let grid = ZCurve2D::new(1024);
    assert_eq!(grid.index(5000, 3), grid.index(1024, 3));
    assert_eq!(grid.index(3, u32::MAX), grid.index(3, 1024));
    assert_eq!(grid.point(grid.index(1024, 1024)), (1024, 1024));
    let huge = ZCurve2D::new(u32::MAX);
    assert_eq!(huge.point(huge.index(u32::MAX, 7)), (0x7fff_ffff, 7));
}

#[test]
fn index_and_point_are_inverse_on_the_grid() {
    let grid = ZCurve2D::new(1024);
    for col in (0..=1024).step_by(37) {
        for row in (0..=1024).step_by(41) {
            assert_eq!(grid.point(grid.index(col, row)), (col, row));
        }
    }
}
