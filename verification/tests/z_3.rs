use space_time::zorder::z_3::{ZCurve3D, Z3};
use space_time::zorder::z_n::ZN;
use space_time::zorder::z_range::ZRange;
use space_time::{RangeComputeHints, SpaceTimeFillingCurves};

/// A curve over a box of the plane and a span of time, as a caller with
/// floating-point coordinates sets it up: points are mapped to the cells of
/// the grid.
struct SpaceTime {
    grid: ZCurve3D,
    g: u32,
    x_min: f64,
    x_max: f64,
    y_min: f64,
    y_max: f64,
    z_max: f64,
}

impl SpaceTime {
    fn new(g: u32, x_min: f64, y_min: f64, x_max: f64, y_max: f64, z_max: f64) -> Self {
        SpaceTime {
            grid: SpaceTimeFillingCurves::get_point_curve(g),
            g,
            x_min,
            y_min,
            x_max,
            y_max,
            z_max,
        }
    }

    fn default() -> Self {
        let grid = ZCurve3D::default();
        SpaceTime {
            g: grid.resolution(),
            grid,
            x_min: -180.0,
            y_min: -90.0,
            x_max: 180.0,
            y_max: 90.0,
            z_max: 2_556_057_600.0,
        }
    }

    fn cell_height(&self) -> f64 {
        (self.y_max - self.y_min) / f64::from(self.g)
    }

    fn cell_width(&self) -> f64 {
        (self.x_max - self.x_min) / f64::from(self.g)
    }

    fn cell_depth(&self) -> f64 {
        self.z_max / f64::from(self.g)
    }

    fn map_to_col(&self, x: f64) -> u32 {
        ((x - self.x_min) / self.cell_width()) as u32
    }

    fn map_to_row(&self, y: f64) -> u32 {
        ((self.y_max - y) / self.cell_height()) as u32
    }

    fn time_to_depth(&self, z: f64) -> u32 {
        (z / self.cell_depth()) as u32
    }

    fn index(&self, x: f64, y: f64, t: f64) -> u64 {
        self.grid
            .index(self.map_to_col(x), self.map_to_row(y), self.time_to_depth(t))
    }

    fn ranges(
        &self,
        x_min: f64,
        y_min: f64,
        x_max: f64,
        y_max: f64,
        t_min: f64,
        t_max: f64,
        hints: &[RangeComputeHints],
    ) -> Vec<(u64, u64, bool)> {
        self.grid
            .ranges(
                self.map_to_col(x_min),
                self.map_to_row(y_max),
                self.time_to_depth(t_min),
                self.map_to_col(x_max),
                self.map_to_row(y_min),
                self.time_to_depth(t_max),
                hints,
            )
            .iter()
            .map(|r| r.tuple())
            .collect()
    }
}

#[test]
fn test_encode() {
    assert_eq!(Z3::new(1, 0, 0).z(), 1);
    assert_eq!(Z3::new(0, 1, 0).z(), 2);
    assert_eq!(Z3::new(0, 0, 1).z(), 4);
    assert_eq!(Z3::new(1, 1, 1).z(), 7);
}

#[test]
fn test_decode() {
    assert_eq!(Z3::new(23, 13, 200).decode(), (23, 13, 200));
    // only 21 bits are saved, so MAX Value gets chopped
    assert_eq!(
        Z3::new(u16::MAX as u32, 0, 0).decode(),
        (u16::MAX as u32, 0, 0)
    );
    assert_eq!(
        Z3::new(u16::MAX as u32, 0, u16::MAX as u32).decode(),
        (u16::MAX as u32, 0, u16::MAX as u32)
    );
}

#[test]
fn test_z3_time_curve() {
    let curve = SpaceTime::new(1024, -180.0, -90.0, 180.0, 90.0, 1207632712000.0);

    let minneapolis_1995 = curve.index(-93.2650, 44.9778, 792013512000.0);
    let minneapolis_2005 = curve.index(-93.2650, 44.9778, 1107632712000.0);

    let minneapolis_1995_query = curve.ranges(
        -93.266,
        44.9777,
        -93.264,
        44.9779,
        792013412000.0,
        792013612000.0,
        &[],
    );

    assert!(minneapolis_1995_query
        .iter()
        .any(|r| r.0 <= minneapolis_1995 && r.1 >= minneapolis_1995));
    assert!(!minneapolis_1995_query
        .iter()
        .any(|r| r.0 <= minneapolis_2005 && r.1 >= minneapolis_2005));
}

#[test]
fn z_3_test_sweep_through_map() {
    let curve = SpaceTime::default();

    let mut lon = -180.0;
    let mut lat = -90.0;
    let mut t = 0.0;

    while lon < 180.0 {
        while lat < 90.0 {
            while t < 2_556_057_600.0 {
                let indexed_point = curve.index(lon, lat, t);
                let range = curve.ranges(
                    (lon - 10.0).max(-180.0),
                    (lat - 10.0).max(-90.0),
                    (lon + 10.0).min(180.0),
                    (lat + 10.0).min(90.0),
                    (t - 10.0).max(0.0),
                    (t + 10.0).min(2_556_057_600.0),
                    &[],
                );
                assert!(range
                    .iter()
                    .any(|r| r.0 <= indexed_point && indexed_point <= r.1));

                t += 10_000_000.0;
            }

            lat += 5.0;
        }
        lon += 5.0;
    }
}

#[test]
fn z3_decodes_what_it_encodes_up_to_the_largest_coordinate() {
    let max = Z3::MAX_MASK as u32;
    assert_eq!(Z3::new(max, 0, 0).decode(), (max, 0, 0));
    assert_eq!(Z3::new(0, max, 0).decode(), (0, max, 0));
    assert_eq!(Z3::new(0, 0, max).decode(), (0, 0, max));
    assert_eq!(Z3::new(max, max, max).decode(), (max, max, max));
    assert_eq!(Z3::new(max, max, max).z(), 0x7fff_ffff_ffff_ffff);
    assert_eq!(Z3::new(0x10_0000, 0x1_0000, 0x12345).decode(), (0x10_0000, 0x1_0000, 0x12345));
}

#[test]
fn z3_split_and_combine() {
    for v in [0u32, 1, 2, 3, 0xffff, 0x1_0000, 0x15_5555, 0x1f_ffff] {
        assert_eq!(Z3::combine(Z3::split(v)), v);
    }
    assert_eq!(Z3::split(0b111), 0b1001001);
    assert_eq!(Z3::split(0xffff_ffff), Z3::split(0x1f_ffff));
    assert_eq!(Z3::combine(0b100_1001), 0b111);
    assert_eq!(Z3::combine(0b110_110_110), 0);
}

#[test]
fn z3_contains_and_overlaps_in_user_space() {
    let range = ZRange {
        min: Z3::new(2, 2, 2).z(),
        max: Z3::new(6, 6, 6).z(),
    };
    assert!(Z3::contains(range, Z3::new(3, 4, 5).z()));
    assert!(!Z3::contains(range, Z3::new(3, 4, 7).z()));
    assert!(!Z3::contains(range, Z3::new(1, 4, 5).z()));
    let other = ZRange {
        min: Z3::new(6, 0, 0).z(),
        max: Z3::new(9, 9, 9).z(),
    };
    assert!(Z3::overlaps(range, other));
    assert!(Z3::overlaps(other, range));
    let apart = ZRange {
        min: Z3::new(7, 0, 0).z(),
        max: Z3::new(9, 9, 9).z(),
    };
    assert!(!Z3::overlaps(range, apart));
    assert!(Z3::contains_value(range, ZRange { min: Z3::new(2, 3, 4).z(), max: Z3::new(6, 5, 4).z() }));
}

#[test]
fn z3_cells_of_the_box_are_covered() {
    let grid = ZCurve3D::new(16);
    for depth in [0usize, 2, 32] {
        let ranges = grid.ranges(1, 2, 3, 5, 9, 7, &[RangeComputeHints::MaxRecurse(depth)]);
        for col in 1..=5 {
            for row in 2..=9 {
                for step in 3..=7 {
                    let z = grid.index(col, row, step);
                    assert!(ranges.iter().any(|r| r.lower() <= z && z <= r.upper()));
                }
            }
        }
    }
    assert_eq!(grid.invert(grid.index(3, 16, 99)), (3, 16, 16));
}
