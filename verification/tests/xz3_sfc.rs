use space_time::xzorder::xz3_sfc::XZ3SFC;

/// A curve over longitude, latitude and time, as a caller with
/// floating-point coordinates sets it up: the box is scaled to the grid of
/// the curve.
struct Wgs84 {
    curve: XZ3SFC,
    g: u32,
    z_min: f64,
    z_max: f64,
}

impl Wgs84 {
    fn new(g: u32, z_min: f64, z_max: f64) -> Self {
        Wgs84 {
            curve: XZ3SFC::new(g),
            g,
            z_min,
            z_max,
        }
    }

    fn scale(&self) -> f64 {
        (1u64 << self.g) as f64
    }

    fn normalize(&self, b: (f64, f64, f64, f64, f64, f64)) -> (f64, f64, f64, f64, f64, f64) {
        let z_size = self.z_max - self.z_min;
        (
            (b.0 + 180.0) / 360.0,
            (b.1 + 90.0) / 180.0,
            (b.2 - self.z_min) / z_size,
            (b.3 + 180.0) / 360.0,
            (b.4 + 90.0) / 180.0,
            (b.5 - self.z_min) / z_size,
        )
    }

    fn index(&self, b: (f64, f64, f64, f64, f64, f64)) -> u64 {
        let n = self.normalize(b);
        let s = self.scale();
        self.curve.index(
            (n.0 * s).floor() as u64,
            (n.1 * s).floor() as u64,
            (n.2 * s).floor() as u64,
            (n.3 * s).ceil() as u64,
            (n.4 * s).ceil() as u64,
            (n.5 * s).ceil() as u64,
        )
    }

    fn ranges(
        &self,
        b: (f64, f64, f64, f64, f64, f64),
        max_ranges: Option<u16>,
    ) -> Vec<(u64, u64, bool)> {
        let n = self.normalize(b);
        let s = self.scale();
        self.curve
            .ranges(
                (n.0 * s).ceil() as u64,
                (n.1 * s).ceil() as u64,
                (n.2 * s).ceil() as u64,
                (n.3 * s).floor() as u64,
                (n.4 * s).floor() as u64,
                (n.5 * s).floor() as u64,
                max_ranges,
            )
            .iter()
            .map(|r| r.tuple())
            .collect()
    }
}

#[test]
fn test_bounding_boxes_query_polygon() {
    let sfc = Wgs84::new(12, 0.0, 13000.0);

    let polygon = sfc.index((10.0, 10.0, 1000.0, 12.0, 12.0, 1000.0));

    let containing = [
        (9.0, 9.0, 900.0, 13.0, 13.0, 1100.0),
        (-180.0, -90.0, 900.0, 180.0, 90.0, 1100.0),
        (0.0, 0.0, 900.0, 180.0, 90.0, 1100.0),
        (0.0, 0.0, 900.0, 20.0, 20.0, 1100.0),
    ];

    let overlapping = [
        (11.0, 11.0, 900.0, 13.0, 13.0, 1100.0),
        (9.0, 9.0, 900.0, 11.0, 11.0, 1100.0),
        (10.5, 10.5, 900.0, 11.5, 11.5, 1100.0),
        (11.0, 11.0, 900.0, 11.0, 11.0, 1100.0),
    ];

    let disjoint = [
        (-180.0, -90.0, 900.0, 8.0, 8.0, 1100.0),
        (0.0, 0.0, 900.0, 8.0, 8.0, 1100.0),
        (9.0, 9.0, 900.0, 9.5, 9.5, 1100.0),
        (20.0, 20.0, 900.0, 180.0, 90.0, 1100.0),
    ];

    for bbox in &[containing, overlapping].concat() {
        let ranges = sfc.ranges(*bbox, Some(10000));

        assert!(ranges.iter().any(|r| r.0 <= polygon && polygon <= r.1));
    }

    for bbox in &disjoint {
        let ranges = sfc.ranges(*bbox, Some(10000));

        assert!(!ranges.iter().any(|r| r.0 <= polygon && polygon <= r.1));
    }
}

#[test]
fn test_indexing() {
    let sfc = Wgs84::new(12, 0.0, 100000.0);

    assert_eq!(
        sfc.index((-80.0, -45.0, 1000.0, -78.8, -40.0, 1000.0)),
        3_681_700_138
    );

    assert_eq!(
        sfc.index((-80.0, -45.0, 2000.0, -78.8, -40.0, 2000.0)),
        3_682_898_510
    );

    assert_eq!(
        sfc.index((80.0, 25.0, 2000.0, 87.8, 40.0, 2000.0)),
        29_930_553_347
    );
}

#[test]
fn test_queries() {
    let sfc = Wgs84::new(12, 0.0, 100_000.0);

    let ranges = sfc.ranges((-80.0, -45.0, 900.0, -78.8, -40.0, 1100.0), None);

    assert_eq!(ranges.len(), 912);

    assert_eq!(ranges.first().map(|r| r.0), Some(1));

    assert_eq!(ranges.last().map(|r| r.1), Some(3_682_578_823));
}
