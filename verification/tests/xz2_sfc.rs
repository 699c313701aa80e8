use space_time::xzorder::xz2_sfc::XZ2SFC;

/// A curve over longitude and latitude, as a caller with floating-point
/// coordinates sets it up: the box is scaled to the grid of the curve.
struct Wgs84 {
    curve: XZ2SFC,
    g: u32,
}

impl Wgs84 {
    fn new(g: u32) -> Self {
        Wgs84 {
            curve: XZ2SFC::new(g),
            g,
        }
    }

    fn scale(&self) -> f64 {
        (1u64 << self.g) as f64
    }

    fn normalize(&self, x_min: f64, y_min: f64, x_max: f64, y_max: f64) -> (f64, f64, f64, f64) {
        assert!(x_min <= x_max && y_min <= y_max);
        assert!(x_min >= -180.0 && x_max <= 180.0 && y_min >= -90.0 && y_max <= 90.0);
        (
            (x_min + 180.0) / 360.0,
            (y_min + 90.0) / 180.0,
            (x_max + 180.0) / 360.0,
            (y_max + 90.0) / 180.0,
        )
    }

    fn index(&self, x_min: f64, y_min: f64, x_max: f64, y_max: f64) -> u64 {
        let (nxmin, nymin, nxmax, nymax) = self.normalize(x_min, y_min, x_max, y_max);
        let s = self.scale();
        self.curve.index(
            (nxmin * s).floor() as u64,
            (nymin * s).floor() as u64,
            (nxmax * s).ceil() as u64,
            (nymax * s).ceil() as u64,
        )
    }

    fn ranges(
        &self,
        x_min: f64,
        y_min: f64,
        x_max: f64,
        y_max: f64,
        max_ranges: Option<u16>,
    ) -> Vec<(u64, u64, bool)> {
        let (nxmin, nymin, nxmax, nymax) = self.normalize(x_min, y_min, x_max, y_max);
        let s = self.scale();
        self.curve
            .ranges(
                (nxmin * s).ceil() as u64,
                (nymin * s).ceil() as u64,
                (nxmax * s).floor() as u64,
                (nymax * s).floor() as u64,
                max_ranges,
            )
            .iter()
            .map(|r| r.tuple())
            .collect()
    }
}

#[test]
fn test_query_bounding_boxes() {
    let sfc = Wgs84::new(12);
    let polygon = sfc.index(10.0, 10.0, 12.0, 12.0);

    let containing = [
        (9.0, 9.0, 13.0, 13.0),
        (-180.0, -90.0, 180.0, 90.0),
        (0.0, 0.0, 180.0, 90.0),
        (0.0, 0.0, 20.0, 20.0),
    ];
    let overlapping = [
        (11.0, 11.0, 13.0, 13.0),
        (9.0, 9.0, 11.0, 11.0),
        (10.5, 10.5, 11.5, 11.5),
        (11.0, 11.0, 11.0, 11.0),
    ];
    let disjoint = [
        (-180.0, -90.0, 8.0, 8.0),
        (0.0, 0.0, 8.0, 8.0),
        (9.0, 9.0, 9.5, 9.5),
        (20.0, 20.0, 180.0, 90.0),
    ];

    for bbox in &[containing, overlapping].concat() {
        let ranges = sfc.ranges(bbox.0, bbox.1, bbox.2, bbox.3, None);
        assert!(ranges.iter().any(|r| r.0 <= polygon && polygon <= r.1));
    }

    for bbox in &disjoint {
        let ranges = sfc.ranges(bbox.0, bbox.1, bbox.2, bbox.3, None);
        assert!(!ranges.iter().any(|r| r.0 <= polygon && polygon <= r.1));
    }
}

#[test]
fn test_index() {
    let sfc = Wgs84::new(12);
    assert_eq!(sfc.index(10.0, 10.0, 12.0, 12.0), 16841390);
    assert_eq!(sfc.index(-180.0, -90.0, -180.0, -90.0), 12);
    assert_eq!(sfc.index(-180.0, -90.0, 0.0, 0.0), 2);
    assert_eq!(sfc.index(10.0, -90.0, 12.0, -89.0), 5599580);
    assert_eq!(sfc.index(79.9, 0.5, 79.9, 0.5), 17236267);
}

#[test]
fn test_ranges() {
    let sfc = Wgs84::new(20);

    assert_eq!(sfc.ranges(-0.5, -0.5, 0.5, 0.5, None).len(), 8077);
    assert!(sfc.ranges(-0.5, -0.5, 0.5, 0.5, Some(1000)).len() < 1000);

    assert_eq!(sfc.ranges(55.758, 20.5, 55.759, 21.5, None).len(), 5883);
    assert_eq!(sfc.ranges(-55.758, 20.5, -55.755, 21.5, None).len(), 8070);

    let ranges = sfc.ranges(-55.758, 20.5, -55.755, 21.5, None);

    assert_eq!(ranges.first().map(|r| r.0), Some(1));
    assert_eq!(ranges.last().map(|r| r.1), Some(847016214083));
}
