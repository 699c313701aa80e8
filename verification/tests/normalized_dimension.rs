use space_time::normalized_dimension::{bins_of, LatNormalizer, LonNormalizer};

/// Normalizing as a caller with floating-point coordinates does it on the
/// grid of a normalizer.
struct Dimension {
    min: f64,
    max: f64,
    bins: i64,
    max_index: i32,
}

impl Dimension {
    fn lat(precision: u8) -> Self {
        let grid = LatNormalizer::new(precision);
        Dimension {
            min: -90.0,
            max: 90.0,
            bins: grid.bins(),
            max_index: grid.max_index(),
        }
    }

    fn lon(precision: u8) -> Self {
        let grid = LonNormalizer::new(precision);
        Dimension {
            min: -180.0,
            max: 180.0,
            bins: grid.bins(),
            max_index: grid.max_index(),
        }
    }

    fn normalize(&self, x: f64) -> i32 {
        if x >= self.max {
            self.max_index
        } else {
            ((x - self.min) * (self.bins as f64 / (self.max - self.min))).floor() as i32
        }
    }

    fn denormalize(&self, y: i32) -> f64 {
        let width = (self.max - self.min) / (self.bins as f64);
        if y >= self.max_index {
            self.min + (f64::from(self.max_index) + 0.5) * width
        } else {
            self.min + (f64::from(y) + 0.5) * width
        }
    }
}

#[test]
fn test_normalize_round_trip_minimum() {
    let norm_lat = Dimension::lat(31);
    let norm_lon = Dimension::lon(31);

    assert_eq!(norm_lat.normalize(norm_lat.denormalize(0)), 0);
    assert_eq!(norm_lon.normalize(norm_lon.denormalize(0)), 0);
}

#[test]
fn test_normalize_round_trip_maximum() {
    let norm_lat = Dimension::lat(31);
    let norm_lon = Dimension::lon(31);
    let max_bin = (2_i64.pow(31) - 1) as i32;
    assert_eq!(norm_lat.normalize(norm_lat.denormalize(max_bin)), max_bin);
    assert_eq!(norm_lon.normalize(norm_lon.denormalize(max_bin)), max_bin);
}

#[test]
fn test_normalize_min() {
    let norm_lat = Dimension::lat(31);
    let norm_lon = Dimension::lon(31);

    assert_eq!(norm_lat.normalize(norm_lat.min), 0);
    assert_eq!(norm_lon.normalize(norm_lon.min), 0)
}

#[test]
fn test_normalize_max() {
    let norm_lat = Dimension::lat(31);
    let norm_lon = Dimension::lon(31);
    let max_bin = (2_i64.pow(31) - 1) as i32;

    assert_eq!(norm_lat.normalize(norm_lat.max), max_bin);
    assert_eq!(norm_lon.normalize(norm_lon.max), max_bin);
}

#[test]
fn test_denormalize_to_middle() {
    let norm_lat = Dimension::lat(31);
    let norm_lon = Dimension::lon(31);
    let max_bin = (2_i64.pow(31) - 1) as i32;

    let lat_extent = norm_lat.max - norm_lat.min;
    let lon_extent = norm_lon.max - norm_lon.min;
    let lat_width = lat_extent / (max_bin as f64 + 1_f64);
    let lon_width = lon_extent / (max_bin as f64 + 1_f64);

    assert_eq!(norm_lat.denormalize(0), norm_lat.min + lat_width / 2.0);
    assert_eq!(
        norm_lat.denormalize(max_bin),
        norm_lat.max - lat_width / 2.0
    );

    assert_eq!(norm_lon.denormalize(0), norm_lon.min + lon_width / 2.0);
    assert_eq!(
        norm_lon.denormalize(max_bin),
        norm_lon.max - lon_width / 2.0
    );
}

#[test]
fn the_grid_of_a_normalizer() {
    let lat = LatNormalizer::new(1);
    assert_eq!(lat.precision(), 1);
    assert_eq!(lat.bins(), 2);
    assert_eq!(lat.max_index(), 1);
    let lon = LonNormalizer::new(31);
    assert_eq!(lon.precision(), 31);
    assert_eq!(lon.bins(), 2_147_483_648);
    assert_eq!(lon.max_index(), i32::MAX);
    assert_eq!(bins_of(0), 1);
    assert_eq!(bins_of(12), 4096);
    assert_eq!(LatNormalizer::new(7), LatNormalizer::new(7));
}
