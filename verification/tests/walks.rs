//! The descents of the library against the same walks written with one queue
//! and a marker for the end of a level, and with floating-point cells.

use space_time::xzorder::xz2_sfc::XZ2SFC;
use space_time::xzorder::xz3_sfc::XZ3SFC;
use space_time::zorder::z_2::Z2;
use space_time::zorder::z_3::Z3;
use space_time::zorder::z_n::{longest_common_prefix, zranges, ZN};
use space_time::zorder::z_range::ZRange;
use std::collections::VecDeque;

fn merge(mut ranges: Vec<(u64, u64, bool)>) -> Vec<(u64, u64, bool)> {
    ranges.sort_by_key(|r| (r.0, r.1));
    let mut results = Vec::new();
    let mut current: Option<(u64, u64, bool)> = None;
    for range in ranges {
        current = match current {
            Some(cur) if range.0 <= cur.1.saturating_add(1) => {
                Some((cur.0, cur.1.max(range.1), cur.2 && range.2))
            }
            Some(cur) => {
                results.push(cur);
                Some(range)
            }
            None => Some(range),
        };
    }
    if let Some(cur) = current {
        results.push(cur);
    }
    results
}

fn check_with_queue<Z: ZN>(
    prefix: u64,
    quadrant: u64,
    offset: u64,
    zbounds: &[ZRange],
    precision: u64,
    ranges: &mut Vec<(u64, u64, bool)>,
    remaining: &mut VecDeque<Option<(u64, u64)>>,
) {
    let min = prefix | (quadrant << offset);
    let max = min | ((1u64 << offset) - 1);
    let cell = ZRange { min, max };
    if zbounds.iter().any(|b| Z::contains_value(*b, cell)) || offset < 64 - precision {
        ranges.push((min, max, true));
    } else if zbounds.iter().any(|b| Z::overlaps(*b, cell)) {
        remaining.push_back(Some((min, max)));
    }
}

fn bottom_out_queue(
    ranges: &mut Vec<(u64, u64, bool)>,
    remaining: &mut VecDeque<Option<(u64, u64)>>,
) {
    while let Some(entry) = remaining.pop_front() {
        if let Some((min, max)) = entry {
            ranges.push((min, max, false));
        }
    }
}

fn zranges_with_queue<Z: ZN>(
    zbounds: &[ZRange],
    precision: u64,
    max_ranges: usize,
    max_recurse: usize,
) -> Vec<(u64, u64, bool)> {
    let mut ranges = Vec::new();
    let mut remaining: VecDeque<Option<(u64, u64)>> = VecDeque::new();
    let ends: Vec<u64> = zbounds.iter().flat_map(|b| vec![b.min, b.max]).collect();
    let lcp = longest_common_prefix::<Z>(&ends);
    let mut offset = (64 - lcp.precision) as i64;
    check_with_queue::<Z>(
        lcp.prefix,
        0,
        offset as u64,
        zbounds,
        precision,
        &mut ranges,
        &mut remaining,
    );
    remaining.push_back(None);
    offset -= Z::DIMENSIONS as i64;
    let mut level = 0;
    loop {
        match remaining.pop_front() {
            Some(None) => {
                if !remaining.is_empty() {
                    level += 1;
                    if offset == 0 || level >= max_recurse {
                        bottom_out_queue(&mut ranges, &mut remaining);
                    } else {
                        remaining.push_back(None);
                    }
                    offset -= Z::DIMENSIONS as i64;
                }
            }
            Some(Some((min, _))) => {
                for quadrant in 0..u64::from(Z::QUADRANTS) {
                    check_with_queue::<Z>(
                        min,
                        quadrant,
                        offset as u64,
                        zbounds,
                        precision,
                        &mut ranges,
                        &mut remaining,
                    );
                }
                if ranges.len() + remaining.len() > max_ranges {
                    bottom_out_queue(&mut ranges, &mut remaining);
                }
            }
            None => (),
        }
        if remaining.is_empty() {
            break;
        }
    }
    merge(ranges)
}

fn next(seed: &mut u64) -> u64 {
    *seed = seed
        .wrapping_mul(6364136223846793005)
        .wrapping_add(1442695040888963407);
    *seed >> 33
}

#[test]
fn z2_ranges_are_those_of_the_walk_with_a_queue() {
    let mut seed = 7;
    for _ in 0..300 {
        let bits = 1 + next(&mut seed) % 9;
        let side = 1u32 << bits;
        let count = 1 + next(&mut seed) % 3;
        let mut bounds = Vec::new();
        for _ in 0..count {
            let (x1, x2) = (next(&mut seed) as u32 % side, next(&mut seed) as u32 % side);
            let (y1, y2) = (next(&mut seed) as u32 % side, next(&mut seed) as u32 % side);
            bounds.push(ZRange {
                min: Z2::new(x1.min(x2), y1.min(y2)).z(),
                max: Z2::new(x1.max(x2), y1.max(y2)).z(),
            });
        }
        let precision = [64, 64, 64, 62, 58, 50, 1][next(&mut seed) as usize % 7];
        let max_recurse = [0, 1, 2, 3, 7, 32, 100][next(&mut seed) as usize % 7];
        let max_ranges = [0, 1, 2, 5, 20, 1000, usize::MAX][next(&mut seed) as usize % 7];
        let found: Vec<(u64, u64, bool)> =
            zranges::<Z2>(&bounds, precision, Some(max_ranges), Some(max_recurse))
                .iter()
                .map(|r| r.tuple())
                .collect();
        assert_eq!(
            found,
            zranges_with_queue::<Z2>(&bounds, precision, max_ranges, max_recurse)
        );
    }
}

#[test]
fn z3_ranges_are_those_of_the_walk_with_a_queue() {
    let mut seed = 11;
    for _ in 0..200 {
        let bits = 1 + next(&mut seed) % 6;
        let side = 1u32 << bits;
        let mut corner = || {
            let (a, b) = (next(&mut seed) as u32 % side, next(&mut seed) as u32 % side);
            (a.min(b), a.max(b))
        };
        let (x, y, z) = (corner(), corner(), corner());
        let bounds = [ZRange {
            min: Z3::new(x.0, y.0, z.0).z(),
            max: Z3::new(x.1, y.1, z.1).z(),
        }];
        let max_recurse = [0, 1, 2, 3, 7, 32][next(&mut seed) as usize % 6];
        let max_ranges = [1, 9, 30, 1000, usize::MAX][next(&mut seed) as usize % 5];
        let found: Vec<(u64, u64, bool)> =
            zranges::<Z3>(&bounds, 64, Some(max_ranges), Some(max_recurse))
                .iter()
                .map(|r| r.tuple())
                .collect();
        assert_eq!(
            found,
            zranges_with_queue::<Z3>(&bounds, 64, max_ranges, max_recurse)
        );
    }
}

#[derive(Clone, Copy)]
struct Cell {
    xmin: f64,
    ymin: f64,
    xmax: f64,
    ymax: f64,
    length: f64,
}

impl Cell {
    fn children(&self) -> Vec<Cell> {
        let xc = (self.xmin + self.xmax) / 2.0;
        let yc = (self.ymin + self.ymax) / 2.0;
        let length = self.length / 2.0;
        vec![
            Cell { xmin: self.xmin, ymin: self.ymin, xmax: xc, ymax: yc, length },
            Cell { xmin: xc, ymin: self.ymin, xmax: self.xmax, ymax: yc, length },
            Cell { xmin: self.xmin, ymin: yc, xmax: xc, ymax: self.ymax, length },
            Cell { xmin: xc, ymin: yc, xmax: self.xmax, ymax: self.ymax, length },
        ]
    }

    fn is_contained(&self, w: &(f64, f64, f64, f64)) -> bool {
        w.0 <= self.xmin
            && w.1 <= self.ymin
            && w.2 >= self.xmax + self.length
            && w.3 >= self.ymax + self.length
    }

    fn overlaps(&self, w: &(f64, f64, f64, f64)) -> bool {
        w.2 >= self.xmin
            && w.3 >= self.ymin
            && w.0 <= self.xmax + self.length
            && w.1 <= self.ymax + self.length
    }
}

fn code_with_floats(g: u32, x: f64, y: f64, length: u32) -> u64 {
    let (mut xmin, mut ymin, mut xmax, mut ymax) = (0.0, 0.0, 1.0, 1.0);
    let mut cs = 0u64;
    for i in 0..length {
        let xc = (xmin + xmax) / 2.0;
        let yc = (ymin + ymax) / 2.0;
        let below = (4u64.pow(g - i) - 1) / 3;
        match (x < xc, y < yc) {
            (true, true) => {
                cs += 1;
                xmax = xc;
                ymax = yc;
            }
            (false, true) => {
                cs += 1 + below;
                xmin = xc;
                ymax = yc;
            }
            (true, false) => {
                cs += 1 + 2 * below;
                xmax = xc;
                ymin = yc;
            }
            (false, false) => {
                cs += 1 + 3 * below;
                xmin = xc;
                ymin = yc;
            }
        }
    }
    cs
}

fn interval_with_floats(g: u32, x: f64, y: f64, length: u32, partial: bool) -> (u64, u64) {
    let min = code_with_floats(g, x, y, length);
    if partial {
        (min, min)
    } else {
        (min, min + (4u64.pow(g - length + 1) - 1) / 3)
    }
}

fn index_with_floats(g: u32, b: (f64, f64, f64, f64)) -> u64 {
    let fits = |min: f64, max: f64, w: f64| max <= (min / w).floor() * w + 2.0 * w;
    let mut length = 0;
    for level in (1..=g).rev() {
        let w = 0.5f64.powi(level as i32);
        if fits(b.0, b.2, w) && fits(b.1, b.3, w) {
            length = level;
            break;
        }
    }
    code_with_floats(g, b.0, b.1, length)
}

fn ranges_with_floats(g: u32, w: (f64, f64, f64, f64), stop: u16) -> Vec<(u64, u64, bool)> {
    let mut ranges: Vec<(u64, u64, bool)> = Vec::new();
    let mut remaining: VecDeque<Option<Cell>> = VecDeque::new();
    let whole = Cell { xmin: 0.0, ymin: 0.0, xmax: 1.0, ymax: 1.0, length: 1.0 };
    for cell in whole.children() {
        remaining.push_back(Some(cell));
    }
    remaining.push_back(None);
    let mut level = 1;
    while level < g && !remaining.is_empty() && ranges.len() < usize::from(stop) {
        match remaining.pop_front() {
            Some(None) => {
                if !remaining.is_empty() {
                    level += 1;
                    remaining.push_back(None);
                }
            }
            Some(Some(cell)) => {
                if cell.is_contained(&w) {
                    let (min, max) = interval_with_floats(g, cell.xmin, cell.ymin, level, false);
                    ranges.push((min, max, true));
                } else if cell.overlaps(&w) {
                    let (min, max) = interval_with_floats(g, cell.xmin, cell.ymin, level, true);
                    ranges.push((min, max, false));
                    for child in cell.children() {
                        remaining.push_back(Some(child));
                    }
                }
            }
            None => (),
        }
    }
    while let Some(entry) = remaining.pop_front() {
        if let Some(cell) = entry {
            let (min, max) = interval_with_floats(g, cell.xmin, cell.ymin, level, false);
            ranges.push((min, max, false));
        } else {
            level += 1;
        }
    }
    merge(ranges)
}

fn unit(seed: &mut u64) -> f64 {
    match next(seed) % 8 {
        0 => 0.0,
        1 => 1.0,
        2 => (next(seed) % 17) as f64 / 16.0,
        _ => (next(seed) % 1_000_001) as f64 / 1_000_000.0,
    }
}

#[test]
fn xz2_ranges_are_those_of_the_walk_with_floating_point_cells() {
    let mut seed = 3;
    for _ in 0..300 {
        let g = 1 + (next(&mut seed) % 9) as u32;
        let scale = (1u64 << g) as f64;
        let (x1, x2, y1, y2) = (
            unit(&mut seed),
            unit(&mut seed),
            unit(&mut seed),
            unit(&mut seed),
        );
        let w = (x1.min(x2), y1.min(y2), x1.max(x2), y1.max(y2));
        let stop = [0, 1, 4, 5, 17, 100, u16::MAX][next(&mut seed) as usize % 7];
        let sfc = XZ2SFC::new(g);
        let found: Vec<(u64, u64, bool)> = sfc
            .ranges(
                (w.0 * scale).ceil() as u64,
                (w.1 * scale).ceil() as u64,
                (w.2 * scale).floor() as u64,
                (w.3 * scale).floor() as u64,
                Some(stop),
            )
            .iter()
            .map(|r| r.tuple())
            .collect();
        assert_eq!(found, ranges_with_floats(g, w, stop));
    }
}

#[test]
fn xz2_indices_are_those_of_floating_point_boxes() {
    let mut seed = 5;
    for _ in 0..2000 {
        let g = 1 + (next(&mut seed) % 12) as u32;
        let scale = (1u64 << g) as f64;
        let (x1, x2, y1, y2) = (
            unit(&mut seed),
            unit(&mut seed),
            unit(&mut seed),
            unit(&mut seed),
        );
        let b = (x1.min(x2), y1.min(y2), x1.max(x2), y1.max(y2));
        let sfc = XZ2SFC::new(g);
        let found = sfc.index(
            (b.0 * scale).floor() as u64,
            (b.1 * scale).floor() as u64,
            (b.2 * scale).ceil() as u64,
            (b.3 * scale).ceil() as u64,
        );
        assert_eq!(found, index_with_floats(g, b));
    }
}

#[derive(Clone, Copy)]
struct Cell3 {
    min: [f64; 3],
    max: [f64; 3],
    length: f64,
}

impl Cell3 {
    fn children(&self) -> Vec<Cell3> {
        let c = [
            (self.min[0] + self.max[0]) / 2.0,
            (self.min[1] + self.max[1]) / 2.0,
            (self.min[2] + self.max[2]) / 2.0,
        ];
        let mut children = Vec::new();
        for rank in 0..8usize {
            let mut child = Cell3 {
                min: self.min,
                max: c,
                length: self.length / 2.0,
            };
            for axis in 0..3 {
                if rank >> axis & 1 == 1 {
                    child.min[axis] = c[axis];
                    child.max[axis] = self.max[axis];
                }
            }
            children.push(child);
        }
        children
    }

    fn is_contained(&self, lo: &[f64; 3], hi: &[f64; 3]) -> bool {
        (0..3).all(|a| lo[a] <= self.min[a] && hi[a] >= self.max[a] + self.length)
    }

    fn is_overlapped(&self, lo: &[f64; 3], hi: &[f64; 3]) -> bool {
        (0..3).all(|a| hi[a] >= self.min[a] && lo[a] <= self.max[a] + self.length)
    }
}

fn code3_with_floats(g: u32, p: [f64; 3], length: u32) -> u64 {
    let (mut min, mut max) = ([0.0; 3], [1.0; 3]);
    let mut cs = 0u64;
    for i in 0..length {
        let below = (8u64.pow(g - i) - 1) / 7;
        let mut rank = 0;
        for axis in 0..3 {
            let c = (min[axis] + max[axis]) / 2.0;
            if p[axis] < c {
                max[axis] = c;
            } else {
                rank += 1 << axis;
                min[axis] = c;
            }
        }
        cs += 1 + rank * below;
    }
    cs
}

fn ranges3_with_floats(g: u32, lo: [f64; 3], hi: [f64; 3], stop: u16) -> Vec<(u64, u64, bool)> {
    let whole_subtree = |level: u32| (8u64.pow(g - level + 1) - 1) / 7;
    let mut ranges: Vec<(u64, u64, bool)> = Vec::new();
    let mut remaining: VecDeque<Option<Cell3>> = VecDeque::new();
    let whole = Cell3 { min: [0.0; 3], max: [1.0; 3], length: 1.0 };
    for cell in whole.children() {
        remaining.push_back(Some(cell));
    }
    remaining.push_back(None);
    let mut level = 1;
    while level < g && !remaining.is_empty() && ranges.len() < usize::from(stop) {
        match remaining.pop_front() {
            Some(None) => {
                if !remaining.is_empty() {
                    level += 1;
                    remaining.push_back(None);
                }
            }
            Some(Some(cell)) => {
                let code = code3_with_floats(g, cell.min, level);
                if cell.is_contained(&lo, &hi) {
                    ranges.push((code, code + whole_subtree(level), true));
                } else if cell.is_overlapped(&lo, &hi) {
                    ranges.push((code, code, false));
                    for child in cell.children() {
                        remaining.push_back(Some(child));
                    }
                }
            }
            None => (),
        }
    }
    while let Some(entry) = remaining.pop_front() {
        if let Some(cell) = entry {
            let code = code3_with_floats(g, cell.min, level);
            ranges.push((code, code + whole_subtree(level), false));
        } else {
            level += 1;
        }
    }
    merge(ranges)
}

#[test]
fn xz3_ranges_are_those_of_the_walk_with_floating_point_cells() {
    let mut seed = 13;
    for _ in 0..150 {
        let g = 1 + (next(&mut seed) % 5) as u32;
        let scale = (1u64 << g) as f64;
        let (mut lo, mut hi) = ([0.0; 3], [0.0; 3]);
        for axis in 0..3 {
            let (a, b) = (unit(&mut seed), unit(&mut seed));
            lo[axis] = a.min(b);
            hi[axis] = a.max(b);
        }
        let stop = [0, 1, 8, 9, 100, u16::MAX][next(&mut seed) as usize % 6];
        let sfc = XZ3SFC::new(g);
        let found: Vec<(u64, u64, bool)> = sfc
            .ranges(
                (lo[0] * scale).ceil() as u64,
                (lo[1] * scale).ceil() as u64,
                (lo[2] * scale).ceil() as u64,
                (hi[0] * scale).floor() as u64,
                (hi[1] * scale).floor() as u64,
                (hi[2] * scale).floor() as u64,
                Some(stop),
            )
            .iter()
            .map(|r| r.tuple())
            .collect();
        assert_eq!(found, ranges3_with_floats(g, lo, hi, stop));
    }
}
