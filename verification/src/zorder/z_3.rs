//! The three-dimensional Z-order curve.

use crate::index_range::IndexRange;
use crate::merge::{covers, merges};
use crate::zorder::covering::{bounds_in_domain, in_query, lemma_zranges_cover};
use crate::zorder::z_n::{aligned, bit, low_mask, spec_raw_ranges, zranges, ZN, DEFAULT_RECURSE};
use crate::zorder::z_range::ZRange;
use crate::{max_recurse, spec_max_recurse, RangeComputeHints};
use vstd::prelude::*;

verus! {

/// A point of the three-dimensional Z-order curve, held as its index: the
/// bits of `x`, `y` and `z` in turn, those of `x` lowest.
#[derive(Debug, PartialEq, Eq, Structural, Clone, Copy)]
pub struct Z3 {
    z: u64,
}

/// Spreads the 21 lowest bits of `value` over every third place.
pub open spec fn spread3(value: u32) -> u64 {
    let x: u64 = (value as u64) & 0x1f_ffffu64;
    let x: u64 = (x | (x << 32)) & 0x1f_0000_0000_ffffu64;
    let x: u64 = (x | (x << 16)) & 0x1f_0000_ff00_00ffu64;
    let x: u64 = (x | (x << 8)) & 0x100f_00f0_0f00_f00fu64;
    let x: u64 = (x | (x << 4)) & 0x10c3_0c30_c30c_30c3u64;
    let x: u64 = (x | (x << 2)) & 0x1249_2492_4924_9249u64;
    x
}

/// Gathers the bits at every third place of `z`.
pub open spec fn gather3(z: u64) -> u64 {
    let x: u64 = z & 0x1249_2492_4924_9249u64;
    let x: u64 = (x ^ (x >> 2)) & 0x10c3_0c30_c30c_30c3u64;
    let x: u64 = (x ^ (x >> 4)) & 0x100f_00f0_0f00_f00fu64;
    let x: u64 = (x ^ (x >> 8)) & 0x1f_0000_ff00_00ffu64;
    let x: u64 = (x ^ (x >> 16)) & 0x1f_0000_0000_ffffu64;
    let x: u64 = (x ^ (x >> 32)) & 0x1f_ffffu64;
    x
}

/// The index of the point `(x, y, z)`.
pub open spec fn interleave3(x: u32, y: u32, z: u32) -> u64 {
    spread3(x) | (spread3(y) << 1) | (spread3(z) << 2)
}

impl Z3 {
    /// The index, as a specification.
    pub closed spec fn spec_z(&self) -> u64 {
        self.z
    }

    /// Coordinate `i` of the point with index `z`.
    pub open spec fn spec_dim(z: u64, i: u64) -> u32 {
        gather3(z >> i) as u32
    }

    /// The coordinates, as a specification.
    pub open spec fn spec_decode(&self) -> (u32, u32, u32) {
        (Self::spec_dim(self.z(), 0), Self::spec_dim(self.z(), 1), Self::spec_dim(self.z(), 2))
    }

    /// The point with index `z`.
    #[must_use]
    pub fn new_from_raw(z: u64) -> (r: Self)
        ensures
            r.z() == z,
    {
        Z3 { z }
    }

    /// The index of the point.
    #[verifier::when_used_as_spec(spec_z)]
    #[must_use]
    pub fn z(&self) -> (r: u64)
        ensures
            r == self.z(),
    {
        self.z
    }

    /// The coordinate `x`.
    pub fn d0(&self) -> (r: u32)
        ensures
            r == Self::spec_dim(self.z(), 0),
    {
        Self::combine(self.z >> 0)
    }

    /// The coordinate `y`.
    pub fn d1(&self) -> (r: u32)
        ensures
            r == Self::spec_dim(self.z(), 1),
    {
        Self::combine(self.z >> 1)
    }

    /// The coordinate `z`.
    pub fn d2(&self) -> (r: u32)
        ensures
            r == Self::spec_dim(self.z(), 2),
    {
        Self::combine(self.z >> 2)
    }

    /// The coordinates `(x, y, z)` of the point.
    #[must_use]
    pub fn decode(&self) -> (r: (u32, u32, u32))
        ensures
            r == self.spec_decode(),
    {
        (self.d0(), self.d1(), self.d2())
    }

    /// The point with coordinates `x`, `y` and `z`, each at most `MAX_MASK`.
    #[must_use]
    pub fn new(x: u32, y: u32, z: u32) -> (r: Self)
        requires
            x <= Self::MAX_MASK,
            y <= Self::MAX_MASK,
            z <= Self::MAX_MASK,
        ensures
            r.z() == interleave3(x, y, z),
            r.spec_decode() == (x, y, z),
            r.z() >> Self::TOTAL_BITS == 0,
    {
        proof {
            Self::lemma_decode_new(x, y, z);
        }
        Z3 { z: Self::split(x) | Self::split(y) << 1 | Self::split(z) << 2 }
    }

    /// Whether the intervals `[a1, a2]` and `[b1, b2]` meet.
    pub fn partial_overlaps(a1: u32, a2: u32, b1: u32, b2: u32) -> (r: bool)
        ensures
            r == (a1 <= a2 && a1 <= b2 && b1 <= a2 && b1 <= b2),
    {
        let low: u32 = if a1 >= b1 { a1 } else { b1 };
        let high: u32 = if a2 <= b2 { a2 } else { b2 };
        low <= high
    }

    /// The values of the constants of the curve.
    pub proof fn lemma_constants()
        ensures
            Self::DIMENSIONS == 3,
            Self::BITS_PER_DIMENSION == 21,
            Self::TOTAL_BITS == 63,
            Self::MAX_MASK == 0x1f_ffff,
            Self::QUADRANTS == 8,
    {
    }

    /// A coordinate is what `combine` finds after a shift.
    pub proof fn lemma_dim_is_combine(z: u64)
        ensures
            Self::spec_combine(z >> 0u64) == Self::spec_dim(z, 0),
            Self::spec_combine(z >> 1u64) == Self::spec_dim(z, 1),
            Self::spec_combine(z >> 2u64) == Self::spec_dim(z, 2),
    {
    }

    /// A coordinate is what `gather3` finds after a shift.
    pub proof fn lemma_dims(z: u64)
        ensures
            Self::spec_dim(z, 0) == gather3(z >> 0u64),
            Self::spec_dim(z, 1) == gather3(z >> 1u64),
            Self::spec_dim(z, 2) == gather3(z >> 2u64),
    {
        assert(gather3(z >> 0u64) <= 0xffff_ffffu64 && gather3(z >> 1u64) <= 0xffff_ffffu64
            && gather3(z >> 2u64) <= 0xffff_ffffu64) by (bit_vector);
    }

    /// Decoding the index made from `(x, y, z)` gives `(x, y, z)` back, and
    /// the index uses no bit above the 63 lowest.
    pub proof fn lemma_decode_new(x: u32, y: u32, z: u32)
        requires
            x <= Self::MAX_MASK,
            y <= Self::MAX_MASK,
            z <= Self::MAX_MASK,
        ensures
            Self::spec_dim(interleave3(x, y, z), 0) == x,
            Self::spec_dim(interleave3(x, y, z), 1) == y,
            Self::spec_dim(interleave3(x, y, z), 2) == z,
            interleave3(x, y, z) >> Self::TOTAL_BITS == 0,
    {
        Self::lemma_dims(interleave3(x, y, z));
        assert(x <= 0x1f_ffffu32 && y <= 0x1f_ffffu32 && z <= 0x1f_ffffu32 ==> gather3(
            interleave3(x, y, z) >> 0u64,
        ) == x && gather3(interleave3(x, y, z) >> 1u64) == y && gather3(
            interleave3(x, y, z) >> 2u64,
        ) == z && interleave3(x, y, z) >> 63u64 == 0) by (bit_vector);
    }
}

impl ZN for Z3 {
    const DIMENSIONS: u64 = 3;

    const BITS_PER_DIMENSION: u32 = 21;

    const TOTAL_BITS: u64 = 63;

    const MAX_MASK: u64 = 0x1f_ffff;

    const QUADRANTS: u32 = 8;

    open spec fn spec_split(value: u32) -> u64 {
        spread3(value)
    }

    open spec fn spec_combine(z: u64) -> u32 {
        gather3(z) as u32
    }

    open spec fn spec_contains(range: ZRange, value: u64) -> bool {
        &&& Self::spec_dim(range.min, 0) <= Self::spec_dim(value, 0) <= Self::spec_dim(range.max, 0)
        &&& Self::spec_dim(range.min, 1) <= Self::spec_dim(value, 1) <= Self::spec_dim(range.max, 1)
        &&& Self::spec_dim(range.min, 2) <= Self::spec_dim(value, 2) <= Self::spec_dim(range.max, 2)
    }

    open spec fn spec_overlaps(range: ZRange, value: ZRange) -> bool {
        &&& Self::spec_dim(range.min, 0) <= Self::spec_dim(range.max, 0)
        &&& Self::spec_dim(range.min, 0) <= Self::spec_dim(value.max, 0)
        &&& Self::spec_dim(value.min, 0) <= Self::spec_dim(range.max, 0)
        &&& Self::spec_dim(value.min, 0) <= Self::spec_dim(value.max, 0)
        &&& Self::spec_dim(range.min, 1) <= Self::spec_dim(range.max, 1)
        &&& Self::spec_dim(range.min, 1) <= Self::spec_dim(value.max, 1)
        &&& Self::spec_dim(value.min, 1) <= Self::spec_dim(range.max, 1)
        &&& Self::spec_dim(value.min, 1) <= Self::spec_dim(value.max, 1)
        &&& Self::spec_dim(range.min, 2) <= Self::spec_dim(range.max, 2)
        &&& Self::spec_dim(range.min, 2) <= Self::spec_dim(value.max, 2)
        &&& Self::spec_dim(value.min, 2) <= Self::spec_dim(range.max, 2)
        &&& Self::spec_dim(value.min, 2) <= Self::spec_dim(value.max, 2)
    }

    fn split(value: u32) -> (r: u64) {
        let mut x: u64 = value as u64;
        x = x & 0x1f_ffff;
        x = (x | x << 32) & 0x1f_0000_0000_ffff_u64;
        x = (x | x << 16) & 0x1f_0000_ff00_00ff_u64;
        x = (x | x << 8) & 0x100f_00f0_0f00_f00f_u64;
        x = (x | x << 4) & 0x10c3_0c30_c30c_30c3_u64;
        x = (x | x << 2) & 0x1249_2492_4924_9249_u64;
        x
    }

    fn combine(z: u64) -> (r: u32) {
        let mut x: u64 = z & 0x1249_2492_4924_9249;
        x = (x ^ (x >> 2)) & 0x10c3_0c30_c30c_30c3;
        x = (x ^ (x >> 4)) & 0x100f_00f0_0f00_f00f;
        x = (x ^ (x >> 8)) & 0x1f_0000_ff00_00ff;
        x = (x ^ (x >> 16)) & 0x1f_0000_0000_ffff;
        let y: u64 = x ^ (x >> 32);
        x = y & 0x1f_ffff;
        assert(x <= 0xffff_ffffu64) by (bit_vector)
            requires
                x == y & 0x1f_ffffu64,
        ;
        assert(Self::spec_combine(z) == gather3(z) as u32);
        x as u32
    }

    fn contains(range: ZRange, value: u64) -> (r: bool) {
        let (x, y, z) = Z3::new_from_raw(value).decode();
        x >= Z3 { z: range.min }.d0() && x <= Z3 { z: range.max }.d0() && y >= Z3 {
            z: range.min,
        }.d1() && y <= Z3 { z: range.max }.d1() && z >= Z3 { z: range.min }.d2() && z <= Z3 {
            z: range.max,
        }.d2()
    }

    fn overlaps(range: ZRange, value: ZRange) -> (r: bool) {
        let range_min = Z3 { z: range.min };
        let range_max = Z3 { z: range.max };
        let value_min = Z3 { z: value.min };
        let value_max = Z3 { z: value.max };

        Self::partial_overlaps(range_min.d0(), range_max.d0(), value_min.d0(), value_max.d0())
            && Self::partial_overlaps(
            range_min.d1(),
            range_max.d1(),
            value_min.d1(),
            value_max.d1(),
        ) && Self::partial_overlaps(
            range_min.d2(),
            range_max.d2(),
            value_min.d2(),
            value_max.d2(),
        )
    }

    proof fn lemma_shape() {
        assert(8u64 == 1u64 << 3u64 && 0x1f_ffffu64 == ((1u64 << 21u64) - 1) as u64)
            by (bit_vector);
    }

    proof fn lemma_split_spreads(value: u32) {
        assert(forall|j: u64|
            j < 64 ==> (#[trigger] bit(spread3(value), j) <==> j % 3 == 0 && j / 3 < 21 && bit(
                value as u64,
                j / 3,
            ))) by (bit_vector);
    }

    proof fn lemma_combine_gathers(z: u64) {
        assert(forall|i: u64|
            i < 21 ==> (#[trigger] bit(gather3(z), i) <==> bit(z, (3 * i) as u64)))
            by (bit_vector);
        assert(gather3(z) <= 0xffff_ffffu64) by (bit_vector);
    }

    proof fn lemma_combine_split(value: u32) {
        assert(value <= 0x1f_ffffu32 ==> gather3(spread3(value)) == value) by (bit_vector);
    }

    proof fn lemma_contains_axiswise(range: ZRange, value: u64) {
        Self::lemma_dim_is_combine(range.min);
        Self::lemma_dim_is_combine(range.max);
        Self::lemma_dim_is_combine(value);
        if Self::spec_contains(range, value) {
            assert forall|i: u64| i < Self::DIMENSIONS implies Self::spec_combine(range.min >> i)
                <= #[trigger] Self::spec_combine(value >> i) <= Self::spec_combine(
                range.max >> i,
            ) by {
                assert(i == 0 || i == 1 || i == 2);
            }
        }
        if (forall|i: u64|
            i < Self::DIMENSIONS ==> Self::spec_combine(range.min >> i)
                <= #[trigger] Self::spec_combine(value >> i) <= Self::spec_combine(
                range.max >> i,
            )) {
            assert(Self::spec_combine(range.min >> 0u64) <= Self::spec_combine(value >> 0u64));
            assert(Self::spec_combine(range.min >> 1u64) <= Self::spec_combine(value >> 1u64));
            assert(Self::spec_combine(range.min >> 2u64) <= Self::spec_combine(value >> 2u64));
        }
    }

    proof fn lemma_overlaps_axiswise(range: ZRange, value: ZRange) {
        Self::lemma_dim_is_combine(range.min);
        Self::lemma_dim_is_combine(range.max);
        Self::lemma_dim_is_combine(value.min);
        Self::lemma_dim_is_combine(value.max);
        if Self::spec_overlaps(range, value) {
            assert forall|i: u64| i < Self::DIMENSIONS implies {
                &&& #[trigger] Self::spec_combine(range.min >> i) <= Self::spec_combine(
                    value.max >> i,
                )
                &&& Self::spec_combine(value.min >> i) <= Self::spec_combine(value.max >> i)
                &&& Self::spec_combine(range.min >> i) <= Self::spec_combine(range.max >> i)
                &&& Self::spec_combine(value.min >> i) <= Self::spec_combine(range.max >> i)
            } by {
                assert(i == 0 || i == 1 || i == 2);
            }
        }
        if (forall|i: u64|
            i < Self::DIMENSIONS ==> {
                &&& #[trigger] Self::spec_combine(range.min >> i) <= Self::spec_combine(
                    value.max >> i,
                )
                &&& Self::spec_combine(value.min >> i) <= Self::spec_combine(value.max >> i)
                &&& Self::spec_combine(range.min >> i) <= Self::spec_combine(range.max >> i)
                &&& Self::spec_combine(value.min >> i) <= Self::spec_combine(range.max >> i)
            }) {
            assert(Self::spec_combine(range.min >> 0u64) <= Self::spec_combine(value.max >> 0u64));
            assert(Self::spec_combine(range.min >> 1u64) <= Self::spec_combine(value.max >> 1u64));
            assert(Self::spec_combine(range.min >> 2u64) <= Self::spec_combine(value.max >> 2u64));
        }
    }

    proof fn lemma_cell_inside(range: ZRange, prefix: u64, offset: u64, z: u64) {
        Self::lemma_dims(z);
        Self::lemma_dims(prefix);
        Self::lemma_dims(prefix | low_mask(offset));
        Self::lemma_cell_monotone(prefix, offset, z);
    }

    proof fn lemma_cell_overlaps(range: ZRange, prefix: u64, offset: u64, z: u64) {
        Self::lemma_dims(z);
        Self::lemma_dims(prefix);
        Self::lemma_dims(prefix | low_mask(offset));
        Self::lemma_cell_monotone(prefix, offset, z);
    }

    proof fn lemma_box_shares_prefix(range: ZRange, shift: u64, z: u64) {
        let (lo, hi) = (range.min, range.max);
        Self::lemma_dims(lo);
        Self::lemma_dims(hi);
        Self::lemma_dims(z);
        assert(shift < 64 && z >> 63u64 == 0 && lo >> 63u64 == 0 && lo >> shift == hi >> shift
            && gather3(lo >> 0u64) <= gather3(z >> 0u64) <= gather3(hi >> 0u64) && gather3(
            lo >> 1u64,
        ) <= gather3(z >> 1u64) <= gather3(hi >> 1u64) && gather3(lo >> 2u64) <= gather3(
            z >> 2u64,
        ) <= gather3(hi >> 2u64) ==> z >> shift == lo >> shift) by (bit_vector);
    }
}

impl Z3 {
    /// Within a block, every coordinate lies between those of the block's
    /// two ends.
    pub proof fn lemma_cell_monotone(prefix: u64, offset: u64, z: u64)
        requires
            offset < 64,
            aligned(prefix, offset),
            z >> offset == prefix >> offset,
        ensures
            gather3(prefix >> 0u64) <= gather3(z >> 0u64) <= gather3(
                (prefix | low_mask(offset)) >> 0u64,
            ),
            gather3(prefix >> 1u64) <= gather3(z >> 1u64) <= gather3(
                (prefix | low_mask(offset)) >> 1u64,
            ),
            gather3(prefix >> 2u64) <= gather3(z >> 2u64) <= gather3(
                (prefix | low_mask(offset)) >> 2u64,
            ),
    {
        assert(offset < 64 && prefix & low_mask(offset) == 0 && z >> offset == prefix >> offset
            ==> gather3(prefix >> 0u64) <= gather3(z >> 0u64) <= gather3(
            (prefix | low_mask(offset)) >> 0u64,
        ) && gather3(prefix >> 1u64) <= gather3(z >> 1u64) <= gather3(
            (prefix | low_mask(offset)) >> 1u64,
        ) && gather3(prefix >> 2u64) <= gather3(z >> 2u64) <= gather3(
            (prefix | low_mask(offset)) >> 2u64,
        )) by (bit_vector);
    }
}

/// The three-dimensional Z-order curve over a grid of `resolution` columns,
/// rows and steps of time. Columns count from the left, rows from the top,
/// steps from the start; the cell beyond the last along an axis is the edge
/// of the grid, and a cell further out is taken for it.
#[derive(Debug, Clone, Copy)]
pub struct ZCurve3D {
    g: u32,
}

impl Default for ZCurve3D {
    fn default() -> (r: Self)
        ensures
            r.resolution() == 10_000,
    {
        ZCurve3D::new(10_000)
    }
}

impl ZCurve3D {
    /// The number of cells along an axis, as a specification.
    pub closed spec fn spec_resolution(&self) -> u32 {
        self.g
    }

    /// The last cell along an axis: the edge of the grid, or the largest
    /// coordinate of the curve where the grid is larger.
    pub open spec fn last_cell(&self) -> u32 {
        if self.resolution() <= Z3::MAX_MASK {
            self.resolution()
        } else {
            Z3::MAX_MASK as u32
        }
    }

    /// The cell `cell`, or the last cell if `cell` lies beyond it.
    pub open spec fn spec_saturate(&self, cell: u32) -> u32 {
        if cell <= self.last_cell() {
            cell
        } else {
            self.last_cell()
        }
    }

    /// The box between two cells, as the bound that the refinement takes.
    pub open spec fn spec_bound(
        &self,
        col_min: u32,
        row_min: u32,
        depth_min: u32,
        col_max: u32,
        row_max: u32,
        depth_max: u32,
    ) -> ZRange {
        ZRange {
            min: interleave3(
                self.spec_saturate(col_min),
                self.spec_saturate(row_min),
                self.spec_saturate(depth_min),
            ),
            max: interleave3(
                self.spec_saturate(col_max),
                self.spec_saturate(row_max),
                self.spec_saturate(depth_max),
            ),
        }
    }

    /// The curve over a grid of `g` cells along each axis.
    #[must_use]
    pub fn new(g: u32) -> (r: Self)
        ensures
            r.resolution() == g,
    {
        ZCurve3D { g }
    }

    /// The number of cells along an axis.
    #[verifier::when_used_as_spec(spec_resolution)]
    pub fn resolution(&self) -> (r: u32)
        ensures
            r == self.resolution(),
    {
        self.g
    }

    /// The cell `cell`, or the last cell if `cell` lies beyond it.
    pub fn saturate(&self, cell: u32) -> (r: u32)
        ensures
            r == self.spec_saturate(cell),
            r <= Z3::MAX_MASK,
    {
        proof {
            Z3::lemma_constants();
        }
        let last: u32 = if self.g <= 0x1f_ffff {
            self.g
        } else {
            0x1f_ffff
        };
        if cell <= last {
            cell
        } else {
            last
        }
    }

    /// The index of the cell in column `col`, row `row` and step `depth`.
    #[must_use]
    pub fn index(&self, col: u32, row: u32, depth: u32) -> (r: u64)
        ensures
            r == interleave3(
                self.spec_saturate(col),
                self.spec_saturate(row),
                self.spec_saturate(depth),
            ),
    {
        Z3::new(self.saturate(col), self.saturate(row), self.saturate(depth)).z()
    }

    /// The column, the row and the step of the cell with index `i`.
    #[must_use]
    pub fn invert(&self, i: u64) -> (r: (u32, u32, u32))
        ensures
            r == (Z3::spec_dim(i, 0), Z3::spec_dim(i, 1), Z3::spec_dim(i, 2)),
    {
        Z3::new_from_raw(i).decode()
    }

    /// The index ranges that cover the box of cells from
    /// `(col_min, row_min, depth_min)` to `(col_max, row_max, depth_max)`:
    /// those of the refinement at full precision, with no limit on their
    /// number and to the depth that the hints ask for. Every cell of the box
    /// has its index in one of them.
    #[must_use]
    pub fn ranges(
        &self,
        col_min: u32,
        row_min: u32,
        depth_min: u32,
        col_max: u32,
        row_max: u32,
        depth_max: u32,
        hints: &[RangeComputeHints],
    ) -> (results: Vec<IndexRange>)
        ensures
            merges(
                spec_raw_ranges::<Z3>(
                    seq![self.spec_bound(col_min, row_min, depth_min, col_max, row_max, depth_max)],
                    64,
                    usize::MAX,
                    spec_max_recurse(hints@).unwrap_or(DEFAULT_RECURSE),
                ),
                results@,
            ),
            forall|col: u32, row: u32, depth: u32|
                self.spec_saturate(col_min) <= col <= self.spec_saturate(col_max)
                    && self.spec_saturate(row_min) <= row <= self.spec_saturate(row_max)
                    && self.spec_saturate(depth_min) <= depth <= self.spec_saturate(depth_max)
                    ==> covers(results@, #[trigger] interleave3(col, row, depth)),
            forall|k: int, z: u64|
                0 <= k < results.len() && results@[k].contained() && #[trigger] results@[k].holds(z)
                    ==> Z3::spec_contains(
                    self.spec_bound(col_min, row_min, depth_min, col_max, row_max, depth_max),
                    z,
                ),
    {
        let min = Z3::new(
            self.saturate(col_min),
            self.saturate(row_min),
            self.saturate(depth_min),
        );
        let max = Z3::new(
            self.saturate(col_max),
            self.saturate(row_max),
            self.saturate(depth_max),
        );
        let max_recurse = max_recurse(hints);
        let bounds: [ZRange; 1] = [ZRange { min: min.z(), max: max.z() }];
        let ghost bound = self.spec_bound(col_min, row_min, depth_min, col_max, row_max, depth_max);
        assert(bounds@ =~= seq![bound]);
        let results = zranges::<Z3>(bounds.as_slice(), 64, None, max_recurse);
        proof {
            let limit = spec_max_recurse(hints@).unwrap_or(DEFAULT_RECURSE);
            assert forall|col: u32, row: u32, depth: u32|
                self.spec_saturate(col_min) <= col <= self.spec_saturate(col_max)
                    && self.spec_saturate(row_min) <= row <= self.spec_saturate(row_max)
                    && self.spec_saturate(depth_min) <= depth <= self.spec_saturate(
                    depth_max,
                ) implies covers(results@, #[trigger] interleave3(col, row, depth)) by {
                let z = interleave3(col, row, depth);
                Z3::lemma_decode_new(col, row, depth);
                Z3::lemma_decode_new(
                    self.spec_saturate(col_min),
                    self.spec_saturate(row_min),
                    self.spec_saturate(depth_min),
                );
                Z3::lemma_decode_new(
                    self.spec_saturate(col_max),
                    self.spec_saturate(row_max),
                    self.spec_saturate(depth_max),
                );
                assert(Z3::spec_contains(bounds@[0], z));
                assert(in_query::<Z3>(bounds@, z));
                assert(bounds_in_domain::<Z3>(bounds@));
                lemma_zranges_cover::<Z3>(bounds@, 64, usize::MAX, limit, results@, z);
            }
            assert forall|k: int, z: u64|
                0 <= k < results.len() && results@[k].contained()
                    && #[trigger] results@[k].holds(z) implies Z3::spec_contains(bound, z) by {
                assert(in_query::<Z3>(bounds@, z));
            }
        }
        results
    }

    /// The cell of the index of a cell of the grid is that cell.
    pub proof fn lemma_invert_of_index(&self, col: u32, row: u32, depth: u32)
        ensures
            ({
                let z = interleave3(
                    self.spec_saturate(col),
                    self.spec_saturate(row),
                    self.spec_saturate(depth),
                );
                &&& Z3::spec_dim(z, 0) == self.spec_saturate(col)
                &&& Z3::spec_dim(z, 1) == self.spec_saturate(row)
                &&& Z3::spec_dim(z, 2) == self.spec_saturate(depth)
            }),
    {
        Z3::lemma_constants();
        Z3::lemma_decode_new(
            self.spec_saturate(col),
            self.spec_saturate(row),
            self.spec_saturate(depth),
        );
    }
}

} // verus!
