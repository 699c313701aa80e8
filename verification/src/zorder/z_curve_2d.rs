//! The Z-order curve over a grid of cells of the plane.

use crate::index_range::IndexRange;
use crate::merge::{covers, merges};
use crate::zorder::covering::{bounds_in_domain, in_query, lemma_zranges_cover};
use crate::zorder::z_2::{interleave2, Z2};
use crate::zorder::z_n::{spec_raw_ranges, zranges, ZN, DEFAULT_RECURSE};
use crate::zorder::z_range::ZRange;
use crate::{max_recurse, spec_max_recurse, RangeComputeHints};
use vstd::prelude::*;

verus! {

/// The two-dimensional Z-order curve over a grid of `resolution` columns and
/// rows. Columns count from the left, rows from the top; the cell beyond the
/// last column or row is the edge of the grid, and a cell further out is
/// taken for it.
#[derive(Debug, Clone, Copy)]
pub struct ZCurve2D {
    resolution: u32,
}

impl Default for ZCurve2D {
    fn default() -> (r: Self)
        ensures
            r.resolution() == 1024,
    {
        ZCurve2D { resolution: 1024 }
    }
}

impl ZCurve2D {
    /// The number of columns and of rows, as a specification.
    pub closed spec fn spec_resolution(&self) -> u32 {
        self.resolution
    }

    /// The last cell along an axis: the edge of the grid, or the largest
    /// coordinate of the curve where the grid is larger.
    pub open spec fn last_cell(&self) -> u32 {
        if self.resolution() <= Z2::MAX_MASK {
            self.resolution()
        } else {
            Z2::MAX_MASK as u32
        }
    }

    /// The cell `cell`, or the last cell if `cell` lies beyond it.
    pub open spec fn spec_saturate(&self, cell: u32) -> u32 {
        if cell <= self.last_cell() {
            cell
        } else {
            self.last_cell()
        }
    }

    /// The box between two cells, as the bound that the refinement takes.
    pub open spec fn spec_bound(
        &self,
        col_min: u32,
        row_min: u32,
        col_max: u32,
        row_max: u32,
    ) -> ZRange {
        ZRange {
            min: interleave2(self.spec_saturate(col_min), self.spec_saturate(row_min)),
            max: interleave2(self.spec_saturate(col_max), self.spec_saturate(row_max)),
        }
    }

    /// The curve over a grid of `resolution` columns and rows.
    #[must_use]
    pub fn new(resolution: u32) -> (r: Self)
        ensures
            r.resolution() == resolution,
    {
        ZCurve2D { resolution }
    }

    /// The number of columns and of rows.
    #[verifier::when_used_as_spec(spec_resolution)]
    pub fn resolution(&self) -> (r: u32)
        ensures
            r == self.resolution(),
    {
        self.resolution
    }

    /// The cell `cell`, or the last cell if `cell` lies beyond it.
    pub fn saturate(&self, cell: u32) -> (r: u32)
        ensures
            r == self.spec_saturate(cell),
            r <= Z2::MAX_MASK,
    {
        proof {
            Z2::lemma_constants();
        }
        let last: u32 = if self.resolution <= 0x7fff_ffff {
            self.resolution
        } else {
            0x7fff_ffff
        };
        if cell <= last {
            cell
        } else {
            last
        }
    }

    /// The index of the cell in column `col` and row `row`.
    #[must_use]
    pub fn index(&self, col: u32, row: u32) -> (r: u64)
        ensures
            r == interleave2(self.spec_saturate(col), self.spec_saturate(row)),
    {
        Z2::new(self.saturate(col), self.saturate(row)).z()
    }

    /// The column and the row of the cell with index `index`.
    #[must_use]
    pub fn point(&self, index: u64) -> (r: (u32, u32))
        ensures
            r == (Z2::spec_dim(index, 0), Z2::spec_dim(index, 1)),
    {
        Z2::new_from_zorder(index).decode()
    }

    /// The index ranges that cover the box of cells from `(col_min, row_min)`
    /// to `(col_max, row_max)`: those of the refinement at full precision,
    /// with no limit on their number and to the depth that the hints ask
    /// for. Every cell of the box has its index in one of them.
    #[must_use]
    pub fn ranges(
        &self,
        col_min: u32,
        row_min: u32,
        col_max: u32,
        row_max: u32,
        hints: &[RangeComputeHints],
    ) -> (results: Vec<IndexRange>)
        ensures
            merges(
                spec_raw_ranges::<Z2>(
                    seq![self.spec_bound(col_min, row_min, col_max, row_max)],
                    64,
                    usize::MAX,
                    spec_max_recurse(hints@).unwrap_or(DEFAULT_RECURSE),
                ),
                results@,
            ),
            forall|col: u32, row: u32|
                self.spec_saturate(col_min) <= col <= self.spec_saturate(col_max)
                    && self.spec_saturate(row_min) <= row <= self.spec_saturate(row_max)
                    ==> covers(results@, #[trigger] interleave2(col, row)),
            forall|k: int, z: u64|
                0 <= k < results.len() && results@[k].contained() && #[trigger] results@[k].holds(z)
                    ==> Z2::spec_contains(
                    self.spec_bound(col_min, row_min, col_max, row_max),
                    z,
                ),
    {
        let min = Z2::new(self.saturate(col_min), self.saturate(row_min));
        let max = Z2::new(self.saturate(col_max), self.saturate(row_max));
        let max_recurse = max_recurse(hints);
        let bounds: [ZRange; 1] = [ZRange { min: min.z(), max: max.z() }];
        let ghost bound = self.spec_bound(col_min, row_min, col_max, row_max);
        assert(bounds@ =~= seq![bound]);
        let results = zranges::<Z2>(bounds.as_slice(), 64, None, max_recurse);
        proof {
            let depth = spec_max_recurse(hints@).unwrap_or(DEFAULT_RECURSE);
            assert forall|col: u32, row: u32|
                self.spec_saturate(col_min) <= col <= self.spec_saturate(col_max)
                    && self.spec_saturate(row_min) <= row <= self.spec_saturate(
                    row_max,
                ) implies covers(results@, #[trigger] interleave2(col, row)) by {
                let z = interleave2(col, row);
                Z2::lemma_decode_new(col, row);
                Z2::lemma_decode_new(self.spec_saturate(col_min), self.spec_saturate(row_min));
                Z2::lemma_decode_new(self.spec_saturate(col_max), self.spec_saturate(row_max));
                assert(Z2::spec_contains(bounds@[0], z));
                assert(in_query::<Z2>(bounds@, z));
                assert(bounds_in_domain::<Z2>(bounds@));
                lemma_zranges_cover::<Z2>(bounds@, 64, usize::MAX, depth, results@, z);
            }
            assert forall|k: int, z: u64|
                0 <= k < results.len() && results@[k].contained()
                    && #[trigger] results@[k].holds(z) implies Z2::spec_contains(bound, z) by {
                assert(in_query::<Z2>(bounds@, z));
            }
        }
        results
    }

    /// The cell of the index of a cell of the grid is that cell.
    pub proof fn lemma_point_of_index(&self, col: u32, row: u32)
        ensures
            Z2::spec_dim(interleave2(self.spec_saturate(col), self.spec_saturate(row)), 0)
                == self.spec_saturate(col),
            Z2::spec_dim(interleave2(self.spec_saturate(col), self.spec_saturate(row)), 1)
                == self.spec_saturate(row),
    {
        Z2::lemma_constants();
        Z2::lemma_decode_new(self.spec_saturate(col), self.spec_saturate(row));
    }
}

} // verus!
