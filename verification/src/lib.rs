//! Space-filling-curve indexing for spatial and spatio-temporal data.
//!
//! Points are indexed by a Z-order curve (`Z2`, `Z3`), regions by an extended
//! Z-order curve (`XZ2SFC`, `XZ3SFC`). A query window is answered by a list of
//! index intervals, each tagged as lying wholly inside the window or as merely
//! touching it.
//!
//! The curves work on integers: the cells of a grid for points, the lines of
//! a grid for regions. Mapping coordinates of the user's space to them is
//! left to the caller.

pub mod binned_time;
pub mod bits;
pub mod index_range;
pub mod merge;
pub mod normalized_dimension;
pub mod xzorder;
pub mod zorder;

use crate::xzorder::xz2_sfc::{XZ2SFC, MAX_DEPTH_2D};
use crate::xzorder::xz3_sfc::{XZ3SFC, MAX_DEPTH_3D};
use crate::zorder::z_3::ZCurve3D;
use crate::zorder::z_curve_2d::ZCurve2D;
use vstd::prelude::*;

verus! {

/// The greatest depth of refinement that a point curve takes from a hint.
pub const MAX_RECURSION: usize = 32;

/// The kinds of space-filling curves.
#[derive(Debug, Clone, Copy, PartialEq, Eq, Structural)]
pub enum Curve {
    /// Z-order curve.
    ZOrder,
    /// Hilbert curve; none is provided.
    Hilbert,
}

/// Hints to the computation of ranges.
#[derive(Debug, Clone, Copy, PartialEq, Eq, Structural)]
pub enum RangeComputeHints {
    /// Number of levels to descend.
    MaxRecurse(usize),
}

/// The depth of refinement that the hints ask of a point curve: that of the
/// first hint, at most `MAX_RECURSION`; none without a hint.
pub open spec fn spec_max_recurse(hints: Seq<RangeComputeHints>) -> Option<usize> {
    if hints.len() == 0 {
        None
    } else {
        match hints[0] {
            RangeComputeHints::MaxRecurse(max) => Some(
                if max > MAX_RECURSION {
                    MAX_RECURSION
                } else {
                    max
                },
            ),
        }
    }
}

/// The depth of refinement that the hints ask of a point curve.
pub fn max_recurse(hints: &[RangeComputeHints]) -> (r: Option<usize>)
    ensures
        r == spec_max_recurse(hints@),
{
    if hints.len() == 0 {
        None
    } else {
        match hints[0] {
            RangeComputeHints::MaxRecurse(max) => {
                if max > MAX_RECURSION {
                    Some(MAX_RECURSION)
                } else {
                    Some(max)
                }
            },
        }
    }
}

/// Maker of curves that fill the plane.
#[derive(Debug)]
pub struct SpaceFillingCurves;

impl SpaceFillingCurves {
    /// The curve of the kind given over a grid of `resolution` cells a side.
    /// Only the Z-order curve is provided.
    #[must_use]
    pub fn get_curve(curve: Curve, resolution: u32) -> (r: ZCurve2D)
        requires
            curve == Curve::ZOrder,
        ensures
            r.resolution() == resolution,
    {
        ZCurve2D::new(resolution)
    }

    /// The curve for points over a grid of `resolution` cells a side.
    #[must_use]
    pub fn get_point_curve(resolution: u32) -> (r: ZCurve2D)
        ensures
            r.resolution() == resolution,
    {
        ZCurve2D::new(resolution)
    }

    /// The curve for regions with `resolution` levels.
    #[must_use]
    pub fn get_non_point_curve(resolution: u32) -> (r: XZ2SFC)
        requires
            1 <= resolution <= MAX_DEPTH_2D,
        ensures
            r.g() == resolution,
            r.wf(),
    {
        XZ2SFC::new(resolution)
    }
}

/// Maker of curves that fill space and time.
#[derive(Debug)]
pub struct SpaceTimeFillingCurves;

impl SpaceTimeFillingCurves {
    /// The curve for points in time over a grid of `resolution` cells a
    /// side.
    #[must_use]
    pub fn get_point_curve(resolution: u32) -> (r: ZCurve3D)
        ensures
            r.resolution() == resolution,
    {
        ZCurve3D::new(resolution)
    }

    /// The curve for regions in time with `resolution` levels.
    #[must_use]
    pub fn get_non_point_curve(resolution: u32) -> (r: XZ3SFC)
        requires
            1 <= resolution <= MAX_DEPTH_3D,
        ensures
            r.g() == resolution,
            r.wf(),
    {
        XZ3SFC::new(resolution)
    }
}

} // verus!
