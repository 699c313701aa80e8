//! The extended Z-order curve for regions of space and time.
//!
//! The curve works on a grid of `2^g` cells along each of three axes, laid
//! over the unit cube; a coordinate is a grid line, from 0 to `2^g`. Every
//! cell of every level of the octree over that grid has a sequence code: its
//! place when the tree is walked in preorder.

use crate::index_range::{CoveredRange, IndexRange, OverlappingRange};
use crate::merge::{all_wf, covers, merges, sort_and_merge};
use crate::xzorder::xz3_covering::{lemma_ranges_hold_index, meets};
use crate::xzorder::grid::{
    descent_at, fits_axis, grid_side, half_at, lemma_descent_starts, lemma_descent_step,
    lemma_fits_when_small, lemma_halves, lemma_no_fit_when_wide,
};
use crate::xzorder::tree::{
    full_subtree, lemma_power_grows, lemma_power_of_power, lemma_power_of_two, lemma_side_bound,
    lemma_subtree_size_closed, power, subtree_size,
};
use crate::bits::lemma_same_high_bits;
use vstd::prelude::*;

verus! {

/// The greatest depth of the tree that 64-bit codes allow in three
/// dimensions.
pub const MAX_DEPTH_3D: u32 = 21;

/// An extended Z-order curve over the unit cube with `g` levels.
#[derive(Debug, Clone, Copy)]
pub struct XZ3SFC {
    g: u32,
}

/// A query window, by the grid lines that bound it: `xmin`, `ymin` and `zmin`
/// are the least lines at or above its lower edges, `xmax`, `ymax` and `zmax`
/// the greatest lines at or below its upper edges.
#[derive(Debug, Clone, Copy)]
pub struct QueryWindow {
    /// Least grid line at or right of the left edge.
    pub xmin: u64,
    /// Least grid line at or above the lower edge.
    pub ymin: u64,
    /// Least grid line at or after the early edge.
    pub zmin: u64,
    /// Greatest grid line at or left of the right edge.
    pub xmax: u64,
    /// Greatest grid line at or below the upper edge.
    pub ymax: u64,
    /// Greatest grid line at or before the late edge.
    pub zmax: u64,
}

/// A cell of the octree: a cube of side `length` between grid lines. The
/// cell stands for the cube of twice that side with the same lower corner.
#[derive(Debug, Clone, Copy, PartialEq, Eq, Structural)]
pub struct XElement {
    /// Left edge.
    pub xmin: u64,
    /// Lower edge.
    pub ymin: u64,
    /// Early edge.
    pub zmin: u64,
    /// Right edge.
    pub xmax: u64,
    /// Upper edge.
    pub ymax: u64,
    /// Late edge.
    pub zmax: u64,
    /// Side of the cell.
    pub length: u64,
}

/// The rank among its siblings of the child of level `i + 1` that holds the
/// point `(x, y, z)`: one for large `x`, two for large `y` and four for large
/// `z`, added up.
pub open spec fn child_rank(g: u32, x: u64, y: u64, z: u64, i: u32) -> nat {
    (half_at(g, x, i) + 2 * half_at(g, y, i) + 4 * half_at(g, z, i)) as nat
}

/// The sequence code of the cell of level `length` that holds the point
/// `(x, y, z)`: each step down to the child of rank `k` adds one for the
/// parent and `k` times the size of a child's subtree for the siblings before
/// it.
pub open spec fn spec_sequence_code(g: u32, x: u64, y: u64, z: u64, length: nat) -> nat
    decreases length,
{
    if length == 0 || length > g {
        0
    } else {
        let i = (length - 1) as nat;
        spec_sequence_code(g, x, y, z, i) + 1 + child_rank(g, x, y, z, i as u32) * subtree_size(
            8,
            (g - i) as nat,
        )
    }
}

/// The interval of codes for the cell of level `length` at `(x, y, z)`: the
/// cell's code alone where the cell is only touched, the code and the size of
/// the cell's subtree beyond it where the whole subtree is meant.
pub open spec fn spec_sequence_interval(
    g: u32,
    x: u64,
    y: u64,
    z: u64,
    length: nat,
    partial: bool,
) -> (nat, nat) {
    let min = spec_sequence_code(g, x, y, z, length);
    if partial {
        (min, min)
    } else {
        (min, min + subtree_size(8, (g - length + 1) as nat))
    }
}

/// The box lies in the doubled cell of level `level` that holds its lower
/// corner.
pub open spec fn fits(
    g: u32,
    level: nat,
    xmin: u64,
    ymin: u64,
    zmin: u64,
    xmax: u64,
    ymax: u64,
    zmax: u64,
) -> bool {
    fits_axis(g, level, xmin, xmax) && fits_axis(g, level, ymin, ymax) && fits_axis(
        g,
        level,
        zmin,
        zmax,
    )
}

/// The deepest level, up to `g`, at which the box lies in the doubled cell
/// that holds its lower corner.
pub open spec fn enclosing_level(
    g: u32,
    xmin: u64,
    ymin: u64,
    zmin: u64,
    xmax: u64,
    ymax: u64,
    zmax: u64,
) -> nat {
    deepest_fit(g, g as nat, xmin, ymin, zmin, xmax, ymax, zmax)
}

/// The index of the box between the grid lines given: the sequence code of
/// the cell that holds the lower corner, at the deepest level at which the
/// doubled cell holds the box.
pub open spec fn spec_index(
    g: u32,
    xmin: u64,
    ymin: u64,
    zmin: u64,
    xmax: u64,
    ymax: u64,
    zmax: u64,
) -> u64 {
    spec_sequence_code(
        g,
        xmin,
        ymin,
        zmin,
        enclosing_level(g, xmin, ymin, zmin, xmax, ymax, zmax),
    ) as u64
}

/// The deepest level, up to `level`, at which the box fits.
pub open spec fn deepest_fit(
    g: u32,
    level: nat,
    xmin: u64,
    ymin: u64,
    zmin: u64,
    xmax: u64,
    ymax: u64,
    zmax: u64,
) -> nat
    decreases level,
{
    if level == 0 || fits(g, level, xmin, ymin, zmin, xmax, ymax, zmax) {
        level
    } else {
        deepest_fit(g, (level - 1) as nat, xmin, ymin, zmin, xmax, ymax, zmax)
    }
}

impl XElement {
    /// The cell with the edges and the side given.
    pub fn new(
        xmin: u64,
        ymin: u64,
        zmin: u64,
        xmax: u64,
        ymax: u64,
        zmax: u64,
        length: u64,
    ) -> (r: Self)
        ensures
            r == (XElement { xmin, ymin, zmin, xmax, ymax, zmax, length }),
    {
        XElement { xmin, ymin, zmin, xmax, ymax, zmax, length }
    }

    /// The cell is one of level `level` of the tree over a grid of `2^g`
    /// cells a side.
    pub open spec fn at_level(&self, g: u32, level: nat) -> bool {
        &&& level <= g <= MAX_DEPTH_3D
        &&& self.length == power(2, (g - level) as nat)
        &&& self.xmin & ((self.length - 1) as u64) == 0
        &&& self.ymin & ((self.length - 1) as u64) == 0
        &&& self.zmin & ((self.length - 1) as u64) == 0
        &&& self.xmax == self.xmin + self.length
        &&& self.ymax == self.ymin + self.length
        &&& self.zmax == self.zmin + self.length
        &&& self.xmax <= grid_side(g)
        &&& self.ymax <= grid_side(g)
        &&& self.zmax <= grid_side(g)
    }

    /// The edges and the side are small enough to add two of them.
    pub open spec fn bounded(&self) -> bool {
        &&& self.xmin <= self.xmax <= 0x1_0000_0000
        &&& self.ymin <= self.ymax <= 0x1_0000_0000
        &&& self.zmin <= self.zmax <= 0x1_0000_0000
        &&& self.length <= 0x1_0000_0000
    }

    /// The right edge of the doubled cell, as a specification.
    pub open spec fn spec_xext(&self) -> nat {
        (self.xmax + self.length) as nat
    }

    /// The upper edge of the doubled cell, as a specification.
    pub open spec fn spec_yext(&self) -> nat {
        (self.ymax + self.length) as nat
    }

    /// The late edge of the doubled cell, as a specification.
    pub open spec fn spec_zext(&self) -> nat {
        (self.zmax + self.length) as nat
    }

    /// Whether the doubled cell lies in the window, as a specification.
    pub open spec fn spec_is_contained(&self, window: &QueryWindow) -> bool {
        window.xmin <= self.xmin && window.ymin <= self.ymin && window.zmin <= self.zmin
            && window.xmax >= self.spec_xext() && window.ymax >= self.spec_yext() && window.zmax
            >= self.spec_zext()
    }

    /// Whether the doubled cell meets the window, as a specification.
    pub open spec fn spec_is_overlapped(&self, window: &QueryWindow) -> bool {
        window.xmax >= self.xmin && window.ymax >= self.ymin && window.zmax >= self.zmin
            && window.xmin <= self.spec_xext() && window.ymin <= self.spec_yext() && window.zmin
            <= self.spec_zext()
    }

    /// The part of the cell that lies in the lower or the upper half on each
    /// axis, as `upper_x`, `upper_y` and `upper_z` say.
    pub open spec fn spec_part(&self, upper_x: bool, upper_y: bool, upper_z: bool) -> XElement {
        let x_center = ((self.xmin + self.xmax) / 2) as u64;
        let y_center = ((self.ymin + self.ymax) / 2) as u64;
        let z_center = ((self.zmin + self.zmax) / 2) as u64;
        XElement {
            xmin: if upper_x { x_center } else { self.xmin },
            ymin: if upper_y { y_center } else { self.ymin },
            zmin: if upper_z { z_center } else { self.zmin },
            xmax: if upper_x { self.xmax } else { x_center },
            ymax: if upper_y { self.ymax } else { y_center },
            zmax: if upper_z { self.zmax } else { z_center },
            length: self.length / 2,
        }
    }

    /// The eight parts of the cell, as a specification.
    pub open spec fn spec_children(&self) -> Seq<XElement> {
        seq![
            self.spec_part(false, false, false),
            self.spec_part(true, false, false),
            self.spec_part(false, true, false),
            self.spec_part(true, true, false),
            self.spec_part(false, false, true),
            self.spec_part(true, false, true),
            self.spec_part(false, true, true),
            self.spec_part(true, true, true),
        ]
    }

    /// The right edge of the doubled cell.
    pub fn xext(&self) -> (r: u64)
        requires
            self.bounded(),
        ensures
            r == self.spec_xext(),
    {
        self.xmax + self.length
    }

    /// The upper edge of the doubled cell.
    pub fn yext(&self) -> (r: u64)
        requires
            self.bounded(),
        ensures
            r == self.spec_yext(),
    {
        self.ymax + self.length
    }

    /// The late edge of the doubled cell.
    pub fn zext(&self) -> (r: u64)
        requires
            self.bounded(),
        ensures
            r == self.spec_zext(),
    {
        self.zmax + self.length
    }

    /// Whether the doubled cell lies in the window.
    pub fn is_contained(&self, window: &QueryWindow) -> (r: bool)
        requires
            self.bounded(),
        ensures
            r == self.spec_is_contained(window),
    {
        window.xmin <= self.xmin && window.ymin <= self.ymin && window.zmin <= self.zmin
            && window.xmax >= self.xext() && window.ymax >= self.yext() && window.zmax
            >= self.zext()
    }

    /// Whether the doubled cell meets the window.
    pub fn is_overlapped(&self, window: &QueryWindow) -> (r: bool)
        requires
            self.bounded(),
        ensures
            r == self.spec_is_overlapped(window),
    {
        window.xmax >= self.xmin && window.ymax >= self.ymin && window.zmax >= self.zmin
            && window.xmin <= self.xext() && window.ymin <= self.yext() && window.zmin
            <= self.zext()
    }

    /// The eight cells of level one: the parts of the whole grid.
    pub fn level_one_elements(g: u32) -> (r: Vec<XElement>)
        requires
            1 <= g <= MAX_DEPTH_3D,
        ensures
            r@ == spec_level_one(g),
            all_at_level(r@, g, 1),
    {
        proof {
            lemma_power_of_two(g as u64);
            lemma_whole_grid(g);
        }
        let side: u64 = 1u64 << g;
        XElement::new(0, 0, 0, side, side, side, side).children()
    }

    /// The eight parts of the cell, in the order of their ranks.
    pub fn children(&self) -> (r: Vec<XElement>)
        requires
            self.bounded(),
        ensures
            r@ == self.spec_children(),
    {
        let x_center = (self.xmin + self.xmax) / 2;
        let y_center = (self.ymin + self.ymax) / 2;
        let z_center = (self.zmin + self.zmax) / 2;
        let len = self.length / 2;

        let mut r: Vec<XElement> = Vec::with_capacity(8);
        r.push(XElement::new(self.xmin, self.ymin, self.zmin, x_center, y_center, z_center, len));
        r.push(XElement::new(x_center, self.ymin, self.zmin, self.xmax, y_center, z_center, len));
        r.push(XElement::new(self.xmin, y_center, self.zmin, x_center, self.ymax, z_center, len));
        r.push(XElement::new(x_center, y_center, self.zmin, self.xmax, self.ymax, z_center, len));
        r.push(XElement::new(self.xmin, self.ymin, z_center, x_center, y_center, self.zmax, len));
        r.push(XElement::new(x_center, self.ymin, z_center, self.xmax, y_center, self.zmax, len));
        r.push(XElement::new(self.xmin, y_center, z_center, x_center, self.ymax, self.zmax, len));
        r.push(XElement::new(x_center, y_center, z_center, self.xmax, self.ymax, self.zmax, len));
        assert(r@ =~= self.spec_children());
        r
    }
}

/// The eight cells of level one.
pub open spec fn spec_level_one(g: u32) -> Seq<XElement> {
    let side = (1u64 << g);
    (XElement {
        xmin: 0,
        ymin: 0,
        zmin: 0,
        xmax: side,
        ymax: side,
        zmax: side,
        length: side,
    }).spec_children()
}

/// Every one of `cells` is a cell of level `level`.
pub open spec fn all_at_level(cells: Seq<XElement>, g: u32, level: nat) -> bool {
    forall|k: int| 0 <= k < cells.len() ==> (#[trigger] cells[k]).at_level(g, level)
}

/// Some window holds the doubled cell.
pub open spec fn contained_by_any(quad: XElement, query: Seq<QueryWindow>) -> bool {
    exists|k: int| 0 <= k < query.len() && quad.spec_is_contained(&#[trigger] query[k])
}

/// Some window meets the doubled cell.
pub open spec fn overlapped_by_any(quad: XElement, query: Seq<QueryWindow>) -> bool {
    exists|k: int| 0 <= k < query.len() && quad.spec_is_overlapped(&#[trigger] query[k])
}

/// The range for the interval of codes of a cell.
pub open spec fn interval_range(
    g: u32,
    quad: XElement,
    level: nat,
    partial: bool,
    contained: bool,
) -> IndexRange {
    let (min, max) = spec_sequence_interval(g, quad.xmin, quad.ymin, quad.zmin, level, partial);
    IndexRange::spec_new(min as u64, max as u64, contained)
}

/// What `check_value` does to the lists of ranges and of pending cells.
pub open spec fn spec_check_value(
    g: u32,
    quad: XElement,
    level: nat,
    query: Seq<QueryWindow>,
    ranges: Seq<IndexRange>,
    remaining: Seq<XElement>,
) -> (Seq<IndexRange>, Seq<XElement>) {
    if contained_by_any(quad, query) {
        (ranges.push(interval_range(g, quad, level, false, true)), remaining)
    } else if overlapped_by_any(quad, query) {
        (ranges.push(interval_range(g, quad, level, true, false)), remaining + quad.spec_children())
    } else {
        (ranges, remaining)
    }
}

/// `ranges`, followed by an overlapping range with the whole subtree of each
/// of `cells` from place `from` on.
pub open spec fn spec_drain(
    g: u32,
    ranges: Seq<IndexRange>,
    cells: Seq<XElement>,
    from: int,
    level: nat,
) -> Seq<
    IndexRange,
> {
    ranges + Seq::new(
        (cells.len() - from) as nat,
        |j: int| interval_range(g, cells[from + j], level, false, false),
    )
}

/// What checking the cells of one level does, from cell `i` on, as long as
/// there are fewer than `range_stop` ranges: the ranges, the children left
/// pending, and the place of the first cell that was not checked.
pub open spec fn spec_check_level(
    g: u32,
    cur: Seq<XElement>,
    i: int,
    level: nat,
    query: Seq<QueryWindow>,
    range_stop: u16,
    ranges: Seq<IndexRange>,
    next: Seq<XElement>,
) -> (Seq<IndexRange>, Seq<XElement>, int)
    decreases cur.len() - i,
{
    if i < 0 || i >= cur.len() || ranges.len() >= range_stop {
        (ranges, next, i)
    } else {
        let (r, m) = spec_check_value(g, cur[i], level, query, ranges, next);
        spec_check_level(g, cur, i + 1, level, query, range_stop, r, m)
    }
}

/// What the descent does from the cells `cur` of level `level`: above the
/// last level and below `range_stop` ranges the cells are checked; the cells
/// that are left when either limit is met become overlapping ranges with
/// their whole subtrees.
pub open spec fn spec_refine(
    g: u32,
    cur: Seq<XElement>,
    level: nat,
    query: Seq<QueryWindow>,
    range_stop: u16,
    ranges: Seq<IndexRange>,
) -> Seq<IndexRange>
    decreases g - level,
{
    if level >= g {
        spec_drain(g, ranges, cur, 0, level)
    } else {
        let none = Seq::<XElement>::empty();
        let (r, next, i) = spec_check_level(g, cur, 0, level, query, range_stop, ranges, none);
        if i < cur.len() || r.len() >= range_stop {
            spec_drain(g, spec_drain(g, r, cur, i, level), next, 0, level + 1)
        } else if next.len() == 0 {
            r
        } else {
            spec_refine(g, next, level + 1, query, range_stop, r)
        }
    }
}

/// The ranges that the descent finds for the windows, before they are sorted
/// and merged.
pub open spec fn spec_raw_ranges(
    g: u32,
    query: Seq<QueryWindow>,
    range_stop: u16,
) -> Seq<IndexRange> {
    spec_refine(g, spec_level_one(g), 1, query, range_stop, Seq::empty())
}

impl XZ3SFC {
    /// The number of levels, as a specification.
    pub closed spec fn spec_g(&self) -> u32 {
        self.g
    }

    /// The curve is one that 64-bit codes allow.
    pub open spec fn wf(&self) -> bool {
        1 <= self.g() <= MAX_DEPTH_3D
    }

    /// The curve with `g` levels.
    #[must_use]
    pub fn new(g: u32) -> (r: Self)
        requires
            1 <= g <= MAX_DEPTH_3D,
        ensures
            r.g() == g,
            r.wf(),
    {
        XZ3SFC { g }
    }

    /// The number of levels.
    #[verifier::when_used_as_spec(spec_g)]
    pub fn g(&self) -> (r: u32)
        ensures
            r == self.g(),
    {
        self.g
    }

    /// The index of the box between the grid lines given: the sequence code
    /// of the cell that holds the lower corner, at the deepest level at which
    /// the doubled cell holds the box.
    #[must_use]
    pub fn index(&self, xmin: u64, ymin: u64, zmin: u64, xmax: u64, ymax: u64, zmax: u64) -> (r:
        u64)
        requires
            self.wf(),
            xmin <= xmax <= grid_side(self.g()),
            ymin <= ymax <= grid_side(self.g()),
            zmin <= zmax <= grid_side(self.g()),
        ensures
            r == spec_index(self.g(), xmin, ymin, zmin, xmax, ymax, zmax),
            r == spec_sequence_code(
                self.g(),
                xmin,
                ymin,
                zmin,
                enclosing_level(self.g(), xmin, ymin, zmin, xmax, ymax, zmax),
            ),
    {
        let g = self.g;
        proof {
            lemma_power_of_two(g as u64);
        }
        let x_dim = xmax - xmin;
        let y_dim = ymax - ymin;
        let z_dim = zmax - zmin;
        let xy_dim: u64 = if x_dim >= y_dim {
            x_dim
        } else {
            y_dim
        };
        let max_dim: u64 = if xy_dim >= z_dim {
            xy_dim
        } else {
            z_dim
        };

        // the greatest level, up to `g`, whose cells are no smaller than the box
        let mut el_1: u32 = 0;
        while el_1 < g && max_dim <= (1u64 << (g - el_1 - 1))
            invariant
                el_1 <= g <= MAX_DEPTH_3D,
                max_dim <= power(2, (g - el_1) as nat),
            decreases g - el_1,
        {
            proof {
                lemma_power_of_two((g - el_1 - 1) as u64);
            }
            el_1 = el_1 + 1;
        }
        proof {
            if el_1 < g {
                lemma_power_of_two((g - el_1 - 1) as u64);
            }
            lemma_enclosing_level(g, el_1, xmin, ymin, zmin, xmax, ymax, zmax);
        }
        let length: u32 = if el_1 >= g {
            g
        } else {
            proof {
                lemma_power_of_two((g - el_1 - 1) as u64);
                lemma_side_bound((g - el_1 - 1) as nat);
                lemma_side_bound(g as nat);
            }
            let w2: u64 = 1u64 << (g - el_1 - 1);
            if Self::predicate(xmin, xmax, w2) && Self::predicate(ymin, ymax, w2)
                && Self::predicate(zmin, zmax, w2) {
                el_1 + 1
            } else {
                el_1
            }
        };
        self.sequence_code(xmin, ymin, zmin, length)
    }

    /// Whether `max` lies in the doubled cell of side `w2` that holds `min`.
    pub fn predicate(min: u64, max: u64, w2: u64) -> (r: bool)
        requires
            1 <= w2 <= 0x1_0000_0000,
            min <= 0x1_0000_0000,
        ensures
            r == (max <= (min / w2) * w2 + 2 * w2),
    {
        proof {
            vstd::arithmetic::div_mod::lemma_fundamental_div_mod(min as int, w2 as int);
            vstd::arithmetic::div_mod::lemma_mod_bound(min as int, w2 as int);
            assert((min / w2) * w2 == w2 * (min / w2)) by (nonlinear_arith);
        }
        max <= (min / w2) * w2 + 2 * w2
    }

    /// The index ranges of the boxes that the window may meet: every box
    /// that the window meets has its index in one of them. Without
    /// `max_ranges` the descent stops at 65535 ranges.
    pub fn ranges(
        &self,
        xmin: u64,
        ymin: u64,
        zmin: u64,
        xmax: u64,
        ymax: u64,
        zmax: u64,
        max_ranges: Option<u16>,
    ) -> (results: Vec<IndexRange>)
        requires
            self.wf(),
        ensures
            merges(
                spec_raw_ranges(
                    self.g(),
                    seq![(QueryWindow { xmin, ymin, zmin, xmax, ymax, zmax })],
                    max_ranges.unwrap_or(u16::MAX),
                ),
                results@,
            ),
            forall|bxmin: u64, bymin: u64, bzmin: u64, bxmax: u64, bymax: u64, bzmax: u64|
                bxmin <= bxmax <= grid_side(self.g()) && bymin <= bymax <= grid_side(self.g())
                    && bzmin <= bzmax <= grid_side(self.g()) && #[trigger] meets(
                    (QueryWindow { xmin, ymin, zmin, xmax, ymax, zmax }),
                    bxmin,
                    bymin,
                    bzmin,
                    bxmax,
                    bymax,
                    bzmax,
                ) ==> covers(
                    results@,
                    spec_index(self.g(), bxmin, bymin, bzmin, bxmax, bymax, bzmax),
                ),
    {
        let windows: [QueryWindow; 1] = [QueryWindow { xmin, ymin, zmin, xmax, ymax, zmax }];
        let range_stop: u16 = max_ranges.unwrap_or(u16::MAX);
        assert(windows@ =~= seq![(QueryWindow { xmin, ymin, zmin, xmax, ymax, zmax })]);
        let results = self.ranges_impl(windows.as_slice(), range_stop);
        assert forall|bxmin: u64, bymin: u64, bzmin: u64, bxmax: u64, bymax: u64, bzmax: u64|
            bxmin <= bxmax <= grid_side(self.g()) && bymin <= bymax <= grid_side(self.g())
                && bzmin <= bzmax <= grid_side(self.g()) && #[trigger] meets(
                (QueryWindow { xmin, ymin, zmin, xmax, ymax, zmax }),
                bxmin,
                bymin,
                bzmin,
                bxmax,
                bymax,
                bzmax,
            ) implies covers(
            results@,
            spec_index(self.g(), bxmin, bymin, bzmin, bxmax, bymax, bzmax),
        ) by {
            assert(meets(windows@[0], bxmin, bymin, bzmin, bxmax, bymax, bzmax));
        }
        results
    }

    /// The index ranges for a list of windows: the ranges that the descent
    /// finds, sorted and merged.
    pub fn ranges_impl(&self, query: &[QueryWindow], range_stop: u16) -> (results: Vec<IndexRange>)
        requires
            self.wf(),
        ensures
            merges(spec_raw_ranges(self.g(), query@, range_stop), results@),
            forall|k: int, bxmin: u64, bymin: u64, bzmin: u64, bxmax: u64, bymax: u64, bzmax: u64|
                0 <= k < query.len() && bxmin <= bxmax <= grid_side(self.g()) && bymin <= bymax
                    <= grid_side(self.g()) && bzmin <= bzmax <= grid_side(self.g())
                    && #[trigger] meets(query@[k], bxmin, bymin, bzmin, bxmax, bymax, bzmax)
                    ==> covers(
                    results@,
                    spec_index(self.g(), bxmin, bymin, bzmin, bxmax, bymax, bzmax),
                ),
    {
        let g = self.g;
        let mut ranges: Vec<IndexRange> = Vec::with_capacity(100);
        let mut cur: Vec<XElement> = XElement::level_one_elements(g);
        let mut level: u32 = 1;
        let mut done: bool = false;
        let ghost raw = spec_raw_ranges(g, query@, range_stop);

        while !done
            invariant
                g == self.g(),
                self.wf(),
                1 <= level <= g,
                all_wf(ranges@),
                !done ==> all_at_level(cur@, g, level as nat),
                !done ==> raw == spec_refine(g, cur@, level as nat, query@, range_stop, ranges@),
                done ==> raw == ranges@,
            decreases g - level + (if done { 0int } else { 1int }),
        {
            if level >= g {
                self.drain(&cur, 0, level, &mut ranges);
                done = true;
            } else {
                let mut next: Vec<XElement> = Vec::new();
                let mut i: usize = 0;
                let ghost before = ranges@;
                while i < cur.len() && ranges.len() < range_stop as usize
                    invariant
                        g == self.g(),
                        self.wf(),
                        1 <= level < g,
                        i <= cur.len(),
                        all_wf(ranges@),
                        all_at_level(cur@, g, level as nat),
                        all_at_level(next@, g, (level + 1) as nat),
                        spec_check_level(
                            g,
                            cur@,
                            i as int,
                            level as nat,
                            query@,
                            range_stop,
                            ranges@,
                            next@,
                        )
                            == spec_check_level(
                            g,
                            cur@,
                            0,
                            level as nat,
                            query@,
                            range_stop,
                            before,
                            Seq::empty(),
                        ),
                    decreases cur.len() - i,
                {
                    self.check_value(cur[i], level, query, &mut ranges, &mut next);
                    i = i + 1;
                }
                if i < cur.len() || ranges.len() >= range_stop as usize {
                    self.drain(&cur, i, level, &mut ranges);
                    self.drain(&next, 0, level + 1, &mut ranges);
                    done = true;
                } else if next.len() == 0 {
                    done = true;
                } else {
                    level = level + 1;
                    cur = next;
                }
            }
        }
        let results = sort_and_merge(ranges);
        proof {
            assert forall|
                k: int,
                bxmin: u64,
                bymin: u64,
                bzmin: u64,
                bxmax: u64,
                bymax: u64,
                bzmax: u64,
            |
                0 <= k < query.len() && bxmin <= bxmax <= grid_side(g) && bymin <= bymax
                    <= grid_side(g) && bzmin <= bzmax <= grid_side(g) && #[trigger] meets(
                    query@[k],
                    bxmin,
                    bymin,
                    bzmin,
                    bxmax,
                    bymax,
                    bzmax,
                ) implies covers(
                results@,
                spec_index(g, bxmin, bymin, bzmin, bxmax, bymax, bzmax),
            ) by {
                lemma_ranges_hold_index(
                    g,
                    query@,
                    range_stop,
                    results@,
                    k,
                    bxmin,
                    bymin,
                    bzmin,
                    bxmax,
                    bymax,
                    bzmax,
                );
            }
        }
        results
    }

    /// Turns the cells from place `from` on into overlapping ranges with
    /// their whole subtrees.
    fn drain(&self, cells: &Vec<XElement>, from: usize, level: u32, ranges: &mut Vec<IndexRange>)
        requires
            self.wf(),
            1 <= level <= self.g(),
            from <= cells.len(),
            all_at_level(cells@, self.g(), level as nat),
            all_wf(old(ranges)@),
        ensures
            final(ranges)@ == spec_drain(self.g(), old(ranges)@, cells@, from as int, level as nat),
            all_wf(final(ranges)@),
    {
        let mut i: usize = from;
        while i < cells.len()
            invariant
                self.wf(),
                1 <= level <= self.g(),
                from <= i <= cells.len(),
                all_at_level(cells@, self.g(), level as nat),
                all_wf(ranges@),
                ranges@ == old(ranges)@ + Seq::new(
                    (i - from) as nat,
                    |j: int| interval_range(self.g(), cells@[from + j], level as nat, false, false),
                ),
            decreases cells.len() - i,
        {
            let quad = cells[i];
            assert(quad.at_level(self.g(), level as nat));
            let (min, max) = self.sequence_interval(quad.xmin, quad.ymin, quad.zmin, level, false);
            ranges.push(OverlappingRange::new(min, max));
            i = i + 1;
            assert(ranges@ =~= old(ranges)@ + Seq::new(
                (i - from) as nat,
                |j: int| interval_range(self.g(), cells@[from + j], level as nat, false, false),
            ));
        }
    }

    /// The sequence code of the cell of level `length` that holds the point
    /// `(x, y, z)`.
    pub fn sequence_code(&self, x: u64, y: u64, z: u64, length: u32) -> (r: u64)
        requires
            self.wf(),
            x <= grid_side(self.g()),
            y <= grid_side(self.g()),
            z <= grid_side(self.g()),
            length <= self.g(),
        ensures
            r == spec_sequence_code(self.g(), x, y, z, length as nat),
            r + subtree_size(8, (self.g() - length + 1) as nat) <= subtree_size(
                8,
                (self.g() + 1) as nat,
            ) <= u64::MAX,
    {
        let g = self.g;
        proof {
            lemma_power_of_two(g as u64);
            lemma_tree_fits(g);
        }
        let mut xmin: u64 = 0;
        let mut ymin: u64 = 0;
        let mut zmin: u64 = 0;
        let mut xmax: u64 = 1u64 << g;
        let mut ymax: u64 = 1u64 << g;
        let mut zmax: u64 = 1u64 << g;

        let mut cs: u64 = 0;
        let mut i: u32 = 0;
        proof {
            lemma_descent_starts(g, x);
            lemma_descent_starts(g, y);
            lemma_descent_starts(g, z);
        }
        while i < length
            invariant
                self.wf(),
                g == self.g(),
                i <= length <= g,
                x <= grid_side(g),
                y <= grid_side(g),
                z <= grid_side(g),
                descent_at(g, x, i, xmin, xmax),
                descent_at(g, y, i, ymin, ymax),
                descent_at(g, z, i, zmin, zmax),
                cs == spec_sequence_code(g, x, y, z, i as nat),
                cs + subtree_size(8, (g - i + 1) as nat) <= subtree_size(8, (g + 1) as nat)
                    <= u64::MAX,
            decreases length - i,
        {
            proof {
                lemma_descent_step(g, x, i, xmin, xmax);
                lemma_descent_step(g, y, i, ymin, ymax);
                lemma_descent_step(g, z, i, zmin, zmax);
                lemma_subtree_fits(g, (g - i) as u32);
                assert(subtree_size(8, (g - i + 1) as nat) == 8 * subtree_size(
                    8,
                    (g - i) as nat,
                ) + 1);
            }
            let x_center = (xmin + xmax) / 2;
            let y_center = (ymin + ymax) / 2;
            let z_center = (zmin + zmax) / 2;
            let below: u64 = full_subtree(8, g - i);
            let ghost rank = child_rank(g, x, y, z, i);
            let ghost code = spec_sequence_code(g, x, y, z, (i + 1) as nat);
            assert(code == cs + 1 + rank * below);

            let mut k: u64 = 0;
            if x < x_center {
                xmax = x_center;
            } else {
                k = k + 1;
                xmin = x_center;
            }
            if y < y_center {
                ymax = y_center;
            } else {
                k = k + 2;
                ymin = y_center;
            }
            if z < z_center {
                zmax = z_center;
            } else {
                k = k + 4;
                zmin = z_center;
            }
            assert(rank * below == k * below && k * below <= 7 * below) by (nonlinear_arith)
                requires
                    rank == k,
                    k <= 7,
            ;
            cs = cs + 1 + k * below;
            i = i + 1;
        }
        cs
    }

    /// Classifies the cell `quad` of level `level`: a cell whose doubled
    /// cube lies in a window becomes a covered range with its whole
    /// subtree; another whose doubled cube meets a window becomes an
    /// overlapping range of its own code, and its children are left pending;
    /// the rest is dropped.
    pub fn check_value(
        &self,
        quad: XElement,
        level: u32,
        query: &[QueryWindow],
        ranges: &mut Vec<IndexRange>,
        remaining: &mut Vec<XElement>,
    )
        requires
            self.wf(),
            1 <= level < self.g(),
            quad.at_level(self.g(), level as nat),
            all_wf(old(ranges)@),
            all_at_level(old(remaining)@, self.g(), (level + 1) as nat),
        ensures
            (final(ranges)@, final(remaining)@) == spec_check_value(
                self.g(),
                quad,
                level as nat,
                query@,
                old(ranges)@,
                old(remaining)@,
            ),
            all_wf(final(ranges)@),
            all_at_level(final(remaining)@, self.g(), (level + 1) as nat),
    {
        proof {
            lemma_at_level_bounded(quad, self.g(), level as nat);
        }
        if Self::is_contained(quad, query) {
            let (min, max) = self.sequence_interval(quad.xmin, quad.ymin, quad.zmin, level, false);
            ranges.push(CoveredRange::new(min, max));
        } else if Self::is_overlapped(quad, query) {
            let (min, max) = self.sequence_interval(quad.xmin, quad.ymin, quad.zmin, level, true);
            ranges.push(OverlappingRange::new(min, max));
            let children = quad.children();
            proof {
                lemma_children_at_level(quad, self.g(), level as nat);
            }
            let ghost before = remaining@;
            let mut k: usize = 0;
            while k < children.len()
                invariant
                    k <= children.len(),
                    children@ == quad.spec_children(),
                    all_at_level(children@, self.g(), (level + 1) as nat),
                    all_at_level(remaining@, self.g(), (level + 1) as nat),
                    remaining@ == before + children@.subrange(0, k as int),
                decreases children.len() - k,
            {
                remaining.push(children[k]);
                k = k + 1;
                assert(remaining@ =~= before + children@.subrange(0, k as int));
            }
            assert(children@.subrange(0, k as int) =~= children@);
        }
    }

    /// Whether some window holds the doubled cell.
    pub fn is_contained(quad: XElement, query: &[QueryWindow]) -> (r: bool)
        requires
            quad.bounded(),
        ensures
            r == contained_by_any(quad, query@),
    {
        let mut k: usize = 0;
        while k < query.len()
            invariant
                k <= query.len(),
                quad.bounded(),
                forall|j: int| 0 <= j < k ==> !quad.spec_is_contained(&#[trigger] query@[j]),
            decreases query.len() - k,
        {
            if quad.is_contained(&query[k]) {
                return true;
            }
            k = k + 1;
        }
        false
    }

    /// Whether some window meets the doubled cell.
    pub fn is_overlapped(quad: XElement, query: &[QueryWindow]) -> (r: bool)
        requires
            quad.bounded(),
        ensures
            r == overlapped_by_any(quad, query@),
    {
        let mut k: usize = 0;
        while k < query.len()
            invariant
                k <= query.len(),
                quad.bounded(),
                forall|j: int| 0 <= j < k ==> !quad.spec_is_overlapped(&#[trigger] query@[j]),
            decreases query.len() - k,
        {
            if quad.is_overlapped(&query[k]) {
                return true;
            }
            k = k + 1;
        }
        false
    }

    /// The interval of codes for the cell of level `length` at `(x, y, z)`:
    /// the cell's code alone if `partial`, else the code and the size of the
    /// cell's subtree beyond it.
    pub fn sequence_interval(&self, x: u64, y: u64, z: u64, length: u32, partial: bool) -> (r: (
        u64,
        u64,
    ))
        requires
            self.wf(),
            x <= grid_side(self.g()),
            y <= grid_side(self.g()),
            z <= grid_side(self.g()),
            1 <= length <= self.g(),
        ensures
            (r.0 as nat, r.1 as nat) == spec_sequence_interval(
                self.g(),
                x,
                y,
                z,
                length as nat,
                partial,
            ),
            r.0 <= r.1,
    {
        let min = self.sequence_code(x, y, z, length);
        let max = if partial {
            min
        } else {
            proof {
                lemma_subtree_fits(self.g(), (self.g() - length + 1) as u32);
            }
            min + full_subtree(8, self.g - length + 1)
        };
        (min, max)
    }
}

/// The tree of a curve with up to 21 levels has fewer than `2^64` nodes.
pub proof fn lemma_tree_fits(g: u32)
    requires
        g <= MAX_DEPTH_3D,
    ensures
        subtree_size(8, (g + 1) as nat) <= u64::MAX,
{
    lemma_subtree_fits(g, g);
    assert(subtree_size(8, (g + 1) as nat) == 8 * subtree_size(8, g as nat) + 1);
}

/// The subtrees of a curve with up to 21 levels have sizes, and powers of
/// eight, that fit in 64 bits.
pub proof fn lemma_subtree_fits(g: u32, height: u32)
    requires
        height <= g <= MAX_DEPTH_3D,
    ensures
        power(8, height as nat) <= 0x8000_0000_0000_0000,
        7 * subtree_size(8, height as nat) + 1 == power(8, height as nat),
{
    lemma_subtree_size_closed(8, height as nat);
    lemma_power_of_power(height as nat);
    lemma_power_grows(2, 3 * height as nat, 63);
    lemma_power_of_two(63);
    assert(1u64 << 63u64 == 0x8000_0000_0000_0000) by (bit_vector);
}

/// The whole grid is the cell of level 0, and its parts are the cells of
/// level 1.
pub proof fn lemma_whole_grid(g: u32)
    requires
        1 <= g <= MAX_DEPTH_3D,
    ensures
        (1u64 << g) == grid_side(g),
        (XElement {
            xmin: 0,
            ymin: 0,
            zmin: 0,
            xmax: (1u64 << g),
            ymax: (1u64 << g),
            zmax: (1u64 << g),
            length: (1u64 << g),
        }).bounded(),
        all_at_level(spec_level_one(g), g, 1),
{
    lemma_power_of_two(g as u64);
    let side = (1u64 << g);
    let whole = XElement {
        xmin: 0,
        ymin: 0,
        zmin: 0,
        xmax: side,
        ymax: side,
        zmax: side,
        length: side,
    };
    lemma_side_bound(g as nat);
    assert(0u64 & ((side - 1) as u64) == 0) by (bit_vector);
    assert(whole.at_level(g, 0));
    lemma_children_at_level(whole, g, 0);
}

/// A cell of a level has edges small enough to add.
pub proof fn lemma_at_level_bounded(quad: XElement, g: u32, level: nat)
    requires
        quad.at_level(g, level),
    ensures
        quad.bounded(),
        quad.xmin <= grid_side(g),
        quad.ymin <= grid_side(g),
        quad.zmin <= grid_side(g),
{
    lemma_side_bound(g as nat);
    lemma_power_grows(2, (g - level) as nat, g as nat);
}

/// The parts of a cell above the last level are cells of the next level.
pub proof fn lemma_children_at_level(quad: XElement, g: u32, level: nat)
    requires
        quad.at_level(g, level),
        level < g,
    ensures
        all_at_level(quad.spec_children(), g, level + 1),
{
    lemma_at_level_bounded(quad, g, level);
    let half = power(2, (g - level - 1) as nat);
    assert(power(2, (g - level) as nat) == 2 * half);
    lemma_halves(g, level, quad.xmin);
    lemma_halves(g, level, quad.ymin);
    lemma_halves(g, level, quad.zmin);
    let children = quad.spec_children();
    assert forall|k: int| 0 <= k < children.len() implies (#[trigger] children[k]).at_level(
        g,
        level + 1,
    ) by {
        assert(k == 0 || k == 1 || k == 2 || k == 3 || k == 4 || k == 5 || k == 6 || k == 7);
    }
}

/// Points whose coordinates agree above the lowest `g - length` bits lie in
/// the same cell of level `length`.
pub proof fn lemma_code_of_cell(
    g: u32,
    x1: u64,
    y1: u64,
    z1: u64,
    x2: u64,
    y2: u64,
    z2: u64,
    length: nat,
)
    requires
        length <= g <= MAX_DEPTH_3D,
        x1 < (1u64 << g),
        y1 < (1u64 << g),
        z1 < (1u64 << g),
        x2 < (1u64 << g),
        y2 < (1u64 << g),
        z2 < (1u64 << g),
        x1 >> ((g - length) as u64) == x2 >> ((g - length) as u64),
        y1 >> ((g - length) as u64) == y2 >> ((g - length) as u64),
        z1 >> ((g - length) as u64) == z2 >> ((g - length) as u64),
    ensures
        spec_sequence_code(g, x1, y1, z1, length) == spec_sequence_code(g, x2, y2, z2, length),
    decreases length,
{
    if length > 0 {
        let low = (g - length) as u64;
        lemma_same_high_bits(x1, x2, low, (low + 1) as u64);
        lemma_same_high_bits(y1, y2, low, (low + 1) as u64);
        lemma_same_high_bits(z1, z2, low, (low + 1) as u64);
        lemma_code_of_cell(g, x1, y1, z1, x2, y2, z2, (length - 1) as nat);
    }
}

/// The intervals of codes of two children of one cell: the child of the
/// greater rank starts as many subtrees later as the ranks differ. So the
/// intervals of two children are disjoint where a rank lies between theirs,
/// and share one code, the start of the later, where the ranks are adjacent.
pub proof fn lemma_sibling_intervals(g: u32, parent: XElement, level: nat, a: int, b: int)
    requires
        level < g <= MAX_DEPTH_3D,
        parent.at_level(g, level),
        0 <= a < b < 8,
    ensures
        ({
            let first = parent.spec_children()[a];
            let second = parent.spec_children()[b];
            let (lo_a, hi_a) = spec_sequence_interval(
                g,
                first.xmin,
                first.ymin,
                first.zmin,
                level + 1,
                false,
            );
            let (lo_b, hi_b) = spec_sequence_interval(
                g,
                second.xmin,
                second.ymin,
                second.zmin,
                level + 1,
                false,
            );
            let below = subtree_size(8, (g - level) as nat);
            &&& hi_a == lo_a + below
            &&& lo_b == lo_a + (b - a) * below
            &&& b >= a + 2 ==> hi_a < lo_b
            &&& b == a + 1 ==> hi_a == lo_b
        }),
{
    let below = subtree_size(8, (g - level) as nat);
    assert(below >= 1);
    lemma_child_code(g, parent, level, a);
    lemma_child_code(g, parent, level, b);
    assert((b - a) * below >= 2 * below <==> b - a >= 2) by (nonlinear_arith)
        requires
            below >= 1,
    ;
    assert(b * below - a * below == (b - a) * below) by (nonlinear_arith);
    if b == a + 1 {
        assert((b - a) * below == below) by (nonlinear_arith)
            requires
                b - a == 1,
        ;
    }
}

/// The code of the child of rank `k` of a cell is the cell's code, one, and
/// `k` subtrees of a child.
pub proof fn lemma_child_code(g: u32, parent: XElement, level: nat, k: int)
    requires
        level < g <= MAX_DEPTH_3D,
        parent.at_level(g, level),
        0 <= k < 8,
    ensures
        ({
            let child = parent.spec_children()[k];
            spec_sequence_code(g, child.xmin, child.ymin, child.zmin, level + 1)
                == spec_sequence_code(g, parent.xmin, parent.ymin, parent.zmin, level) + 1 + k
                * subtree_size(8, (g - level) as nat)
        }),
{
    let child = parent.spec_children()[k];
    lemma_halves(g, level, parent.xmin);
    lemma_halves(g, level, parent.ymin);
    lemma_halves(g, level, parent.zmin);
    lemma_code_of_cell(
        g,
        child.xmin,
        child.ymin,
        child.zmin,
        parent.xmin,
        parent.ymin,
        parent.zmin,
        level,
    );
    let rank = child_rank(g, child.xmin, child.ymin, child.zmin, level as u32);
    assert(rank == k);
}

/// A box no wider than the cells of level `el_1`, and wider than the cells of
/// the next level unless `el_1` is the last, fits at level `el_1` and at no
/// level beyond the next.
pub proof fn lemma_enclosing_level(
    g: u32,
    el_1: u32,
    xmin: u64,
    ymin: u64,
    zmin: u64,
    xmax: u64,
    ymax: u64,
    zmax: u64,
)
    requires
        el_1 <= g <= MAX_DEPTH_3D,
        xmin <= xmax <= grid_side(g),
        ymin <= ymax <= grid_side(g),
        zmin <= zmax <= grid_side(g),
        xmax - xmin <= power(2, (g - el_1) as nat),
        ymax - ymin <= power(2, (g - el_1) as nat),
        zmax - zmin <= power(2, (g - el_1) as nat),
        el_1 < g ==> xmax - xmin > power(2, (g - el_1 - 1) as nat) || ymax - ymin > power(
            2,
            (g - el_1 - 1) as nat,
        ) || zmax - zmin > power(2, (g - el_1 - 1) as nat),
    ensures
        enclosing_level(g, xmin, ymin, zmin, xmax, ymax, zmax) == if el_1 < g && fits(
            g,
            (el_1 + 1) as nat,
            xmin,
            ymin,
            zmin,
            xmax,
            ymax,
            zmax,
        ) {
            (el_1 + 1) as nat
        } else {
            el_1 as nat
        },
{
    lemma_fits_when_small(g, el_1 as nat, xmin, xmax);
    lemma_fits_when_small(g, el_1 as nat, ymin, ymax);
    lemma_fits_when_small(g, el_1 as nat, zmin, zmax);
    lemma_deepest_fit_skips(g, g as nat, el_1, xmin, ymin, zmin, xmax, ymax, zmax);
}

/// The search for the deepest fit passes over the levels beyond `el_1 + 1`.
proof fn lemma_deepest_fit_skips(
    g: u32,
    level: nat,
    el_1: u32,
    xmin: u64,
    ymin: u64,
    zmin: u64,
    xmax: u64,
    ymax: u64,
    zmax: u64,
)
    requires
        el_1 <= level <= g,
        xmin <= xmax,
        ymin <= ymax,
        zmin <= zmax,
        fits(g, el_1 as nat, xmin, ymin, zmin, xmax, ymax, zmax),
        el_1 < g ==> xmax - xmin > power(2, (g - el_1 - 1) as nat) || ymax - ymin > power(
            2,
            (g - el_1 - 1) as nat,
        ) || zmax - zmin > power(2, (g - el_1 - 1) as nat),
    ensures
        deepest_fit(g, level, xmin, ymin, zmin, xmax, ymax, zmax) == if el_1 < level && fits(
            g,
            (el_1 + 1) as nat,
            xmin,
            ymin,
            zmin,
            xmax,
            ymax,
            zmax,
        ) {
            (el_1 + 1) as nat
        } else {
            el_1 as nat
        },
    decreases level,
{
    if level > el_1 + 1 {
        let w = power(2, (g - level) as nat);
        lemma_power_grows(2, (g - level + 1) as nat, (g - el_1 - 1) as nat);
        assert(power(2, (g - level + 1) as nat) == 2 * w);
        if xmax - xmin > power(2, (g - el_1 - 1) as nat) {
            lemma_no_fit_when_wide(g, level, xmin, xmax);
        } else if ymax - ymin > power(2, (g - el_1 - 1) as nat) {
            lemma_no_fit_when_wide(g, level, ymin, ymax);
        } else {
            lemma_no_fit_when_wide(g, level, zmin, zmax);
        }
        lemma_deepest_fit_skips(g, (level - 1) as nat, el_1, xmin, ymin, zmin, xmax, ymax, zmax);
    } else if level == el_1 + 1 {
        lemma_deepest_fit_skips(g, (level - 1) as nat, el_1, xmin, ymin, zmin, xmax, ymax, zmax);
    }
}

} // verus!
