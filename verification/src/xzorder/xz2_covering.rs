//! What the ranges found for a window hold: the index of every box that the
//! window meets.

use crate::index_range::IndexRange;
use crate::merge::{covers, lemma_covers_push, lemma_merged_cover, merges};
use crate::xzorder::grid::{
    cell_start, clamped, grid_side, half_at, lemma_cell_start, lemma_descent_step,
    lemma_doubled_cell_holds_box, lemma_fits_all_above, lemma_fits_level_one,
};
use crate::xzorder::tree::{lemma_power_of_two, lemma_side_bound, power, subtree_size};
use crate::xzorder::xz2_sfc::{
    child_rank, contained_by_any, deepest_fit, enclosing_level, fits, interval_range,
    lemma_code_of_cell, lemma_tree_fits, overlapped_by_any, spec_check_level, spec_check_value,
    spec_drain, spec_level_one, spec_raw_ranges, spec_refine, spec_sequence_code,
    spec_index, spec_sequence_interval, QueryWindow, XElement, MAX_DEPTH_2D,
};
use vstd::prelude::*;

verus! {

/// The cell of level `level` that holds the point `(x, y)`.
pub open spec fn cell_at(g: u32, x: u64, y: u64, level: nat) -> XElement {
    let side = power(2, (g - level) as nat) as u64;
    XElement {
        xmin: cell_start(g, x, level),
        ymin: cell_start(g, y, level),
        xmax: (cell_start(g, x, level) + side) as u64,
        ymax: (cell_start(g, y, level) + side) as u64,
        length: side,
    }
}

/// One of the cells from place `from` on is `cell`.
pub open spec fn waits(cells: Seq<XElement>, from: int, cell: XElement) -> bool {
    exists|k: int| from <= k < cells.len() && 0 <= k && #[trigger] cells[k] == cell
}

/// The window meets the box between the grid lines given.
pub open spec fn meets(window: QueryWindow, xmin: u64, ymin: u64, xmax: u64, ymax: u64) -> bool {
    window.xmax >= xmin && window.ymax >= ymin && window.xmin <= xmax && window.ymin <= ymax
}

/// The cell of a level that holds a point is a cell of that level, and the
/// code of its corner is the code of the point at that level.
pub proof fn lemma_cell_at(g: u32, x: u64, y: u64, level: nat)
    requires
        level <= g <= MAX_DEPTH_2D,
        x <= grid_side(g),
        y <= grid_side(g),
    ensures
        cell_at(g, x, y, level).at_level(g, level),
        spec_sequence_code(g, cell_at(g, x, y, level).xmin, cell_at(g, x, y, level).ymin, level)
            == spec_sequence_code(g, x, y, level),
{
    lemma_cell_start(g, x, level);
    lemma_cell_start(g, y, level);
    lemma_power_of_two(g as u64);
    lemma_side_bound((g - level) as nat);
    let cell = cell_at(g, x, y, level);
    lemma_code_at_clamped(g, x, y, level);
    lemma_code_at_clamped(g, cell.xmin, cell.ymin, level);
    lemma_code_of_cell(g, cell.xmin, cell.ymin, clamped(g, x), clamped(g, y), level);
}

/// The code of a point is that of the point with the last grid line taken
/// for the last cell's line.
pub proof fn lemma_code_at_clamped(g: u32, x: u64, y: u64, length: nat)
    requires
        g <= MAX_DEPTH_2D,
    ensures
        spec_sequence_code(g, x, y, length) == spec_sequence_code(
            g,
            clamped(g, x),
            clamped(g, y),
            length,
        ),
    decreases length,
{
    if length > 0 && length <= g {
        lemma_code_at_clamped(g, x, y, (length - 1) as nat);
        lemma_power_of_two(g as u64);
        let i = (length - 1) as u32;
        assert(half_at(g, x, i) == half_at(g, clamped(g, x), i));
        assert(half_at(g, y, i) == half_at(g, clamped(g, y), i));
    }
}

/// The cell of the next level that holds a point is the child of the cell of
/// this level whose rank is that of the point.
pub proof fn lemma_next_cell_is_child(g: u32, x: u64, y: u64, level: nat)
    requires
        level < g <= MAX_DEPTH_2D,
        x <= grid_side(g),
        y <= grid_side(g),
    ensures
        child_rank(g, x, y, level as u32) < 4,
        cell_at(g, x, y, level + 1) == cell_at(g, x, y, level).spec_children()[child_rank(
            g,
            x,
            y,
            level as u32,
        ) as int],
{
    let cell = cell_at(g, x, y, level);
    lemma_cell_start(g, x, level);
    lemma_cell_start(g, y, level);
    lemma_cell_start(g, x, level + 1);
    lemma_cell_start(g, y, level + 1);
    lemma_descent_step(g, x, level as u32, cell.xmin, cell.xmax);
    lemma_descent_step(g, y, level as u32, cell.ymin, cell.ymax);
    let half = power(2, (g - level - 1) as nat);
    assert(power(2, (g - level) as nat) == 2 * half);
    lemma_side_bound((g - level) as nat);
    lemma_side_bound((g - level - 1) as nat);
    lemma_power_of_two((g - level) as u64);
    lemma_power_of_two((g - level - 1) as u64);
}

/// The cells of level one hold the cell of that level of every point.
pub proof fn lemma_first_cell_waits(g: u32, x: u64, y: u64)
    requires
        1 <= g <= MAX_DEPTH_2D,
        x <= grid_side(g),
        y <= grid_side(g),
    ensures
        waits(spec_level_one(g), 0, cell_at(g, x, y, 1)),
{
    lemma_next_cell_is_child(g, x, y, 0);
    lemma_cell_start(g, x, 0);
    lemma_cell_start(g, y, 0);
    lemma_power_of_two(g as u64);
    let k = child_rank(g, x, y, 0) as int;
    assert(spec_level_one(g)[k] == cell_at(g, x, y, 1));
}

/// Along the way down to a point the codes grow, and stay within the subtree
/// of every cell on the way.
pub proof fn lemma_code_in_subtree(g: u32, x: u64, y: u64, above: nat, below: nat)
    requires
        above <= below <= g <= MAX_DEPTH_2D,
    ensures
        spec_sequence_code(g, x, y, above) <= spec_sequence_code(g, x, y, below),
        spec_sequence_code(g, x, y, below) + subtree_size(4, (g - below + 1) as nat)
            <= spec_sequence_code(g, x, y, above) + subtree_size(4, (g - above + 1) as nat),
        spec_sequence_code(g, x, y, above) + subtree_size(4, (g - above + 1) as nat)
            <= subtree_size(4, (g + 1) as nat) <= u64::MAX,
        subtree_size(4, (g - below + 1) as nat) >= 1,
    decreases below + above,
{
    lemma_tree_fits(g);
    if above < below {
        lemma_code_in_subtree(g, x, y, above, (below - 1) as nat);
        let i = (below - 1) as nat;
        let rank = child_rank(g, x, y, i as u32);
        let size = subtree_size(4, (g - i) as nat);
        lemma_power_of_two(g as u64);
        assert(half_at(g, x, i as u32) <= 1 && half_at(g, y, i as u32) <= 1) by {
            let a = clamped(g, x) >> ((g - 1 - i) as u64);
            let b = clamped(g, y) >> ((g - 1 - i) as u64);
            assert(a & 1 <= 1 && b & 1 <= 1) by (bit_vector);
        }
        assert(0 <= rank * size <= 3 * size) by (nonlinear_arith)
            requires
                0 <= rank <= 3,
                size >= 0,
        ;
        assert(subtree_size(4, (g - i + 1) as nat) == 4 * size + 1);
    } else if above > 0 {
        lemma_code_in_subtree(g, x, y, (above - 1) as nat, (above - 1) as nat);
        lemma_code_in_subtree(g, x, y, (above - 1) as nat, above);
    }
}

/// The interval of the whole subtree of a cell on the way to a point holds
/// the code of the point at every level further down.
pub proof fn lemma_subtree_holds_code(
    g: u32,
    x: u64,
    y: u64,
    above: nat,
    below: nat,
    contained: bool,
)
    requires
        above <= below <= g <= MAX_DEPTH_2D,
        x <= grid_side(g),
        y <= grid_side(g),
    ensures
        spec_sequence_code(g, x, y, below) <= u64::MAX,
        interval_range(g, cell_at(g, x, y, above), above, false, contained).holds(
            spec_sequence_code(g, x, y, below) as u64,
        ),
        interval_range(g, cell_at(g, x, y, below), below, true, contained).holds(
            spec_sequence_code(g, x, y, below) as u64,
        ),
{
    lemma_cell_at(g, x, y, above);
    lemma_cell_at(g, x, y, below);
    lemma_code_in_subtree(g, x, y, above, below);
    lemma_code_in_subtree(g, x, y, 0, above);
    lemma_code_in_subtree(g, x, y, 0, below);
    let top = cell_at(g, x, y, above);
    let (min, max) = spec_sequence_interval(g, top.xmin, top.ymin, above, false);
    IndexRange::lemma_new_parts(min as u64, max as u64, contained);
    let low = cell_at(g, x, y, below);
    let (at, same) = spec_sequence_interval(g, low.xmin, low.ymin, below, true);
    IndexRange::lemma_new_parts(at as u64, same as u64, contained);
}

/// The deepest level at which a box fits is a level at which it fits, at
/// least one.
pub proof fn lemma_enclosing_level_fits(g: u32, xmin: u64, ymin: u64, xmax: u64, ymax: u64)
    requires
        1 <= g <= MAX_DEPTH_2D,
        xmin <= xmax <= grid_side(g),
        ymin <= ymax <= grid_side(g),
    ensures
        1 <= enclosing_level(g, xmin, ymin, xmax, ymax) <= g,
        fits(g, enclosing_level(g, xmin, ymin, xmax, ymax), xmin, ymin, xmax, ymax),
{
    lemma_fits_level_one(g, xmin, xmax);
    lemma_fits_level_one(g, ymin, ymax);
    lemma_deepest_fit_fits(g, g as nat, xmin, ymin, xmax, ymax);
}

/// The search for the deepest fit ends at a level at which the box fits,
/// where it fits the first level.
proof fn lemma_deepest_fit_fits(g: u32, level: nat, xmin: u64, ymin: u64, xmax: u64, ymax: u64)
    requires
        1 <= level <= g,
        fits(g, 1, xmin, ymin, xmax, ymax),
    ensures
        1 <= deepest_fit(g, level, xmin, ymin, xmax, ymax) <= level,
        fits(g, deepest_fit(g, level, xmin, ymin, xmax, ymax), xmin, ymin, xmax, ymax),
    decreases level,
{
    if level > 1 && !fits(g, level, xmin, ymin, xmax, ymax) {
        lemma_deepest_fit_fits(g, (level - 1) as nat, xmin, ymin, xmax, ymax);
    }
}

/// A window that meets a box meets the doubled cell of every cell, down to a
/// level at which the box fits, that holds the lower corner of the box.
pub proof fn lemma_window_meets_cells(
    g: u32,
    window: QueryWindow,
    xmin: u64,
    ymin: u64,
    xmax: u64,
    ymax: u64,
    level: nat,
    above: nat,
)
    requires
        above <= level <= g <= MAX_DEPTH_2D,
        xmin <= xmax <= grid_side(g),
        ymin <= ymax <= grid_side(g),
        fits(g, level, xmin, ymin, xmax, ymax),
        meets(window, xmin, ymin, xmax, ymax),
    ensures
        cell_at(g, xmin, ymin, above).spec_overlaps(&window),
{
    lemma_fits_all_above(g, above, level, xmin, xmax);
    lemma_fits_all_above(g, above, level, ymin, ymax);
    lemma_doubled_cell_holds_box(g, above, xmin, xmax);
    lemma_doubled_cell_holds_box(g, above, ymin, ymax);
    lemma_cell_start(g, xmin, above);
    lemma_cell_start(g, ymin, above);
    lemma_side_bound((g - above) as nat);
}

/// Some window holds or meets the doubled cell.
pub open spec fn touched(quad: XElement, query: Seq<QueryWindow>) -> bool {
    contained_by_any(quad, query) || overlapped_by_any(quad, query)
}

/// Every cell that holds the point `(x, y)`, from level one down to level
/// `depth`, is touched by a window.
pub open spec fn road_is_touched(
    g: u32,
    x: u64,
    y: u64,
    depth: nat,
    query: Seq<QueryWindow>,
) -> bool {
    forall|level: nat| 1 <= level <= depth ==> touched(#[trigger] cell_at(g, x, y, level), query)
}

/// The code to be found: that of the point `(x, y)` at level `depth`.
pub open spec fn goal(g: u32, x: u64, y: u64, depth: nat) -> u64 {
    spec_sequence_code(g, x, y, depth) as u64
}

/// What lists of cells put behind each other hold.
proof fn lemma_waits_added(cells: Seq<XElement>, more: Seq<XElement>, cell: XElement)
    ensures
        waits(cells, 0, cell) ==> waits(cells + more, 0, cell),
        waits(more, 0, cell) ==> waits(cells + more, 0, cell),
{
    let after = cells + more;
    if waits(cells, 0, cell) {
        let k = choose|k: int| 0 <= k < cells.len() && #[trigger] cells[k] == cell;
        assert(after[k] == cell);
    }
    if waits(more, 0, cell) {
        let k = choose|k: int| 0 <= k < more.len() && #[trigger] more[k] == cell;
        assert(after[cells.len() + k] == cell);
    }
}

/// Checking a cell keeps what was covered and pending; checking the cell on
/// the road to the goal covers the goal or leaves the next cell on the road
/// pending.
pub proof fn lemma_check_finds(
    g: u32,
    quad: XElement,
    level: nat,
    query: Seq<QueryWindow>,
    ranges: Seq<IndexRange>,
    remaining: Seq<XElement>,
    x: u64,
    y: u64,
    depth: nat,
)
    requires
        1 <= level <= g <= MAX_DEPTH_2D,
        x <= grid_side(g),
        y <= grid_side(g),
        depth <= g,
    ensures
        ({
            let t = goal(g, x, y, depth);
            let next = cell_at(g, x, y, level + 1);
            let (r, m) = spec_check_value(g, quad, level, query, ranges, remaining);
            &&& covers(ranges, t) ==> covers(r, t)
            &&& waits(remaining, 0, next) ==> waits(m, 0, next)
            &&& level <= depth && quad == cell_at(g, x, y, level) && touched(quad, query)
                ==> covers(r, t) || (level < depth && waits(m, 0, next))
        }),
{
    let t = goal(g, x, y, depth);
    let next = cell_at(g, x, y, level + 1);
    lemma_covers_push(ranges, interval_range(g, quad, level, false, true), t);
    lemma_covers_push(ranges, interval_range(g, quad, level, true, false), t);
    lemma_waits_added(remaining, quad.spec_children(), next);
    if level <= depth && quad == cell_at(g, x, y, level) {
        lemma_subtree_holds_code(g, x, y, level, depth, true);
        if level == depth {
            lemma_subtree_holds_code(g, x, y, level, level, false);
        } else {
            lemma_next_cell_is_child(g, x, y, level);
            let k = child_rank(g, x, y, level as u32) as int;
            assert(quad.spec_children()[k] == next);
        }
    }
}

/// Checking the cells of a level keeps what was covered and pending; where
/// the cell on the road to the goal is among them, the goal is covered, or
/// that cell is left unchecked, or the next cell on the road is pending.
pub proof fn lemma_level_finds(
    g: u32,
    cur: Seq<XElement>,
    i: int,
    level: nat,
    query: Seq<QueryWindow>,
    range_stop: u16,
    ranges: Seq<IndexRange>,
    next: Seq<XElement>,
    x: u64,
    y: u64,
    depth: nat,
)
    requires
        0 <= i,
        1 <= level <= g <= MAX_DEPTH_2D,
        x <= grid_side(g),
        y <= grid_side(g),
        depth <= g,
        road_is_touched(g, x, y, depth, query),
    ensures
        ({
            let t = goal(g, x, y, depth);
            let here = cell_at(g, x, y, level);
            let there = cell_at(g, x, y, level + 1);
            let (r, m, j) = spec_check_level(g, cur, i, level, query, range_stop, ranges, next);
            &&& i <= j
            &&& covers(ranges, t) ==> covers(r, t)
            &&& waits(next, 0, there) ==> waits(m, 0, there)
            &&& level <= depth && waits(cur, i, here) ==> covers(r, t) || waits(cur, j, here) || (
            level < depth && waits(m, 0, there))
        }),
    decreases cur.len() - i,
{
    let here = cell_at(g, x, y, level);
    if !(i >= cur.len() || ranges.len() >= range_stop) {
        lemma_check_finds(g, cur[i], level, query, ranges, next, x, y, depth);
        let (r, m) = spec_check_value(g, cur[i], level, query, ranges, next);
        lemma_level_finds(g, cur, i + 1, level, query, range_stop, r, m, x, y, depth);
        if level <= depth && waits(cur, i, here) {
            let k = choose|k: int| i <= k < cur.len() && 0 <= k && #[trigger] cur[k] == here;
            if k > i {
                assert(waits(cur, i + 1, here));
            } else {
                assert(touched(cell_at(g, x, y, level), query));
            }
        }
    }
}

/// Draining cells keeps what was covered, and covers the goal where the cell
/// on the road to it is drained.
pub proof fn lemma_drain_finds(
    g: u32,
    ranges: Seq<IndexRange>,
    cells: Seq<XElement>,
    from: int,
    level: nat,
    x: u64,
    y: u64,
    depth: nat,
)
    requires
        0 <= from <= cells.len(),
        level <= depth <= g <= MAX_DEPTH_2D,
        x <= grid_side(g),
        y <= grid_side(g),
    ensures
        covers(ranges, goal(g, x, y, depth)) ==> covers(
            spec_drain(g, ranges, cells, from, level),
            goal(g, x, y, depth),
        ),
        waits(cells, from, cell_at(g, x, y, level)) ==> covers(
            spec_drain(g, ranges, cells, from, level),
            goal(g, x, y, depth),
        ),
{
    let t = goal(g, x, y, depth);
    let after = spec_drain(g, ranges, cells, from, level);
    if covers(ranges, t) {
        let k = choose|k: int| 0 <= k < ranges.len() && (#[trigger] ranges[k]).holds(t);
        assert(after[k].holds(t));
    }
    if waits(cells, from, cell_at(g, x, y, level)) {
        let k = choose|k: int|
            from <= k < cells.len() && 0 <= k && #[trigger] cells[k] == cell_at(g, x, y, level);
        lemma_subtree_holds_code(g, x, y, level, depth, false);
        assert(after[ranges.len() + k - from] == interval_range(g, cells[k], level, false, false));
        assert(after[ranges.len() + k - from].holds(t));
    }
}

/// Draining cells keeps what was covered, whatever the level.
proof fn lemma_drain_keeps(
    g: u32,
    ranges: Seq<IndexRange>,
    cells: Seq<XElement>,
    from: int,
    level: nat,
    t: u64,
)
    requires
        0 <= from <= cells.len(),
    ensures
        covers(ranges, t) ==> covers(spec_drain(g, ranges, cells, from, level), t),
{
    let after = spec_drain(g, ranges, cells, from, level);
    if covers(ranges, t) {
        let k = choose|k: int| 0 <= k < ranges.len() && (#[trigger] ranges[k]).holds(t);
        assert(after[k].holds(t));
    }
}

/// The place where the check of a level ends lies within the level.
proof fn lemma_level_ends_within(
    g: u32,
    cur: Seq<XElement>,
    i: int,
    level: nat,
    query: Seq<QueryWindow>,
    range_stop: u16,
    ranges: Seq<IndexRange>,
    next: Seq<XElement>,
)
    requires
        0 <= i <= cur.len(),
    ensures
        i <= spec_check_level(g, cur, i, level, query, range_stop, ranges, next).2 <= cur.len(),
    decreases cur.len() - i,
{
    if !(i >= cur.len() || ranges.len() >= range_stop) {
        let (r, m) = spec_check_value(g, cur[i], level, query, ranges, next);
        lemma_level_ends_within(g, cur, i + 1, level, query, range_stop, r, m);
    }
}

/// The descent covers the goal where it is covered already or the cell on
/// the road to it is among the cells that the descent starts from.
pub proof fn lemma_refine_finds(
    g: u32,
    cur: Seq<XElement>,
    level: nat,
    query: Seq<QueryWindow>,
    range_stop: u16,
    ranges: Seq<IndexRange>,
    x: u64,
    y: u64,
    depth: nat,
)
    requires
        1 <= level <= g <= MAX_DEPTH_2D,
        x <= grid_side(g),
        y <= grid_side(g),
        depth <= g,
        road_is_touched(g, x, y, depth, query),
        covers(ranges, goal(g, x, y, depth)) || (level <= depth && waits(
            cur,
            0,
            cell_at(g, x, y, level),
        )),
    ensures
        covers(spec_refine(g, cur, level, query, range_stop, ranges), goal(g, x, y, depth)),
    decreases g - level,
{
    let t = goal(g, x, y, depth);
    if level >= g {
        lemma_drain_keeps(g, ranges, cur, 0, level, t);
        if level <= depth {
            lemma_drain_finds(g, ranges, cur, 0, level, x, y, depth);
        }
    } else {
        let none = Seq::<XElement>::empty();
        lemma_level_finds(g, cur, 0, level, query, range_stop, ranges, none, x, y, depth);
        lemma_level_ends_within(g, cur, 0, level, query, range_stop, ranges, none);
        let (r, next, i) = spec_check_level(g, cur, 0, level, query, range_stop, ranges, none);
        let here = cell_at(g, x, y, level);
        let there = cell_at(g, x, y, level + 1);
        if i < cur.len() || r.len() >= range_stop {
            let first = spec_drain(g, r, cur, i, level);
            lemma_drain_keeps(g, r, cur, i, level, t);
            lemma_drain_keeps(g, first, next, 0, level + 1, t);
            if level <= depth {
                lemma_drain_finds(g, r, cur, i, level, x, y, depth);
            }
            if level < depth {
                lemma_drain_finds(g, first, next, 0, level + 1, x, y, depth);
            }
        } else if next.len() == 0 {
            assert(!waits(next, 0, there));
            assert(!waits(cur, i, here));
        } else {
            assert(!waits(cur, i, here));
            lemma_refine_finds(g, next, level + 1, query, range_stop, r, x, y, depth);
        }
    }
}

/// The index of a box that a window meets lies in one of the ranges found
/// for the windows, whatever the limit on the number of ranges.
pub proof fn lemma_ranges_hold_index(
    g: u32,
    query: Seq<QueryWindow>,
    range_stop: u16,
    results: Seq<IndexRange>,
    k: int,
    xmin: u64,
    ymin: u64,
    xmax: u64,
    ymax: u64,
)
    requires
        1 <= g <= MAX_DEPTH_2D,
        xmin <= xmax <= grid_side(g),
        ymin <= ymax <= grid_side(g),
        0 <= k < query.len(),
        meets(query[k], xmin, ymin, xmax, ymax),
        merges(spec_raw_ranges(g, query, range_stop), results),
    ensures
        covers(results, spec_index(g, xmin, ymin, xmax, ymax)),
{
    let depth = enclosing_level(g, xmin, ymin, xmax, ymax);
    lemma_enclosing_level_fits(g, xmin, ymin, xmax, ymax);
    assert forall|level: nat| 1 <= level <= depth implies touched(
        #[trigger] cell_at(g, xmin, ymin, level),
        query,
    ) by {
        lemma_window_meets_cells(g, query[k], xmin, ymin, xmax, ymax, depth, level);
        assert(cell_at(g, xmin, ymin, level).spec_overlaps(&query[k]));
    }
    lemma_first_cell_waits(g, xmin, ymin);
    lemma_refine_finds(
        g,
        spec_level_one(g),
        1,
        query,
        range_stop,
        Seq::empty(),
        xmin,
        ymin,
        depth,
    );
    lemma_merged_cover(spec_raw_ranges(g, query, range_stop), results, goal(g, xmin, ymin, depth));
}

} // verus!
