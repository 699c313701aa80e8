//! What the ranges found for a query hold: every point of the query, and in
//! covered ranges nothing else.

use crate::index_range::IndexRange;
use crate::merge::{
    all_contained_within, covers, lemma_covers_push, merges, placed, reached, within,
};
use crate::zorder::z_n::{
    aligned, all_agree, cell, child_cell, clear_low, common_shift, contained_in_any,
    is_common_shift, low_mask, overlapped_by_any, spec_bottom_out, spec_check_value,
    spec_endpoints, spec_expand_cell, spec_expand_level, spec_raw_ranges, spec_refine, ZN,
};
use crate::zorder::z_range::ZRange;
use vstd::prelude::*;

verus! {

/// The index `z` uses no bit above those of the curve.
pub open spec fn in_domain<Z: ZN>(z: u64) -> bool {
    z >> Z::TOTAL_BITS == 0
}

/// Both ends of every bound are indices of the curve.
pub open spec fn bounds_in_domain<Z: ZN>(zbounds: Seq<ZRange>) -> bool {
    forall|k: int|
        0 <= k < zbounds.len() ==> in_domain::<Z>((#[trigger] zbounds[k]).min) && in_domain::<Z>(
            zbounds[k].max,
        )
}

/// The point with index `z` lies in the box of one of the bounds, in user
/// space.
pub open spec fn in_query<Z: ZN>(zbounds: Seq<ZRange>, z: u64) -> bool {
    exists|k: int| 0 <= k < zbounds.len() && Z::spec_contains(#[trigger] zbounds[k], z)
}

/// One of the blocks from place `from` on holds the index `z`.
pub open spec fn held(cells: Seq<ZRange>, from: int, z: u64) -> bool {
    exists|k: int| from <= k < cells.len() && 0 <= k && (#[trigger] cells[k]).contains(z)
}

/// Every one of `cells` is a block with `offset` free bits.
pub open spec fn cells_at(cells: Seq<ZRange>, offset: u64) -> bool {
    forall|k: int|
        0 <= k < cells.len() ==> aligned((#[trigger] cells[k]).min, offset) && cells[k] == cell(
            cells[k].min,
            offset,
        )
}

/// A range tagged as contained holds the index `z`.
pub open spec fn claimed(ranges: Seq<IndexRange>, z: u64) -> bool {
    exists|k: int|
        0 <= k < ranges.len() && (#[trigger] ranges[k]).contained() && ranges[k].holds(z)
}

/// The child of a block in which the index `z` lies, where a child has
/// `offset` free bits and a block has `dims` more.
pub open spec fn child_index(z: u64, offset: u64, dims: u64) -> u64 {
    (z >> offset) & low_mask(dims)
}

/// An index lies between the ends of a block exactly if it has the block's
/// leading bits.
pub proof fn lemma_cell_interval(prefix: u64, offset: u64, z: u64)
    requires
        offset < 64,
        aligned(prefix, offset),
    ensures
        cell(prefix, offset).contains(z) <==> z >> offset == prefix >> offset,
{
    assert(offset < 64 && prefix & low_mask(offset) == 0 ==> ((prefix <= z && z <= (prefix
        | low_mask(offset))) <==> z >> offset == prefix >> offset)) by (bit_vector);
}

/// An index of a block lies in the child that its next bits name.
pub proof fn lemma_child_of(prefix: u64, offset: u64, dims: u64, z: u64)
    requires
        1 <= dims <= 3,
        offset + dims < 64,
        aligned(prefix, (offset + dims) as u64),
        z >> ((offset + dims) as u64) == prefix >> ((offset + dims) as u64),
    ensures
        child_index(z, offset, dims) < 1u64 << dims,
        z >> offset == (prefix | (child_index(z, offset, dims) << offset)) >> offset,
{
    let up = (offset + dims) as u64;
    assert(1 <= dims <= 3 && up == offset + dims && up < 64 && prefix & low_mask(up) == 0 && z >> up
        == prefix >> up ==> ((z >> offset) & low_mask(dims)) < 1u64 << dims && z >> offset == (
    prefix | (((z >> offset) & low_mask(dims)) << offset)) >> offset) by (bit_vector);
}

/// The children of a block are blocks.
pub proof fn lemma_child_aligned(prefix: u64, offset: u64, dims: u64, quadrant: u64)
    requires
        1 <= dims <= 3,
        offset + dims < 64,
        aligned(prefix, (offset + dims) as u64),
        quadrant < 1u64 << dims,
    ensures
        aligned(prefix | (quadrant << offset), offset),
{
    let up = (offset + dims) as u64;
    assert(1 <= dims <= 3 && up == offset + dims && up < 64 && prefix & low_mask(up) == 0
        && quadrant < 1u64 << dims ==> (prefix | (quadrant << offset)) & low_mask(offset) == 0)
        by (bit_vector);
}

/// Clearing the low bits of an index gives the start of the block that holds
/// it.
pub proof fn lemma_clear_low(v: u64, shift: u64)
    requires
        shift < 64,
    ensures
        aligned(clear_low(v, shift), shift),
        clear_low(v, shift) >> shift == v >> shift,
        clear_low(v, shift) | (0u64 << shift) == clear_low(v, shift),
{
    assert(shift < 64 ==> clear_low(v, shift) & low_mask(shift) == 0 && clear_low(v, shift) >> shift
        == v >> shift && clear_low(v, shift) | (0u64 << shift) == clear_low(v, shift))
        by (bit_vector);
}

/// A range put at the end of a list is the only new one that may claim an
/// index.
proof fn lemma_claimed_push(ranges: Seq<IndexRange>, x: IndexRange, z: u64)
    ensures
        claimed(ranges.push(x), z) ==> claimed(ranges, z) || (x.contained() && x.holds(z)),
{
    let after = ranges.push(x);
    if claimed(after, z) {
        let k = choose|k: int|
            0 <= k < after.len() && (#[trigger] after[k]).contained() && after[k].holds(z);
        if k < ranges.len() {
            assert(ranges[k].contained() && ranges[k].holds(z));
        }
    }
}

/// What a pushed block adds to the pending blocks.
proof fn lemma_held_push(cells: Seq<ZRange>, c: ZRange, z: u64)
    ensures
        held(cells, 0, z) ==> held(cells.push(c), 0, z),
        c.contains(z) ==> held(cells.push(c), 0, z),
{
    let after = cells.push(c);
    if held(cells, 0, z) {
        let k = choose|k: int| 0 <= k < cells.len() && (#[trigger] cells[k]).contains(z);
        assert(after[k].contains(z));
    }
    if c.contains(z) {
        assert(after[cells.len() as int].contains(z));
    }
}

/// Checking a block keeps what was covered or pending, and leaves a wanted
/// point of the block covered or pending.
pub proof fn lemma_check_keeps<Z: ZN>(
    prefix: u64,
    quadrant: u64,
    offset: u64,
    zbounds: Seq<ZRange>,
    precision: u64,
    ranges: Seq<IndexRange>,
    remaining: Seq<ZRange>,
    z: u64,
)
    requires
        offset < 64,
        aligned(prefix | (quadrant << offset), offset),
    ensures
        ({
            let (r, m) = spec_check_value::<Z>(
                prefix,
                quadrant,
                offset,
                zbounds,
                precision,
                ranges,
                remaining,
            );
            &&& covers(ranges, z) ==> covers(r, z)
            &&& held(remaining, 0, z) ==> held(m, 0, z)
            &&& child_cell(prefix, quadrant, offset).contains(z) && in_query::<Z>(zbounds, z)
                ==> covers(r, z) || held(m, 0, z)
            &&& cells_at(remaining, offset) ==> cells_at(m, offset)
            &&& claimed(r, z) && offset + precision >= 64 ==> claimed(ranges, z) || in_query::<Z>(
                zbounds,
                z,
            )
        }),
{
    let start = prefix | (quadrant << offset);
    let c = child_cell(prefix, quadrant, offset);
    let x = IndexRange::spec_new(c.min, c.max, true);
    IndexRange::lemma_new_parts(c.min, c.max, true);
    lemma_covers_push(ranges, x, z);
    lemma_claimed_push(ranges, x, z);
    lemma_held_push(remaining, c, z);
    lemma_cell_interval(start, offset, z);
    let (r, m) = spec_check_value::<Z>(
        prefix,
        quadrant,
        offset,
        zbounds,
        precision,
        ranges,
        remaining,
    );
    if c.contains(z) && in_query::<Z>(zbounds, z) {
        let k = choose|k: int| 0 <= k < zbounds.len() && Z::spec_contains(#[trigger] zbounds[k], z);
        Z::lemma_cell_overlaps(zbounds[k], start, offset, z);
        assert(overlapped_by_any::<Z>(zbounds, c));
    }
    if cells_at(remaining, offset) {
        assert forall|k: int| 0 <= k < m.len() implies aligned((#[trigger] m[k]).min, offset)
            && m[k] == cell(m[k].min, offset) by {
            if k < remaining.len() {
                assert(m[k] == remaining[k]);
            }
        }
    }
    if claimed(r, z) && offset + precision >= 64 && !claimed(ranges, z) {
        assert(contained_in_any::<Z>(zbounds, c));
        let k = choose|k: int|
            0 <= k < zbounds.len() && Z::spec_contains(#[trigger] zbounds[k], c.min)
                && Z::spec_contains(zbounds[k], c.max);
        Z::lemma_cell_inside(zbounds[k], start, offset, z);
    }
}

/// Checking the children of a block keeps what was covered or pending, and
/// leaves a wanted point of the block covered or pending.
pub proof fn lemma_cell_keeps<Z: ZN>(
    prefix: u64,
    offset: u64,
    zbounds: Seq<ZRange>,
    precision: u64,
    ranges: Seq<IndexRange>,
    remaining: Seq<ZRange>,
    quadrant: u64,
    z: u64,
)
    requires
        offset + Z::DIMENSIONS < 64,
        aligned(prefix, (offset + Z::DIMENSIONS) as u64),
    ensures
        ({
            let (r, m) = spec_expand_cell::<Z>(
                prefix,
                offset,
                zbounds,
                precision,
                ranges,
                remaining,
                quadrant,
            );
            &&& covers(ranges, z) ==> covers(r, z)
            &&& held(remaining, 0, z) ==> held(m, 0, z)
            &&& cell(prefix, (offset + Z::DIMENSIONS) as u64).contains(z) && child_index(
                z,
                offset,
                Z::DIMENSIONS,
            ) >= quadrant && in_query::<Z>(zbounds, z) ==> covers(r, z) || held(m, 0, z)
            &&& cells_at(remaining, offset) ==> cells_at(m, offset)
            &&& claimed(r, z) && offset + precision >= 64 ==> claimed(ranges, z) || in_query::<Z>(
                zbounds,
                z,
            )
        }),
    decreases Z::QUADRANTS - quadrant,
{
    Z::lemma_shape();
    let up = (offset + Z::DIMENSIONS) as u64;
    lemma_cell_interval(prefix, up, z);
    if cell(prefix, up).contains(z) {
        lemma_child_of(prefix, offset, Z::DIMENSIONS, z);
    }
    if quadrant < Z::QUADRANTS {
        lemma_child_aligned(prefix, offset, Z::DIMENSIONS, quadrant);
        lemma_check_keeps::<Z>(prefix, quadrant, offset, zbounds, precision, ranges, remaining, z);
        let (r, m) = spec_check_value::<Z>(
            prefix,
            quadrant,
            offset,
            zbounds,
            precision,
            ranges,
            remaining,
        );
        lemma_cell_keeps::<Z>(prefix, offset, zbounds, precision, r, m, (quadrant + 1) as u64, z);
        if cell(prefix, up).contains(z) && child_index(z, offset, Z::DIMENSIONS) == quadrant {
            lemma_cell_interval(prefix | (quadrant << offset), offset, z);
        }
    }
}

/// Turning pending blocks into ranges keeps what was covered, covers what
/// the blocks held, and claims nothing new.
pub proof fn lemma_bottom_keeps(ranges: Seq<IndexRange>, cells: Seq<ZRange>, from: int, z: u64)
    requires
        0 <= from <= cells.len(),
    ensures
        covers(ranges, z) ==> covers(spec_bottom_out(ranges, cells, from), z),
        held(cells, from, z) ==> covers(spec_bottom_out(ranges, cells, from), z),
        claimed(spec_bottom_out(ranges, cells, from), z) ==> claimed(ranges, z),
{
    let after = spec_bottom_out(ranges, cells, from);
    if covers(ranges, z) {
        let k = choose|k: int| 0 <= k < ranges.len() && (#[trigger] ranges[k]).holds(z);
        assert(after[k].holds(z));
    }
    if held(cells, from, z) {
        let k = choose|k: int|
            from <= k < cells.len() && 0 <= k && (#[trigger] cells[k]).contains(z);
        IndexRange::lemma_new_parts(cells[k].min, cells[k].max, false);
        assert(after[ranges.len() + k - from].holds(z));
    }
    if claimed(after, z) {
        let k = choose|k: int|
            0 <= k < after.len() && (#[trigger] after[k]).contained() && after[k].holds(z);
        if k >= ranges.len() {
            let j = from + k - ranges.len();
            IndexRange::lemma_new_parts(cells[j].min, cells[j].max, false);
        } else {
            assert(ranges[k].contained() && ranges[k].holds(z));
        }
    }
}

/// Splitting the blocks of a level keeps what was covered or pending, and
/// leaves a wanted point of the level covered or pending.
pub proof fn lemma_level_keeps<Z: ZN>(
    cur: Seq<ZRange>,
    i: int,
    offset: u64,
    zbounds: Seq<ZRange>,
    precision: u64,
    max_ranges: usize,
    ranges: Seq<IndexRange>,
    next: Seq<ZRange>,
    z: u64,
)
    requires
        0 <= i,
        offset + Z::DIMENSIONS < 64,
        cells_at(cur, (offset + Z::DIMENSIONS) as u64),
    ensures
        ({
            let (r, m) = spec_expand_level::<Z>(
                cur,
                i,
                offset,
                zbounds,
                precision,
                max_ranges,
                ranges,
                next,
            );
            &&& covers(ranges, z) ==> covers(r, z)
            &&& held(next, 0, z) ==> covers(r, z) || held(m, 0, z)
            &&& held(cur, i, z) && in_query::<Z>(zbounds, z) ==> covers(r, z) || held(m, 0, z)
            &&& cells_at(next, offset) ==> cells_at(m, offset)
            &&& claimed(r, z) && offset + precision >= 64 ==> claimed(ranges, z) || in_query::<Z>(
                zbounds,
                z,
            )
        }),
    decreases cur.len() - i,
{
    if i < cur.len() {
        let up = (offset + Z::DIMENSIONS) as u64;
        assert(aligned(cur[i].min, up) && cur[i] == cell(cur[i].min, up));
        lemma_cell_keeps::<Z>(cur[i].min, offset, zbounds, precision, ranges, next, 0, z);
        let (r, m) = spec_expand_cell::<Z>(cur[i].min, offset, zbounds, precision, ranges, next, 0);
        if held(cur, i, z) {
            let k = choose|k: int| i <= k < cur.len() && 0 <= k && (#[trigger] cur[k]).contains(z);
            if k > i {
                assert(held(cur, i + 1, z));
            }
        }
        if r.len() + (cur.len() - i - 1) + 1 + m.len() > max_ranges {
            let first = spec_bottom_out(r, cur, i + 1);
            lemma_bottom_keeps(r, cur, i + 1, z);
            lemma_bottom_keeps(first, m, 0, z);
            assert(cells_at(Seq::<ZRange>::empty(), offset));
        } else {
            lemma_level_keeps::<Z>(cur, i + 1, offset, zbounds, precision, max_ranges, r, m, z);
        }
    } else {
        assert(!held(cur, i, z));
    }
}

/// The descent keeps what was covered, covers every wanted point of the
/// blocks it starts from, and at full precision claims only wanted points.
pub proof fn lemma_refine_keeps<Z: ZN>(
    cur: Seq<ZRange>,
    offset: u64,
    level: usize,
    zbounds: Seq<ZRange>,
    precision: u64,
    max_ranges: usize,
    max_recurse: usize,
    ranges: Seq<IndexRange>,
    z: u64,
)
    requires
        offset + Z::DIMENSIONS < 64,
        cells_at(cur, (offset + Z::DIMENSIONS) as u64),
    ensures
        ({
            let r = spec_refine::<Z>(
                cur,
                offset,
                level,
                zbounds,
                precision,
                max_ranges,
                max_recurse,
                ranges,
            );
            &&& covers(ranges, z) ==> covers(r, z)
            &&& held(cur, 0, z) && in_query::<Z>(zbounds, z) ==> covers(r, z)
            &&& claimed(r, z) && precision == 64 ==> claimed(ranges, z) || in_query::<Z>(
                zbounds,
                z,
            )
        }),
    decreases offset,
{
    if cur.len() > 0 {
        let none = Seq::<ZRange>::empty();
        lemma_level_keeps::<Z>(cur, 0, offset, zbounds, precision, max_ranges, ranges, none, z);
        assert(cells_at(none, offset));
        assert(!held(none, 0, z));
        let (r, next) = spec_expand_level::<Z>(
            cur,
            0,
            offset,
            zbounds,
            precision,
            max_ranges,
            ranges,
            none,
        );
        if next.len() == 0 {
            assert(!held(next, 0, z));
        } else if offset < Z::DIMENSIONS || Z::DIMENSIONS == 0 || level + 1 >= max_recurse {
            lemma_bottom_keeps(r, next, 0, z);
        } else {
            lemma_refine_keeps::<Z>(
                next,
                (offset - Z::DIMENSIONS) as u64,
                (level + 1) as usize,
                zbounds,
                precision,
                max_ranges,
                max_recurse,
                r,
                z,
            );
        }
    } else {
        assert(!held(cur, 0, z));
    }
}

/// Every group of indices has a common shift.
pub proof fn lemma_common_shift_exists<Z: ZN>(values: Seq<u64>)
    ensures
        is_common_shift::<Z>(values, common_shift::<Z>(values)),
{
    Z::lemma_shape();
    let d = Z::DIMENSIONS as int;
    let b = Z::BITS_PER_DIMENSION as int;
    assert((b * d) % d == 0) by {
        vstd::arithmetic::div_mod::lemma_mod_multiples_basic(b, d);
    }
    assert(b * d == d * b) by (nonlinear_arith);
    lemma_find_common_shift::<Z>(values, Z::TOTAL_BITS);
}

/// Below a shift above which the values agree, there is a common shift.
proof fn lemma_find_common_shift<Z: ZN>(values: Seq<u64>, shift: u64)
    requires
        1 <= Z::DIMENSIONS <= shift <= Z::TOTAL_BITS,
        shift % Z::DIMENSIONS == 0,
        shift < Z::TOTAL_BITS ==> all_agree(values, shift),
    ensures
        is_common_shift::<Z>(values, common_shift::<Z>(values)),
    decreases shift,
{
    let d = Z::DIMENSIONS;
    if shift > d && all_agree(values, (shift - d) as u64) {
        vstd::arithmetic::div_mod::lemma_mod_sub_multiples_vanish(shift as int, d as int);
        if shift - d < d {
            vstd::arithmetic::div_mod::lemma_small_mod((shift - d) as nat, d as nat);
        }
        lemma_find_common_shift::<Z>(values, (shift - d) as u64);
    } else {
        assert(is_common_shift::<Z>(values, shift));
    }
}

/// Every wanted point lies in the block of the longest common prefix of the
/// bounds' ends.
pub proof fn lemma_query_in_first_cell<Z: ZN>(zbounds: Seq<ZRange>, z: u64)
    requires
        zbounds.len() > 0,
        bounds_in_domain::<Z>(zbounds),
        in_domain::<Z>(z),
        in_query::<Z>(zbounds, z),
    ensures
        ({
            let shift = common_shift::<Z>(spec_endpoints(zbounds));
            cell(clear_low(zbounds[0].min, shift), shift).contains(z)
        }),
{
    Z::lemma_shape();
    let ends = spec_endpoints(zbounds);
    lemma_common_shift_exists::<Z>(ends);
    let shift = common_shift::<Z>(ends);
    let first = zbounds[0].min;
    let prefix = clear_low(first, shift);
    lemma_clear_low(first, shift);
    lemma_cell_interval(prefix, shift, z);
    let k = choose|k: int| 0 <= k < zbounds.len() && Z::spec_contains(#[trigger] zbounds[k], z);
    assert(ends[0] == first);
    assert(in_domain::<Z>(zbounds[0].min));
    assert(in_domain::<Z>(zbounds[k].min));
    if shift < Z::TOTAL_BITS {
        assert(ends[2 * k] == zbounds[k].min);
        assert(ends[2 * k + 1] == zbounds[k].max);
        assert(ends[2 * k] >> shift == ends[0] >> shift);
        assert(ends[2 * k + 1] >> shift == ends[0] >> shift);
        Z::lemma_box_shares_prefix(zbounds[k], shift, z);
    }
}

/// The ranges of the descent cover every wanted point, when the bounds are
/// made of indices of the curve.
pub proof fn lemma_raw_covers<Z: ZN>(
    zbounds: Seq<ZRange>,
    precision: u64,
    max_ranges: usize,
    max_recurse: usize,
    z: u64,
)
    requires
        zbounds.len() > 0,
        bounds_in_domain::<Z>(zbounds),
        in_domain::<Z>(z),
        in_query::<Z>(zbounds, z),
    ensures
        covers(spec_raw_ranges::<Z>(zbounds, precision, max_ranges, max_recurse), z),
{
    Z::lemma_shape();
    let ends = spec_endpoints(zbounds);
    lemma_common_shift_exists::<Z>(ends);
    let shift = common_shift::<Z>(ends);
    let prefix = clear_low(zbounds[0].min, shift);
    let none_r = Seq::<IndexRange>::empty();
    let none_m = Seq::<ZRange>::empty();
    lemma_clear_low(zbounds[0].min, shift);
    lemma_query_in_first_cell::<Z>(zbounds, z);
    lemma_check_keeps::<Z>(prefix, 0, shift, zbounds, precision, none_r, none_m, z);
    assert(cells_at(none_m, shift));
    let (r, m) = spec_check_value::<Z>(prefix, 0, shift, zbounds, precision, none_r, none_m);
    lemma_refine_keeps::<Z>(
        m,
        (shift - Z::DIMENSIONS) as u64,
        0,
        zbounds,
        precision,
        max_ranges,
        max_recurse,
        r,
        z,
    );
}

/// At full precision, an index of a range that the descent tags as contained
/// is a wanted point.
pub proof fn lemma_raw_claims_wanted<Z: ZN>(
    zbounds: Seq<ZRange>,
    max_ranges: usize,
    max_recurse: usize,
    z: u64,
)
    requires
        zbounds.len() > 0,
        claimed(spec_raw_ranges::<Z>(zbounds, 64, max_ranges, max_recurse), z),
    ensures
        in_query::<Z>(zbounds, z),
{
    Z::lemma_shape();
    let ends = spec_endpoints(zbounds);
    lemma_common_shift_exists::<Z>(ends);
    let shift = common_shift::<Z>(ends);
    let prefix = clear_low(zbounds[0].min, shift);
    let none_r = Seq::<IndexRange>::empty();
    let none_m = Seq::<ZRange>::empty();
    lemma_clear_low(zbounds[0].min, shift);
    lemma_check_keeps::<Z>(prefix, 0, shift, zbounds, 64, none_r, none_m, z);
    assert(cells_at(none_m, shift));
    assert(!claimed(none_r, z));
    let (r, m) = spec_check_value::<Z>(prefix, 0, shift, zbounds, 64, none_r, none_m);
    lemma_refine_keeps::<Z>(
        m,
        (shift - Z::DIMENSIONS) as u64,
        0,
        zbounds,
        64,
        max_ranges,
        max_recurse,
        r,
        z,
    );
}

/// Every point of the query lies in one of the ranges returned for it: where
/// the bounds are made of indices of the curve, an index of the curve whose
/// point lies in the box of a bound is held by a range of the result.
pub proof fn lemma_zranges_cover<Z: ZN>(
    zbounds: Seq<ZRange>,
    precision: u64,
    max_ranges: usize,
    max_recurse: usize,
    results: Seq<IndexRange>,
    z: u64,
)
    requires
        zbounds.len() > 0,
        bounds_in_domain::<Z>(zbounds),
        merges(spec_raw_ranges::<Z>(zbounds, precision, max_ranges, max_recurse), results),
        in_domain::<Z>(z),
        in_query::<Z>(zbounds, z),
    ensures
        covers(results, z),
{
    let raw = spec_raw_ranges::<Z>(zbounds, precision, max_ranges, max_recurse);
    lemma_raw_covers::<Z>(zbounds, precision, max_ranges, max_recurse, z);
    let j = choose|j: int| 0 <= j < raw.len() && (#[trigger] raw[j]).holds(z);
    assert(placed(raw[j], results));
    let k = choose|k: int| 0 <= k < results.len() && within(raw[j], #[trigger] results[k]);
    assert(results[k].holds(z));
}

/// A range tagged as contained holds only points of the query: at full
/// precision, every index of such a range of the result has its point in the
/// box of a bound.
pub proof fn lemma_zranges_covered_are_inside<Z: ZN>(
    zbounds: Seq<ZRange>,
    max_ranges: usize,
    max_recurse: usize,
    results: Seq<IndexRange>,
    k: int,
    z: u64,
)
    requires
        zbounds.len() > 0,
        merges(spec_raw_ranges::<Z>(zbounds, 64, max_ranges, max_recurse), results),
        0 <= k < results.len(),
        results[k].contained(),
        results[k].holds(z),
    ensures
        in_query::<Z>(zbounds, z),
{
    let raw = spec_raw_ranges::<Z>(zbounds, 64, max_ranges, max_recurse);
    assert(reached(raw, raw.len() as int, results[k], z));
    let j = choose|j: int|
        0 <= j < raw.len() && (#[trigger] raw[j]).holds(z) && within(raw[j], results[k]);
    assert(all_contained_within(raw, raw.len() as int, results[k]));
    assert(raw[j].contained());
    lemma_raw_claims_wanted::<Z>(zbounds, max_ranges, max_recurse, z);
}

/// The range is a block too large for the precision to count it as covered
/// unseen: a block with at least `64 - precision` free bits.
pub open spec fn coarse(range: IndexRange, precision: u64) -> bool {
    exists|offset: u64|
        offset < 64 && offset + precision >= 64 && aligned(range.lower(), offset) && range.upper()
            == range.lower() | #[trigger] low_mask(offset)
}

/// Every range that is not tagged as contained is coarse.
pub open spec fn overlapping_are_coarse(ranges: Seq<IndexRange>, precision: u64) -> bool {
    forall|k: int|
        0 <= k < ranges.len() && !(#[trigger] ranges[k]).contained() ==> coarse(
            ranges[k],
            precision,
        )
}

/// The pending blocks are blocks with `offset` free bits, and blocks are
/// pending only with at least `64 - precision` free bits.
pub open spec fn pending_are_coarse(cells: Seq<ZRange>, offset: u64, precision: u64) -> bool {
    &&& cells_at(cells, offset)
    &&& cells.len() > 0 ==> offset + precision >= 64
}

/// Checking a block adds no overlapping range, and leaves a block pending
/// only if it is coarse.
pub proof fn lemma_check_stays_coarse<Z: ZN>(
    prefix: u64,
    quadrant: u64,
    offset: u64,
    zbounds: Seq<ZRange>,
    precision: u64,
    ranges: Seq<IndexRange>,
    remaining: Seq<ZRange>,
)
    requires
        offset < 64,
        aligned(prefix | (quadrant << offset), offset),
        overlapping_are_coarse(ranges, precision),
        pending_are_coarse(remaining, offset, precision),
    ensures
        ({
            let (r, m) = spec_check_value::<Z>(
                prefix,
                quadrant,
                offset,
                zbounds,
                precision,
                ranges,
                remaining,
            );
            overlapping_are_coarse(r, precision) && pending_are_coarse(m, offset, precision)
        }),
{
    let c = child_cell(prefix, quadrant, offset);
    IndexRange::lemma_new_parts(c.min, c.max, true);
    let (r, m) = spec_check_value::<Z>(
        prefix,
        quadrant,
        offset,
        zbounds,
        precision,
        ranges,
        remaining,
    );
    assert forall|k: int| 0 <= k < r.len() && !(#[trigger] r[k]).contained() implies coarse(
        r[k],
        precision,
    ) by {
        if k < ranges.len() {
            assert(r[k] == ranges[k]);
        }
    }
    assert forall|k: int| 0 <= k < m.len() implies aligned((#[trigger] m[k]).min, offset)
        && m[k] == cell(m[k].min, offset) by {
        if k < remaining.len() {
            assert(m[k] == remaining[k]);
        }
    }
}

/// Checking the children of a block adds no overlapping range, and leaves
/// blocks pending only if they are coarse.
pub proof fn lemma_cell_stays_coarse<Z: ZN>(
    prefix: u64,
    offset: u64,
    zbounds: Seq<ZRange>,
    precision: u64,
    ranges: Seq<IndexRange>,
    remaining: Seq<ZRange>,
    quadrant: u64,
)
    requires
        offset + Z::DIMENSIONS < 64,
        aligned(prefix, (offset + Z::DIMENSIONS) as u64),
        overlapping_are_coarse(ranges, precision),
        pending_are_coarse(remaining, offset, precision),
    ensures
        ({
            let (r, m) = spec_expand_cell::<Z>(
                prefix,
                offset,
                zbounds,
                precision,
                ranges,
                remaining,
                quadrant,
            );
            overlapping_are_coarse(r, precision) && pending_are_coarse(m, offset, precision)
        }),
    decreases Z::QUADRANTS - quadrant,
{
    Z::lemma_shape();
    if quadrant < Z::QUADRANTS {
        lemma_child_aligned(prefix, offset, Z::DIMENSIONS, quadrant);
        lemma_check_stays_coarse::<Z>(
            prefix,
            quadrant,
            offset,
            zbounds,
            precision,
            ranges,
            remaining,
        );
        let (r, m) = spec_check_value::<Z>(
            prefix,
            quadrant,
            offset,
            zbounds,
            precision,
            ranges,
            remaining,
        );
        lemma_cell_stays_coarse::<Z>(
            prefix,
            offset,
            zbounds,
            precision,
            r,
            m,
            (quadrant + 1) as u64,
        );
    }
}

/// Turning coarse pending blocks into ranges gives coarse ranges.
pub proof fn lemma_bottom_stays_coarse(
    ranges: Seq<IndexRange>,
    cells: Seq<ZRange>,
    from: int,
    offset: u64,
    precision: u64,
)
    requires
        0 <= from <= cells.len(),
        offset < 64,
        overlapping_are_coarse(ranges, precision),
        pending_are_coarse(cells, offset, precision),
    ensures
        overlapping_are_coarse(spec_bottom_out(ranges, cells, from), precision),
{
    let after = spec_bottom_out(ranges, cells, from);
    assert forall|k: int| 0 <= k < after.len() && !(#[trigger] after[k]).contained() implies coarse(
        after[k],
        precision,
    ) by {
        if k < ranges.len() {
            assert(after[k] == ranges[k]);
        } else {
            let j = from + k - ranges.len();
            IndexRange::lemma_new_parts(cells[j].min, cells[j].max, false);
            assert(cells[j] == cell(cells[j].min, offset));
            assert(after[k].upper() == after[k].lower() | low_mask(offset));
        }
    }
}

/// Splitting the blocks of a level adds only coarse overlapping ranges, and
/// leaves blocks pending only if they are coarse.
pub proof fn lemma_level_stays_coarse<Z: ZN>(
    cur: Seq<ZRange>,
    i: int,
    offset: u64,
    zbounds: Seq<ZRange>,
    precision: u64,
    max_ranges: usize,
    ranges: Seq<IndexRange>,
    next: Seq<ZRange>,
)
    requires
        0 <= i,
        offset + Z::DIMENSIONS < 64,
        pending_are_coarse(cur, (offset + Z::DIMENSIONS) as u64, precision),
        overlapping_are_coarse(ranges, precision),
        pending_are_coarse(next, offset, precision),
    ensures
        ({
            let (r, m) = spec_expand_level::<Z>(
                cur,
                i,
                offset,
                zbounds,
                precision,
                max_ranges,
                ranges,
                next,
            );
            overlapping_are_coarse(r, precision) && pending_are_coarse(m, offset, precision)
        }),
    decreases cur.len() - i,
{
    if i < cur.len() {
        let up = (offset + Z::DIMENSIONS) as u64;
        assert(aligned(cur[i].min, up));
        lemma_cell_stays_coarse::<Z>(cur[i].min, offset, zbounds, precision, ranges, next, 0);
        let (r, m) = spec_expand_cell::<Z>(cur[i].min, offset, zbounds, precision, ranges, next, 0);
        if r.len() + (cur.len() - i - 1) + 1 + m.len() > max_ranges {
            lemma_bottom_stays_coarse(r, cur, i + 1, up, precision);
            lemma_bottom_stays_coarse(spec_bottom_out(r, cur, i + 1), m, 0, offset, precision);
            assert(cells_at(Seq::<ZRange>::empty(), offset));
        } else {
            lemma_level_stays_coarse::<Z>(
                cur,
                i + 1,
                offset,
                zbounds,
                precision,
                max_ranges,
                r,
                m,
            );
        }
    }
}

/// The descent adds only coarse overlapping ranges.
pub proof fn lemma_refine_stays_coarse<Z: ZN>(
    cur: Seq<ZRange>,
    offset: u64,
    level: usize,
    zbounds: Seq<ZRange>,
    precision: u64,
    max_ranges: usize,
    max_recurse: usize,
    ranges: Seq<IndexRange>,
)
    requires
        offset + Z::DIMENSIONS < 64,
        pending_are_coarse(cur, (offset + Z::DIMENSIONS) as u64, precision),
        overlapping_are_coarse(ranges, precision),
    ensures
        overlapping_are_coarse(
            spec_refine::<Z>(
                cur,
                offset,
                level,
                zbounds,
                precision,
                max_ranges,
                max_recurse,
                ranges,
            ),
            precision,
        ),
    decreases offset,
{
    if cur.len() > 0 {
        let none = Seq::<ZRange>::empty();
        assert(cells_at(none, offset));
        lemma_level_stays_coarse::<Z>(
            cur,
            0,
            offset,
            zbounds,
            precision,
            max_ranges,
            ranges,
            none,
        );
        let (r, next) = spec_expand_level::<Z>(
            cur,
            0,
            offset,
            zbounds,
            precision,
            max_ranges,
            ranges,
            none,
        );
        if next.len() == 0 {
        } else if offset < Z::DIMENSIONS || Z::DIMENSIONS == 0 || level + 1 >= max_recurse {
            lemma_bottom_stays_coarse(r, next, 0, offset, precision);
        } else {
            lemma_refine_stays_coarse::<Z>(
                next,
                (offset - Z::DIMENSIONS) as u64,
                (level + 1) as usize,
                zbounds,
                precision,
                max_ranges,
                max_recurse,
                r,
            );
        }
    }
}

/// Before the ranges are merged, none that is tagged as overlapping is
/// smaller than the floor of the precision: each is a block with at least
/// `64 - precision` free bits.
pub proof fn lemma_raw_overlapping_are_coarse<Z: ZN>(
    zbounds: Seq<ZRange>,
    precision: u64,
    max_ranges: usize,
    max_recurse: usize,
)
    requires
        zbounds.len() > 0,
    ensures
        overlapping_are_coarse(
            spec_raw_ranges::<Z>(zbounds, precision, max_ranges, max_recurse),
            precision,
        ),
{
    Z::lemma_shape();
    let ends = spec_endpoints(zbounds);
    lemma_common_shift_exists::<Z>(ends);
    let shift = common_shift::<Z>(ends);
    let prefix = clear_low(zbounds[0].min, shift);
    let none_r = Seq::<IndexRange>::empty();
    let none_m = Seq::<ZRange>::empty();
    lemma_clear_low(zbounds[0].min, shift);
    assert(cells_at(none_m, shift));
    lemma_check_stays_coarse::<Z>(prefix, 0, shift, zbounds, precision, none_r, none_m);
    let (r, m) = spec_check_value::<Z>(prefix, 0, shift, zbounds, precision, none_r, none_m);
    lemma_refine_stays_coarse::<Z>(
        m,
        (shift - Z::DIMENSIONS) as u64,
        0,
        zbounds,
        precision,
        max_ranges,
        max_recurse,
        r,
    );
}

} // verus!
