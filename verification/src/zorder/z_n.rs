//! What every N-dimensional Z-order curve offers.

use crate::bits::lemma_same_high_bits;
use crate::index_range::{CoveredRange, IndexRange, OverlappingRange};
use crate::merge::{all_wf, covers, merges, sort_and_merge};
use crate::zorder::covering::{
    bounds_in_domain, in_domain, in_query, lemma_raw_overlapping_are_coarse, lemma_zranges_cover,
    lemma_zranges_covered_are_inside, overlapping_are_coarse,
};
use crate::zorder::z_range::ZRange;
use vstd::prelude::*;

verus! {

/// The depth of refinement where the caller asks for none.
pub const DEFAULT_RECURSE: usize = 7;

/// Bit `i` of `v`.
pub open spec fn bit(v: u64, i: u64) -> bool {
    (v >> i) & 1 == 1
}

/// The word whose `n` lowest bits are set, for `n < 64`.
pub open spec fn low_mask(n: u64) -> u64 {
    ((1u64 << n) - 1) as u64
}

/// The block of indices that share the bits of `prefix` above the `offset`
/// lowest ones.
pub open spec fn cell(prefix: u64, offset: u64) -> ZRange {
    ZRange { min: prefix, max: prefix | low_mask(offset) }
}

/// `prefix` has none of its `offset` lowest bits set.
pub open spec fn aligned(prefix: u64, offset: u64) -> bool {
    prefix & low_mask(offset) == 0
}

/// `v` with its `n` lowest bits cleared, for `n < 64`.
pub open spec fn clear_low(v: u64, n: u64) -> u64 {
    v & (0xffff_ffff_ffff_ffffu64 << n)
}

/// All `values` have the same bits above the `shift` lowest ones.
pub open spec fn all_agree(values: Seq<u64>, shift: u64) -> bool {
    forall|j: int| 0 <= j < values.len() ==> (#[trigger] values[j]) >> shift == values[0] >> shift
}

/// The two ends of each bound, in turn.
pub open spec fn spec_endpoints(zbounds: Seq<ZRange>) -> Seq<u64> {
    Seq::new(
        2 * zbounds.len(),
        |j: int|
            if j % 2 == 0 {
                zbounds[j / 2].min
            } else {
                zbounds[j / 2].max
            },
    )
}

/// The longest common prefix of a group of indices.
#[derive(Debug, PartialEq, Eq, Structural, Clone, Copy)]
pub struct ZPrefix {
    /// The common prefix: the leading bits that are shared, the rest zero.
    pub prefix: u64,
    /// The number of leading bits that are shared.
    pub precision: u64,
}

/// An N-dimensional Z-order curve: the index of a point is made by taking
/// the bits of its coordinates in turn.
pub trait ZN: Sized {
    /// Number of bits per dimension.
    const BITS_PER_DIMENSION: u32;

    /// Number of dimensions.
    const DIMENSIONS: u64;

    /// Largest value of a coordinate.
    const MAX_MASK: u64;

    /// Number of bits of an index: bits per dimension times dimensions.
    const TOTAL_BITS: u64;

    /// Number of children of a node of the tree that the curve walks.
    const QUADRANTS: u32;

    /// The result of `split`.
    spec fn spec_split(value: u32) -> u64;

    /// The result of `combine`.
    spec fn spec_combine(z: u64) -> u32;

    /// The result of `contains`.
    spec fn spec_contains(range: ZRange, value: u64) -> bool;

    /// The result of `overlaps`.
    spec fn spec_overlaps(range: ZRange, value: ZRange) -> bool;

    /// Spreads the lowest `BITS_PER_DIMENSION` bits of `value`: bit `i` goes to
    /// place `DIMENSIONS * i`, every other bit of the result is zero.
    fn split(value: u32) -> (r: u64)
        ensures
            r == Self::spec_split(value),
    ;

    /// Gathers every `DIMENSIONS`-th bit of `z` into one coordinate; undoes
    /// `split`.
    fn combine(z: u64) -> (r: u32)
        ensures
            r == Self::spec_combine(z),
    ;

    /// Whether the point `value` lies in the box whose corners are the ends of
    /// `range`, axis by axis in user space.
    fn contains(range: ZRange, value: u64) -> (r: bool)
        ensures
            r == Self::spec_contains(range, value),
    ;

    /// Whether both corners of `value` lie in the box of `range`, in user
    /// space.
    #[must_use]
    fn contains_value(range: ZRange, value: ZRange) -> (r: bool)
        ensures
            r == (Self::spec_contains(range, value.min) && Self::spec_contains(range, value.max)),
    {
        Self::contains(range, value.min) && Self::contains(range, value.max)
    }

    /// Whether the boxes of `range` and `value` meet on every axis, in user
    /// space.
    #[must_use]
    fn overlaps(range: ZRange, value: ZRange) -> (r: bool)
        ensures
            r == Self::spec_overlaps(range, value),
    ;

    /// The constants fit together.
    proof fn lemma_shape()
        ensures
            1 <= Self::DIMENSIONS <= 3,
            2 <= Self::BITS_PER_DIMENSION,
            Self::TOTAL_BITS == Self::DIMENSIONS * Self::BITS_PER_DIMENSION,
            2 * Self::DIMENSIONS <= Self::TOTAL_BITS <= 63,
            Self::QUADRANTS == 1u64 << Self::DIMENSIONS,
            Self::MAX_MASK == low_mask(Self::BITS_PER_DIMENSION as u64),
    ;

    /// `split` puts bit `i` of a coordinate at place `DIMENSIONS * i` and
    /// leaves every other place empty.
    proof fn lemma_split_spreads(value: u32)
        ensures
            forall|j: u64|
                j < 64 ==> (#[trigger] bit(Self::spec_split(value), j) <==> j % Self::DIMENSIONS
                    == 0 && j / Self::DIMENSIONS < Self::BITS_PER_DIMENSION && bit(
                    value as u64,
                    j / Self::DIMENSIONS,
                )),
    ;

    /// `combine` takes bit `i` of a coordinate from place `DIMENSIONS * i`.
    proof fn lemma_combine_gathers(z: u64)
        ensures
            forall|i: u64|
                i < Self::BITS_PER_DIMENSION ==> (#[trigger] bit(Self::spec_combine(z) as u64, i)
                    <==> bit(z, (Self::DIMENSIONS * i) as u64)),
    ;

    /// `combine` undoes `split` on every coordinate up to `MAX_MASK`.
    proof fn lemma_combine_split(value: u32)
        requires
            value <= Self::MAX_MASK,
        ensures
            Self::spec_combine(Self::spec_split(value)) == value,
    ;

    /// A point lies in a box exactly if each of its coordinates lies between
    /// those of the two corners.
    proof fn lemma_contains_axiswise(range: ZRange, value: u64)
        ensures
            Self::spec_contains(range, value) <==> (forall|i: u64|
                i < Self::DIMENSIONS ==> Self::spec_combine(range.min >> i)
                    <= #[trigger] Self::spec_combine(value >> i) <= Self::spec_combine(
                    range.max >> i,
                )),
    ;

    /// Two boxes overlap exactly if on each axis the larger of the lower
    /// bounds is at most the smaller of the upper bounds.
    proof fn lemma_overlaps_axiswise(range: ZRange, value: ZRange)
        ensures
            Self::spec_overlaps(range, value) <==> (forall|i: u64|
                i < Self::DIMENSIONS ==> {
                    &&& #[trigger] Self::spec_combine(range.min >> i) <= Self::spec_combine(
                        value.max >> i,
                    )
                    &&& Self::spec_combine(value.min >> i) <= Self::spec_combine(value.max >> i)
                    &&& Self::spec_combine(range.min >> i) <= Self::spec_combine(range.max >> i)
                    &&& Self::spec_combine(value.min >> i) <= Self::spec_combine(range.max >> i)
                }),
    ;

    /// A block whose two ends lie in a box lies in it with all its points.
    proof fn lemma_cell_inside(range: ZRange, prefix: u64, offset: u64, z: u64)
        requires
            offset < 64,
            aligned(prefix, offset),
            Self::spec_contains(range, prefix),
            Self::spec_contains(range, prefix | low_mask(offset)),
            z >> offset == prefix >> offset,
        ensures
            Self::spec_contains(range, z),
    ;

    /// A block that holds a point of a box overlaps the box.
    proof fn lemma_cell_overlaps(range: ZRange, prefix: u64, offset: u64, z: u64)
        requires
            offset < 64,
            aligned(prefix, offset),
            Self::spec_contains(range, z),
            z >> offset == prefix >> offset,
        ensures
            Self::spec_overlaps(range, cell(prefix, offset)),
    ;

    /// The points of a box share every leading bit that its two corners share.
    proof fn lemma_box_shares_prefix(range: ZRange, shift: u64, z: u64)
        requires
            shift < 64,
            range.min >> shift == range.max >> shift,
            Self::spec_contains(range, z),
            range.min >> Self::TOTAL_BITS == 0,
            z >> Self::TOTAL_BITS == 0,
        ensures
            z >> shift == range.min >> shift,
    ;
}

/// `shift` is the number of low bits that the longest common prefix of
/// `values` leaves free: a multiple of the dimensions between one step and
/// all the bits of an index, above which the values agree (unless it is all
/// the bits, where nothing is asked), and the least such (unless it is one
/// step, below which nothing is tried).
pub open spec fn is_common_shift<Z: ZN>(values: Seq<u64>, shift: u64) -> bool {
    &&& Z::DIMENSIONS <= shift <= Z::TOTAL_BITS
    &&& shift % Z::DIMENSIONS == 0
    &&& shift < Z::TOTAL_BITS ==> all_agree(values, shift)
    &&& shift > Z::DIMENSIONS ==> !all_agree(values, (shift - Z::DIMENSIONS) as u64)
}

/// The longest common prefix of `values`, found by dropping `DIMENSIONS`
/// bits at a time, starting below the topmost step. At least one step is
/// always left free.
#[must_use]
pub fn longest_common_prefix<Z: ZN>(values: &[u64]) -> (r: ZPrefix)
    requires
        values.len() > 0,
    ensures
        r.precision < 64,
        is_common_shift::<Z>(values@, (64 - r.precision) as u64),
        r.prefix == clear_low(values[0], (64 - r.precision) as u64),
{
    proof {
        Z::lemma_shape();
    }
    let mut bit_shift: u64 = Z::TOTAL_BITS - Z::DIMENSIONS;
    proof {
        lemma_multiple_steps(Z::DIMENSIONS, Z::BITS_PER_DIMENSION as u64, bit_shift);
    }
    let mut searching: bool = true;
    while searching
        invariant
            1 <= Z::DIMENSIONS <= 3,
            2 * Z::DIMENSIONS <= Z::TOTAL_BITS <= 63,
            values.len() > 0,
            bit_shift % Z::DIMENSIONS == 0,
            bit_shift + Z::DIMENSIONS <= Z::TOTAL_BITS,
            searching ==> bit_shift >= Z::DIMENSIONS,
            bit_shift + Z::DIMENSIONS < Z::TOTAL_BITS ==> all_agree(
                values@,
                (bit_shift + Z::DIMENSIONS) as u64,
            ),
            !searching && bit_shift > 0 ==> !all_agree(values@, bit_shift),
        decreases bit_shift + (if searching { 1int } else { 0int }),
    {
        let head: u64 = values[0] >> bit_shift;
        if all_share(values, bit_shift, head) {
            proof {
                lemma_step_down(Z::DIMENSIONS, bit_shift);
            }
            bit_shift = bit_shift - Z::DIMENSIONS;
            if bit_shift == 0 {
                searching = false;
            }
        } else {
            searching = false;
        }
    }
    proof {
        lemma_step_up(Z::DIMENSIONS, bit_shift);
    }
    bit_shift = bit_shift + Z::DIMENSIONS;
    ZPrefix { prefix: values[0] & (u64::MAX << bit_shift), precision: 64 - bit_shift }
}

/// The number of low bits that the longest common prefix of `values` leaves
/// free.
pub open spec fn common_shift<Z: ZN>(values: Seq<u64>) -> u64 {
    choose|shift: u64| is_common_shift::<Z>(values, shift)
}

/// Every block has its ends in order.
pub open spec fn all_ordered(cells: Seq<ZRange>) -> bool {
    forall|k: int| 0 <= k < cells.len() ==> (#[trigger] cells[k]).min <= cells[k].max
}

/// Some bound holds both ends of the block `c` in its box, in user space.
pub open spec fn contained_in_any<Z: ZN>(zbounds: Seq<ZRange>, c: ZRange) -> bool {
    exists|k: int|
        0 <= k < zbounds.len() && Z::spec_contains(#[trigger] zbounds[k], c.min)
            && Z::spec_contains(zbounds[k], c.max)
}

/// The box of some bound overlaps that of the block `c`, in user space.
pub open spec fn overlapped_by_any<Z: ZN>(zbounds: Seq<ZRange>, c: ZRange) -> bool {
    exists|k: int| 0 <= k < zbounds.len() && Z::spec_overlaps(#[trigger] zbounds[k], c)
}

/// Child `quadrant` of the block that starts at `prefix`, where a child has
/// `offset` free bits.
pub open spec fn child_cell(prefix: u64, quadrant: u64, offset: u64) -> ZRange {
    cell(prefix | (quadrant << offset), offset)
}

/// What `check_value` does to the lists of ranges and of pending blocks.
pub open spec fn spec_check_value<Z: ZN>(
    prefix: u64,
    quadrant: u64,
    offset: u64,
    zbounds: Seq<ZRange>,
    precision: u64,
    ranges: Seq<IndexRange>,
    remaining: Seq<ZRange>,
) -> (Seq<IndexRange>, Seq<ZRange>) {
    let c = child_cell(prefix, quadrant, offset);
    if contained_in_any::<Z>(zbounds, c) || offset + precision < 64 {
        (ranges.push(IndexRange::spec_new(c.min, c.max, true)), remaining)
    } else if overlapped_by_any::<Z>(zbounds, c) {
        (ranges, remaining.push(c))
    } else {
        (ranges, remaining)
    }
}

/// What checking the children of a block does, from child `quadrant` on.
pub open spec fn spec_expand_cell<Z: ZN>(
    prefix: u64,
    offset: u64,
    zbounds: Seq<ZRange>,
    precision: u64,
    ranges: Seq<IndexRange>,
    remaining: Seq<ZRange>,
    quadrant: u64,
) -> (Seq<IndexRange>, Seq<ZRange>)
    decreases Z::QUADRANTS - quadrant,
{
    if quadrant >= Z::QUADRANTS {
        (ranges, remaining)
    } else {
        let (r, m) = spec_check_value::<Z>(
            prefix,
            quadrant,
            offset,
            zbounds,
            precision,
            ranges,
            remaining,
        );
        spec_expand_cell::<Z>(prefix, offset, zbounds, precision, r, m, (quadrant + 1) as u64)
    }
}

/// `ranges`, followed by an overlapping range for each of `cells` from place
/// `from` on.
pub open spec fn spec_bottom_out(ranges: Seq<IndexRange>, cells: Seq<ZRange>, from: int) -> Seq<
    IndexRange,
> {
    ranges + Seq::new(
        (cells.len() - from) as nat,
        |j: int| IndexRange::spec_new(cells[from + j].min, cells[from + j].max, false),
    )
}

/// What splitting the blocks of one level does, from block `i` on: each
/// block's children are checked; when after a block the ranges and the blocks
/// still pending, with one more for the end of the level, are more than
/// `max_ranges`, all that is pending becomes overlapping ranges.
pub open spec fn spec_expand_level<Z: ZN>(
    cur: Seq<ZRange>,
    i: int,
    offset: u64,
    zbounds: Seq<ZRange>,
    precision: u64,
    max_ranges: usize,
    ranges: Seq<IndexRange>,
    next: Seq<ZRange>,
) -> (Seq<IndexRange>, Seq<ZRange>)
    decreases cur.len() - i,
{
    if i < 0 || i >= cur.len() {
        (ranges, next)
    } else {
        let (r, m) = spec_expand_cell::<Z>(cur[i].min, offset, zbounds, precision, ranges, next, 0);
        if r.len() + (cur.len() - i - 1) + 1 + m.len() > max_ranges {
            (spec_bottom_out(spec_bottom_out(r, cur, i + 1), m, 0), Seq::empty())
        } else {
            spec_expand_level::<Z>(cur, i + 1, offset, zbounds, precision, max_ranges, r, m)
        }
    }
}

/// What the descent does, level by level: the blocks of `cur` are split into
/// children with `offset` free bits; the children left pending are split in
/// turn, unless no bits are left or `max_recurse` levels are done, where they
/// become overlapping ranges.
pub open spec fn spec_refine<Z: ZN>(
    cur: Seq<ZRange>,
    offset: u64,
    level: usize,
    zbounds: Seq<ZRange>,
    precision: u64,
    max_ranges: usize,
    max_recurse: usize,
    ranges: Seq<IndexRange>,
) -> Seq<IndexRange>
    decreases offset,
{
    if cur.len() == 0 {
        ranges
    } else {
        let (r, next) = spec_expand_level::<Z>(
            cur,
            0,
            offset,
            zbounds,
            precision,
            max_ranges,
            ranges,
            Seq::empty(),
        );
        if next.len() == 0 {
            r
        } else if offset < Z::DIMENSIONS || Z::DIMENSIONS == 0 || level + 1 >= max_recurse {
            spec_bottom_out(r, next, 0)
        } else {
            spec_refine::<Z>(
                next,
                (offset - Z::DIMENSIONS) as u64,
                (level + 1) as usize,
                zbounds,
                precision,
                max_ranges,
                max_recurse,
                r,
            )
        }
    }
}

/// The ranges that the descent finds for `zbounds`, before they are sorted
/// and merged: the block of the longest common prefix is checked, and split
/// as long as parts of it are pending.
pub open spec fn spec_raw_ranges<Z: ZN>(
    zbounds: Seq<ZRange>,
    precision: u64,
    max_ranges: usize,
    max_recurse: usize,
) -> Seq<IndexRange> {
    let shift = common_shift::<Z>(spec_endpoints(zbounds));
    let prefix = clear_low(zbounds[0].min, shift);
    let (r, m) = spec_check_value::<Z>(
        prefix,
        0,
        shift,
        zbounds,
        precision,
        Seq::empty(),
        Seq::empty(),
    );
    spec_refine::<Z>(
        m,
        (shift - Z::DIMENSIONS) as u64,
        0,
        zbounds,
        precision,
        max_ranges,
        max_recurse,
        r,
    )
}

/// The index ranges that cover `zbounds`, with 64 bits of precision, at most
/// `DEFAULT_RECURSE` levels and no limit on the number of ranges.
#[must_use]
pub fn zranges_default<Z: ZN>(zbounds: &[ZRange]) -> (results: Vec<IndexRange>)
    requires
        zbounds.len() > 0,
    ensures
        merges(spec_raw_ranges::<Z>(zbounds@, 64, usize::MAX, DEFAULT_RECURSE), results@),
        bounds_in_domain::<Z>(zbounds@) ==> forall|z: u64|
            in_domain::<Z>(z) && #[trigger] in_query::<Z>(zbounds@, z) ==> covers(results@, z),
        forall|k: int, z: u64|
            0 <= k < results.len() && results@[k].contained() && #[trigger] results@[k].holds(z)
                ==> in_query::<Z>(zbounds@, z),
{
    zranges::<Z>(zbounds, 64, Some(usize::MAX), Some(DEFAULT_RECURSE))
}

/// The index ranges that cover `zbounds`: the ranges that the descent finds,
/// sorted and merged. Without `max_ranges` the number of ranges is not
/// limited; without `max_recurse` the descent takes `DEFAULT_RECURSE` levels.
#[must_use]
pub fn zranges<Z: ZN>(
    zbounds: &[ZRange],
    precision: u64,
    max_ranges: Option<usize>,
    max_recurse: Option<usize>,
) -> (results: Vec<IndexRange>)
    requires
        zbounds.len() > 0,
        precision <= 64,
    ensures
        merges(
            spec_raw_ranges::<Z>(
                zbounds@,
                precision,
                max_ranges.unwrap_or(usize::MAX),
                max_recurse.unwrap_or(DEFAULT_RECURSE),
            ),
            results@,
        ),
        bounds_in_domain::<Z>(zbounds@) ==> forall|z: u64|
            in_domain::<Z>(z) && #[trigger] in_query::<Z>(zbounds@, z) ==> covers(results@, z),
        precision == 64 ==> forall|k: int, z: u64|
            0 <= k < results.len() && results@[k].contained() && #[trigger] results@[k].holds(z)
                ==> in_query::<Z>(zbounds@, z),
{
    let max_recurse: usize = max_recurse.unwrap_or(DEFAULT_RECURSE);
    let max_ranges: usize = max_ranges.unwrap_or(usize::MAX);
    let ranges = raw_zranges::<Z>(zbounds, precision, max_ranges, max_recurse);
    let results = sort_and_merge(ranges);
    proof {
        if bounds_in_domain::<Z>(zbounds@) {
            assert forall|z: u64|
                in_domain::<Z>(z) && #[trigger] in_query::<Z>(zbounds@, z) implies covers(
                results@,
                z,
            ) by {
                lemma_zranges_cover::<Z>(zbounds@, precision, max_ranges, max_recurse, results@, z);
            }
        }
        if precision == 64 {
            assert forall|k: int, z: u64|
                0 <= k < results.len() && results@[k].contained()
                    && #[trigger] results@[k].holds(z) implies in_query::<Z>(zbounds@, z) by {
                lemma_zranges_covered_are_inside::<Z>(
                    zbounds@,
                    max_ranges,
                    max_recurse,
                    results@,
                    k,
                    z,
                );
            }
        }
    }
    results
}

/// The ranges that the descent finds for `zbounds`, as they are found: the
/// block of the longest common prefix of the bounds' ends is checked, and
/// split level by level as long as parts of it are pending. A range that is
/// tagged as overlapping has at least `64 - precision` free bits.
#[must_use]
pub fn raw_zranges<Z: ZN>(
    zbounds: &[ZRange],
    precision: u64,
    max_ranges: usize,
    max_recurse: usize,
) -> (ranges: Vec<IndexRange>)
    requires
        zbounds.len() > 0,
        precision <= 64,
    ensures
        ranges@ == spec_raw_ranges::<Z>(zbounds@, precision, max_ranges, max_recurse),
        all_wf(ranges@),
        overlapping_are_coarse(ranges@, precision),
{
    proof {
        Z::lemma_shape();
        lemma_raw_overlapping_are_coarse::<Z>(zbounds@, precision, max_ranges, max_recurse);
    }
    let ends = endpoints(zbounds);
    let lcp = longest_common_prefix::<Z>(ends.as_slice());
    let top: u64 = 64 - lcp.precision;
    proof {
        lemma_common_shift_unique::<Z>(ends@, top, common_shift::<Z>(ends@));
        assert(ends@[0] == zbounds@[0].min);
    }

    let mut ranges: Vec<IndexRange> = Vec::with_capacity(100);
    let mut cur: Vec<ZRange> = Vec::with_capacity(100);
    check_value::<Z>(lcp.prefix, 0, top, zbounds, precision, &mut ranges, &mut cur);

    let mut offset: u64 = top - Z::DIMENSIONS;
    let mut level: usize = 0;
    let ghost raw = spec_raw_ranges::<Z>(zbounds@, precision, max_ranges, max_recurse);
    while cur.len() > 0
        invariant
            1 <= Z::DIMENSIONS <= 3,
            offset + Z::DIMENSIONS < 64,
            level + offset < 64,
            precision <= 64,
            all_wf(ranges@),
            all_ordered(cur@),
            raw == spec_refine::<Z>(
                cur@,
                offset,
                level,
                zbounds@,
                precision,
                max_ranges,
                max_recurse,
                ranges@,
            ),
        decreases
                if cur.len() > 0 {
                    offset + 1
                } else {
                    0
                },
    {
        let next = expand_level::<Z>(&cur, offset, zbounds, precision, max_ranges, &mut ranges);
        if next.len() == 0 {
            cur = next;
        } else if offset < Z::DIMENSIONS || level + 1 >= max_recurse {
            bottom_out(&mut ranges, &next, 0);
            cur = Vec::new();
        } else {
            level = level + 1;
            offset = offset - Z::DIMENSIONS;
            cur = next;
        }
    }
    ranges
}

/// Classifies child `quadrant` of the block at `prefix`: a child that lies
/// in the box of a bound, or that has fewer than `64 - precision` free bits,
/// becomes a covered range; another that overlaps the box of a bound is left
/// pending; the rest is dropped.
pub fn check_value<Z: ZN>(
    prefix: u64,
    quadrant: u64,
    offset: u64,
    zbounds: &[ZRange],
    precision: u64,
    ranges: &mut Vec<IndexRange>,
    remaining: &mut Vec<ZRange>,
)
    requires
        offset < 64,
        precision <= 64,
        all_wf(old(ranges)@),
        all_ordered(old(remaining)@),
    ensures
        (final(ranges)@, final(remaining)@) == spec_check_value::<Z>(
            prefix,
            quadrant,
            offset,
            zbounds@,
            precision,
            old(ranges)@,
            old(remaining)@,
        ),
        all_wf(final(ranges)@),
        all_ordered(final(remaining)@),
{
    proof {
        lemma_mask_exec(prefix | (quadrant << offset), offset);
    }
    let min: u64 = prefix | (quadrant << offset);
    let max: u64 = min | ((1u64 << offset) - 1);
    let quadrant_range = ZRange { min, max };

    if is_contained::<Z>(quadrant_range, zbounds) || offset < 64 - precision {
        ranges.push(CoveredRange::new(min, max));
    } else if is_overlapped::<Z>(quadrant_range, zbounds) {
        remaining.push(quadrant_range);
    }
}

/// Turns the pending blocks from place `from` on into overlapping ranges.
pub fn bottom_out(ranges: &mut Vec<IndexRange>, remaining: &Vec<ZRange>, from: usize)
    requires
        from <= remaining.len(),
        all_wf(old(ranges)@),
        all_ordered(remaining@),
    ensures
        final(ranges)@ == spec_bottom_out(old(ranges)@, remaining@, from as int),
        all_wf(final(ranges)@),
{
    let mut i: usize = from;
    while i < remaining.len()
        invariant
            from <= i <= remaining.len(),
            all_wf(ranges@),
            all_ordered(remaining@),
            ranges@ == old(ranges)@ + Seq::new(
                (i - from) as nat,
                |j: int|
                    IndexRange::spec_new(remaining@[from + j].min, remaining@[from + j].max, false),
            ),
        decreases remaining.len() - i,
    {
        let ghost before = ranges@;
        let c = remaining[i];
        ranges.push(OverlappingRange::new(c.min, c.max));
        i = i + 1;
        assert(ranges@ =~= old(ranges)@ + Seq::new(
            (i - from) as nat,
            |j: int|
                IndexRange::spec_new(remaining@[from + j].min, remaining@[from + j].max, false),
        ));
    }
}

/// Whether some bound holds both ends of `range` in its box, in user space.
pub fn is_contained<Z: ZN>(range: ZRange, zbounds: &[ZRange]) -> (r: bool)
    ensures
        r == contained_in_any::<Z>(zbounds@, range),
{
    let mut k: usize = 0;
    while k < zbounds.len()
        invariant
            k <= zbounds.len(),
            forall|j: int|
                0 <= j < k ==> !(Z::spec_contains(#[trigger] zbounds@[j], range.min)
                    && Z::spec_contains(zbounds@[j], range.max)),
        decreases zbounds.len() - k,
    {
        if Z::contains_value(zbounds[k], range) {
            return true;
        }
        k = k + 1;
    }
    false
}

/// Whether the box of some bound overlaps that of `range`, in user space.
pub fn is_overlapped<Z: ZN>(range: ZRange, zbounds: &[ZRange]) -> (r: bool)
    ensures
        r == overlapped_by_any::<Z>(zbounds@, range),
{
    let mut k: usize = 0;
    while k < zbounds.len()
        invariant
            k <= zbounds.len(),
            forall|j: int| 0 <= j < k ==> !Z::spec_overlaps(#[trigger] zbounds@[j], range),
        decreases zbounds.len() - k,
    {
        if Z::overlaps(zbounds[k], range) {
            return true;
        }
        k = k + 1;
    }
    false
}

/// Checks all children of the block that starts at `prefix`.
fn expand_cell<Z: ZN>(
    prefix: u64,
    offset: u64,
    zbounds: &[ZRange],
    precision: u64,
    ranges: &mut Vec<IndexRange>,
    remaining: &mut Vec<ZRange>,
)
    requires
        offset < 64,
        precision <= 64,
        all_wf(old(ranges)@),
        all_ordered(old(remaining)@),
    ensures
        (final(ranges)@, final(remaining)@) == spec_expand_cell::<Z>(
            prefix,
            offset,
            zbounds@,
            precision,
            old(ranges)@,
            old(remaining)@,
            0,
        ),
        all_wf(final(ranges)@),
        all_ordered(final(remaining)@),
{
    let mut quadrant: u64 = 0;
    let quadrants: u64 = Z::QUADRANTS as u64;
    while quadrant < quadrants
        invariant
            quadrants == Z::QUADRANTS,
            quadrant <= quadrants,
            offset < 64,
            precision <= 64,
            all_wf(ranges@),
            all_ordered(remaining@),
            spec_expand_cell::<Z>(
                prefix,
                offset,
                zbounds@,
                precision,
                ranges@,
                remaining@,
                quadrant,
            )
                == spec_expand_cell::<Z>(
                prefix,
                offset,
                zbounds@,
                precision,
                old(ranges)@,
                old(remaining)@,
                0,
            ),
        decreases quadrants - quadrant,
    {
        check_value::<Z>(prefix, quadrant, offset, zbounds, precision, ranges, remaining);
        quadrant = quadrant + 1;
    }
}

/// Splits the blocks of one level into children with `offset` free bits and
/// gives back the children that are left pending.
fn expand_level<Z: ZN>(
    cur: &Vec<ZRange>,
    offset: u64,
    zbounds: &[ZRange],
    precision: u64,
    max_ranges: usize,
    ranges: &mut Vec<IndexRange>,
) -> (next: Vec<ZRange>)
    requires
        offset < 64,
        precision <= 64,
        all_wf(old(ranges)@),
        all_ordered(cur@),
    ensures
        all_ordered(next@),
        (final(ranges)@, next@) == spec_expand_level::<Z>(
            cur@,
            0,
            offset,
            zbounds@,
            precision,
            max_ranges,
            old(ranges)@,
            Seq::empty(),
        ),
        all_wf(final(ranges)@),
{
    let mut next: Vec<ZRange> = Vec::new();
    let mut i: usize = 0;
    let ghost goal = spec_expand_level::<Z>(
        cur@,
        0,
        offset,
        zbounds@,
        precision,
        max_ranges,
        old(ranges)@,
        Seq::empty(),
    );
    while i < cur.len()
        invariant
            i <= cur.len(),
            offset < 64,
            precision <= 64,
            all_wf(ranges@),
            all_ordered(cur@),
            all_ordered(next@),
            goal == spec_expand_level::<Z>(
                cur@,
                0,
                offset,
                zbounds@,
                precision,
                max_ranges,
                old(ranges)@,
                Seq::empty(),
            ),
            spec_expand_level::<Z>(
                cur@,
                i as int,
                offset,
                zbounds@,
                precision,
                max_ranges,
                ranges@,
                next@,
            ) == goal,
        decreases cur.len() - i,
    {
        let ghost before = (ranges@, next@);
        expand_cell::<Z>(cur[i].min, offset, zbounds, precision, ranges, &mut next);
        let ghost split = (ranges@, next@);
        i = i + 1;
        if over_budget(ranges.len(), cur.len() - i, next.len(), max_ranges) {
            bottom_out(ranges, cur, i);
            bottom_out(ranges, &next, 0);
            let done: Vec<ZRange> = Vec::new();
            assert(done@ =~= Seq::empty());
            assert(goal == spec_expand_level::<Z>(
                cur@,
                i - 1,
                offset,
                zbounds@,
                precision,
                max_ranges,
                before.0,
                before.1,
            ));
            assert(goal == (
                spec_bottom_out(spec_bottom_out(split.0, cur@, i as int), split.1, 0),
                Seq::<ZRange>::empty(),
            ));
            return done;
        }
    }
    next
}

/// Whether `ranges + waiting + pending + 1` is more than `max_ranges`.
fn over_budget(ranges: usize, waiting: usize, pending: usize, max_ranges: usize) -> (r: bool)
    ensures
        r == (ranges + waiting + 1 + pending > max_ranges),
{
    let total: u128 = ranges as u128 + waiting as u128 + 1u128 + pending as u128;
    total > max_ranges as u128
}

/// The free bits of a block can be masked in 64 bits, and the block's upper
/// end is no less than its lower end.
proof fn lemma_mask_exec(min: u64, offset: u64)
    requires
        offset < 64,
    ensures
        1u64 << offset >= 1,
        min <= min | low_mask(offset),
{
    assert(offset < 64 ==> (1u64 << offset) >= 1 && min <= (min | (((1u64 << offset) - 1) as u64)))
        by (bit_vector);
}

/// Only one shift is the common shift of `values`.
pub proof fn lemma_common_shift_unique<Z: ZN>(values: Seq<u64>, a: u64, b: u64)
    requires
        is_common_shift::<Z>(values, a),
    ensures
        is_common_shift::<Z>(values, b) ==> a == b,
        common_shift::<Z>(values) == a,
{
    Z::lemma_shape();
    assert forall|c: u64| is_common_shift::<Z>(values, c) implies a == c by {
        if a < c {
            lemma_agree_above::<Z>(values, a, c);
        } else if c < a {
            lemma_agree_above::<Z>(values, c, a);
        }
    }
}

/// Values that agree above `low` bits, a multiple of the dimensions, agree one
/// step below every greater multiple.
proof fn lemma_agree_above<Z: ZN>(values: Seq<u64>, low: u64, high: u64)
    requires
        1 <= Z::DIMENSIONS,
        low < high < 64,
        low % Z::DIMENSIONS == 0,
        high % Z::DIMENSIONS == 0,
        all_agree(values, low),
    ensures
        high - Z::DIMENSIONS >= low,
        all_agree(values, (high - Z::DIMENSIONS) as u64),
{
    let d = Z::DIMENSIONS as int;
    vstd::arithmetic::div_mod::lemma_fundamental_div_mod(low as int, d);
    vstd::arithmetic::div_mod::lemma_fundamental_div_mod(high as int, d);
    let (ql, qh) = (low as int / d, high as int / d);
    assert(d * qh - d >= d * ql) by (nonlinear_arith)
        requires
            d * ql < d * qh,
            d >= 1,
    ;
    let mid = (high - d) as u64;
    assert forall|j: int| 0 <= j < values.len() implies (#[trigger] values[j]) >> mid == values[0]
        >> mid by {
        lemma_same_high_bits(values[j], values[0], low, mid);
    }
}

/// Whether every one of `values` has `head` above its `shift` lowest bits.
fn all_share(values: &[u64], shift: u64, head: u64) -> (r: bool)
    requires
        shift < 64,
        values.len() > 0,
        head == values[0] >> shift,
    ensures
        r == all_agree(values@, shift),
{
    let mut j: usize = 1;
    while j < values.len()
        invariant
            1 <= j <= values.len(),
            shift < 64,
            head == values[0] >> shift,
            forall|k: int| 0 <= k < j ==> (#[trigger] values@[k]) >> shift == head,
        decreases values.len() - j,
    {
        if values[j] >> shift != head {
            return false;
        }
        j = j + 1;
    }
    true
}

/// The two ends of each bound, in turn.
fn endpoints(zbounds: &[ZRange]) -> (r: Vec<u64>)
    ensures
        r@ == spec_endpoints(zbounds@),
{
    let mut r: Vec<u64> = Vec::new();
    let mut i: usize = 0;
    while i < zbounds.len()
        invariant
            i <= zbounds.len(),
            r@.len() == 2 * i,
            forall|j: int| 0 <= j < 2 * i ==> #[trigger] r@[j] == spec_endpoints(zbounds@)[j],
        decreases zbounds.len() - i,
    {
        r.push(zbounds[i].min);
        r.push(zbounds[i].max);
        i = i + 1;
    }
    assert(r@ =~= spec_endpoints(zbounds@));
    r
}

/// A product of a step and a count is a multiple of the step, and so is the
/// product less one step.
proof fn lemma_multiple_steps(d: u64, b: u64, below: u64)
    requires
        1 <= d,
        1 <= b,
        below == d * b - d,
    ensures
        below % d == 0,
{
    assert((d * b - d) % (d as int) == 0) by (nonlinear_arith)
        requires
            1 <= d,
            1 <= b,
    {
        assert(d * b - d == d * (b - 1));
        vstd::arithmetic::div_mod::lemma_mod_multiples_basic(b - 1, d as int);
        assert(d * (b - 1) == (b - 1) * d);
    }
}

/// A positive multiple of a step, less one step, is a multiple of it.
proof fn lemma_step_down(d: u64, x: u64)
    requires
        1 <= d <= x,
        x % d == 0,
    ensures
        (x - d) % (d as int) == 0,
        x - d == 0 || x - d >= d,
{
    vstd::arithmetic::div_mod::lemma_mod_sub_multiples_vanish(x as int, d as int);
    if 0 < x - d < d {
        vstd::arithmetic::div_mod::lemma_small_mod((x - d) as nat, d as nat);
    }
}

/// A multiple of a step, plus one step, is a multiple of it.
proof fn lemma_step_up(d: u64, x: u64)
    requires
        1 <= d,
        x % d == 0,
    ensures
        (x + d) % (d as int) == 0,
{
    vstd::arithmetic::div_mod::lemma_mod_add_multiples_vanish(x as int, d as int);
}

} // verus!
