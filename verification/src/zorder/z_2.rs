//! The two-dimensional Z-order curve.

use crate::zorder::z_n::{aligned, bit, low_mask, ZN};
use crate::zorder::z_range::ZRange;
use vstd::prelude::*;

verus! {

/// A point of the two-dimensional Z-order curve, held as its index: the bits
/// of `x` at the even places, those of `y` at the odd places.
#[derive(Debug, PartialEq, Eq, Structural, PartialOrd, Ord, Clone, Copy)]
pub struct Z2 {
    z: u64,
}

/// Spreads the 31 lowest bits of `value` over the even places.
pub open spec fn spread2(value: u32) -> u64 {
    let x: u64 = (value as u64) & 0x7fff_ffffu64;
    let x: u64 = (x | (x << 32)) & 0x0000_0000_ffff_ffffu64;
    let x: u64 = (x | (x << 16)) & 0x0000_ffff_0000_ffffu64;
    let x: u64 = (x | (x << 8)) & 0x00ff_00ff_00ff_00ffu64;
    let x: u64 = (x | (x << 4)) & 0x0f0f_0f0f_0f0f_0f0fu64;
    let x: u64 = (x | (x << 2)) & 0x3333_3333_3333_3333u64;
    let x: u64 = (x | (x << 1)) & 0x5555_5555_5555_5555u64;
    x
}

/// Gathers the bits at the even places of `z`.
pub open spec fn gather2(z: u64) -> u64 {
    let x: u64 = z & 0x5555_5555_5555_5555u64;
    let x: u64 = (x ^ (x >> 1)) & 0x3333_3333_3333_3333u64;
    let x: u64 = (x ^ (x >> 2)) & 0x0f0f_0f0f_0f0f_0f0fu64;
    let x: u64 = (x ^ (x >> 4)) & 0x00ff_00ff_00ff_00ffu64;
    let x: u64 = (x ^ (x >> 8)) & 0x0000_ffff_0000_ffffu64;
    let x: u64 = (x ^ (x >> 16)) & 0x0000_0000_ffff_ffffu64;
    x
}

/// The index of the point `(x, y)`.
pub open spec fn interleave2(x: u32, y: u32) -> u64 {
    spread2(x) | (spread2(y) << 1)
}

impl Z2 {
    /// The index, as a specification.
    pub closed spec fn spec_z(&self) -> u64 {
        self.z
    }

    /// Coordinate `i` of the point with index `z`.
    pub open spec fn spec_dim(z: u64, i: u64) -> u32 {
        gather2(z >> i) as u32
    }

    /// The coordinates, as a specification.
    pub open spec fn spec_decode(&self) -> (u32, u32) {
        (Self::spec_dim(self.z(), 0), Self::spec_dim(self.z(), 1))
    }

    /// The point with coordinates `x` and `y`, each at most `MAX_MASK`.
    #[must_use]
    pub fn new(x: u32, y: u32) -> (r: Self)
        requires
            x <= Self::MAX_MASK,
            y <= Self::MAX_MASK,
        ensures
            r.z() == interleave2(x, y),
            r.spec_decode() == (x, y),
            r.z() >> Self::TOTAL_BITS == 0,
    {
        proof {
            Self::lemma_decode_new(x, y);
        }
        Self::new_from_zorder(Self::split(x) | Self::split(y) << 1)
    }

    /// The point with index `zorder`.
    #[must_use]
    pub fn new_from_zorder(zorder: u64) -> (r: Self)
        ensures
            r.z() == zorder,
    {
        Z2 { z: zorder }
    }

    /// The index of the point.
    #[verifier::when_used_as_spec(spec_z)]
    #[must_use]
    pub fn z(&self) -> (r: u64)
        ensures
            r == self.z(),
    {
        self.z
    }

    /// The coordinates `(x, y)` of the point.
    #[must_use]
    pub fn decode(&self) -> (r: (u32, u32))
        ensures
            r == self.spec_decode(),
    {
        (self.dim(0), self.dim(1))
    }

    /// Coordinate `i` of the point: `x` for 0, `y` for 1.
    pub fn dim(&self, i: u64) -> (r: u32)
        requires
            i < 64,
        ensures
            r == Self::spec_dim(self.z(), i),
    {
        Z2::combine(self.z >> i)
    }

    /// The coordinate `x`.
    pub fn d0(&self) -> (r: u32)
        ensures
            r == Self::spec_dim(self.z(), 0),
    {
        self.dim(0)
    }

    /// The coordinate `y`.
    pub fn d1(&self) -> (r: u32)
        ensures
            r == Self::spec_dim(self.z(), 1),
    {
        self.dim(1)
    }

    /// Whether the intervals `[a1, a2]` and `[b1, b2]` meet.
    pub fn partial_overlaps(a1: u32, a2: u32, b1: u32, b2: u32) -> (r: bool)
        ensures
            r == (a1 <= a2 && a1 <= b2 && b1 <= a2 && b1 <= b2),
    {
        let low: u32 = if a1 >= b1 { a1 } else { b1 };
        let high: u32 = if a2 <= b2 { a2 } else { b2 };
        low <= high
    }

    /// The values of the constants of the curve.
    pub proof fn lemma_constants()
        ensures
            Self::DIMENSIONS == 2,
            Self::BITS_PER_DIMENSION == 31,
            Self::TOTAL_BITS == 62,
            Self::MAX_MASK == 0x7fff_ffff,
            Self::QUADRANTS == 4,
    {
    }

    /// A coordinate is what `combine` finds after a shift.
    pub proof fn lemma_dim_is_combine(z: u64)
        ensures
            Self::spec_combine(z >> 0u64) == Self::spec_dim(z, 0),
            Self::spec_combine(z >> 1u64) == Self::spec_dim(z, 1),
    {
    }

    /// A coordinate is what `gather2` finds after a shift.
    pub proof fn lemma_dims(z: u64)
        ensures
            Self::spec_dim(z, 0) == gather2(z >> 0u64),
            Self::spec_dim(z, 1) == gather2(z >> 1u64),
    {
        assert(gather2(z >> 0u64) <= 0xffff_ffffu64 && gather2(z >> 1u64) <= 0xffff_ffffu64)
            by (bit_vector);
    }

    /// Decoding the index made from `(x, y)` gives `(x, y)` back, and the
    /// index uses no bit above the 62 lowest.
    pub proof fn lemma_decode_new(x: u32, y: u32)
        requires
            x <= Self::MAX_MASK,
            y <= Self::MAX_MASK,
        ensures
            Self::spec_dim(interleave2(x, y), 0) == x,
            Self::spec_dim(interleave2(x, y), 1) == y,
            interleave2(x, y) >> Self::TOTAL_BITS == 0,
    {
        Self::lemma_dims(interleave2(x, y));
        assert(x <= 0x7fff_ffffu32 && y <= 0x7fff_ffffu32 ==> gather2(interleave2(x, y) >> 0u64)
            == x && gather2(interleave2(x, y) >> 1u64) == y && interleave2(x, y) >> 62u64 == 0)
            by (bit_vector);
    }
}

impl ZN for Z2 {
    const DIMENSIONS: u64 = 2;

    const BITS_PER_DIMENSION: u32 = 31;

    const TOTAL_BITS: u64 = 62;

    const MAX_MASK: u64 = 0x7fff_ffff;

    const QUADRANTS: u32 = 4;

    open spec fn spec_split(value: u32) -> u64 {
        spread2(value)
    }

    open spec fn spec_combine(z: u64) -> u32 {
        gather2(z) as u32
    }

    open spec fn spec_contains(range: ZRange, value: u64) -> bool {
        &&& Self::spec_dim(range.min, 0) <= Self::spec_dim(value, 0) <= Self::spec_dim(range.max, 0)
        &&& Self::spec_dim(range.min, 1) <= Self::spec_dim(value, 1) <= Self::spec_dim(range.max, 1)
    }

    open spec fn spec_overlaps(range: ZRange, value: ZRange) -> bool {
        &&& Self::spec_dim(range.min, 0) <= Self::spec_dim(range.max, 0)
        &&& Self::spec_dim(range.min, 0) <= Self::spec_dim(value.max, 0)
        &&& Self::spec_dim(value.min, 0) <= Self::spec_dim(range.max, 0)
        &&& Self::spec_dim(value.min, 0) <= Self::spec_dim(value.max, 0)
        &&& Self::spec_dim(range.min, 1) <= Self::spec_dim(range.max, 1)
        &&& Self::spec_dim(range.min, 1) <= Self::spec_dim(value.max, 1)
        &&& Self::spec_dim(value.min, 1) <= Self::spec_dim(range.max, 1)
        &&& Self::spec_dim(value.min, 1) <= Self::spec_dim(value.max, 1)
    }

    fn split(value: u32) -> (r: u64) {
        let mut x: u64 = value as u64;
        x = x & 0x7fff_ffff;
        x = (x | (x << 32)) & 0x0000_0000_ffff_ffff_u64;
        x = (x | (x << 16)) & 0x0000_ffff_0000_ffff_u64;
        x = (x | (x << 8)) & 0x00ff_00ff_00ff_00ff_u64;
        x = (x | (x << 4)) & 0x0f0f_0f0f_0f0f_0f0f_u64;
        x = (x | (x << 2)) & 0x3333_3333_3333_3333_u64;
        x = (x | (x << 1)) & 0x5555_5555_5555_5555_u64;
        x
    }

    fn combine(z: u64) -> (r: u32) {
        let mut x: u64 = z & 0x5555_5555_5555_5555;
        x = (x ^ (x >> 1)) & 0x3333_3333_3333_3333;
        x = (x ^ (x >> 2)) & 0x0f0f_0f0f_0f0f_0f0f;
        x = (x ^ (x >> 4)) & 0x00ff_00ff_00ff_00ff;
        x = (x ^ (x >> 8)) & 0x0000_ffff_0000_ffff;
        let y: u64 = x ^ (x >> 16);
        x = y & 0x0000_0000_ffff_ffff;
        assert(x <= 0xffff_ffffu64) by (bit_vector)
            requires
                x == y & 0x0000_0000_ffff_ffffu64,
        ;
        assert(Self::spec_combine(z) == gather2(z) as u32);
        x as u32
    }

    fn contains(range: ZRange, value: u64) -> (r: bool) {
        let (x, y) = Z2 { z: value }.decode();
        x >= Z2 { z: range.min }.d0() && x <= Z2 { z: range.max }.d0() && y >= Z2 {
            z: range.min,
        }.d1() && y <= Z2 { z: range.max }.d1()
    }

    fn overlaps(range: ZRange, value: ZRange) -> (r: bool) {
        Self::partial_overlaps(
            Z2 { z: range.min }.d0(),
            Z2 { z: range.max }.d0(),
            Z2 { z: value.min }.d0(),
            Z2 { z: value.max }.d0(),
        ) && Self::partial_overlaps(
            Z2 { z: range.min }.d1(),
            Z2 { z: range.max }.d1(),
            Z2 { z: value.min }.d1(),
            Z2 { z: value.max }.d1(),
        )
    }

    proof fn lemma_shape() {
        assert(4u64 == 1u64 << 2u64 && 0x7fff_ffffu64 == ((1u64 << 31u64) - 1) as u64)
            by (bit_vector);
    }

    proof fn lemma_split_spreads(value: u32) {
        assert(forall|j: u64|
            j < 64 ==> (#[trigger] bit(spread2(value), j) <==> j % 2 == 0 && j / 2 < 31 && bit(
                value as u64,
                j / 2,
            ))) by (bit_vector);
    }

    proof fn lemma_combine_gathers(z: u64) {
        assert(forall|i: u64|
            i < 31 ==> (#[trigger] bit(gather2(z), i) <==> bit(z, (2 * i) as u64)))
            by (bit_vector);
        assert(gather2(z) <= 0xffff_ffffu64) by (bit_vector);
    }

    proof fn lemma_combine_split(value: u32) {
        assert(value <= 0x7fff_ffffu32 ==> gather2(spread2(value)) == value) by (bit_vector);
    }

    proof fn lemma_contains_axiswise(range: ZRange, value: u64) {
        Self::lemma_dim_is_combine(range.min);
        Self::lemma_dim_is_combine(range.max);
        Self::lemma_dim_is_combine(value);
        if Self::spec_contains(range, value) {
            assert forall|i: u64| i < Self::DIMENSIONS implies Self::spec_combine(range.min >> i)
                <= #[trigger] Self::spec_combine(value >> i) <= Self::spec_combine(
                range.max >> i,
            ) by {
                assert(i == 0 || i == 1);
            }
        }
        if (forall|i: u64|
            i < Self::DIMENSIONS ==> Self::spec_combine(range.min >> i)
                <= #[trigger] Self::spec_combine(value >> i) <= Self::spec_combine(
                range.max >> i,
            )) {
            assert(Self::spec_combine(range.min >> 0u64) <= Self::spec_combine(value >> 0u64));
            assert(Self::spec_combine(range.min >> 1u64) <= Self::spec_combine(value >> 1u64));
        }
    }

    proof fn lemma_overlaps_axiswise(range: ZRange, value: ZRange) {
        Self::lemma_dim_is_combine(range.min);
        Self::lemma_dim_is_combine(range.max);
        Self::lemma_dim_is_combine(value.min);
        Self::lemma_dim_is_combine(value.max);
        if Self::spec_overlaps(range, value) {
            assert forall|i: u64| i < Self::DIMENSIONS implies {
                &&& #[trigger] Self::spec_combine(range.min >> i) <= Self::spec_combine(
                    value.max >> i,
                )
                &&& Self::spec_combine(value.min >> i) <= Self::spec_combine(value.max >> i)
                &&& Self::spec_combine(range.min >> i) <= Self::spec_combine(range.max >> i)
                &&& Self::spec_combine(value.min >> i) <= Self::spec_combine(range.max >> i)
            } by {
                assert(i == 0 || i == 1);
            }
        }
        if (forall|i: u64|
            i < Self::DIMENSIONS ==> {
                &&& #[trigger] Self::spec_combine(range.min >> i) <= Self::spec_combine(
                    value.max >> i,
                )
                &&& Self::spec_combine(value.min >> i) <= Self::spec_combine(value.max >> i)
                &&& Self::spec_combine(range.min >> i) <= Self::spec_combine(range.max >> i)
                &&& Self::spec_combine(value.min >> i) <= Self::spec_combine(range.max >> i)
            }) {
            assert(Self::spec_combine(range.min >> 0u64) <= Self::spec_combine(value.max >> 0u64));
            assert(Self::spec_combine(range.min >> 1u64) <= Self::spec_combine(value.max >> 1u64));
        }
    }

    proof fn lemma_cell_inside(range: ZRange, prefix: u64, offset: u64, z: u64) {
        Self::lemma_dims(z);
        Self::lemma_dims(prefix);
        Self::lemma_dims(prefix | low_mask(offset));
        Self::lemma_cell_monotone(prefix, offset, z);
    }

    proof fn lemma_cell_overlaps(range: ZRange, prefix: u64, offset: u64, z: u64) {
        Self::lemma_dims(z);
        Self::lemma_dims(prefix);
        Self::lemma_dims(prefix | low_mask(offset));
        Self::lemma_cell_monotone(prefix, offset, z);
    }

    proof fn lemma_box_shares_prefix(range: ZRange, shift: u64, z: u64) {
        let (lo, hi) = (range.min, range.max);
        Self::lemma_dims(lo);
        Self::lemma_dims(hi);
        Self::lemma_dims(z);
        assert(shift < 64 && lo >> shift == hi >> shift && gather2(lo >> 0u64) <= gather2(
            z >> 0u64,
        ) <= gather2(hi >> 0u64) && gather2(lo >> 1u64) <= gather2(z >> 1u64) <= gather2(
            hi >> 1u64,
        ) ==> z >> shift == lo >> shift) by (bit_vector);
    }
}

impl Z2 {
    /// Within a block, every coordinate lies between those of the block's
    /// two ends.
    pub proof fn lemma_cell_monotone(prefix: u64, offset: u64, z: u64)
        requires
            offset < 64,
            aligned(prefix, offset),
            z >> offset == prefix >> offset,
        ensures
            gather2(prefix >> 0u64) <= gather2(z >> 0u64) <= gather2(
                (prefix | low_mask(offset)) >> 0u64,
            ),
            gather2(prefix >> 1u64) <= gather2(z >> 1u64) <= gather2(
                (prefix | low_mask(offset)) >> 1u64,
            ),
    {
        assert(offset < 64 && prefix & low_mask(offset) == 0 && z >> offset == prefix >> offset
            ==> gather2(prefix >> 0u64) <= gather2(z >> 0u64) <= gather2(
            (prefix | low_mask(offset)) >> 0u64,
        ) && gather2(prefix >> 1u64) <= gather2(z >> 1u64) <= gather2(
            (prefix | low_mask(offset)) >> 1u64,
        )) by (bit_vector);
    }
}

} // verus!
