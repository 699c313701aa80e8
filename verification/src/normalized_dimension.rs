//! The grids onto which latitudes and longitudes are normalized.

use crate::xzorder::tree::{lemma_power_of_two, lemma_side_bound, power};
use vstd::prelude::*;

verus! {

/// The greatest precision of a normalizer, in bits.
pub const MAX_PRECISION: u8 = 31;

/// The number of bins that `precision` bits give: `2^precision`.
pub open spec fn spec_bins(precision: u8) -> nat {
    power(2, precision as nat)
}

/// The number of bins that `precision` bits give.
pub fn bins_of(precision: u8) -> (r: i64)
    requires
        precision <= MAX_PRECISION,
    ensures
        r == spec_bins(precision),
        1 <= r <= 0x8000_0000,
{
    proof {
        lemma_power_of_two(precision as u64);
        lemma_side_bound(precision as nat);
    }
    let bins: u64 = 1u64 << (precision as u64);
    bins as i64
}

/// The grid of a normalizer of latitudes, from -90 to 90 degrees.
#[derive(Debug, PartialEq, Eq, Structural, Clone, Copy)]
pub struct LatNormalizer {
    precision: u8,
}

impl LatNormalizer {
    /// The precision, as a specification.
    pub closed spec fn spec_precision(&self) -> u8 {
        self.precision
    }

    /// The precision is one that the normalizers take.
    pub open spec fn wf(&self) -> bool {
        0 < self.precision() <= MAX_PRECISION
    }

    /// The normalizer with `precision` bits, from 1 to 31.
    #[must_use]
    pub fn new(precision: u8) -> (r: Self)
        requires
            0 < precision <= MAX_PRECISION,
        ensures
            r.precision() == precision,
            r.wf(),
    {
        LatNormalizer { precision }
    }

    /// The precision in bits.
    #[verifier::when_used_as_spec(spec_precision)]
    pub fn precision(&self) -> (r: u8)
        ensures
            r == self.precision(),
    {
        self.precision
    }

    /// The number of bins: `2^precision`.
    pub fn bins(&self) -> (r: i64)
        requires
            self.wf(),
        ensures
            r == spec_bins(self.precision()),
    {
        bins_of(self.precision)
    }

    /// The greatest index: the number of bins less one.
    pub fn max_index(&self) -> (r: i32)
        requires
            self.wf(),
        ensures
            r == spec_bins(self.precision()) - 1,
    {
        (bins_of(self.precision) - 1) as i32
    }
}

/// The grid of a normalizer of longitudes, from -180 to 180 degrees.
#[derive(Debug, PartialEq, Eq, Structural, Clone, Copy)]
pub struct LonNormalizer {
    precision: u8,
}

impl LonNormalizer {
    /// The precision, as a specification.
    pub closed spec fn spec_precision(&self) -> u8 {
        self.precision
    }

    /// The precision is one that the normalizers take.
    pub open spec fn wf(&self) -> bool {
        0 < self.precision() <= MAX_PRECISION
    }

    /// The normalizer with `precision` bits, from 1 to 31.
    #[must_use]
    pub fn new(precision: u8) -> (r: Self)
        requires
            0 < precision <= MAX_PRECISION,
        ensures
            r.precision() == precision,
            r.wf(),
    {
        LonNormalizer { precision }
    }

    /// The precision in bits.
    #[verifier::when_used_as_spec(spec_precision)]
    pub fn precision(&self) -> (r: u8)
        ensures
            r == self.precision(),
    {
        self.precision
    }

    /// The number of bins: `2^precision`.
    pub fn bins(&self) -> (r: i64)
        requires
            self.wf(),
        ensures
            r == spec_bins(self.precision()),
    {
        bins_of(self.precision)
    }

    /// The greatest index: the number of bins less one.
    pub fn max_index(&self) -> (r: i32)
        requires
            self.wf(),
        ensures
            r == spec_bins(self.precision()) - 1,
    {
        (bins_of(self.precision) - 1) as i32
    }
}

} // verus!
