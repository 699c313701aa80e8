//! A closed interval of z-order index values.

use vstd::prelude::*;

verus! {

/// A closed interval `[min, max]` of z-order index values. Read in user space,
/// `min` and `max` are two opposite corners of a box.
#[derive(Debug, PartialEq, Eq, Structural, Copy, Clone)]
pub struct ZRange {
    /// Smallest index of the interval.
    pub min: u64,
    /// Largest index of the interval.
    pub max: u64,
}

impl ZRange {
    /// Whether `bits` lies in the interval, as a specification.
    pub open spec fn spec_contains(&self, bits: u64) -> bool {
        self.min <= bits && bits <= self.max
    }

    /// The midpoint `(min + max) / 2`, rounded down.
    #[must_use]
    pub fn mid(&self) -> (r: u64)
        ensures
            r == (self.min + self.max) / 2,
    {
        let low: u64 = (self.min & self.max) & 1;
        let half_min: u64 = self.min >> 1;
        let half_max: u64 = self.max >> 1;
        proof {
            let a = self.min;
            let b = self.max;
            assert(((a >> 1) + (b >> 1) + ((a & b) & 1)) == (a + b) / 2 && (a & b) & 1 <= 1
                && a >> 1 <= 0x7fff_ffff_ffff_ffffu64 && b >> 1 <= 0x7fff_ffff_ffff_ffffu64)
                by (bit_vector);
        }
        half_min + half_max + low
    }

    /// The number of indices in the interval, `max - min + 1`.
    #[must_use]
    pub fn length(&self) -> (r: u64)
        requires
            self.min <= self.max,
            self.max - self.min < u64::MAX,
        ensures
            r == self.max - self.min + 1,
    {
        self.max - self.min + 1
    }

    /// Whether `bits` lies in the interval, in index space.
    #[verifier::when_used_as_spec(spec_contains)]
    #[must_use]
    pub fn contains(&self, bits: u64) -> (r: bool)
        ensures
            r == self.contains(bits),
    {
        bits >= self.min && bits <= self.max
    }

    /// Whether both ends of `r` lie in the interval, in index space.
    #[must_use]
    pub fn contains_zrange(&self, r: ZRange) -> (b: bool)
        ensures
            b == (self.contains(r.min) && self.contains(r.max)),
    {
        self.contains(r.min) && self.contains(r.max)
    }

    /// Whether one end of `other` lies in the interval, in index space.
    #[must_use]
    pub fn overlaps(&self, other: ZRange) -> (b: bool)
        ensures
            b == (self.contains(other.min) || self.contains(other.max)),
    {
        self.contains(other.min) || self.contains(other.max)
    }
}

} // verus!
