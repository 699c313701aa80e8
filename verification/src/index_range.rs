//! Tagged intervals of index values, ordered by their bounds.

use core::cmp::Ordering;
use vstd::prelude::*;
use vstd::std_specs::cmp::{PartialEqSpecImpl, PartialOrdSpecImpl};

verus! {

/// A closed interval `[lower, upper]` of index values with a flag that tells
/// whether every index of the interval lies inside the query it answers.
///
/// Two ranges are equal when their bounds are equal, whatever their flags, and
/// ranges are ordered by `(lower, upper)`.
#[derive(Debug, Clone, Copy)]
pub struct IndexRange {
    lower: u64,
    upper: u64,
    contained: bool,
}

impl IndexRange {
    /// The lower bound, as a specification.
    pub closed spec fn spec_lower(&self) -> u64 {
        self.lower
    }

    /// The upper bound, as a specification.
    pub closed spec fn spec_upper(&self) -> u64 {
        self.upper
    }

    /// The flag, as a specification.
    pub closed spec fn spec_contained(&self) -> bool {
        self.contained
    }

    /// The range with the three parts given, as a specification.
    pub closed spec fn spec_new(lower: u64, upper: u64, contained: bool) -> IndexRange {
        IndexRange { lower, upper, contained }
    }

    /// The bounds are in order.
    pub open spec fn wf(&self) -> bool {
        self.lower() <= self.upper()
    }

    /// Whether `index` lies between the bounds.
    pub open spec fn holds(&self, index: u64) -> bool {
        self.lower() <= index <= self.upper()
    }

    /// The lower index.
    #[verifier::when_used_as_spec(spec_lower)]
    pub fn lower(&self) -> (r: u64)
        ensures
            r == self.lower(),
    {
        self.lower
    }

    /// The upper index.
    #[verifier::when_used_as_spec(spec_upper)]
    pub fn upper(&self) -> (r: u64)
        ensures
            r == self.upper(),
    {
        self.upper
    }

    /// Whether the whole range lies inside the query.
    #[verifier::when_used_as_spec(spec_contained)]
    pub fn contained(&self) -> (r: bool)
        ensures
            r == self.contained(),
    {
        self.contained
    }

    /// All three parts as `(lower, upper, contained)`.
    pub fn tuple(&self) -> (r: (u64, u64, bool))
        ensures
            r == (self.lower(), self.upper(), self.contained()),
    {
        (self.lower, self.upper, self.contained)
    }

    /// A range from its three parts.
    pub fn new(lower: u64, upper: u64, contained: bool) -> (r: Self)
        requires
            lower <= upper,
        ensures
            r == Self::spec_new(lower, upper, contained),
            r.lower() == lower,
            r.upper() == upper,
            r.contained() == contained,
    {
        IndexRange { lower, upper, contained }
    }

    /// The parts of a range are those it was made from.
    pub proof fn lemma_new_parts(lower: u64, upper: u64, contained: bool)
        ensures
            Self::spec_new(lower, upper, contained).lower() == lower,
            Self::spec_new(lower, upper, contained).upper() == upper,
            Self::spec_new(lower, upper, contained).contained() == contained,
    {
    }

    /// How the range stands to `other` in the order by `(lower, upper)`, as
    /// a specification.
    pub open spec fn order(&self, other: &Self) -> Ordering {
        if self.lower() < other.lower() {
            Ordering::Less
        } else if self.lower() > other.lower() {
            Ordering::Greater
        } else if self.upper() < other.upper() {
            Ordering::Less
        } else if self.upper() > other.upper() {
            Ordering::Greater
        } else {
            Ordering::Equal
        }
    }

    /// How the range stands to `other` in the order by `(lower, upper)`.
    pub fn cmp(&self, other: &Self) -> (r: Ordering)
        ensures
            r == self.order(other),
    {
        if self.lower < other.lower {
            Ordering::Less
        } else if self.lower > other.lower {
            Ordering::Greater
        } else if self.upper < other.upper {
            Ordering::Less
        } else if self.upper > other.upper {
            Ordering::Greater
        } else {
            Ordering::Equal
        }
    }

    /// Two ranges with the same three parts are the same range.
    pub proof fn lemma_parts_decide(self, other: Self)
        requires
            self.lower() == other.lower(),
            self.upper() == other.upper(),
            self.contained() == other.contained(),
        ensures
            self == other,
    {
    }
}

impl PartialEq for IndexRange {
    fn eq(&self, other: &Self) -> (r: bool) {
        self.lower == other.lower && self.upper == other.upper
    }
}

impl Eq for IndexRange {

}

impl PartialEqSpecImpl for IndexRange {
    open spec fn obeys_eq_spec() -> bool {
        true
    }

    open spec fn eq_spec(&self, other: &Self) -> bool {
        self.lower() == other.lower() && self.upper() == other.upper()
    }
}

impl PartialOrd for IndexRange {
    fn partial_cmp(&self, other: &Self) -> (r: Option<Ordering>) {
        Some(self.cmp(other))
    }
}

impl PartialOrdSpecImpl for IndexRange {
    open spec fn obeys_partial_cmp_spec() -> bool {
        true
    }

    open spec fn partial_cmp_spec(&self, other: &Self) -> Option<Ordering> {
        Some(self.order(other))
    }
}

/// Maker of ranges that lie wholly inside the query.
#[derive(Debug)]
pub struct CoveredRange;

impl CoveredRange {
    /// The covered range `[lower, upper]`.
    #[must_use]
    pub fn new(lower: u64, upper: u64) -> (r: IndexRange)
        requires
            lower <= upper,
        ensures
            r == IndexRange::spec_new(lower, upper, true),
            r.lower() == lower,
            r.upper() == upper,
            r.contained(),
    {
        IndexRange::new(lower, upper, true)
    }
}

/// Maker of ranges that touch the query without lying inside it.
#[derive(Debug)]
pub struct OverlappingRange;

impl OverlappingRange {
    /// The overlapping range `[lower, upper]`.
    #[must_use]
    pub fn new(lower: u64, upper: u64) -> (r: IndexRange)
        requires
            lower <= upper,
        ensures
            r == IndexRange::spec_new(lower, upper, false),
            r.lower() == lower,
            r.upper() == upper,
            !r.contained(),
    {
        IndexRange::new(lower, upper, false)
    }
}

} // verus!
