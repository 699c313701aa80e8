//! Facts about shifts that several modules use.

use vstd::prelude::*;

verus! {

/// Words that agree above their `low` lowest bits agree above any greater
/// number of bits.
pub proof fn lemma_same_high_bits(v: u64, w: u64, low: u64, high: u64)
    requires
        v >> low == w >> low,
        low <= high < 64,
    ensures
        v >> high == w >> high,
{
    let x = v ^ w;
    assert(x >> low == 0) by (bit_vector)
        requires
            v >> low == w >> low,
            x == v ^ w,
    ;
    assert(x >> high == 0) by (bit_vector)
        requires
            x >> low == 0,
            low <= high,
    ;
    assert(v >> high == w >> high) by (bit_vector)
        requires
            x >> high == 0,
            x == v ^ w,
    ;
}

} // verus!
