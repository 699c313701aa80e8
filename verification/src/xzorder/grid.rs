//! The lines of the grid of an extended Z-order curve, along one axis.

use crate::xzorder::tree::{
    lemma_power_grows, lemma_power_is_pow2, lemma_power_of_two, lemma_side_bound, power,
};
use vstd::prelude::*;

verus! {

/// The greatest number of levels of a grid whose lines are counted here.
pub const MAX_GRID_BITS: u32 = 31;

/// The number of grid lines along an axis, less one: `2^g`.
pub open spec fn grid_side(g: u32) -> nat {
    power(2, g as nat)
}

/// The coordinate `x`, or the last cell's line where `x` is the last grid
/// line.
pub open spec fn clamped(g: u32, x: u64) -> u64 {
    if x >= (1u64 << g) {
        ((1u64 << g) - 1) as u64
    } else {
        x
    }
}

/// The lower edge of the cell of level `level` that holds the coordinate
/// `x`.
pub open spec fn cell_start(g: u32, x: u64, level: nat) -> u64 {
    (clamped(g, x) >> ((g - level) as u64)) << ((g - level) as u64)
}

/// Which half of its cell of level `i` a coordinate lies in: 0 for the lower
/// half, 1 for the upper. The last grid line counts to the last cell.
pub open spec fn half_at(g: u32, x: u64, i: u32) -> u64 {
    (clamped(g, x) >> ((g - 1 - i) as u64)) & 1
}

/// The box from `min` to `max` on one axis lies in the doubled cell of level
/// `level` that holds `min`.
pub open spec fn fits_axis(g: u32, level: nat, min: u64, max: u64) -> bool {
    let w = power(2, (g - level) as nat);
    max <= (min as nat / w) * w + 2 * w
}

/// The bounds of the cell of level `i` that holds the coordinate `x`, as the
/// descent keeps them.
pub open spec fn descent_at(g: u32, x: u64, i: u32, min: u64, max: u64) -> bool {
    &&& i <= g <= MAX_GRID_BITS
    &&& min == cell_start(g, x, i as nat)
    &&& max == min + (1u64 << ((g - i) as u64))
}

/// The descent starts with the whole grid.
pub proof fn lemma_descent_starts(g: u32, x: u64)
    requires
        1 <= g <= MAX_GRID_BITS,
        x <= grid_side(g),
    ensures
        descent_at(g, x, 0, 0, 1u64 << g),
{
    lemma_power_of_two(g as u64);
    let bits = g as u64;
    assert(1 <= bits <= 31 && x <= (1u64 << bits) ==> ((if x >= (1u64 << bits) {
        ((1u64 << bits) - 1) as u64
    } else {
        x
    }) >> bits) << bits == 0) by (bit_vector);
}

/// One step of the descent: the coordinate lies below the middle of its cell
/// exactly if its half is 0, and the half that holds it is its cell of the
/// next level.
pub proof fn lemma_descent_step(g: u32, x: u64, i: u32, min: u64, max: u64)
    requires
        i < g <= MAX_GRID_BITS,
        x <= grid_side(g),
        descent_at(g, x, i, min, max),
    ensures
        min + max <= u64::MAX,
        x < (min + max) / 2 <==> half_at(g, x, i) == 0,
        half_at(g, x, i) == 0 || half_at(g, x, i) == 1,
        half_at(g, x, i) == 0 ==> descent_at(g, x, (i + 1) as u32, min, ((min + max) / 2) as u64),
        half_at(g, x, i) == 1 ==> descent_at(g, x, (i + 1) as u32, ((min + max) / 2) as u64, max),
{
    lemma_power_of_two(g as u64);
    let bits = g as u64;
    let free = (g - i) as u64;
    let next = (g - i - 1) as u64;
    let inside: u64 = if x >= (1u64 << bits) {
        ((1u64 << bits) - 1) as u64
    } else {
        x
    };
    let half = (inside >> next) & 1;
    assert(half == half_at(g, x, i));
    assert(1 <= free <= bits <= 31 && next == free - 1 && x <= (1u64 << bits) && inside == (if x
        >= (1u64 << bits) {
        ((1u64 << bits) - 1) as u64
    } else {
        x
    }) && min == (inside >> free) << free && max == min + (1u64 << free) && half == (inside
        >> next) & 1 ==> min + max <= 0xffff_ffff_ffff_ffffu64 && (x < (min + max) / 2 <==> half
        == 0) && (half == 0 || half == 1) && (half == 0 ==> min == (inside >> next) << next && (
    min + max) / 2 == min + (1u64 << next)) && (half == 1 ==> (min + max) / 2 == (inside >> next)
        << next && max == (min + max) / 2 + (1u64 << next))) by (bit_vector);
}

/// A box no wider than a cell of a level fits at that level.
pub proof fn lemma_fits_when_small(g: u32, level: nat, min: u64, max: u64)
    requires
        level <= g,
        min <= max,
        max - min <= power(2, (g - level) as nat),
    ensures
        fits_axis(g, level, min, max),
{
    let w = power(2, (g - level) as nat);
    lemma_power_grows(2, 0, (g - level) as nat);
    vstd::arithmetic::div_mod::lemma_fundamental_div_mod(min as int, w as int);
    vstd::arithmetic::div_mod::lemma_mod_bound(min as int, w as int);
    assert((min as nat / w) * w == w * (min as nat / w)) by (nonlinear_arith);
}

/// A box wider than twice a cell of a level does not fit at that level.
pub proof fn lemma_no_fit_when_wide(g: u32, level: nat, min: u64, max: u64)
    requires
        level <= g,
        min <= max,
        max - min > 2 * power(2, (g - level) as nat),
    ensures
        !fits_axis(g, level, min, max),
{
    let w = power(2, (g - level) as nat);
    lemma_power_grows(2, 0, (g - level) as nat);
    vstd::arithmetic::div_mod::lemma_fundamental_div_mod(min as int, w as int);
    vstd::arithmetic::div_mod::lemma_mod_bound(min as int, w as int);
    assert((min as nat / w) * w == w * (min as nat / w)) by (nonlinear_arith);
}

/// The two halves of an aligned cell on one axis: they start at lines that
/// are aligned one level down, share the leading bits of the cell, and lie
/// in the lower and in the upper half.
pub proof fn lemma_halves(g: u32, level: nat, min: u64)
    requires
        level < g <= MAX_GRID_BITS,
        min & ((power(2, (g - level) as nat) - 1) as u64) == 0,
        min + power(2, (g - level) as nat) <= grid_side(g),
    ensures
        ({
            let side = power(2, (g - level) as nat) as u64;
            let half = power(2, (g - level - 1) as nat) as u64;
            let mid = ((min + (min + side)) / 2) as u64;
            &&& side / 2 == half
            &&& mid == min + half
            &&& min & ((half - 1) as u64) == 0
            &&& mid & ((half - 1) as u64) == 0
            &&& mid < (1u64 << g)
            &&& mid >> ((g - level) as u64) == min >> ((g - level) as u64)
            &&& half_at(g, min, level as u32) == 0
            &&& half_at(g, mid, level as u32) == 1
        }),
{
    let free = (g - level) as u64;
    let next = (g - level - 1) as u64;
    let bits = g as u64;
    lemma_power_of_two(free);
    lemma_power_of_two(next);
    lemma_power_of_two(bits);
    lemma_side_bound(g as nat);
    let side = power(2, (g - level) as nat) as u64;
    let half = power(2, (g - level - 1) as nat) as u64;
    let mid = ((min + (min + side)) / 2) as u64;
    assert(1 <= free <= bits <= 31 && next == free - 1 && side == 1u64 << free && half == 1u64
        << next && min & ((side - 1) as u64) == 0 && min + side <= (1u64 << bits) && mid == (min
        + (min + side)) / 2 ==> side / 2 == half && mid == min + half && min & ((half - 1) as u64)
        == 0 && mid & ((half - 1) as u64) == 0 && mid < (1u64 << bits) && min < (1u64 << bits)
        && mid >> free == min >> free && (min >> next) & 1 == 0 && (mid >> next) & 1 == 1)
        by (bit_vector);
}

/// The cell of a level that holds a coordinate: it is aligned, lies on the
/// grid, holds the coordinate, and is what the descent reaches.
pub proof fn lemma_cell_start(g: u32, x: u64, level: nat)
    requires
        level <= g <= MAX_GRID_BITS,
        x <= grid_side(g),
    ensures
        ({
            let start = cell_start(g, x, level);
            let side = power(2, (g - level) as nat) as u64;
            &&& descent_at(g, x, level as u32, start, (start + side) as u64)
            &&& start <= clamped(g, x) < start + side
            &&& clamped(g, x) <= x <= clamped(g, x) + 1
            &&& start & ((side - 1) as u64) == 0
            &&& start + side <= grid_side(g)
            &&& start >> ((g - level) as u64) == clamped(g, x) >> ((g - level) as u64)
            &&& clamped(g, start) == start
            &&& level == 0 ==> start == 0
            &&& start == (clamped(g, x) as nat / side as nat) * side
            &&& 1 <= side <= 0x8000_0000
        }),
{
    let bits = g as u64;
    let free = (g - level) as u64;
    lemma_power_of_two(bits);
    lemma_power_of_two(free);
    let inside = clamped(g, x);
    let start = cell_start(g, x, level);
    let side = power(2, (g - level) as nat) as u64;
    assert(free <= bits <= 31 && x <= (1u64 << bits) && inside == (if x >= (1u64 << bits) {
        ((1u64 << bits) - 1) as u64
    } else {
        x
    }) && start == (inside >> free) << free && side == 1u64 << free ==> start <= inside && inside
        < start + side && inside <= x && x <= inside + 1 && start & ((side - 1) as u64) == 0
        && start + side <= (1u64 << bits) && start >> free == inside >> free && start < (1u64
        << bits) && (free == bits ==> start == 0)) by (bit_vector);
    lemma_side_bound((g - level) as nat);
    lemma_power_is_pow2(free as nat);
    let quotient = inside >> free;
    vstd::bits::lemma_u64_shr_is_div(inside, free);
    vstd::arithmetic::div_mod::lemma_fundamental_div_mod(inside as int, side as int);
    vstd::arithmetic::div_mod::lemma_mod_bound(inside as int, side as int);
    assert(quotient * side <= inside) by (nonlinear_arith)
        requires
            inside == side * (inside as int / side as int) + (inside as int % side as int),
            0 <= inside as int % side as int,
            quotient == inside as int / side as int,
    ;
    vstd::bits::lemma_u64_shl_is_mul(quotient, free);
}

/// A box that fits a level fits the level above.
pub proof fn lemma_fits_above(g: u32, level: nat, min: u64, max: u64)
    requires
        1 <= level <= g,
        fits_axis(g, level, min, max),
    ensures
        fits_axis(g, (level - 1) as nat, min, max),
{
    let w = power(2, (g - level) as nat);
    let wide = power(2, (g - level + 1) as nat);
    assert(wide == 2 * w);
    lemma_power_grows(2, 0, (g - level) as nat);
    let m = min as nat;
    vstd::arithmetic::div_mod::lemma_fundamental_div_mod(m as int, w as int);
    vstd::arithmetic::div_mod::lemma_mod_bound(m as int, w as int);
    vstd::arithmetic::div_mod::lemma_fundamental_div_mod(m as int, wide as int);
    vstd::arithmetic::div_mod::lemma_mod_bound(m as int, wide as int);
    assert((m / w) * w == w * (m / w)) by (nonlinear_arith);
    assert((m / wide) * wide == wide * (m / wide)) by (nonlinear_arith);
}

/// A box that fits a level fits every level above.
pub proof fn lemma_fits_all_above(g: u32, above: nat, level: nat, min: u64, max: u64)
    requires
        above <= level <= g,
        fits_axis(g, level, min, max),
    ensures
        fits_axis(g, above, min, max),
    decreases level,
{
    if above < level {
        lemma_fits_above(g, level, min, max);
        lemma_fits_all_above(g, above, (level - 1) as nat, min, max);
    }
}

/// On one axis: the doubled cell of a level at which a box fits, of the cell
/// that holds the lower end of the box, holds the box.
pub proof fn lemma_doubled_cell_holds_box(g: u32, level: nat, min: u64, max: u64)
    requires
        level <= g <= MAX_GRID_BITS,
        min <= max <= grid_side(g),
        fits_axis(g, level, min, max),
    ensures
        cell_start(g, min, level) <= min,
        max <= cell_start(g, min, level) + 2 * power(2, (g - level) as nat),
{
    lemma_cell_start(g, min, level);
    lemma_side_bound((g - level) as nat);
    lemma_power_of_two(g as u64);
    let w = power(2, (g - level) as nat);
    let start = cell_start(g, min, level);
    let m = min as nat;
    vstd::arithmetic::div_mod::lemma_fundamental_div_mod(m as int, w as int);
    vstd::arithmetic::div_mod::lemma_mod_bound(m as int, w as int);
    assert((m / w) * w == w * (m / w)) by (nonlinear_arith);
}

/// Every box on the grid fits the first level.
pub proof fn lemma_fits_level_one(g: u32, min: u64, max: u64)
    requires
        1 <= g <= MAX_GRID_BITS,
        min <= max <= grid_side(g),
    ensures
        fits_axis(g, 1, min, max),
{
    let w = power(2, (g - 1) as nat);
    assert(grid_side(g) == 2 * w);
    lemma_power_grows(2, 0, (g - 1) as nat);
    let m = min as nat;
    vstd::arithmetic::div_mod::lemma_fundamental_div_mod(m as int, w as int);
    vstd::arithmetic::div_mod::lemma_mod_bound(m as int, w as int);
    assert((m / w) * w == w * (m / w)) by (nonlinear_arith);
    assert(w * (m / w) >= 0) by (nonlinear_arith)
        requires
            w > 0,
            m / w >= 0,
    ;
}

} // verus!
