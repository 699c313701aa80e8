//! Sizes in the complete tree that an extended Z-order curve numbers.

use vstd::prelude::*;

verus! {

/// `base` to the power `exp`.
pub open spec fn power(base: nat, exp: nat) -> nat
    decreases exp,
{
    if exp == 0 {
        1
    } else {
        base * power(base, (exp - 1) as nat)
    }
}

/// The number of nodes of a complete tree with `height` levels in which every
/// inner node has `fanout` children: `1 + fanout + ... + fanout^(height - 1)`.
pub open spec fn subtree_size(fanout: nat, height: nat) -> nat
    decreases height,
{
    if height == 0 {
        0
    } else {
        fanout * subtree_size(fanout, (height - 1) as nat) + 1
    }
}

/// A tree with all its levels has `(fanout^height - 1) / (fanout - 1)` nodes.
pub proof fn lemma_subtree_size_closed(fanout: nat, height: nat)
    requires
        fanout >= 2,
    ensures
        power(fanout, height) == (fanout - 1) * subtree_size(fanout, height) + 1,
        subtree_size(fanout, height) == (power(fanout, height) - 1) / (fanout - 1) as int,
    decreases height,
{
    if height > 0 {
        lemma_subtree_size_closed(fanout, (height - 1) as nat);
        let p = power(fanout, (height - 1) as nat);
        let t = subtree_size(fanout, (height - 1) as nat);
        assert(fanout * p == (fanout - 1) * (fanout * t + 1) + 1) by (nonlinear_arith)
            requires
                p == (fanout - 1) * t + 1,
        ;
        assert(power(fanout, height) == fanout * p);
        assert(subtree_size(fanout, height) == fanout * t + 1);
    } else {
        assert((fanout - 1) * 0 == 0) by (nonlinear_arith);
    }
    let t = subtree_size(fanout, height);
    vstd::arithmetic::div_mod::lemma_div_multiples_vanish(t as int, (fanout - 1) as int);
    assert((fanout - 1) * t == t * (fanout - 1)) by (nonlinear_arith);
}

/// The power of a greater exponent is no less.
pub proof fn lemma_power_grows(base: nat, low: nat, high: nat)
    requires
        base >= 1,
        low <= high,
    ensures
        1 <= power(base, low) <= power(base, high),
    decreases high,
{
    if low < high {
        lemma_power_grows(base, low, (high - 1) as nat);
        let p = power(base, (high - 1) as nat);
        assert(base * p >= p) by (nonlinear_arith)
            requires
                base >= 1,
        ;
    } else if low > 0 {
        lemma_power_grows(base, (low - 1) as nat, (low - 1) as nat);
        let p = power(base, (low - 1) as nat);
        assert(base * p >= 1) by (nonlinear_arith)
            requires
                base >= 1,
                p >= 1,
        ;
    }
}

/// Powers of two are what a shift of one gives.
pub proof fn lemma_power_of_two(exp: u64)
    requires
        exp < 64,
    ensures
        power(2, exp as nat) == 1u64 << exp,
        power(2, exp as nat) < 0x1_0000_0000_0000_0000,
    decreases exp,
{
    if exp == 0 {
        assert(1u64 << 0u64 == 1) by (bit_vector);
    } else {
        let below = (exp - 1) as u64;
        lemma_power_of_two(below);
        assert(1u64 << exp == 2 * (1u64 << below)) by (bit_vector)
            requires
                exp < 64,
                below == exp - 1,
        ;
    }
}

/// Powers of four and of eight are powers of two.
pub proof fn lemma_power_of_power(exp: nat)
    ensures
        power(4, exp) == power(2, 2 * exp),
        power(8, exp) == power(2, 3 * exp),
    decreases exp,
{
    if exp > 0 {
        lemma_power_of_power((exp - 1) as nat);
        assert(power(2, 2 * exp) == 2 * power(2, (2 * exp - 1) as nat));
        assert(power(2, (2 * exp - 1) as nat) == 2 * power(2, (2 * exp - 2) as nat));
        assert(power(2, 3 * exp) == 2 * power(2, (3 * exp - 1) as nat));
        assert(power(2, (3 * exp - 1) as nat) == 2 * power(2, (3 * exp - 2) as nat));
        assert(power(2, (3 * exp - 2) as nat) == 2 * power(2, (3 * exp - 3) as nat));
    }
}

/// `base` to the power `exp`, where the result fits in 64 bits.
pub fn pow(base: u64, exp: u32) -> (r: u64)
    requires
        base >= 1,
        power(base as nat, exp as nat) <= u64::MAX,
    ensures
        r == power(base as nat, exp as nat),
{
    let mut r: u64 = 1;
    let mut i: u32 = 0;
    while i < exp
        invariant
            i <= exp,
            base >= 1,
            r == power(base as nat, i as nat),
            power(base as nat, exp as nat) <= u64::MAX,
        decreases exp - i,
    {
        proof {
            lemma_power_grows(base as nat, (i + 1) as nat, exp as nat);
            assert(power(base as nat, (i + 1) as nat) == base * power(base as nat, i as nat));
            assert(r * base == base * r) by (nonlinear_arith);
        }
        r = r * base;
        i = i + 1;
    }
    r
}

/// Floored division by `num_integer::div_floor`. Trusted: for unsigned
/// operands and a divisor other than zero it is the quotient of `/`.
#[verifier::external_body]
pub(crate) fn div_floor(x: u64, y: u64) -> (r: u64)
    requires
        y != 0,
    ensures
        r == x / y,
{
    num_integer::div_floor(x, y)
}

/// The number of nodes of a complete tree with `fanout` children per node
/// and `height` levels, computed as `(fanout^height - 1) / (fanout - 1)`.
pub fn full_subtree(fanout: u64, height: u32) -> (r: u64)
    requires
        fanout >= 2,
        power(fanout as nat, height as nat) <= u64::MAX,
    ensures
        r == subtree_size(fanout as nat, height as nat),
{
    proof {
        lemma_subtree_size_closed(fanout as nat, height as nat);
        lemma_power_grows(fanout as nat, 0, height as nat);
    }
    div_floor(pow(fanout, height) - 1, fanout - 1)
}

/// The side of a grid of up to 31 levels is at most `2^31`.
pub proof fn lemma_side_bound(exp: nat)
    requires
        exp <= 31,
    ensures
        1 <= power(2, exp) <= 0x8000_0000,
{
    lemma_power_grows(2, exp, 31);
    lemma_power_of_two(31);
    assert(1u64 << 31u64 == 0x8000_0000) by (bit_vector);
}

/// The powers of two here are those of the library of proofs.
pub proof fn lemma_power_is_pow2(exp: nat)
    ensures
        power(2, exp) == vstd::arithmetic::power2::pow2(exp),
    decreases exp,
{
    if exp == 0 {
        vstd::arithmetic::power2::lemma2_to64();
    } else {
        lemma_power_is_pow2((exp - 1) as nat);
        vstd::arithmetic::power2::lemma_pow2_unfold(exp);
    }
}

} // verus!
