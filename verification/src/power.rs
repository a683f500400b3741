//! Powers of two: what a tile and a target may be.

use vstd::prelude::*;

verus! {

/// `n` is 1, 2, 4, 8, ...
pub open spec fn is_power_of_two(n: nat) -> bool
    decreases n,
{
    n == 1 || (n >= 2 && n % 2 == 0 && is_power_of_two(n / 2))
}

/// A value that a tile may have: a power of two, 2 at least.
pub open spec fn is_tile(v: nat) -> bool {
    v >= 2 && is_power_of_two(v)
}

/// A value that a game may be played for: a power of two, not below 5.
pub open spec fn is_valid_target(target: nat) -> bool {
    target >= 5 && is_power_of_two(target)
}

/// No power of two lies between 5 and 7, so the smallest target is 8.
pub proof fn lemma_smallest_target(target: nat)
    ensures
        is_valid_target(target) <==> target >= 8 && is_power_of_two(target),
{
    reveal_with_fuel(is_power_of_two, 4);
}

/// The double of a tile is a tile.
pub proof fn lemma_double_tile(v: nat)
    requires
        is_tile(v),
    ensures
        is_tile(2 * v),
{
    assert((2 * v) / 2 == v);
}

/// A positive number is a power of two exactly when it shares no bit with
/// its predecessor.
pub proof fn lemma_power_of_two_bits(x: usize)
    requires
        x > 0,
    ensures
        x & ((x - 1) as usize) == 0 <==> is_power_of_two(x as nat),
    decreases x,
{
    if x == 1 {
        assert(1usize & 0usize == 0) by (bit_vector);
    } else {
        let h = x / 2;
        assert(h > 0);
        lemma_power_of_two_bits(h);
        assert((x & ((x - 1) as usize) == 0) <==> (x % 2 == 0 && (x / 2) & ((x / 2 - 1) as usize)
            == 0)) by (bit_vector)
            requires
                x >= 2,
        ;
    }
}

/// Whether `value` is a power of two.
pub fn power_of_two(value: usize) -> (yes: bool)
    ensures
        yes == is_power_of_two(value as nat),
{
    if value == 0 {
        return false;
    }
    proof {
        lemma_power_of_two_bits(value);
    }
    (value & (value - 1)) == 0
}

/// Whether a game may be played for `target`.
pub fn target_is_valid(target: usize) -> (yes: bool)
    ensures
        yes == is_valid_target(target as nat),
{
    if target < 5 {
        return false;
    }
    power_of_two(target)
}

} // verus!
