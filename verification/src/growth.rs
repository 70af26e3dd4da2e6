//! How large the next chunk is.
//!
//! A new chunk has at least twice the slots of the chunk it follows, and at
//! least the next power of two of the number of values it is asked to hold.
//! Where either number does not fit in a `usize` the arena cannot grow.

use vstd::arithmetic::power2::lemma_pow2_unfold;
use vstd::arithmetic::power2::pow2;
use vstd::prelude::*;

verus! {

/// The smallest power of two that is not below `n`; for 0 that is 1.
pub open spec fn next_power_of_two(n: nat) -> nat
    decreases n,
{
    if n <= 1 {
        1
    } else {
        2 * next_power_of_two((n + 1) / 2)
    }
}

/// The slots of the chunk that follows one of `capacity` slots and is to hold
/// `additional` values.
pub open spec fn grown_capacity(capacity: nat, additional: nat) -> nat {
    if 2 * capacity >= next_power_of_two(additional) {
        2 * capacity
    } else {
        next_power_of_two(additional)
    }
}

/// Both numbers that [`grown_capacity`] chooses between can be held.
pub open spec fn can_grow(capacity: nat, additional: nat) -> bool {
    2 * capacity <= usize::MAX && next_power_of_two(additional) <= usize::MAX
}

/// `usize::checked_next_power_of_two`: the smallest power of two that is not
/// below `n`, or `None` where that power does not fit in a `usize`.
pub assume_specification[ usize::checked_next_power_of_two ](n: usize) -> (power: Option<usize>)
    ensures
        next_power_of_two(n as nat) <= usize::MAX ==> power == Some(
            next_power_of_two(n as nat) as usize,
        ),
        next_power_of_two(n as nat) > usize::MAX ==> power.is_none(),
;

/// `next_power_of_two(n)` is a power of two and is not below `n`.
pub proof fn lemma_next_power_of_two_is_power(n: nat)
    ensures
        exists|e: nat| next_power_of_two(n) == pow2(e),
        n <= next_power_of_two(n),
    decreases n,
{
    if n <= 1 {
        lemma_pow2_unfold(1);
        assert(pow2(0) == 1) by {
            vstd::arithmetic::power2::lemma2_to64();
        }
        assert(next_power_of_two(n) == pow2(0));
    } else {
        let half = ((n + 1) / 2) as nat;
        lemma_next_power_of_two_is_power(half);
        let e = choose|e: nat| next_power_of_two(half) == pow2(e);
        lemma_pow2_unfold(e + 1);
        assert(next_power_of_two(n) == pow2(e + 1));
    }
}

/// No power of two lies between `n` and `next_power_of_two(n)`.
pub proof fn lemma_next_power_of_two_is_least(n: nat, e: nat)
    requires
        n <= pow2(e),
    ensures
        next_power_of_two(n) <= pow2(e),
    decreases n,
{
    vstd::arithmetic::power2::lemma_pow2_pos(e);
    if n >= 2 {
        if e == 0 {
            assert(pow2(0) == 1) by {
                vstd::arithmetic::power2::lemma2_to64();
            }
        } else {
            lemma_pow2_unfold(e);
            lemma_next_power_of_two_is_least(((n + 1) / 2) as nat, (e - 1) as nat);
        }
    }
}

/// A larger request never gets a smaller power.
pub proof fn lemma_next_power_of_two_is_monotonic(a: nat, b: nat)
    requires
        a <= b,
    ensures
        next_power_of_two(a) <= next_power_of_two(b),
{
    lemma_next_power_of_two_is_power(b);
    let e = choose|e: nat| next_power_of_two(b) == pow2(e);
    lemma_next_power_of_two_is_least(a, e);
}

/// From 2 on, the power is below twice the request by at least 2.
pub proof fn lemma_next_power_of_two_upper(n: nat)
    requires
        n >= 2,
    ensures
        next_power_of_two(n) <= 2 * n - 2,
    decreases n,
{
    let half = ((n + 1) / 2) as nat;
    if half >= 2 {
        lemma_next_power_of_two_upper(half);
    } else {
        assert(next_power_of_two(1) == 1);
    }
}

/// A chunk that follows a full one and is to hold at most one value more than
/// the full one has slots gets exactly twice those slots.
pub proof fn lemma_grown_capacity_doubles(capacity: nat, additional: nat)
    requires
        capacity >= 1,
        additional <= capacity + 1,
    ensures
        grown_capacity(capacity, additional) == 2 * capacity,
        can_grow(capacity, additional) <==> 2 * capacity <= usize::MAX,
{
    lemma_next_power_of_two_is_monotonic(additional, capacity + 1);
    lemma_next_power_of_two_upper(capacity + 1);
}

/// The larger of two numbers.
pub fn larger(a: usize, b: usize) -> (c: usize)
    ensures
        c == if a >= b {
            a
        } else {
            b
        },
{
    if a >= b {
        a
    } else {
        b
    }
}

/// The number of slots of the chunk that follows one of `capacity` slots and
/// is to hold `additional` values.
pub fn grow(capacity: usize, additional: usize) -> (grown: usize)
    requires
        can_grow(capacity as nat, additional as nat),
    ensures
        grown == grown_capacity(capacity as nat, additional as nat),
{
    let double_cap: usize = capacity.checked_mul(2).expect("capacity overflow");
    let required_cap: usize = additional.checked_next_power_of_two().expect("capacity overflow");
    larger(double_cap, required_cap)
}

/// Whether a chunk of `capacity` slots can be followed by one that is to hold
/// `additional` values.
pub fn growable(capacity: usize, additional: usize) -> (yes: bool)
    ensures
        yes == can_grow(capacity as nat, additional as nat),
{
    capacity.checked_mul(2).is_some() && additional.checked_next_power_of_two().is_some()
}

} // verus!
