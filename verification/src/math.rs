//! Greatest common divisor and least common multiple.

use vstd::prelude::*;

verus! {

/// The greatest common divisor of `a` and `b`, by Euclid's recurrence.
pub open spec fn gcd(a: nat, b: nat) -> nat
    decreases b,
{
    if b == 0 {
        a
    } else {
        gcd(b, a % b)
    }
}

/// The least common multiple of `a` and `b`; meaningful whenever the two are
/// not both zero.
pub open spec fn lcm(a: nat, b: nat) -> nat {
    (a * b) / gcd(a, b)
}

/// `gcd` vanishes only on the pair (0, 0).
pub proof fn lemma_gcd_zero_only_at_zero(a: nat, b: nat)
    ensures
        gcd(a, b) == 0 ==> (a == 0 && b == 0),
    decreases b,
{
    if b != 0 {
        lemma_gcd_zero_only_at_zero(b, a % b);
    }
}

/// Computes the greatest common divisor of `a` and `b`.
pub fn mcd(a: u64, b: u64) -> (r: u64)
    ensures
        r == gcd(a as nat, b as nat),
    decreases b,
{
    if b == 0 {
        a
    } else {
        mcd(b, a % b)
    }
}

/// Computes the least common multiple of `a` and `b`.
///
/// The product must fit in a `u64`, and at least one argument must be
/// nonzero, so that the division below is defined.
pub fn mcm(a: u64, b: u64) -> (r: u64)
    requires
        a * b <= u64::MAX,
        !(a == 0 && b == 0),
    ensures
        r == lcm(a as nat, b as nat),
{
    let g = mcd(a, b);
    proof {
        lemma_gcd_zero_only_at_zero(a as nat, b as nat);
    }
    (a * b) / g
}

} // verus!
