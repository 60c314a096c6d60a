//! Greatest common divisor and least common multiple, from the `num` crate.
use num::Integer;
use vstd::prelude::*;

verus! {

/// The greatest common divisor, by Euclid's rule; `gcd(a, 0) == a`.
pub open spec fn gcd(a: nat, b: nat) -> nat
    decreases b,
{
    if b == 0 {
        a
    } else {
        gcd(b, a % b)
    }
}

/// The least common multiple as `num` computes it for unsigned integers:
/// `a * (b / gcd(a, b))`, and 0 where both are 0.
pub open spec fn lcm(a: nat, b: nat) -> nat {
    if a == 0 && b == 0 {
        0
    } else {
        a * (b / gcd(a, b))
    }
}

/// Relies on `num::Integer::gcd` for `u128`: the greatest common divisor,
/// which is `a | b` where either is 0.
#[verifier::external_body]
pub(crate) fn gcd_u128(a: u128, b: u128) -> (r: u128)
    ensures
        r as nat == gcd(a as nat, b as nat),
{
    a.gcd(&b)
}

/// Relies on `num::Integer::lcm` for `u128`: `a * (b / gcd(a, b))`, 0 where
/// both are 0; the product must fit.
#[verifier::external_body]
pub(crate) fn lcm_u128(a: u128, b: u128) -> (r: u128)
    requires
        lcm(a as nat, b as nat) <= u128::MAX,
    ensures
        r as nat == lcm(a as nat, b as nat),
{
    a.lcm(&b)
}

} // verus!
