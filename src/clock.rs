//! Timing of a computation and the decimal form of its answer, as a day's
//! run reports them.
use std::time::{Duration, Instant};
use vstd::prelude::*;

verus! {

#[verifier::external_type_specification]
#[verifier::external_body]
pub struct ExInstant(Instant);

/// Relies on `Instant::now`: the current moment; nothing is known of it.
#[verifier::external_body]
pub(crate) fn start_clock() -> Instant {
    Instant::now()
}

/// Relies on `Instant::elapsed`: the time since `start`; nothing is known of it.
#[verifier::external_body]
pub(crate) fn elapsed_since(start: &Instant) -> Duration {
    start.elapsed()
}

/// Relies on `Duration::as_nanos`: the whole nanoseconds of `d`.
#[verifier::external_body]
pub(crate) fn nanos_of(d: &Duration) -> u128 {
    d.as_nanos()
}

pub open spec fn digit_char(d: int) -> char {
    seq!['0', '1', '2', '3', '4', '5', '6', '7', '8', '9'][d]
}

/// The decimal digits of `n`, without leading zeros.
pub open spec fn digits_of(n: nat) -> Seq<char>
    decreases n,
{
    if n < 10 {
        seq![digit_char(n as int)]
    } else {
        digits_of(n / 10).push(digit_char((n % 10) as int))
    }
}

/// The decimal form of `v`, with a `-` in front of a negative value.
pub open spec fn decimal_of(v: int) -> Seq<char> {
    if v < 0 {
        seq!['-'] + digits_of((-v) as nat)
    } else {
        digits_of(v as nat)
    }
}

/// Relies on the `Display` of `i128`, through `format!`: its decimal form.
#[verifier::external_body]
pub(crate) fn decimal_i128(v: i128) -> (r: String)
    ensures
        r@ == decimal_of(v as int),
{
    format!("{}", v)
}

/// Relies on the `Display` of `u128`, through `format!`: its decimal form.
#[verifier::external_body]
pub(crate) fn decimal_u128(v: u128) -> (r: String)
    ensures
        r@ == decimal_of(v as int),
{
    format!("{}", v)
}

} // verus!
