//! Divisors and parity, computed by `num_integer`.

use num_integer::Integer;
use vstd::prelude::*;

verus! {

/// Whether `divisor` divides both numbers.
pub open spec fn common_divisor(divisor: nat, a: nat, b: nat) -> bool {
    divisor > 0 && a % divisor == 0 && b % divisor == 0
}

/// Whether `divisor` is the greatest common divisor of the two numbers;
/// that of zero and zero is zero.
pub open spec fn is_gcd(divisor: nat, a: nat, b: nat) -> bool {
    if a == 0 && b == 0 {
        divisor == 0
    } else {
        &&& common_divisor(divisor, a, b)
        &&& forall|other: nat| #[trigger] common_divisor(other, a, b) ==> other <= divisor
    }
}

/// Whether the two numbers are coprime: their greatest common divisor is 1.
pub open spec fn coprime(a: nat, b: nat) -> bool {
    is_gcd(1, a, b)
}

/// Calls `num_integer::Integer::gcd`, which computes the greatest common
/// divisor of two numbers.
#[verifier::external_body]
pub(crate) fn gcd(a: usize, b: usize) -> (divisor: usize)
    ensures
        is_gcd(divisor as nat, a as nat, b as nat),
{
    a.gcd(&b)
}

/// Calls `num_integer::Integer::is_odd`, which tells whether 2 does not
/// divide the number.
#[verifier::external_body]
pub(crate) fn is_odd(number: usize) -> (odd: bool)
    ensures
        odd == (number % 2 == 1),
{
    number.is_odd()
}

/// Calls `num_integer::Integer::is_even`, which tells whether 2 divides the
/// number.
#[verifier::external_body]
pub(crate) fn is_even(number: usize) -> (even: bool)
    ensures
        even == (number % 2 == 0),
{
    number.is_even()
}

} // verus!
