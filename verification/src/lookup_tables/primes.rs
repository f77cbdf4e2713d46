//! The primes below a thousand.

use vstd::prelude::*;

use super::ascending;

verus! {

/// The bound of the table: it holds the primes below this number.
pub const PRIME_LIMIT: usize = 1000;

/// Whether `divisor` divides `number`.
pub open spec fn divides(divisor: nat, number: nat) -> bool {
    divisor != 0 && number % divisor == 0
}

/// Whether the number is prime: at least 2, and divided by no number
/// between 1 and itself.
pub open spec fn is_prime(number: nat) -> bool {
    number >= 2 && forall|divisor: nat|
        2 <= divisor < number ==> !#[trigger] divides(divisor, number)
}

/// Whether the table of primes holds the number.
pub open spec fn is_table_prime(number: nat) -> bool {
    number < PRIME_LIMIT && is_prime(number)
}

/// A table of all primes below a thousand
pub struct PrimeTable;

impl PrimeTable {
    /// Whether the number is a prime below a thousand.
    pub fn is_prime(number: usize) -> (prime: bool)
        ensures
            prime == is_table_prime(number as nat),
    {
        if number < 2 || number >= PRIME_LIMIT {
            return false;
        }
        let mut divisor: usize = 2;
        while divisor < number
            invariant
                2 <= divisor <= number,
                forall|d: nat| 2 <= d < divisor ==> !#[trigger] divides(d, number as nat),
            decreases number - divisor,
        {
            if number % divisor == 0 {
                assert(divides(divisor as nat, number as nat));
                return false;
            }
            divisor += 1;
        }
        true
    }

    /// The primes below a thousand in ascending order.
    pub fn primes() -> (table: Vec<usize>)
        ensures
            ascending(table@),
            forall|number: usize| table@.contains(number) <==> is_table_prime(number as nat),
    {
        let mut table: Vec<usize> = Vec::new();
        let mut number: usize = 0;
        while number < PRIME_LIMIT
            invariant
                number <= PRIME_LIMIT,
                ascending(table@),
                forall|i: int| 0 <= i < table@.len() ==> table@[i] < number,
                forall|n: usize| table@.contains(n) <==> n < number && is_table_prime(n as nat),
            decreases PRIME_LIMIT - number,
        {
            if Self::is_prime(number) {
                let ghost before = table@;
                table.push(number);
                proof {
                    assert forall|n: usize|
                        table@.contains(n) <==> n < number + 1 && is_table_prime(n as nat) by {
                        if table@.contains(n) {
                            let i = choose|i: int| 0 <= i < table@.len() && table@[i] == n;
                            if i < before.len() {
                                assert(before.contains(n));
                            }
                        }
                        if n < number + 1 && is_table_prime(n as nat) {
                            if n < number {
                                assert(before.contains(n));
                                let i = choose|i: int| 0 <= i < before.len() && before[i] == n;
                                assert(table@[i] == n);
                            } else {
                                assert(table@[before.len() as int] == n);
                            }
                        }
                    }
                }
            }
            number += 1;
        }
        table
    }
}

} // verus!
