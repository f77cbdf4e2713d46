//! Tables of number theory that the rules draw their candidates from.

use vstd::prelude::*;

pub mod coprimes;
pub mod graph;
pub mod numbers;
pub mod primes;
pub mod pythagorean_triples;
pub mod square;
pub mod triangular;
pub mod trios;

verus! {

/// Whether the numbers stand in strictly ascending order.
pub open spec fn ascending(numbers: Seq<usize>) -> bool {
    forall|i: int, j: int| 0 <= i < j < numbers.len() ==> numbers[i] < numbers[j]
}

} // verus!
