//! The triangular numbers below a thousand.

use vstd::prelude::*;

use super::ascending;

verus! {

/// The number of triangular numbers below a thousand.
pub const TRIANGULAR_COUNT: usize = 44;

/// The `index`-th triangular number: the sum of 1 to `index`.
pub open spec fn triangular(index: nat) -> nat {
    index * (index + 1) / 2
}

/// Whether the number is a triangular number of the table.
pub open spec fn is_table_triangular(number: nat) -> bool {
    exists|index: nat| 1 <= index <= TRIANGULAR_COUNT && #[trigger] triangular(index) == number
}

/// The table of triangular numbers as mathematics: the first 44 in order.
pub open spec fn triangulars_spec() -> Seq<usize> {
    Seq::new(TRIANGULAR_COUNT as nat, |i: int| triangular((i + 1) as nat) as usize)
}

/// Each triangular number is the one before it plus its index.
pub proof fn lemma_triangular_step(index: nat)
    ensures
        triangular(index + 1) == triangular(index) + index + 1,
{
    assert((index + 1) * (index + 2) == index * (index + 1) + 2 * (index + 1))
        by (nonlinear_arith);
    let half = index / 2;
    if index % 2 == 0 {
        assert(index * (index + 1) == 2 * (half * (index + 1))) by (nonlinear_arith)
            requires
                index == 2 * half,
        ;
    } else {
        assert(index * (index + 1) == 2 * (index * (half + 1))) by (nonlinear_arith)
            requires
                index == 2 * half + 1,
        ;
    }
}

/// Triangular numbers grow with their index.
pub proof fn lemma_triangular_grows(low: nat, high: nat)
    requires
        low < high,
    ensures
        triangular(low) < triangular(high),
    decreases high - low,
{
    lemma_triangular_step(low);
    if low + 1 < high {
        lemma_triangular_grows(low + 1, high);
    }
}

/// The table of triangular numbers is ascending and stays below a thousand.
pub proof fn lemma_triangulars_ascending()
    ensures
        ascending(triangulars_spec()),
        forall|i: int|
            0 <= i < TRIANGULAR_COUNT ==> #[trigger] triangulars_spec()[i] == triangular(
                (i + 1) as nat,
            ),
{
    assert(triangular(44) == 990) by (nonlinear_arith);
    assert forall|i: int| 0 <= i < TRIANGULAR_COUNT implies #[trigger] triangulars_spec()[i]
        == triangular((i + 1) as nat) by {
        if i + 1 < 44 {
            lemma_triangular_grows((i + 1) as nat, 44);
        }
    }
    assert forall|i: int, j: int|
        0 <= i < j < triangulars_spec().len() implies triangulars_spec()[i]
        < triangulars_spec()[j] by {
        lemma_triangular_grows((i + 1) as nat, (j + 1) as nat);
    }
}

/// A table of all triangular numbers
pub struct TriangularTable;

impl TriangularTable {
    /// All triangular numbers between 1 and 1000
    pub fn triangulars() -> (table: Vec<usize>)
        ensures
            table@ == triangulars_spec(),
    {
        let mut table: Vec<usize> = Vec::new();
        let mut sum: usize = 0;
        let mut index: usize = 0;
        proof {
            lemma_triangulars_ascending();
        }
        while index < TRIANGULAR_COUNT
            invariant
                index <= TRIANGULAR_COUNT,
                sum == triangular(index as nat),
                table@.len() == index,
                forall|k: int| 0 <= k < index ==> table@[k] == triangulars_spec()[k],
                forall|i: int|
                    0 <= i < TRIANGULAR_COUNT ==> #[trigger] triangulars_spec()[i] == triangular(
                        (i + 1) as nat,
                    ),
            decreases TRIANGULAR_COUNT - index,
        {
            proof {
                lemma_triangular_step(index as nat);
                assert(triangulars_spec()[index as int] == triangular((index + 1) as nat));
            }
            index += 1;
            sum += index;
            table.push(sum);
        }
        assert(table@ =~= triangulars_spec());
        table
    }

    /// Whether the number is a triangular number below a thousand.
    pub fn is_triangular(number: usize) -> (found: bool)
        ensures
            found == is_table_triangular(number as nat),
    {
        // Walk up the table, which is ascending, until the number is met or passed
        let mut sum: usize = 0;
        let mut index: usize = 0;
        while index < TRIANGULAR_COUNT
            invariant
                index <= TRIANGULAR_COUNT,
                sum == triangular(index as nat),
                sum < number || index == 0,
                forall|earlier: nat|
                    1 <= earlier <= index ==> #[trigger] triangular(earlier) != number,
            decreases TRIANGULAR_COUNT - index,
        {
            proof {
                lemma_triangular_step(index as nat);
                assert(triangular(44) == 990) by (nonlinear_arith);
                if index + 1 < 44 {
                    lemma_triangular_grows((index + 1) as nat, 44);
                }
            }
            index += 1;
            sum += index;
            if sum == number {
                return true;
            }
            if sum > number {
                proof {
                    assert forall|later: nat|
                        index < later <= TRIANGULAR_COUNT implies #[trigger] triangular(later)
                        != number by {
                        lemma_triangular_grows(index as nat, later);
                    }
                }
                return false;
            }
        }
        false
    }
}

} // verus!
