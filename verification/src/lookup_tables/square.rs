//! The squares that two fields of up to three digits can sum to.

use vstd::prelude::*;

use super::ascending;

verus! {

/// One more than the largest root whose square the table holds.
pub const ROOT_LIMIT: usize = 45;

/// Whether the table of squares holds the number: it is the square of a
/// root from 1 to 44.
pub open spec fn is_table_square(number: nat) -> bool {
    exists|root: nat| 1 <= root < ROOT_LIMIT && #[trigger] (root * root) == number
}

/// The table of squares as mathematics: the squares of 1 to 44 in order.
pub open spec fn squares_spec() -> Seq<usize> {
    Seq::new((ROOT_LIMIT - 1) as nat, |i: int| ((i + 1) * (i + 1)) as usize)
}

/// The table of squares is ascending.
pub proof fn lemma_squares_ascending()
    ensures
        ascending(squares_spec()),
{
    assert forall|i: int, j: int| 0 <= i < j < squares_spec().len() implies squares_spec()[i]
        < squares_spec()[j] by {
        assert((i + 1) * (i + 1) < (j + 1) * (j + 1)) by (nonlinear_arith)
            requires
                0 <= i < j,
        ;
        assert((j + 1) * (j + 1) <= 44 * 44) by (nonlinear_arith)
            requires
                0 <= j < 44,
        ;
    }
}

/// A table of all squares
pub struct SquareTable;

impl SquareTable {
    /// The squares of 1 to 44, in ascending order.
    pub fn squares() -> (table: Vec<usize>)
        ensures
            table@ == squares_spec(),
    {
        let mut squares: Vec<usize> = Vec::new();
        let mut i: usize = 1;
        while i < ROOT_LIMIT
            invariant
                1 <= i <= ROOT_LIMIT,
                squares@.len() == i - 1,
                forall|k: int| 0 <= k < squares@.len() ==> squares@[k] == (k + 1) * (k + 1),
            decreases ROOT_LIMIT - i,
        {
            assert(i * i <= 44 * 44) by (nonlinear_arith)
                requires
                    i <= 44,
            ;
            squares.push(i * i);
            i += 1;
        }
        assert(squares@ =~= squares_spec());
        squares
    }

    /// Whether the number is one of the squares of the table.
    pub fn is_square(number: usize) -> (found: bool)
        ensures
            found == is_table_square(number as nat),
    {
        // Walk up the table, which is ascending, until the number is met or passed
        let mut root: usize = 1;
        while root < ROOT_LIMIT
            invariant
                1 <= root <= ROOT_LIMIT,
                forall|earlier: nat| 1 <= earlier < root ==> #[trigger] (earlier * earlier) != number,
            decreases ROOT_LIMIT - root,
        {
            assert(root * root <= 44 * 44) by (nonlinear_arith)
                requires
                    root <= 44,
            ;
            let square = root * root;
            if square == number {
                assert((root as nat) * (root as nat) == number);
                return true;
            }
            if square > number {
                proof {
                    assert forall|later: nat|
                        root < later < ROOT_LIMIT implies #[trigger] (later * later) != number by {
                        assert(root * root <= later * later) by (nonlinear_arith)
                            requires
                                root < later,
                        ;
                    }
                }
                return false;
            }
            root += 1;
        }
        false
    }
}

} // verus!
