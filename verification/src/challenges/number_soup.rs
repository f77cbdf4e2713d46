//! The challenge of the number soup.

use vstd::prelude::*;

use crate::puzzle::Puzzle;

verus! {

/// The challenge of the number soup, which has no rules yet.
pub struct NumberSoupChallenge;

impl NumberSoupChallenge {
    /// The grid of the challenge: nine columns and four rows, without
    /// names or walls, every cell unset.
    pub fn puzzle() -> (puzzle: Puzzle)
        ensures
            puzzle@.wf(),
            puzzle@.layout.num_columns == 9,
            puzzle@.layout.num_rows == 4,
            forall|i: int| 0 <= i < puzzle@.digits.len() ==> puzzle@.digits[i] is None,
    {
        Puzzle::new(9, 4, Vec::new(), Vec::new())
    }

    /// Compute the solution to the number soup, of which only the grid is
    /// known
    pub fn compute() {
        // Use predefined puzzle as its already been solved
        let _puzzle = Self::puzzle();
    }
}

} // verus!
