//! Positions, identifiers and directions on the puzzle grid.

use vstd::prelude::*;

verus! {

/// A direction on the puzzle grid
#[derive(Clone, Copy, Debug, PartialEq, Eq, Structural)]
pub enum PuzzleDirection {
    /// Represents right on the grid
    Across,
    /// Represents down on the grid
    Down,
}

/// A named position on the puzzle grid
#[derive(Clone, Copy, Debug, PartialEq, Eq, Structural, PartialOrd, Ord, Hash)]
pub struct PuzzleIdentifier(pub usize);

/// A named vector on the puzzle grid
#[derive(Clone, Copy, Debug, PartialEq, Eq, Structural)]
pub struct IdentifierVector {
    pub identifier: PuzzleIdentifier,
    pub direction: PuzzleDirection,
}

impl IdentifierVector {
    /// Create a new vector at the identifier
    pub fn new(identifier: PuzzleIdentifier, direction: PuzzleDirection) -> (vector: Self)
        ensures
            vector.identifier == identifier,
            vector.direction == direction,
    {
        Self { identifier, direction }
    }
}

/// Any point on the grid
#[derive(Clone, Copy, Debug, PartialEq, Eq, Structural, PartialOrd, Ord, Hash)]
pub struct GridPosition {
    pub column: usize,
    pub row: usize,
}

impl GridPosition {
    /// Create a new position on the grid
    pub fn new(column: usize, row: usize) -> (position: Self)
        ensures
            position.column == column,
            position.row == row,
    {
        Self { column, row }
    }

    /// The position one cell further in `direction`.
    pub open spec fn step(self, direction: PuzzleDirection) -> GridPosition {
        match direction {
            PuzzleDirection::Across => GridPosition {
                column: (self.column + 1) as usize,
                row: self.row,
            },
            PuzzleDirection::Down => GridPosition {
                column: self.column,
                row: (self.row + 1) as usize,
            },
        }
    }

    /// The position `count` cells further in `direction`.
    pub open spec fn advance(self, direction: PuzzleDirection, count: nat) -> GridPosition {
        match direction {
            PuzzleDirection::Across => GridPosition {
                column: (self.column + count) as usize,
                row: self.row,
            },
            PuzzleDirection::Down => GridPosition {
                column: self.column,
                row: (self.row + count) as usize,
            },
        }
    }
}

impl core::ops::Add for GridPosition {
    type Output = GridPosition;

    fn add(self, rhs: Self) -> (sum: GridPosition) {
        GridPosition::new(self.column + rhs.column, self.row + rhs.row)
    }
}

impl vstd::std_specs::ops::AddSpecImpl for GridPosition {
    open spec fn obeys_add_spec() -> bool {
        true
    }

    open spec fn add_req(self, rhs: GridPosition) -> bool {
        self.column + rhs.column <= usize::MAX && self.row + rhs.row <= usize::MAX
    }

    open spec fn add_spec(self, rhs: GridPosition) -> GridPosition {
        GridPosition {
            column: (self.column + rhs.column) as usize,
            row: (self.row + rhs.row) as usize,
        }
    }
}

impl core::ops::AddAssign for GridPosition {
    fn add_assign(&mut self, rhs: Self)
        requires
            old(self).column + rhs.column <= usize::MAX,
            old(self).row + rhs.row <= usize::MAX,
        ensures
            final(self).column == old(self).column + rhs.column,
            final(self).row == old(self).row + rhs.row,
    {
        self.column += rhs.column;
        self.row += rhs.row;
    }
}

} // verus!
