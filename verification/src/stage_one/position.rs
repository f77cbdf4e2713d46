//! The numbered positions of the puzzle of the first stage.

use vstd::prelude::*;

verus! {

/// The direction in which a number is read.
#[derive(Clone, Copy, Debug, PartialEq, Eq, Structural)]
pub enum PuzzleDirection {
    Across,
    Down,
}

/// A numbered position of the puzzle and the direction to read in.
#[derive(Clone, Copy, Debug)]
pub struct PuzzlePosition {
    index: u8,
    direction: PuzzleDirection,
}

impl PuzzlePosition {
    /// The number of a position is between 1 and 5.
    #[verifier::type_invariant]
    pub closed spec fn well_formed(self) -> bool {
        1 <= self.index <= 5
    }

    /// The number of the position.
    pub closed spec fn spec_index(self) -> u8 {
        self.index
    }

    /// The direction of the position.
    pub closed spec fn spec_direction(self) -> PuzzleDirection {
        self.direction
    }

    /// The position with the given number, between 1 and 5, and direction.
    pub fn new(index: u8, direction: PuzzleDirection) -> (position: Self)
        requires
            1 <= index <= 5,
        ensures
            position.spec_index() == index,
            position.spec_direction() == direction,
    {
        Self { index, direction }
    }

    /// The position with the given number, read across.
    pub fn new_across(index: u8) -> (position: Self)
        requires
            1 <= index <= 5,
        ensures
            position.spec_index() == index,
            position.spec_direction() == PuzzleDirection::Across,
    {
        Self::new(index, PuzzleDirection::Across)
    }

    /// The position with the given number, read down.
    pub fn new_down(index: u8) -> (position: Self)
        requires
            1 <= index <= 5,
        ensures
            position.spec_index() == index,
            position.spec_direction() == PuzzleDirection::Down,
    {
        Self::new(index, PuzzleDirection::Down)
    }

    /// The number of the position.
    pub fn index(&self) -> (index: u8)
        ensures
            index == self.spec_index(),
            1 <= index <= 5,
    {
        proof {
            use_type_invariant(self);
        }
        self.index
    }

    /// The direction of the position.
    pub fn direction(&self) -> (direction: PuzzleDirection)
        ensures
            direction == self.spec_direction(),
    {
        self.direction
    }
}

} // verus!
