//! Walls between the cells of the grid.

use vstd::prelude::*;

use super::position::PuzzleDirection;

verus! {

/// The direction of the wall from the current tile
#[derive(Clone, Copy, Debug, PartialEq, Eq, Structural)]
pub enum WallDirection {
    Right,
    Down,
    /// The wall is both to the right and down of the current position
    Both,
}

impl WallDirection {
    /// Whether a wall of this kind stops travel in `direction`.
    pub open spec fn blocks(self, direction: PuzzleDirection) -> bool {
        match (self, direction) {
            (WallDirection::Right, PuzzleDirection::Across) => true,
            (WallDirection::Down, PuzzleDirection::Down) => true,
            (WallDirection::Both, _) => true,
            _ => false,
        }
    }

    /// Check the direction is blocked by this wall
    pub fn is_blocked(&self, direction: PuzzleDirection) -> (blocked: bool)
        ensures
            blocked == self.blocks(direction),
    {
        match (self, direction) {
            (WallDirection::Right, PuzzleDirection::Across) => true,
            (WallDirection::Right, PuzzleDirection::Down) => false,
            (WallDirection::Down, PuzzleDirection::Across) => false,
            (WallDirection::Down, PuzzleDirection::Down) => true,
            (WallDirection::Both, _) => true,
        }
    }
}

} // verus!
