//! Which of the four puzzles a grid is valid for.

use vstd::prelude::*;

verus! {

/// A struct to store whether the current puzzle is valid
/// for the 4 different puzzles
#[derive(Debug)]
pub struct ValidationResult {
    pub p: bool,
    pub q: bool,
    pub r: bool,
    pub s: bool,
}

impl ValidationResult {
    /// Create a new result that sets all results to false
    pub fn new_invalid() -> (result: Self)
        ensures
            !result.p && !result.q && !result.r && !result.s,
    {
        Self { p: false, q: false, r: false, s: false }
    }

    /// The result for the puzzle P, to be set.
    pub fn p_mut(&mut self) -> (slot: &mut bool)
        ensures
            *slot == old(self).p,
            *final(self) == (ValidationResult { p: *final(slot), ..*old(self) }),
    {
        &mut self.p
    }

    /// The result for the puzzle Q, to be set.
    pub fn q_mut(&mut self) -> (slot: &mut bool)
        ensures
            *slot == old(self).q,
            *final(self) == (ValidationResult { q: *final(slot), ..*old(self) }),
    {
        &mut self.q
    }

    /// The result for the puzzle R, to be set.
    pub fn r_mut(&mut self) -> (slot: &mut bool)
        ensures
            *slot == old(self).r,
            *final(self) == (ValidationResult { r: *final(slot), ..*old(self) }),
    {
        &mut self.r
    }

    /// The result for the puzzle S, to be set.
    pub fn s_mut(&mut self) -> (slot: &mut bool)
        ensures
            *slot == old(self).s,
            *final(self) == (ValidationResult { s: *final(slot), ..*old(self) }),
    {
        &mut self.s
    }

    /// Returns the result of the validation in the order of \[P, Q, R, S\]
    pub fn results(&self) -> (results: [bool; 4])
        ensures
            results@ == seq![self.p, self.q, self.r, self.s],
    {
        let results = [self.p, self.q, self.r, self.s];
        assert(results@ =~= seq![self.p, self.q, self.r, self.s]);
        results
    }

    // Checks if this puzzle fits the rules for any kind of puzzle
    pub fn is_any_valid(&self) -> (any: bool)
        ensures
            any == (self.p || self.q || self.r || self.s),
    {
        self.p || self.q || self.r || self.s
    }
}

} // verus!
