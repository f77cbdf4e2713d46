//! The puzzles that the rules were written for.

pub mod number_soup;
pub mod triangles;
