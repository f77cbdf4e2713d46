//! A constraint-search engine for crossword-style number puzzles.
//!
//! A puzzle is a grid of digit cells. Runs of one to three cells between
//! walls form fields, rules constrain the values of fields, and the executor
//! expands an empty puzzle into every fill that satisfies all rules.
//!
//! - `puzzle`: the grid, its fields, and how numbers are fitted into them.
//! - `lookup_tables`: primes, squares, triangular numbers, coprime numbers
//!   and Pythagorean triples, from which the rules draw their candidates.
//! - `rules`: what a rule is, the rules of the triangles, and the executor.
//! - `combinations`: pairs and arrangements of the items of a list.
//! - `challenges`: the grids and rules of the puzzles that were set.
//! - `stage_one`: the grid of nine digits of the first stage.

pub mod challenges;
pub mod combinations;
pub mod lookup_tables;
pub mod puzzle;
pub mod rules;
pub mod stage_one;
