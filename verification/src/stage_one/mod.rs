//! The puzzle of the first stage: a grid of three by three digits.

pub mod grid;
pub mod position;
pub mod result;
