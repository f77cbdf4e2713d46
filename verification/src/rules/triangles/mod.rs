//! The rules of the puzzle of triangles.

pub mod pythagorean_triangle;
pub mod square;
pub mod triangle_trio;
