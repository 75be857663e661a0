//! Integer rasterisation logic of a small software renderer: Bresenham line
//! walking, triangle candidate-pixel scanning and primitive assembly.

pub mod line;
pub mod triangle;
pub mod pipeline;
