//! Escape-time fractal rendering split into row bands, the text format of
//! its coordinate pairs, and an in-place merge sort.

pub mod band;
pub mod pair;
pub mod render;
pub mod sort;
pub mod workers;
