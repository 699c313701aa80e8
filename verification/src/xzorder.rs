//! Extended Z-order curves for regions.

pub mod grid;
pub mod tree;
pub mod xz2_covering;
pub mod xz2_sfc;
pub mod xz3_covering;
pub mod xz3_sfc;
