//! Z-order curves for points.

pub mod covering;
pub mod z_2;
pub mod z_3;
pub mod z_curve_2d;
pub mod z_n;
pub mod z_range;
