//! IEEE 754 binary numbers held as bit patterns, with arithmetic on integers.

pub mod rounding;
pub mod number;
pub mod scalar;
pub mod mirror;
pub mod bounds;
pub mod nearest;
