//! Binary floating point numbers as bit patterns.
//!
//! Costs, cardinalities and scores are IEEE 754 double precision numbers. They are held here as
//! their 64 bit encoding, and every operation is defined on integers: a finite number is an
//! integral multiple of `2^-1074`, and an operation rounds its exact result to the nearest number
//! that has an encoding, to the one with an even significand where two are equally near.
pub mod encoding;
pub mod rounding;
pub mod arith;
pub mod root;
pub mod identity;
pub mod integers;
pub mod known;
pub mod monotone;
pub mod order;
pub mod same;
pub mod sums;
pub mod text;
