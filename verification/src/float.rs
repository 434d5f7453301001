//! Floating-point numbers carried by their IEEE-754 bit patterns.
//!
//! The reports of this crate are full of percentages, rates and slopes. Here
//! they are computed on integers, each operation rounding the exact result to
//! nearest with ties to even, so that every one of them has a statement that
//! can be proved.

pub mod accuracy;
pub mod double;
pub mod grid;
pub mod rounding;
pub mod single;
