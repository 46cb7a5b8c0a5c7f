//! Calibration of a lumped flow-cell model against a measured voltage trace
//! by an evolutionary search.
//!
//! Every physical quantity is held as an integer count of a fixed unit, so
//! that each rule of the search and of the cell model is stated exactly and
//! holds without rounding noise.  Quantities that need logarithms or square
//! roots are supplied by the caller through a closure.

pub mod errors;
pub mod fitness;
pub mod fixed_point;
pub mod genome;
pub mod electrochem_model;
pub mod random;
pub mod ranking;
pub mod operators;
pub mod genetic_algorithm;
pub mod data_preparation;
