//! Assembly of sparse complex linear systems and their reduction to real
//! systems of twice the order, ready to be handed to a direct sparse solver.
//!
//! Real numbers are carried as the bit patterns of IEEE-754 binary floats
//! (`u64` for `f64`, `u32` for `f32`), so that the tests the library makes on
//! them (is it zero, what is its negation) are exact and proved.

pub mod bits;
pub mod matrix;
pub mod system;
pub mod tools;

pub use bits::{Complex, FloatBits};
pub use matrix::{ComplexMatrix, Triplet};
pub use system::{ComplexSystem, RealSystem, SolveError};
pub use tools::{complex_to_primitive, primitive_to_complex};
