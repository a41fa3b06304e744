//! Gauss-Jordan elimination on augmented matrices, generic over the scalar
//! type: reading a matrix from text, the matrix model, the row reduction
//! engine, the classifier of the reduced form, and the verification of a
//! solution against the equations as they were given.

pub mod matrix;
pub mod scalar;
pub mod text;
pub mod reduce;
pub mod classify;
pub mod verification;
