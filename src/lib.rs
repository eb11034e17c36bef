//! Encodes delimited text rows as a padded byte matrix and back, scans the
//! numeric text form of a matrix, and holds the integer-valued decisions of
//! keyed matrix transforms: the random 0/1 key pattern, the bounded search for
//! an invertible key, and the dimension guard of matrix products.
//!
//! The floating-point side of the transform lives with the caller.

mod error;
mod text;
pub mod codec;
pub mod keygen;
pub mod matrix_text;
pub mod transform;

pub use error::LatticeError;
