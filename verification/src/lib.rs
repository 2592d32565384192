//! Linear systems over GF(2): which of a set of bit vectors add up to a target.
//!
//! Vectors are sequences of bytes that hold zero or one, addition is XOR. The
//! solver builds the augmented matrix of the system, brings it to reduced
//! row-echelon form and reads one solution off it. On top of it stand a
//! search for short solutions over random orders of the vectors, and the
//! use it was made for: finding words whose BLAKE3 digests XOR to the digest
//! of a target string.

pub mod error;
pub mod vector;
pub mod matrix;
pub mod linear;
pub mod echelon;
pub mod elimination;
pub mod solution;
pub mod reduced;
pub mod unique;
pub mod solve;
pub mod laws;
pub mod digest;
pub mod words;
pub mod search;
pub mod report;
