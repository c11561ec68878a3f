//! Basis-aware multilinear polynomial algorithms and the Sumcheck protocol
//! over the BN254 scalar field.

pub mod algebra;
pub mod field;
pub mod circuit;
pub mod poly;
pub mod residues;
pub mod sumcheck;
