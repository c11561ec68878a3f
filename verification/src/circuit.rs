//! Decomposition trees, bit reversal and Boolean sum circuits.

pub mod bit_reverse_cache;
pub mod canonical;
pub mod lagrange_decomp;
pub mod sum_circuit;

pub use canonical::{bit_reverse, build_bit_reverse_table, CanonicalDecomp};
pub use lagrange_decomp::LagrangeDecomp;
pub use sum_circuit::{CanonicalSumCircuit, LagrangeSumCircuit, SumCircuit};
