//! Sumcheck protocol — transcript types, provers and verifier.

pub mod prover;
pub mod transcript;
pub mod verify;

pub use prover::{CanonicalProver, LagrangeProver};
pub use transcript::{RoundPoly, SumcheckProof};
pub use verify::{Verifier, VerifierError};
