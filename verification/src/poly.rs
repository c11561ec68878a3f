//! Multilinear and univariate polynomial types.
//!
//! Two representations of the same multilinear object:
//!
//! - [`CanonicalPoly`] — coefficient vector in the monomial basis
//! - [`LagrangePoly`]  — evaluation vector over the Boolean hypercube
//!
//! Both implement [`MlPoly`].

pub mod canonical;
pub mod fold;
pub mod lagrange;
pub mod traits;
pub mod uni;

pub use canonical::{CanonicalPoly, CanonicalTerm};
pub use lagrange::LagrangePoly;
pub use traits::MlPoly;
pub use uni::{UniDecomp, UniPoly, UniTerm};
