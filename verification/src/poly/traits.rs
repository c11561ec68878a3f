//! The interface shared by both representations of a multilinear polynomial.

use vstd::prelude::*;
use vstd::arithmetic::power2::pow2;
use crate::field::{fmod, Fr};

verus! {

/// A multilinear polynomial in `n` variables over the BN254 scalar field.
///
/// Implemented by both [`CanonicalPoly`](super::CanonicalPoly) and
/// [`LagrangePoly`](super::LagrangePoly).
pub trait MlPoly {
    /// The number of variables `n`.
    spec fn vars(&self) -> nat;

    /// The Boolean hypercube sum `H(f) = Σ_{x ∈ {0,1}^n} f(x)` over the
    /// integers, before reduction modulo `p`.
    spec fn cube_sum(&self) -> int;

    /// Number of variables `n`.
    fn num_vars(&self) -> (r: usize)
        ensures
            r == self.vars(),
            r < usize::BITS,
            pow2(r as nat) <= usize::MAX,
    ;

    /// `N = 2^n` — length of the underlying vector.
    fn num_evals(&self) -> (r: usize)
        ensures
            r == pow2(self.vars()),
    {
        let n = self.num_vars();
        proof {
            crate::circuit::canonical::lemma_shl_one(n);
        }
        1usize << n
    }

    /// The Boolean hypercube sum `H(f)`.
    fn hypercube_sum(&self) -> (r: Fr)
        ensures
            r@ == fmod(self.cube_sum()),
    ;
}

} // verus!
