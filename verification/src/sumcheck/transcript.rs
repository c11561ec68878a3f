//! Sumcheck proof transcript types.
//!
//! - [`RoundPoly`]     — the degree-1 polynomial `s_j(X_j) = a + b·X_j` sent
//!   by the prover at each round.
//! - [`SumcheckProof`] — the complete transcript: the claimed sum `h` plus the
//!   `n` round polynomials `s_1, …, s_n`.

use vstd::prelude::*;
use vstd::string::StringExecFns;
use crate::field::{decimal, fmod, lemma_fmod_add, lemma_fmod_mul, lemma_fmod_small, lemma_fmod_sub, Fr};

verus! {

/// `s(0) + s(1) = 2a + b` of the round polynomial `(a, b)`, reduced.
pub open spec fn poly_sum(s: (int, int)) -> int {
    fmod(s.0 + s.0 + s.1)
}

/// `s(r) = a + b·r` of the round polynomial `(a, b)`, reduced.
pub open spec fn poly_eval(s: (int, int), r: int) -> int {
    fmod(s.0 + s.1 * r)
}

/// A degree-1 univariate polynomial `s(X) = a + b · X`.
#[derive(Clone, Copy, Debug, PartialEq)]
pub struct RoundPoly {
    /// Constant term: `s(0) = a`.
    pub a: Fr,
    /// Linear coefficient: `s(1) − s(0) = b`.
    pub b: Fr,
}

impl View for RoundPoly {
    type V = (int, int);

    open spec fn view(&self) -> (int, int) {
        (self.a@, self.b@)
    }
}

impl RoundPoly {
    /// `s(X) = a + b · X`.
    pub fn new(a: Fr, b: Fr) -> (s: Self)
        ensures
            s.a == a,
            s.b == b,
    {
        RoundPoly { a, b }
    }

    /// The polynomial with `s(0) = s0` and `s(1) = s1`.
    pub fn from_evaluations(s0: Fr, s1: Fr) -> (s: Self)
        ensures
            s.a == s0,
            s.b@ == fmod(s1@ - s0@),
    {
        RoundPoly { a: s0, b: s1.sub(&s0) }
    }

    /// `s(r) = a + b · r`.
    pub fn eval(&self, r: Fr) -> (v: Fr)
        ensures
            v@ == poly_eval(self@, r@),
    {
        proof {
            self.a.lemma_range();
            lemma_fmod_small(self.a@);
            lemma_fmod_add(self.a@, self.b@ * r@);
        }
        self.a.add(&self.b.mul(&r))
    }

    /// `s(0) = a`.
    pub fn eval_at_zero(&self) -> (v: Fr)
        ensures
            v == self.a,
    {
        self.a
    }

    /// `s(1) = a + b`.
    pub fn eval_at_one(&self) -> (v: Fr)
        ensures
            v@ == fmod(self.a@ + self.b@),
    {
        self.a.add(&self.b)
    }

    /// The text `"a + b · X"`, the coefficients in decimal.
    pub fn message(&self) -> (m: String)
        ensures
            m@ == decimal(self.a@ as nat) + " + "@ + decimal(self.b@ as nat) + " · X"@,
    {
        proof {
            self.a.lemma_range();
            self.b.lemma_range();
        }
        let mut m = self.a.to_decimal();
        m.append(" + ");
        let b = self.b.to_decimal();
        m.append(b.as_str());
        m.append(" · X");
        m
    }

    /// `s(0) + s(1) = 2a + b`.
    pub fn sum_over_boolean(&self) -> (v: Fr)
        ensures
            v@ == poly_sum(self@),
    {
        proof {
            self.b.lemma_range();
            lemma_fmod_small(self.b@);
            lemma_fmod_add(self.a@ + self.a@, self.b@);
        }
        self.a.add(&self.a).add(&self.b)
    }
}

/// The round polynomials of a transcript as pairs of integers.
pub open spec fn polys_view(ps: Seq<RoundPoly>) -> Seq<(int, int)> {
    Seq::new(ps.len(), |i: int| ps[i]@)
}

/// The complete Sumcheck proof transcript: the claimed hypercube sum and the
/// `n` round polynomials, `round_polys[j-1] = s_j`.
#[derive(Clone, Debug)]
pub struct SumcheckProof {
    /// The claimed hypercube sum `h = H(f)`.
    pub claimed_sum: Fr,
    /// The round polynomials `s_1, …, s_n`.
    pub round_polys: Vec<RoundPoly>,
}

impl SumcheckProof {
    /// A proof from a claimed sum and its round polynomials.
    pub fn new(claimed_sum: Fr, round_polys: Vec<RoundPoly>) -> (p: Self)
        ensures
            p.claimed_sum == claimed_sum,
            p.round_polys@ == round_polys@,
    {
        SumcheckProof { claimed_sum, round_polys }
    }

    /// Number of variables `n` — the number of rounds.
    pub fn num_vars(&self) -> (n: usize)
        ensures
            n == self.round_polys@.len(),
    {
        self.round_polys.len()
    }

    /// Total number of field elements in the proof: `2n + 1`.
    pub fn size_in_field_elements(&self) -> (s: usize)
        requires
            2 * self.round_polys@.len() + 1 <= usize::MAX,
        ensures
            s == 2 * self.round_polys@.len() + 1,
    {
        1 + 2 * self.round_polys.len()
    }

    /// The round polynomial `s_j`, for `1 ≤ j ≤ n`.
    pub fn round_poly(&self, j: usize) -> (s: &RoundPoly)
        requires
            1 <= j <= self.round_polys@.len(),
        ensures
            *s == self.round_polys@[j - 1],
    {
        &self.round_polys[j - 1]
    }
}

} // verus!
