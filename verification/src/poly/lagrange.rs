//! Multilinear polynomials in the Lagrange (evaluation) basis.

use vstd::prelude::*;
use vstd::arithmetic::power2::pow2;
use crate::algebra::{
    eval_ml, fold_vars, folds, lemma_folds_len, lemma_folds_push, lemma_half_len,
    lemma_seq_sum_is_sum_tree, seq_sum, sum_tree,
};
use crate::field::{fmod, lemma_fmod_add, lemma_fmod_mul, lemma_fmod_small, lemma_fmod_sub, vals, Fr};
use super::canonical::{copy_elems, is_pow2_len, lemma_pow2_fits, lemma_vals_reduced, log2_exact, zeros};
use super::fold::par_fold_pairs;
use super::traits::MlPoly;

verus! {

/// A multilinear polynomial in the Lagrange (evaluation) basis.
///
/// Stored as the dense evaluation vector `(f(0), f(1), …, f(N-1))` of length
/// `N = 2^n`, where entry `j` is the value of `f` at the Boolean point whose
/// coordinates are the bits of `j` (the first coordinate is the lowest bit).
#[derive(Debug, PartialEq, Eq)]
pub struct LagrangePoly {
    num_vars: usize,
    evals: Vec<Fr>,
}

impl View for LagrangePoly {
    type V = Seq<int>;

    /// The hypercube values as integers in `[0, p)`.
    closed spec fn view(&self) -> Seq<int> {
        vals(self.evals@)
    }
}

impl LagrangePoly {
    #[verifier::type_invariant]
    spec fn wf(self) -> bool {
        self.evals@.len() == pow2(self.num_vars as nat)
    }

    /// The number of variables.
    pub closed spec fn nv(self) -> nat {
        self.num_vars as nat
    }

    /// Builds the polynomial with the given hypercube values.
    pub fn new(evals: Vec<Fr>) -> (p: Self)
        requires
            is_pow2_len(evals@.len()),
        ensures
            p@ == vals(evals@),
            pow2(p.nv()) == evals@.len(),
    {
        let num_vars = log2_exact(evals.len());
        LagrangePoly { num_vars, evals }
    }

    /// The zero polynomial in `num_vars` variables.
    pub fn zero(num_vars: usize) -> (p: Self)
        requires
            num_vars < usize::BITS,
        ensures
            p.nv() == num_vars,
            p@ == Seq::new(pow2(num_vars as nat), |i: int| 0int),
    {
        proof {
            crate::circuit::canonical::lemma_shl_one(num_vars);
        }
        let evals = zeros(1usize << num_vars);
        let p = LagrangePoly { num_vars, evals };
        proof {
            assert(p@ =~= Seq::new(pow2(num_vars as nat), |i: int| 0int));
        }
        p
    }

    /// The evaluation vector.
    pub fn evals(&self) -> (r: &[Fr])
        ensures
            vals(r@) == self@,
            r@.len() == pow2(self.nv()),
            self@.len() == pow2(self.nv()),
            self.nv() < usize::BITS,
    {
        let len = self.evals.len();
        proof {
            use_type_invariant(self);
            lemma_pow2_fits(self.nv());
        }
        self.evals.as_slice()
    }

    /// Replaces the value at the Boolean point encoded by `j` by `v`. The vector is copied, so the
    /// polynomial keeps its shape at every step.
    pub fn set_eval(&mut self, j: usize, v: Fr)
        requires
            j < old(self)@.len(),
        ensures
            final(self)@ == old(self)@.update(j as int, v@),
            final(self).nv() == old(self).nv(),
    {
        proof {
            use_type_invariant(&*self);
        }
        let mut updated = copy_elems(self.evals.as_slice());
        updated.set(j, v);
        self.evals = updated;
        proof {
            assert(self@ =~= old(self)@.update(j as int, v@));
        }
    }

    /// The value `f(j₁, …, jₙ)` at the Boolean point encoded by `j`.
    pub fn eval_at_boolean(&self, j: usize) -> (r: Fr)
        requires
            j < self@.len(),
        ensures
            r@ == self@[j as int],
    {
        self.evals[j]
    }

    /// Standard evaluation at `r`: fold step `(1 - r)·u + r·v`.
    pub fn eval_standard(&self, r: &[Fr]) -> (v: Fr)
        requires
            r@.len() == self.nv(),
        ensures
            v@ == fmod(eval_ml(self@, vals(r@), true)),
    {
        proof {
            use_type_invariant(self);
            lemma_vals_reduced(self.evals@);
            lemma_vals_reduced(r@);
        }
        let n = self.num_vars;
        let ghost c = self@;
        let ghost rs = vals(r@);
        let mut buf = copy_elems(self.evals.as_slice());
        let mut k: usize = 0;
        proof {
            assert(rs.take(0) =~= Seq::<int>::empty());
        }
        while k < n
            invariant
                k <= n,
                n == self.nv(),
                c == self@,
                c.len() == pow2(n as nat),
                rs == vals(r@),
                rs.len() == n,
                forall|i: int| 0 <= i < n ==> 0 <= #[trigger] rs[i] < crate::field::field_modulus(),
                buf@.len() == pow2((n - k) as nat),
                forall|i: int| 0 <= i < buf@.len() ==> (#[trigger] buf@[i])@ == fmod(
                    folds(c, rs.take(k as int), true)[i],
                ),
            decreases n - k,
        {
            let r_k = r[k];
            let one_minus_r = Fr::one().sub(&r_k);
            let ghost prev = folds(c, rs.take(k as int), true);
            let ghost next = fold_vars(prev, rs[k as int], true);
            proof {
                lemma_folds_len(c, rs.take(k as int), n as nat, true);
                lemma_half_len(buf@.len(), (n - k - 1) as nat);
                lemma_fmod_small(rs[k as int]);
                lemma_fmod_small(1);
                lemma_fmod_sub(1, rs[k as int]);
            }
            let blen = buf.len();
            let half = blen / 2;
            let ghost start = buf@;
            let mut t: usize = 0;
            while t < half
                invariant
                    t <= half,
                    half * 2 == start.len(),
                    start.len() == blen,
                    buf@.len() == start.len(),
                    prev.len() == start.len(),
                    next == fold_vars(prev, rs[k as int], true),
                    r_k@ == rs[k as int],
                    one_minus_r@ == fmod(1 - rs[k as int]),
                    forall|i: int| 0 <= i < start.len() ==> (#[trigger] start[i])@ == fmod(prev[i]),
                    forall|i: int| 0 <= i < t ==> (#[trigger] buf@[i])@ == fmod(next[i]),
                    forall|i: int| t <= i < buf@.len() ==> #[trigger] buf@[i] == start[i],
                decreases half - t,
            {
                let u = buf[2 * t];
                let w = buf[2 * t + 1];
                let a = one_minus_r.mul(&u);
                let b = r_k.mul(&w);
                let s = a.add(&b);
                proof {
                    let pa = prev[2 * t as int];
                    let pb = prev[2 * t + 1];
                    lemma_fmod_mul(1 - rs[k as int], pa);
                    lemma_fmod_mul(rs[k as int], pb);
                    lemma_fmod_add((1 - rs[k as int]) * pa, rs[k as int] * pb);
                    assert(next[t as int] == (1 - rs[k as int]) * pa + rs[k as int] * pb);
                }
                buf.set(t, s);
                t = t + 1;
            }
            buf.truncate(half);
            proof {
                assert(rs.take(k + 1) =~= rs.take(k as int).push(rs[k as int]));
                lemma_folds_push(c, rs.take(k as int), rs[k as int], true);
                lemma_half_len(start.len(), (n - k - 1) as nat);
            }
            k = k + 1;
        }
        proof {
            assert(rs.take(n as int) =~= rs);
            vstd::arithmetic::power2::lemma2_to64();
        }
        buf[0]
    }

    /// Optimized evaluation at `r`: fold step `u + r·(v − u)`, one
    /// multiplication per pair.
    pub fn eval_optimized(&self, r: &[Fr]) -> (v: Fr)
        requires
            r@.len() == self.nv(),
        ensures
            v@ == fmod(eval_ml(self@, vals(r@), true)),
    {
        proof {
            use_type_invariant(self);
            lemma_vals_reduced(self.evals@);
            lemma_vals_reduced(r@);
        }
        let n = self.num_vars;
        let ghost c = self@;
        let ghost rs = vals(r@);
        let mut buf = copy_elems(self.evals.as_slice());
        let mut k: usize = 0;
        proof {
            assert(rs.take(0) =~= Seq::<int>::empty());
        }
        while k < n
            invariant
                k <= n,
                n == self.nv(),
                c == self@,
                c.len() == pow2(n as nat),
                rs == vals(r@),
                rs.len() == n,
                forall|i: int| 0 <= i < n ==> 0 <= #[trigger] rs[i] < crate::field::field_modulus(),
                buf@.len() == pow2((n - k) as nat),
                forall|i: int| 0 <= i < buf@.len() ==> (#[trigger] buf@[i])@ == fmod(
                    folds(c, rs.take(k as int), true)[i],
                ),
            decreases n - k,
        {
            let r_k = r[k];
            let ghost prev = folds(c, rs.take(k as int), true);
            let ghost next = fold_vars(prev, rs[k as int], true);
            proof {
                lemma_folds_len(c, rs.take(k as int), n as nat, true);
                lemma_half_len(buf@.len(), (n - k - 1) as nat);
                lemma_fmod_small(rs[k as int]);
            }
            let blen = buf.len();
            let half = blen / 2;
            let ghost start = buf@;
            let mut t: usize = 0;
            while t < half
                invariant
                    t <= half,
                    half * 2 == start.len(),
                    start.len() == blen,
                    buf@.len() == start.len(),
                    prev.len() == start.len(),
                    next == fold_vars(prev, rs[k as int], true),
                    r_k@ == rs[k as int],
                    forall|i: int| 0 <= i < start.len() ==> (#[trigger] start[i])@ == fmod(prev[i]),
                    forall|i: int| 0 <= i < t ==> (#[trigger] buf@[i])@ == fmod(next[i]),
                    forall|i: int| t <= i < buf@.len() ==> #[trigger] buf@[i] == start[i],
                decreases half - t,
            {
                let u = buf[2 * t];
                let w = buf[2 * t + 1];
                let d = w.sub(&u);
                let m = r_k.mul(&d);
                let s = u.add(&m);
                proof {
                    let pa = prev[2 * t as int];
                    let pb = prev[2 * t + 1];
                    let rk = rs[k as int];
                    lemma_fmod_sub(pb, pa);
                    lemma_fmod_mul(rk, pb - pa);
                    lemma_fmod_add(pa, rk * (pb - pa));
                    assert(pa + rk * (pb - pa) == (1 - rk) * pa + rk * pb) by (nonlinear_arith);
                    assert(next[t as int] == (1 - rk) * pa + rk * pb);
                }
                buf.set(t, s);
                t = t + 1;
            }
            buf.truncate(half);
            proof {
                assert(rs.take(k + 1) =~= rs.take(k as int).push(rs[k as int]));
                lemma_folds_push(c, rs.take(k as int), rs[k as int], true);
                lemma_half_len(start.len(), (n - k - 1) as nat);
            }
            k = k + 1;
        }
        proof {
            assert(rs.take(n as int) =~= rs);
            vstd::arithmetic::power2::lemma2_to64();
        }
        buf[0]
    }

    /// Parallel evaluation at `r`: the fold step of `eval_optimized`, with the
    /// pairs of each layer processed by rayon.
    pub fn eval_parallel(&self, r: &[Fr]) -> (v: Fr)
        requires
            r@.len() == self.nv(),
        ensures
            v@ == fmod(eval_ml(self@, vals(r@), true)),
    {
        proof {
            use_type_invariant(self);
            lemma_vals_reduced(self.evals@);
            lemma_vals_reduced(r@);
        }
        let n = self.num_vars;
        let ghost c = self@;
        let ghost rs = vals(r@);
        let mut buf = copy_elems(self.evals.as_slice());
        let mut k: usize = 0;
        proof {
            assert(rs.take(0) =~= Seq::<int>::empty());
        }
        while k < n
            invariant
                k <= n,
                n == self.nv(),
                c == self@,
                c.len() == pow2(n as nat),
                rs == vals(r@),
                rs.len() == n,
                forall|i: int| 0 <= i < n ==> 0 <= #[trigger] rs[i] < crate::field::field_modulus(),
                buf@.len() == pow2((n - k) as nat),
                forall|i: int| 0 <= i < buf@.len() ==> (#[trigger] buf@[i])@ == fmod(
                    folds(c, rs.take(k as int), true)[i],
                ),
            decreases n - k,
        {
            let r_k = r[k];
            let ghost prev = folds(c, rs.take(k as int), true);
            let ghost next = fold_vars(prev, rs[k as int], true);
            proof {
                lemma_folds_len(c, rs.take(k as int), n as nat, true);
                lemma_half_len(buf@.len(), (n - k - 1) as nat);
            }
            let tmp = par_fold_pairs(buf.as_slice(), &r_k, true);
            proof {
                assert forall|t: int| 0 <= t < tmp@.len() implies (#[trigger] tmp@[t])@ == fmod(next[t]) by {
                    let pa = prev[2 * t];
                    let pb = prev[2 * t + 1];
                    let rk = rs[k as int];
                    crate::field::lemma_fmod_small(rk);
                    lemma_fmod_mul(1 - rk, pa);
                    lemma_fmod_mul(rk, pb);
                    lemma_fmod_add((1 - rk) * pa, rk * pb);
                    lemma_fmod_mul(1 - rk, fmod(pa));
                    crate::field::lemma_fmod_add((1 - rk) * fmod(pa), rk * fmod(pb));
                    lemma_fmod_mul(rk, fmod(pb));
                    vstd::arithmetic::div_mod::lemma_mod_twice(pa, crate::field::field_modulus());
                    vstd::arithmetic::div_mod::lemma_mod_twice(pb, crate::field::field_modulus());
                    assert(next[t] == (1 - rk) * pa + rk * pb);
                }
                assert(rs.take(k + 1) =~= rs.take(k as int).push(rs[k as int]));
                lemma_folds_push(c, rs.take(k as int), rs[k as int], true);
            }
            buf = tmp;
            k = k + 1;
        }
        proof {
            assert(rs.take(n as int) =~= rs);
            vstd::arithmetic::power2::lemma2_to64();
        }
        buf[0]
    }
}

impl MlPoly for LagrangePoly {
    open spec fn vars(&self) -> nat {
        self.nv()
    }

    /// `H(f)` of the hypercube values.
    open spec fn cube_sum(&self) -> int {
        sum_tree(self@, true)
    }

    fn num_vars(&self) -> (r: usize) {
        let len = self.evals.len();
        proof {
            use_type_invariant(self);
            lemma_pow2_fits(self.nv());
        }
        self.num_vars
    }

    /// `H(f) = Σ_j f(j)`.
    fn hypercube_sum(&self) -> (r: Fr) {
        let len = self.evals.len();
        proof {
            use_type_invariant(self);
            lemma_seq_sum_is_sum_tree(self@, self.nv());
        }
        let ghost c = self@;
        let mut acc = Fr::zero();
        let mut j: usize = 0;
        while j < self.evals.len()
            invariant
                j <= self.evals@.len(),
                c == self@,
                c.len() == self.evals@.len(),
                acc@ == fmod(seq_sum(c, j as nat)),
            decreases self.evals@.len() - j,
        {
            let v = self.evals[j];
            proof {
                v.lemma_range();
                lemma_fmod_small(v@);
                lemma_fmod_add(seq_sum(c, j as nat), v@);
            }
            acc = acc.add(&v);
            j = j + 1;
        }
        acc
    }
}


impl Clone for LagrangePoly {
    /// A copy with the same hypercube values.
    fn clone(&self) -> (r: Self)
        ensures
            r@ == self@,
            r.nv() == self.nv(),
    {
        proof {
            use_type_invariant(self);
        }
        LagrangePoly { num_vars: self.num_vars, evals: copy_elems(self.evals.as_slice()) }
    }
}

} // verus!
