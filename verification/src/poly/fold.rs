//! One layer of variable fixing, on a pair of values and on a whole vector in
//! parallel.

use vstd::prelude::*;
use rayon::iter::{IndexedParallelIterator, ParallelIterator};
use rayon::slice::ParallelSlice;
use crate::algebra::{fold_vars, weight_even};
use crate::field::{fmod, lemma_fmod_add, lemma_fmod_mul, lemma_fmod_small, lemma_fmod_sub, Fr};

verus! {

/// `u, v ↦ u + r·v` (coefficients) or `u + r·(v − u)` (hypercube values):
/// the first variable fixed to `r` for one pair of entries.
pub fn fold_pair(u: &Fr, v: &Fr, r: &Fr, lag: bool) -> (w: Fr)
    ensures
        w@ == fmod(weight_even(r@, lag) * u@ + r@ * v@),
{
    proof {
        u.lemma_range();
        v.lemma_range();
        r.lemma_range();
        lemma_fmod_small(u@);
        lemma_fmod_small(v@);
        lemma_fmod_small(r@);
    }
    if lag {
        let d = v.sub(u);
        let m = r.mul(&d);
        proof {
            lemma_fmod_sub(v@, u@);
            lemma_fmod_mul(r@, v@ - u@);
            lemma_fmod_add(u@, r@ * (v@ - u@));
            assert(u@ + r@ * (v@ - u@) == (1 - r@) * u@ + r@ * v@) by (nonlinear_arith);
        }
        u.add(&m)
    } else {
        let m = r.mul(v);
        proof {
            lemma_fmod_add(u@, r@ * v@);
        }
        u.add(&m)
    }
}

/// Every pair `(buf[2t], buf[2t+1])` folded with `fold_pair`, the pairs
/// handed out to rayon's worker threads.
///
/// Trusted: rayon's `par_chunks(2)` yields the consecutive pairs of the slice
/// in order, `map` applies the verified `fold_pair` to each, and
/// `collect_into_vec` stores the results in that order, one per pair.
#[verifier::external_body]
pub(crate) fn par_fold_pairs(buf: &[Fr], r: &Fr, lag: bool) -> (out: Vec<Fr>)
    requires
        buf@.len() % 2 == 0,
    ensures
        out@.len() == buf@.len() / 2,
        forall|t: int| 0 <= t < out@.len() ==> (#[trigger] out@[t])@ == fmod(weight_even(r@, lag)
            * buf@[2 * t]@ + r@ * buf@[2 * t + 1]@),
{
    let mut out = Vec::new();
    buf.par_chunks(2).map(|pair| fold_pair(&pair[0], &pair[1], r, lag)).collect_into_vec(&mut out);
    out
}


/// Every pair `(buf[2t], buf[2t+1])` folded with `fold_pair`, one after the
/// other.
pub fn fold_pairs(buf: &[Fr], r: &Fr, lag: bool) -> (out: Vec<Fr>)
    requires
        buf@.len() % 2 == 0,
    ensures
        out@.len() == buf@.len() / 2,
        forall|t: int| 0 <= t < out@.len() ==> (#[trigger] out@[t])@ == fmod(weight_even(r@, lag)
            * buf@[2 * t]@ + r@ * buf@[2 * t + 1]@),
{
    let len = buf.len();
    let half = len / 2;
    let mut out: Vec<Fr> = Vec::with_capacity(half);
    let mut t: usize = 0;
    while t < half
        invariant
            t <= half,
            half * 2 == len,
            len == buf@.len(),
            out@.len() == t,
            forall|i: int| 0 <= i < t ==> (#[trigger] out@[i])@ == fmod(weight_even(r@, lag)
                * buf@[2 * i]@ + r@ * buf@[2 * i + 1]@),
        decreases half - t,
    {
        out.push(fold_pair(&buf[2 * t], &buf[2 * t + 1], r, lag));
        t = t + 1;
    }
    out
}

/// A folded layer of residues is the residue of the folded integers: when
/// `buf` holds `v` and `r` holds `λ` modulo `p`, the pairs folded with `r`
/// hold the first variable of `v` fixed to `λ`.
pub proof fn lemma_fold_pairs_model(buf: Seq<Fr>, out: Seq<Fr>, r: Fr, v: Seq<int>, lam: int, lag: bool)
    requires
        buf.len() == v.len(),
        out.len() == buf.len() / 2,
        r@ == fmod(lam),
        forall|i: int| 0 <= i < buf.len() ==> (#[trigger] buf[i])@ == fmod(v[i]),
        forall|t: int| 0 <= t < out.len() ==> (#[trigger] out[t])@ == fmod(weight_even(r@, lag)
            * buf[2 * t]@ + r@ * buf[2 * t + 1]@),
    ensures
        forall|t: int| 0 <= t < out.len() ==> (#[trigger] out[t])@ == fmod(fold_vars(v, lam, lag)[t]),
{
    assert forall|t: int| 0 <= t < out.len() implies (#[trigger] out[t])@ == fmod(
        fold_vars(v, lam, lag)[t],
    ) by {
        let a = v[2 * t];
        let b = v[2 * t + 1];
        let w = weight_even(lam, lag);
        let wr = weight_even(r@, lag);
        // the weight of the even entry agrees modulo p
        assert(fmod(wr) == fmod(w)) by {
            if lag {
                lemma_fmod_sub(1, lam);
                lemma_fmod_small(1);
                lemma_fmod_sub(1, r@);
                crate::field::lemma_fmod_range(lam);
                lemma_fmod_small(r@);
            }
        }
        lemma_fmod_mul(wr, fmod(a));
        lemma_fmod_mul(wr, a);
        lemma_fmod_mul(w, a);
        lemma_fmod_mul(r@, fmod(b));
        lemma_fmod_mul(r@, b);
        lemma_fmod_mul(lam, b);
        lemma_fmod_add(wr * fmod(a), r@ * fmod(b));
        lemma_fmod_add(wr * a, r@ * b);
        lemma_fmod_add(w * a, lam * b);
        assert(fold_vars(v, lam, lag)[t] == w * a + lam * b);
    }
}

} // verus!
