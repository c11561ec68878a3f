//! Reduction modulo `p` of the integer model.
//!
//! Field arithmetic computes the integer model's `+` and `·` modulo `p`, so a
//! vector of field elements holds a sequence of integers only up to
//! reduction. Fixing variables and summing over the hypercube commute with
//! reduction: two sequences with the same residues give results with the same
//! residue.

use vstd::prelude::*;
use crate::algebra::{evens, fold_vars, folds, odds, sum_tree, sum_weight, weight_even};
use crate::field::{field_modulus, fmod, lemma_fmod_add, lemma_fmod_mul};

verus! {

/// Every entry reduced into `[0, p)`.
pub open spec fn reduce(s: Seq<int>) -> Seq<int> {
    Seq::new(s.len(), |i: int| fmod(s[i]))
}

/// Reducing twice is reducing once.
pub proof fn lemma_reduce_idempotent(s: Seq<int>)
    ensures
        reduce(reduce(s)) == reduce(s),
{
    assert forall|i: int| 0 <= i < s.len() implies #[trigger] reduce(reduce(s))[i] == reduce(s)[i] by {
        vstd::arithmetic::div_mod::lemma_mod_twice(s[i], field_modulus());
    }
    assert(reduce(reduce(s)) =~= reduce(s));
}

/// Fixing the first variable respects residues.
pub proof fn lemma_reduce_fold_vars(x: Seq<int>, y: Seq<int>, r: int, lag: bool)
    requires
        reduce(x) == reduce(y),
    ensures
        reduce(fold_vars(x, r, lag)) == reduce(fold_vars(y, r, lag)),
{
    assert(x.len() == reduce(x).len() && y.len() == reduce(y).len());
    let w = weight_even(r, lag);
    assert forall|s: int| 0 <= s < x.len() / 2 implies #[trigger] reduce(fold_vars(x, r, lag))[s]
        == reduce(fold_vars(y, r, lag))[s] by {
        assert(reduce(x)[2 * s] == reduce(y)[2 * s]);
        assert(reduce(x)[2 * s + 1] == reduce(y)[2 * s + 1]);
        assert(reduce(x)[2 * s] == fmod(x[2 * s]) && reduce(y)[2 * s] == fmod(y[2 * s]));
        assert(reduce(x)[2 * s + 1] == fmod(x[2 * s + 1]) && reduce(y)[2 * s + 1] == fmod(y[2 * s + 1]));
        assert(reduce(fold_vars(x, r, lag))[s] == fmod(fold_vars(x, r, lag)[s]));
        assert(reduce(fold_vars(y, r, lag))[s] == fmod(fold_vars(y, r, lag)[s]));
        lemma_fmod_mul(w, x[2 * s]);
        lemma_fmod_mul(w, y[2 * s]);
        lemma_fmod_mul(r, x[2 * s + 1]);
        lemma_fmod_mul(r, y[2 * s + 1]);
        lemma_fmod_add(w * x[2 * s], r * x[2 * s + 1]);
        lemma_fmod_add(w * y[2 * s], r * y[2 * s + 1]);
    }
    assert(reduce(fold_vars(x, r, lag)) =~= reduce(fold_vars(y, r, lag)));
}

/// Fixing several variables respects residues.
pub proof fn lemma_reduce_folds(x: Seq<int>, y: Seq<int>, rs: Seq<int>, lag: bool)
    requires
        reduce(x) == reduce(y),
    ensures
        reduce(folds(x, rs, lag)) == reduce(folds(y, rs, lag)),
    decreases rs.len(),
{
    if rs.len() > 0 {
        lemma_reduce_fold_vars(x, y, rs[0], lag);
        lemma_reduce_folds(fold_vars(x, rs[0], lag), fold_vars(y, rs[0], lag), rs.drop_first(), lag);
    }
}

/// The halves of sequences with the same residues have the same residues.
pub proof fn lemma_reduce_halves(x: Seq<int>, y: Seq<int>)
    requires
        reduce(x) == reduce(y),
    ensures
        reduce(evens(x)) == reduce(evens(y)),
        reduce(odds(x)) == reduce(odds(y)),
{
    assert(x.len() == reduce(x).len() && y.len() == reduce(y).len());
    assert forall|s: int| 0 <= s < x.len() / 2 implies #[trigger] reduce(evens(x))[s] == reduce(
        evens(y),
    )[s] by {
        assert(reduce(x)[2 * s] == reduce(y)[2 * s]);
        assert(reduce(x)[2 * s] == fmod(x[2 * s]));
        assert(evens(x)[s] == x[2 * s]);
        assert(reduce(evens(x))[s] == fmod(evens(x)[s]));
    }
    assert forall|s: int| 0 <= s < x.len() / 2 implies #[trigger] reduce(odds(x))[s] == reduce(
        odds(y),
    )[s] by {
        assert(reduce(x)[2 * s + 1] == reduce(y)[2 * s + 1]);
        assert(reduce(x)[2 * s + 1] == fmod(x[2 * s + 1]));
        assert(odds(x)[s] == x[2 * s + 1]);
        assert(reduce(odds(x))[s] == fmod(odds(x)[s]));
    }
    assert(reduce(evens(x)) =~= reduce(evens(y)));
    assert(reduce(odds(x)) =~= reduce(odds(y)));
}

/// The hypercube sum respects residues.
pub proof fn lemma_reduce_sum_tree(x: Seq<int>, y: Seq<int>, lag: bool)
    requires
        reduce(x) == reduce(y),
    ensures
        fmod(sum_tree(x, lag)) == fmod(sum_tree(y, lag)),
    decreases x.len(),
{
    assert(x.len() == reduce(x).len() && y.len() == reduce(y).len());
    if x.len() == 1 {
        assert(reduce(x)[0] == reduce(y)[0]);
        assert(reduce(x)[0] == fmod(x[0]) && reduce(y)[0] == fmod(y[0]));
    } else if x.len() >= 2 {
        lemma_reduce_halves(x, y);
        lemma_reduce_sum_tree(evens(x), evens(y), lag);
        lemma_reduce_sum_tree(odds(x), odds(y), lag);
        let w = sum_weight(lag);
        lemma_fmod_mul(w, sum_tree(evens(x), lag));
        lemma_fmod_mul(w, sum_tree(evens(y), lag));
        lemma_fmod_add(w * sum_tree(evens(x), lag), sum_tree(odds(x), lag));
        lemma_fmod_add(w * sum_tree(evens(y), lag), sum_tree(odds(y), lag));
    }
}

} // verus!
