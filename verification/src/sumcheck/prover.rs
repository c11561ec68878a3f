//! Sumcheck provers for the canonical and the Lagrange basis.
//!
//! Both provers build the `(h_j)` sum circuit once, then for round `j` read
//! layer `j` of the circuit and fold it with the challenges received so far,
//! the most recent first:
//!
//! ```text
//! h'[k] = h[2k]   ⊕_r h[2k+2]   for k even
//! h'[k] = h[2k-1] ⊕_r h[2k+1]   for k odd
//! ```
//!
//! with `u ⊕_r v = u + r·v` (canonical) or `u + r·(v − u)` (Lagrange).

use vstd::prelude::*;
use vstd::arithmetic::power2::pow2;
use crate::algebra::{
    eval_ml, evens, fold_vars, folds, hypercube_table, lemma_fold_vars_is_lin, lemma_folds_len,
    lemma_half_len, lemma_sum_tree_lin, lemma_table_eval, lemma_table_folds, lemma_table_halves,
    lemma_partial_boolean_sum, lemma_table_sum, odds, partial_boolean_sum,
    layer_vals, lemma_round_fold, lemma_rfold_len, lemma_rfold_prepend, pair_fold, rfold,
    round_sums, sum_tree, tnode, weight_even,
};
use crate::circuit::canonical::lemma_shl_one;
use crate::circuit::{CanonicalSumCircuit, LagrangeSumCircuit, SumCircuit};
use crate::field::{fmod, lemma_fmod_add, lemma_fmod_mul, lemma_fmod_small, lemma_fmod_sub, vals, Fr};
use crate::poly::fold::fold_pair;
use crate::poly::{CanonicalPoly, LagrangePoly};
use crate::residues::{
    lemma_reduce_folds, lemma_reduce_halves, lemma_reduce_idempotent, lemma_reduce_sum_tree, reduce,
};
use super::transcript::{poly_eval, polys_view, RoundPoly, SumcheckProof};

verus! {

/// The message of round `rs.len() + 1`, reduced: `(a, b)` with
/// `s(X) = a + b·X`.
pub open spec fn round_message(c: Seq<int>, rs: Seq<int>, lag: bool) -> (int, int) {
    let (s0, s1) = round_sums(c, rs, lag);
    if lag {
        (fmod(s0), fmod(s1 - s0))
    } else {
        (fmod(s0), fmod(s1))
    }
}

/// The messages of all `rs.len()` rounds.
pub open spec fn transcript_polys(c: Seq<int>, rs: Seq<int>, lag: bool) -> Seq<(int, int)> {
    Seq::new(rs.len(), |j: int| round_message(c, rs.take(j), lag))
}

/// Folds a layer of the circuit with all challenges, the last one first.
fn fold_layer(h: Vec<Fr>, challenges: &[Fr], lag: bool, Ghost(v): Ghost<Seq<int>>) -> (out: Vec<Fr>)
    requires
        h@.len() == pow2(challenges@.len() + 1),
        v.len() == h@.len(),
        forall|t: int| 0 <= t < h@.len() ==> (#[trigger] h@[t])@ == fmod(v[t]),
    ensures
        out@.len() == 2,
        forall|t: int| 0 <= t < 2 ==> (#[trigger] out@[t])@ == fmod(rfold(v, vals(challenges@), lag)[t]),
{
    let ghost rs = vals(challenges@);
    let m = challenges.len();
    let mut h = h;
    let mut i = m;
    proof {
        assert(rs.subrange(m as int, m as int) =~= Seq::<int>::empty());
    }
    while i > 0
        invariant
            i <= m,
            m == challenges@.len(),
            rs == vals(challenges@),
            h@.len() == pow2((i + 1) as nat),
            rfold(v, rs.subrange(i as int, m as int), lag).len() == h@.len(),
            forall|t: int| 0 <= t < h@.len() ==> (#[trigger] h@[t])@ == fmod(
                rfold(v, rs.subrange(i as int, m as int), lag)[t],
            ),
        decreases i,
    {
        i = i - 1;
        let r = challenges[i];
        let ghost cur = rfold(v, rs.subrange(i + 1, m as int), lag);
        let ghost next = pair_fold(cur, rs[i as int], lag);
        proof {
            lemma_rfold_prepend(v, rs, i as int, m as int, lag);
            crate::algebra::lemma_half_len(h@.len(), (i + 1) as nat);
            crate::algebra::lemma_half_len(pow2((i + 1) as nat), i as nat);
            r.lemma_range();
            lemma_fmod_small(r@);
        }
        let len = h.len();
        let half = len / 2;
        let mut h_new: Vec<Fr> = Vec::with_capacity(half);
        let mut k: usize = 0;
        while k < half
            invariant
                k <= half,
                half * 2 == len,
                len == h@.len(),
                len % 4 == 0,
                cur.len() == len,
                next == pair_fold(cur, rs[i as int], lag),
                r@ == rs[i as int],
                h_new@.len() == k,
                forall|t: int| 0 <= t < len ==> (#[trigger] h@[t])@ == fmod(cur[t]),
                forall|t: int| 0 <= t < k ==> (#[trigger] h_new@[t])@ == fmod(next[t]),
            decreases half - k,
        {
            let val = if k % 2 == 0 {
                fold_pair(&h[2 * k], &h[2 * k + 2], &r, lag)
            } else {
                fold_pair(&h[2 * k - 1], &h[2 * k + 1], &r, lag)
            };
            proof {
                let (a, b) = if k % 2 == 0 {
                    (2 * k as int, 2 * k as int + 2)
                } else {
                    (2 * k as int - 1, 2 * k as int + 1)
                };
                let w = weight_even(r@, lag);
                lemma_fmod_mul(w, cur[a]);
                lemma_fmod_mul(r@, cur[b]);
                lemma_fmod_add(w * cur[a], r@ * cur[b]);
                lemma_fmod_add(w * fmod(cur[a]), r@ * fmod(cur[b]));
                lemma_fmod_mul(w, fmod(cur[a]));
                lemma_fmod_mul(r@, fmod(cur[b]));
                vstd::arithmetic::div_mod::lemma_mod_twice(cur[a], crate::field::field_modulus());
                vstd::arithmetic::div_mod::lemma_mod_twice(cur[b], crate::field::field_modulus());
                assert(next[k as int] == w * cur[a] + r@ * cur[b]);
            }
            h_new.push(val);
            k = k + 1;
        }
        h = h_new;
    }
    proof {
        assert(rs.subrange(0, m as int) =~= rs);
        vstd::arithmetic::power2::lemma2_to64();
    }
    h
}

/// Sumcheck prover for the canonical basis.
pub struct CanonicalProver {
    circuit: CanonicalSumCircuit,
    poly: Ghost<Seq<int>>,
}

impl CanonicalProver {
    #[verifier::type_invariant]
    spec fn wf(self) -> bool {
        &&& self.poly@.len() == pow2(self.circuit.vars())
        &&& forall|j: int| 1 <= j < 2 * pow2(self.circuit.vars()) ==> #[trigger] self.circuit.nodes()[j
            - 1] == fmod(sum_tree(tnode(self.poly@, j as nat), false))
    }

    /// The coefficients of the polynomial being proved, as integers.
    pub closed spec fn polynomial(self) -> Seq<int> {
        self.poly@
    }

    /// The number of variables.
    pub closed spec fn nv(self) -> nat {
        self.circuit.vars()
    }

    /// Builds the prover (and its sum circuit) for `f`.
    pub fn new(f: &CanonicalPoly) -> (p: Self)
        ensures
            p.polynomial() == f@,
            p.nv() == f.nv(),
    {
        let _ = f.coeffs();
        CanonicalProver { circuit: CanonicalSumCircuit::build(f), poly: Ghost(f@) }
    }

    /// The claimed sum `H(f)`, the first value sent to the verifier.
    pub fn claimed_sum(&self) -> (h: Fr)
        ensures
            h@ == fmod(sum_tree(self.polynomial(), false)),
    {
        proof {
            use_type_invariant(self);
            vstd::arithmetic::power2::lemma_pow2_pos(self.circuit.vars());
            assert(tnode(self.poly@, 1) == self.poly@);
            assert(self.circuit.nodes()[1 - 1] == fmod(sum_tree(tnode(self.poly@, 1), false)));
        }
        self.circuit.root()
    }

    /// Number of variables `n`.
    pub fn num_vars(&self) -> (n: usize)
        ensures
            n == self.nv(),
            n < usize::BITS,
    {
        self.circuit.num_vars()
    }

    /// The round polynomial `s_j(X) = a + b·X` for `j = challenges.len() + 1`,
    /// given the challenges `r_1, …, r_{j-1}`.
    pub fn compute_round_poly(&self, challenges: &[Fr]) -> (s: RoundPoly)
        requires
            challenges@.len() < self.nv(),
        ensures
            s@ == round_message(self.polynomial(), vals(challenges@), false),
    {
        proof {
            use_type_invariant(self);
        }
        let n = self.circuit.num_vars();
        let j = challenges.len() + 1;
        proof {
            lemma_shl_one(j);
        }
        let layer_start = 1usize << j;
        let layer_size = 1usize << j;
        let ghost c = self.poly@;
        let ghost layer = layer_vals(c, j as nat, false);
        proof {
            vstd::arithmetic::power2::lemma_pow2_unfold((j + 1) as nat);
            if j + 1 <= n {
                if j + 1 < n {
                    vstd::arithmetic::power2::lemma_pow2_strictly_increases((j + 1) as nat, n as nat);
                }
            }
            vstd::arithmetic::power2::lemma_pow2_unfold((n + 1) as nat);
            crate::poly::canonical::lemma_pow2_double_fits(n as nat);
        }
        let mut h: Vec<Fr> = Vec::with_capacity(layer_size);
        let mut t: usize = 0;
        while t < layer_size
            invariant
                t <= layer_size,
                layer_size == layer_start,
                layer_start == pow2(j as nat),
                2 * layer_start <= 2 * pow2(self.circuit.vars()),
                2 * pow2(self.circuit.vars()) <= usize::MAX as int + 1,
                j <= self.circuit.vars(),
                c == self.poly@,
                layer == layer_vals(c, j as nat, false),
                h@.len() == t,
                forall|q: int| 1 <= q < 2 * pow2(self.circuit.vars()) ==> #[trigger] self.circuit.nodes()[q
                    - 1] == fmod(sum_tree(tnode(c, q as nat), false)),
                forall|q: int| 0 <= q < t ==> (#[trigger] h@[q])@ == fmod(layer[q]),
            decreases layer_size - t,
        {
            h.push(self.circuit.h(layer_start + t));
            t = t + 1;
        }
        let out = fold_layer(h, challenges, false, Ghost(layer));
        proof {
            lemma_round_fold(c, n as nat, vals(challenges@), false);
        }
        RoundPoly::new(out[0], out[1])
    }

    /// The full proof for the challenges `r_1, …, r_n`.
    pub fn prove(&self, challenges: &[Fr]) -> (pf: SumcheckProof)
        requires
            challenges@.len() == self.nv(),
        ensures
            pf.claimed_sum@ == fmod(sum_tree(self.polynomial(), false)),
            polys_view(pf.round_polys@) == transcript_polys(self.polynomial(), vals(challenges@), false),
    {
        let n = self.num_vars();
        let claimed_sum = self.claimed_sum();
        let mut round_polys: Vec<RoundPoly> = Vec::with_capacity(n);
        let mut j: usize = 1;
        while j <= n
            invariant
                1 <= j <= n + 1,
                n == self.nv(),
                n < usize::BITS,
                challenges@.len() == n,
                round_polys@.len() == j - 1,
                forall|q: int| 0 <= q < j - 1 ==> (#[trigger] round_polys@[q])@ == round_message(
                    self.polynomial(),
                    vals(challenges@).take(q),
                    false,
                ),
            decreases n + 1 - j,
        {
            let prefix = &challenges[0..j - 1];
            proof {
                assert(vals(prefix@) =~= vals(challenges@).take(j - 1));
            }
            round_polys.push(self.compute_round_poly(prefix));
            j = j + 1;
        }
        let pf = SumcheckProof::new(claimed_sum, round_polys);
        proof {
            assert(polys_view(pf.round_polys@) =~= transcript_polys(self.polynomial(), vals(challenges@), false));
        }
        pf
    }
}

/// Sumcheck prover for the Lagrange basis.
pub struct LagrangeProver {
    circuit: LagrangeSumCircuit,
    poly: Ghost<Seq<int>>,
}

impl LagrangeProver {
    #[verifier::type_invariant]
    spec fn wf(self) -> bool {
        &&& self.poly@.len() == pow2(self.circuit.vars())
        &&& forall|j: int| 1 <= j < 2 * pow2(self.circuit.vars()) ==> #[trigger] self.circuit.nodes()[j
            - 1] == fmod(sum_tree(tnode(self.poly@, j as nat), true))
    }

    /// The hypercube values of the polynomial being proved, as integers.
    pub closed spec fn polynomial(self) -> Seq<int> {
        self.poly@
    }

    /// The number of variables.
    pub closed spec fn nv(self) -> nat {
        self.circuit.vars()
    }

    /// Builds the prover (and its sum circuit) for `f`.
    pub fn new(f: &LagrangePoly) -> (p: Self)
        ensures
            p.polynomial() == f@,
            p.nv() == f.nv(),
    {
        let _ = f.evals();
        LagrangeProver { circuit: LagrangeSumCircuit::build(f), poly: Ghost(f@) }
    }

    /// The claimed sum `H(f)`.
    pub fn claimed_sum(&self) -> (h: Fr)
        ensures
            h@ == fmod(sum_tree(self.polynomial(), true)),
    {
        proof {
            use_type_invariant(self);
            vstd::arithmetic::power2::lemma_pow2_pos(self.circuit.vars());
            assert(tnode(self.poly@, 1) == self.poly@);
            assert(self.circuit.nodes()[1 - 1] == fmod(sum_tree(tnode(self.poly@, 1), true)));
        }
        self.circuit.root()
    }

    /// Number of variables `n`.
    pub fn num_vars(&self) -> (n: usize)
        ensures
            n == self.nv(),
            n < usize::BITS,
    {
        self.circuit.num_vars()
    }

    /// The round polynomial for `j = challenges.len() + 1`, built from its
    /// values `s_j(0)` and `s_j(1)`.
    pub fn compute_round_poly(&self, challenges: &[Fr]) -> (s: RoundPoly)
        requires
            challenges@.len() < self.nv(),
        ensures
            s@ == round_message(self.polynomial(), vals(challenges@), true),
    {
        proof {
            use_type_invariant(self);
        }
        let n = self.circuit.num_vars();
        let j = challenges.len() + 1;
        proof {
            lemma_shl_one(j);
        }
        let layer_start = 1usize << j;
        let layer_size = 1usize << j;
        let ghost c = self.poly@;
        let ghost layer = layer_vals(c, j as nat, true);
        proof {
            vstd::arithmetic::power2::lemma_pow2_unfold((j + 1) as nat);
            if j + 1 <= n {
                if j + 1 < n {
                    vstd::arithmetic::power2::lemma_pow2_strictly_increases((j + 1) as nat, n as nat);
                }
            }
            vstd::arithmetic::power2::lemma_pow2_unfold((n + 1) as nat);
            crate::poly::canonical::lemma_pow2_double_fits(n as nat);
        }
        let mut h: Vec<Fr> = Vec::with_capacity(layer_size);
        let mut t: usize = 0;
        while t < layer_size
            invariant
                t <= layer_size,
                layer_size == layer_start,
                layer_start == pow2(j as nat),
                2 * layer_start <= 2 * pow2(self.circuit.vars()),
                2 * pow2(self.circuit.vars()) <= usize::MAX as int + 1,
                j <= self.circuit.vars(),
                c == self.poly@,
                layer == layer_vals(c, j as nat, true),
                h@.len() == t,
                forall|q: int| 1 <= q < 2 * pow2(self.circuit.vars()) ==> #[trigger] self.circuit.nodes()[q
                    - 1] == fmod(sum_tree(tnode(c, q as nat), true)),
                forall|q: int| 0 <= q < t ==> (#[trigger] h@[q])@ == fmod(layer[q]),
            decreases layer_size - t,
        {
            h.push(self.circuit.h(layer_start + t));
            t = t + 1;
        }
        let out = fold_layer(h, challenges, true, Ghost(layer));
        proof {
            lemma_round_fold(c, n as nat, vals(challenges@), true);
            let (s0, s1) = round_sums(c, vals(challenges@), true);
            lemma_fmod_sub(s1, s0);
        }
        RoundPoly::from_evaluations(out[0], out[1])
    }

    /// The full proof for the challenges `r_1, …, r_n`.
    pub fn prove(&self, challenges: &[Fr]) -> (pf: SumcheckProof)
        requires
            challenges@.len() == self.nv(),
        ensures
            pf.claimed_sum@ == fmod(sum_tree(self.polynomial(), true)),
            polys_view(pf.round_polys@) == transcript_polys(self.polynomial(), vals(challenges@), true),
    {
        let n = self.num_vars();
        let claimed_sum = self.claimed_sum();
        let mut round_polys: Vec<RoundPoly> = Vec::with_capacity(n);
        let mut j: usize = 1;
        while j <= n
            invariant
                1 <= j <= n + 1,
                n == self.nv(),
                n < usize::BITS,
                challenges@.len() == n,
                round_polys@.len() == j - 1,
                forall|q: int| 0 <= q < j - 1 ==> (#[trigger] round_polys@[q])@ == round_message(
                    self.polynomial(),
                    vals(challenges@).take(q),
                    true,
                ),
            decreases n + 1 - j,
        {
            let prefix = &challenges[0..j - 1];
            proof {
                assert(vals(prefix@) =~= vals(challenges@).take(j - 1));
            }
            round_polys.push(self.compute_round_poly(prefix));
            j = j + 1;
        }
        let pf = SumcheckProof::new(claimed_sum, round_polys);
        proof {
            assert(polys_view(pf.round_polys@) =~= transcript_polys(self.polynomial(), vals(challenges@), true));
        }
        pf
    }
}


/// **Cross-basis agreement of the messages.** For a canonical polynomial `c`
/// in `n` variables and its table of values on the hypercube, the canonical
/// prover on `c` and the Lagrange prover on the table send the same message
/// in every round, whatever the earlier challenges.
pub proof fn lemma_cross_basis_rounds(c: Seq<int>, n: nat, rs: Seq<int>)
    requires
        c.len() == pow2(n),
        rs.len() < n,
    ensures
        round_message(c, rs, false) == round_message(reduce(hypercube_table(c, n)), rs, true),
{
    let t = hypercube_table(c, n);
    let rt = reduce(t);
    let m = (n - rs.len()) as nat;
    let f = folds(c, rs, false);
    lemma_reduce_idempotent(t);
    lemma_reduce_folds(rt, t, rs, true);
    lemma_reduce_halves(folds(rt, rs, true), folds(t, rs, true));
    lemma_reduce_sum_tree(evens(folds(rt, rs, true)), evens(folds(t, rs, true)), true);
    lemma_reduce_sum_tree(odds(folds(rt, rs, true)), odds(folds(t, rs, true)), true);
    lemma_table_folds(c, n, rs);
    lemma_folds_len(c, rs, n, false);
    lemma_half_len(f.len(), (m - 1) as nat);
    lemma_table_halves(f, m);
    lemma_fold_vars_is_lin(f, 0, false);
    lemma_fold_vars_is_lin(f, 1, false);
    assert(fold_vars(f, 0, false) =~= evens(f));
    lemma_table_sum(fold_vars(f, 0, false), (m - 1) as nat);
    lemma_table_sum(fold_vars(f, 1, false), (m - 1) as nat);
    lemma_sum_tree_lin(evens(f), odds(f), 1, 1, false);
    let e = sum_tree(evens(f), false);
    let o = sum_tree(odds(f), false);
    let (s0, s1) = round_sums(rt, rs, true);
    assert(fmod(s0) == fmod(e));
    assert(fmod(s1) == fmod(e + o));
    lemma_fmod_sub(s1, s0);
    lemma_fmod_sub(e + o, e);
}

/// **Cross-basis agreement of the transcripts.** Both provers send the same
/// round polynomials for the same challenges.
pub proof fn lemma_cross_basis_transcript(c: Seq<int>, n: nat, rs: Seq<int>)
    requires
        c.len() == pow2(n),
        rs.len() <= n,
    ensures
        transcript_polys(c, rs, false) == transcript_polys(reduce(hypercube_table(c, n)), rs, true),
{
    assert forall|j: int| 0 <= j < rs.len() implies #[trigger] transcript_polys(c, rs, false)[j]
        == transcript_polys(reduce(hypercube_table(c, n)), rs, true)[j] by {
        lemma_cross_basis_rounds(c, n, rs.take(j));
    }
    assert(transcript_polys(c, rs, false) =~= transcript_polys(reduce(hypercube_table(c, n)), rs, true));
}

/// **Cross-basis agreement of the claimed sums.** The canonical hypercube
/// sum of `c` and the sum of its table are the same field element.
pub proof fn lemma_cross_basis_sum(c: Seq<int>, n: nat)
    requires
        c.len() == pow2(n),
    ensures
        fmod(sum_tree(c, false)) == fmod(sum_tree(reduce(hypercube_table(c, n)), true)),
{
    let t = hypercube_table(c, n);
    lemma_reduce_idempotent(t);
    lemma_reduce_sum_tree(reduce(t), t, true);
    lemma_table_sum(c, n);
}

/// **Cross-basis agreement of the oracle.** The Lagrange polynomial on the
/// table of `c` takes, at every point, the value of `c` there.
pub proof fn lemma_cross_basis_eval(c: Seq<int>, n: nat, rs: Seq<int>)
    requires
        c.len() == pow2(n),
        rs.len() == n,
    ensures
        fmod(eval_ml(c, rs, false)) == fmod(eval_ml(reduce(hypercube_table(c, n)), rs, true)),
{
    let t = hypercube_table(c, n);
    lemma_reduce_idempotent(t);
    lemma_reduce_folds(reduce(t), t, rs, true);
    lemma_table_eval(c, n, rs);
    lemma_table_folds(c, n, rs);
    vstd::arithmetic::power2::lemma2_to64();
    let a = folds(t, rs, true);
    let b = folds(reduce(t), rs, true);
    assert(a.len() == 1);
    assert(reduce(a).len() == reduce(b).len());
    assert(reduce(a)[0] == fmod(a[0]));
    assert(reduce(b)[0] == fmod(b[0]));
}


/// **The round polynomial.** After the challenges `rs`, the message
/// `s(X) = a + b·X` of either prover is the sum of `f(rs, X, ·)` over the
/// remaining Boolean variables: `s(0)` and `s(1)` are the sums of `f` over
/// the Boolean points that start with `rs, 0` and with `rs, 1`.
pub proof fn lemma_round_message_is_boolean_sum(c: Seq<int>, n: nat, rs: Seq<int>, lag: bool)
    requires
        c.len() == pow2(n),
        rs.len() < n,
    ensures
        poly_eval(round_message(c, rs, lag), 0) == fmod(
            partial_boolean_sum(c, rs, 0, (n - rs.len() - 1) as nat, lag),
        ),
        poly_eval(round_message(c, rs, lag), 1) == fmod(
            partial_boolean_sum(c, rs, 1, (n - rs.len() - 1) as nat, lag),
        ),
{
    let m = (n - rs.len() - 1) as nat;
    let f = folds(c, rs, lag);
    lemma_partial_boolean_sum(c, rs, 0, m, lag);
    lemma_partial_boolean_sum(c, rs, 1, m, lag);
    lemma_folds_len(c, rs, n, lag);
    lemma_half_len(f.len(), m);
    lemma_fold_vars_is_lin(f, 0, lag);
    lemma_fold_vars_is_lin(f, 1, lag);
    assert(fold_vars(f, 0, lag) =~= evens(f));
    let e = sum_tree(evens(f), lag);
    let o = sum_tree(odds(f), lag);
    let msg = round_message(c, rs, lag);
    crate::field::lemma_fmod_range(e);
    vstd::arithmetic::div_mod::lemma_mod_twice(e, crate::field::field_modulus());
    if lag {
        assert(fold_vars(f, 1, lag) =~= odds(f)) by {
            assert forall|t: int| 0 <= t < f.len() / 2 implies #[trigger] fold_vars(f, 1, lag)[t] == odds(f)[t] by {
                assert((1 - 1) * f[2 * t] + 1 * f[2 * t + 1] == f[2 * t + 1]);
            }
        }
        assert(msg == (fmod(e), fmod(o - e)));
        assert(msg.0 + msg.1 * 0 == fmod(e));
        assert(msg.0 + msg.1 * 1 == fmod(e) + fmod(o - e));
        lemma_fmod_add(e, o - e);
        lemma_fmod_sub(o, e);
        lemma_fmod_add(fmod(e), fmod(o - e));
    } else {
        lemma_sum_tree_lin(evens(f), odds(f), 1, 1, false);
        assert(msg == (fmod(e), fmod(o)));
        assert(msg.0 + msg.1 * 0 == fmod(e));
        assert(msg.0 + msg.1 * 1 == fmod(e) + fmod(o));
        lemma_fmod_add(e, o);
    }
}

} // verus!
