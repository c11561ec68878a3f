//! Dense univariate polynomials, their evaluation by four methods and their
//! circuit decomposition.
//!
//! A coefficient vector of length `N = 2^n` is also a multilinear polynomial
//! in `n` variables: `f(r)` is that polynomial at `(r, r², r⁴, …)`. Estrin's
//! scheme folds the coefficients in natural order with `r, r², r⁴, …`; the
//! circuit folds them in bit-reversed order with `…, r⁴, r², r`.

use vstd::prelude::*;
use vstd::arithmetic::power::pow;
use vstd::arithmetic::power2::pow2;
use crate::algebra::{
    bitrev_leaves, eval_ml, evens, fold_vars, folds, lemma_folds_len, lemma_folds_push,
    lemma_half_len, lemma_pow_step, lemma_tnode_len, lemma_uni_circuit, lemma_uni_estrin,
    lemma_seq_total_prefix, lemma_tree_total, lemma_uni_horner, lemma_zero_padding, node_size, odds, seq_total,
    square_powers, tnode, uni_sum,
};
use crate::circuit::bit_reverse_cache::get_or_build;
use crate::circuit::canonical::{lemma_rev_bits_bound, lemma_shl_one, rev_bits};
use crate::field::{fmod, lemma_fmod_add, lemma_fmod_mul, lemma_fmod_small, vals, Fr};
use super::canonical::{
    copy_elems, is_pow2_len, lemma_pow2_double_fits, lemma_pow2_fits, lemma_vals_reduced,
    log2_exact, nonzero_terms, zeros,
};
use super::fold::{fold_pairs, lemma_fold_pairs_model, par_fold_pairs};

verus! {

/// `base^exp`, by square-and-multiply.
pub fn field_pow(base: Fr, exp: usize) -> (r: Fr)
    ensures
        r@ == fmod(pow(base@, exp as nat)),
{
    let mut b = base;
    let mut e = exp;
    let mut result = Fr::one();
    let ghost mut big_b: int = base@;
    let ghost mut big_r: int = 1;
    proof {
        base.lemma_range();
        lemma_fmod_small(base@);
        lemma_fmod_small(1);
        vstd::arithmetic::power::lemma_pow1(1);
        assert(1 * pow(base@, exp as nat) == pow(base@, exp as nat));
    }
    while e > 0
        invariant
            result@ == fmod(big_r),
            b@ == fmod(big_b),
            big_r * pow(big_b, e as nat) == pow(base@, exp as nat),
        decreases e,
    {
        let q = e / 2;
        proof {
            lemma_pow_step(big_b, q as nat);
            vstd::arithmetic::power::lemma_pow_adds(big_b, 2 * q as nat, 1);
            vstd::arithmetic::power::lemma_pow1(big_b);
            lemma_fmod_mul(big_b, big_b);
        }
        if e % 2 == 1 {
            proof {
                lemma_fmod_mul(big_r, big_b);
                assert(pow(big_b, e as nat) == big_b * pow(big_b, 2 * q as nat)) by (nonlinear_arith)
                    requires
                        e == 2 * q + 1,
                        pow(big_b, (2 * q + 1) as nat) == pow(big_b, 2 * q as nat) * pow(big_b, 1),
                        pow(big_b, 1) == big_b;
                assert(big_r * (big_b * pow(big_b, 2 * q as nat)) == (big_r * big_b) * pow(big_b, 2 * q as nat))
                    by (nonlinear_arith);
                big_r = big_r * big_b;
            }
            result = result.mul(&b);
        } else {
            proof {
                assert(e as nat == 2 * q as nat);
            }
        }
        proof {
            big_b = big_b * big_b;
        }
        b = b.mul(&b);
        e = q;
    }
    proof {
        vstd::arithmetic::power::lemma_pow0(big_b);
    }
    result
}

/// The repeated squares `[r, r², r⁴, …, r^{2^{n-1}}]`; empty for `n = 0`.
pub fn power_table(r: Fr, n: usize) -> (powers: Vec<Fr>)
    ensures
        powers@.len() == n,
        forall|k: int| 0 <= k < n ==> (#[trigger] powers@[k])@ == fmod(square_powers(r@, n as nat)[k]),
{
    let mut powers: Vec<Fr> = Vec::with_capacity(n);
    if n == 0 {
        return powers;
    }
    proof {
        vstd::arithmetic::power2::lemma2_to64();
        vstd::arithmetic::power::lemma_pow1(r@);
        r.lemma_range();
        lemma_fmod_small(r@);
    }
    powers.push(r);
    let mut k: usize = 1;
    while k < n
        invariant
            1 <= k <= n,
            powers@.len() == k,
            forall|i: int| 0 <= i < k ==> (#[trigger] powers@[i])@ == fmod(pow(r@, pow2(i as nat))),
        decreases n - k,
    {
        let prev = powers[k - 1];
        proof {
            let e = pow2((k - 1) as nat);
            vstd::arithmetic::power2::lemma_pow2_unfold(k as nat);
            vstd::arithmetic::power::lemma_pow_adds(r@, e, e);
            lemma_fmod_mul(pow(r@, e), pow(r@, e));
            assert(pow2(k as nat) == e + e);
        }
        powers.push(prev.mul(&prev));
        k = k + 1;
    }
    powers
}

/// One term `α · X^k` of a univariate polynomial.
#[derive(Clone, Copy, Debug, PartialEq)]
pub struct UniTerm {
    pub coeff: Fr,
    pub degree: usize,
}

impl UniTerm {
    /// The term `coeff · X^degree`.
    pub fn new(coeff: Fr, degree: usize) -> (t: Self)
        ensures
            t.coeff == coeff,
            t.degree == degree,
    {
        UniTerm { coeff, degree }
    }

    /// `true` exactly when the coefficient is zero.
    pub fn is_zero(&self) -> (b: bool)
        ensures
            b == (self.coeff@ == 0),
    {
        self.coeff.is_zero()
    }

    /// The term at `r`: `α · r^k`.
    pub fn eval(&self, r: Fr) -> (v: Fr)
        ensures
            v@ == fmod(self.coeff@ * pow(r@, self.degree as nat)),
    {
        if self.is_zero() {
            proof {
                assert(self.coeff@ * pow(r@, self.degree as nat) == 0);
            }
            return Fr::zero();
        }
        let m = field_pow(r, self.degree);
        proof {
            self.coeff.lemma_range();
            lemma_fmod_small(self.coeff@);
            lemma_fmod_mul(self.coeff@, pow(r@, self.degree as nat));
        }
        self.coeff.mul(&m)
    }

    /// The monomial `X^k` at `r`, without the coefficient.
    pub fn eval_monomial(&self, r: Fr) -> (v: Fr)
        ensures
            v@ == fmod(pow(r@, self.degree as nat)),
    {
        field_pow(r, self.degree)
    }
}

/// The `(coefficient, degree)` pairs of a list of terms.
pub open spec fn uni_term_pairs(ts: Seq<UniTerm>) -> Seq<(int, nat)> {
    Seq::new(ts.len(), |i: int| (ts[i].coeff@, ts[i].degree as nat))
}

/// The index of the last nonzero entry among the first `m`, or `0` when there
/// is none.
pub open spec fn top_degree(c: Seq<int>, m: nat) -> nat
    decreases m,
{
    if m == 0 {
        0
    } else if c[m - 1] != 0 {
        (m - 1) as nat
    } else {
        top_degree(c, (m - 1) as nat)
    }
}

/// `m` is the smallest power of two that is at least `len`.
pub open spec fn is_padded_len(m: nat, len: nat) -> bool {
    &&& is_pow2_len(m)
    &&& len <= m
    &&& m < 2 * len
}

/// A univariate polynomial `α₀ + α₁X + … + α_{N-1}X^{N-1}` stored as its
/// coefficients, zero-padded to a power-of-two length `N`.
#[derive(Debug, PartialEq, Eq)]
pub struct UniPoly {
    coeffs: Vec<Fr>,
    actual_degree: usize,
}

impl View for UniPoly {
    type V = Seq<int>;

    /// The padded coefficients as integers in `[0, p)`.
    closed spec fn view(&self) -> Seq<int> {
        vals(self.coeffs@)
    }
}

impl UniPoly {
    #[verifier::type_invariant]
    spec fn wf(self) -> bool {
        &&& is_pow2_len(self.coeffs@.len())
        &&& self.actual_degree == top_degree(vals(self.coeffs@), self.coeffs@.len())
    }

    /// Builds the polynomial with the given coefficients, padding them with
    /// zeros up to the next power of two.
    pub fn new(coeffs: Vec<Fr>) -> (p: Self)
        requires
            coeffs@.len() >= 1,
            coeffs@.len() <= usize::MAX / 2 + 1,
        ensures
            is_padded_len(p@.len(), coeffs@.len()),
            p@ == Seq::new(p@.len(), |i: int| if i < coeffs@.len() { coeffs@[i]@ } else { 0 }),
            forall|r: int| #[trigger] uni_sum(p@, r, p@.len()) == uni_sum(vals(coeffs@), r, coeffs@.len()),
    {
        let len = coeffs.len();
        let mut m: usize = 1;
        let ghost mut k: nat = 0;
        proof {
            vstd::arithmetic::power2::lemma2_to64();
        }
        while m < len
            invariant
                m == pow2(k),
                m >= 1,
                m < 2 * len,
                len <= usize::MAX / 2 + 1,
            decreases 2 * len - m,
        {
            proof {
                vstd::arithmetic::power2::lemma_pow2_unfold(k + 1);
                k = k + 1;
            }
            m = m * 2;
        }
        let mut padded = coeffs;
        while padded.len() < m
            invariant
                len <= padded@.len() <= m,
                forall|i: int| 0 <= i < len ==> #[trigger] padded@[i] == coeffs@[i],
                forall|i: int| len <= i < padded@.len() ==> (#[trigger] padded@[i])@ == 0,
            decreases m - padded@.len(),
        {
            padded.push(Fr::zero());
        }
        let ghost c = vals(padded@);
        let mut d = m;
        while d > 0 && padded[d - 1].is_zero()
            invariant
                d <= m,
                m == padded@.len(),
                c == vals(padded@),
                top_degree(c, m as nat) == top_degree(c, d as nat),
            decreases d,
        {
            d = d - 1;
        }
        let actual_degree = if d == 0 {
            0
        } else {
            d - 1
        };
        let p = UniPoly { coeffs: padded, actual_degree };
        proof {
            assert(is_pow2_len(m as nat));
            assert(p@ =~= Seq::new(p@.len(), |i: int| if i < coeffs@.len() { coeffs@[i]@ } else { 0 }));
            assert forall|r: int| #[trigger] uni_sum(p@, r, p@.len()) == uni_sum(vals(coeffs@), r, coeffs@.len()) by {
                lemma_zero_padding(vals(coeffs@), p@, r);
            }
        }
        p
    }

    /// The zero polynomial, stored with `2^n` coefficients.
    pub fn zero(n: usize) -> (p: Self)
        requires
            n < usize::BITS,
        ensures
            p@ == Seq::new(pow2(n as nat), |i: int| 0int),
    {
        proof {
            lemma_shl_one(n);
        }
        let coeffs = zeros(1usize << n);
        let ghost c = vals(coeffs@);
        proof {
            assert(c =~= Seq::new(pow2(n as nat), |i: int| 0int));
            assert forall|m: nat| m <= c.len() implies top_degree(c, m) == 0 by {
                lemma_top_degree_zeros(c, m);
            }
        }
        UniPoly { coeffs, actual_degree: 0 }
    }

    /// `N`, the padded number of coefficients.
    pub fn padded_len(&self) -> (len: usize)
        ensures
            len == self@.len(),
            is_pow2_len(len as nat),
    {
        proof {
            use_type_invariant(self);
        }
        self.coeffs.len()
    }

    /// `n` with `N = 2^n`.
    pub fn log_len(&self) -> (n: usize)
        ensures
            pow2(n as nat) == self@.len(),
            n < usize::BITS,
    {
        proof {
            use_type_invariant(self);
        }
        log2_exact(self.coeffs.len())
    }

    /// The degree: the index of the last nonzero coefficient, `0` for the
    /// zero polynomial.
    pub fn degree(&self) -> (d: usize)
        ensures
            d == top_degree(self@, self@.len()),
    {
        proof {
            use_type_invariant(self);
        }
        self.actual_degree
    }

    /// `true` exactly when every coefficient is zero.
    pub fn is_zero_poly(&self) -> (b: bool)
        ensures
            b == (forall|i: int| 0 <= i < self@.len() ==> #[trigger] self@[i] == 0),
    {
        let mut i: usize = 0;
        while i < self.coeffs.len()
            invariant
                i <= self.coeffs@.len(),
                forall|j: int| 0 <= j < i ==> #[trigger] self@[j] == 0,
            decreases self.coeffs@.len() - i,
        {
            if !self.coeffs[i].is_zero() {
                proof {
                    assert(self@[i as int] != 0);
                }
                return false;
            }
            i = i + 1;
        }
        true
    }

    /// The padded coefficient vector.
    pub fn coeffs(&self) -> (r: &[Fr])
        ensures
            vals(r@) == self@,
            r@.len() == self@.len(),
    {
        self.coeffs.as_slice()
    }

    /// The coefficient of `X^k`; zero beyond the padded length.
    pub fn coeff(&self, k: usize) -> (r: Fr)
        ensures
            r@ == (if k < self@.len() { self@[k as int] } else { 0 }),
    {
        if k < self.coeffs.len() {
            self.coeffs[k]
        } else {
            Fr::zero()
        }
    }

    /// The nonzero terms, in degree order.
    pub fn terms(&self) -> (ts: Vec<UniTerm>)
        ensures
            uni_term_pairs(ts@) == nonzero_terms(self@, self@.len()),
    {
        let mut ts: Vec<UniTerm> = Vec::new();
        let mut k: usize = 0;
        while k < self.coeffs.len()
            invariant
                k <= self.coeffs@.len(),
                uni_term_pairs(ts@) == nonzero_terms(self@, k as nat),
            decreases self.coeffs@.len() - k,
        {
            let c = self.coeffs[k];
            if !c.is_zero() {
                ts.push(UniTerm::new(c, k));
            }
            proof {
                assert(uni_term_pairs(ts@) =~= nonzero_terms(self@, (k + 1) as nat));
            }
            k = k + 1;
        }
        ts
    }

    /// Every term, padding zeros included, in degree order.
    pub fn all_terms(&self) -> (ts: Vec<UniTerm>)
        ensures
            ts@.len() == self@.len(),
            forall|k: int| 0 <= k < ts@.len() ==> (#[trigger] ts@[k]).coeff@ == self@[k]
                && ts@[k].degree == k,
    {
        let mut ts: Vec<UniTerm> = Vec::new();
        let mut k: usize = 0;
        while k < self.coeffs.len()
            invariant
                k <= self.coeffs@.len(),
                ts@.len() == k,
                forall|i: int| 0 <= i < k ==> (#[trigger] ts@[i]).coeff@ == self@[i] && ts@[i].degree
                    == i,
            decreases self.coeffs@.len() - k,
        {
            ts.push(UniTerm::new(self.coeffs[k], k));
            k = k + 1;
        }
        ts
    }

    /// Naive evaluation: every term `α_k · r^k` computed on its own, then
    /// summed.
    pub fn eval_naive(&self, r: Fr) -> (v: Fr)
        ensures
            v@ == fmod(uni_sum(self@, r@, self@.len())),
    {
        let ghost c = self@;
        let mut acc = Fr::zero();
        let mut k: usize = 0;
        proof {
            lemma_fmod_small(0);
        }
        while k < self.coeffs.len()
            invariant
                k <= self.coeffs@.len(),
                c == self@,
                c.len() == self.coeffs@.len(),
                acc@ == fmod(uni_sum(c, r@, k as nat)),
            decreases self.coeffs@.len() - k,
        {
            let alpha = self.coeffs[k];
            let ghost t = c[k as int] * pow(r@, k as nat);
            if alpha.is_zero() {
                proof {
                    let ck = c[k as int];
                    let pk = pow(r@, k as nat);
                    assert(ck == 0);
                    assert(ck * pk == 0) by (nonlinear_arith)
                        requires ck == 0;
                }
            } else {
                let v = UniTerm::new(alpha, k).eval(r);
                proof {
                    lemma_fmod_add(uni_sum(c, r@, k as nat), t);
                }
                acc = acc.add(&v);
            }
            k = k + 1;
        }
        acc
    }

    /// Horner evaluation: `α₀ + r·(α₁ + r·(α₂ + …))`, from the top
    /// coefficient down.
    pub fn eval_horner(&self, r: Fr) -> (v: Fr)
        ensures
            v@ == fmod(uni_sum(self@, r@, self@.len())),
    {
        let ghost c = self@;
        let len = self.coeffs.len();
        let mut acc = Fr::zero();
        let mut i: usize = len;
        proof {
            lemma_fmod_small(0);
            r.lemma_range();
            lemma_fmod_small(r@);
        }
        while i > 0
            invariant
                i <= len,
                len == self.coeffs@.len(),
                c == self@,
                c.len() == len,
                acc@ == fmod(uni_sum(c.skip(i as int), r@, (len - i) as nat)),
            decreases i,
        {
            i = i - 1;
            let alpha = self.coeffs[i];
            let ghost d = c.skip(i as int);
            let ghost tail = uni_sum(c.skip(i + 1), r@, (len - i - 1) as nat);
            proof {
                lemma_uni_horner(d, r@, (len - i - 1) as nat);
                assert(d.drop_first() =~= c.skip(i + 1));
                lemma_fmod_mul(tail, r@);
                alpha.lemma_range();
                lemma_fmod_add(tail * r@, alpha@);
                lemma_fmod_small(alpha@);
                assert(tail * r@ + alpha@ == d[0] + r@ * tail) by (nonlinear_arith)
                    requires d[0] == alpha@;
            }
            acc = acc.mul(&r).add(&alpha);
        }
        proof {
            assert(c.skip(0) =~= c);
        }
        acc
    }

    /// Estrin evaluation: pairs of neighbouring coefficients combined with
    /// `r`, then pairs of those with `r²`, then `r⁴`, ….
    pub fn eval_estrin(&self, r: Fr) -> (v: Fr)
        ensures
            v@ == fmod(uni_sum(self@, r@, self@.len())),
    {
        let n = self.log_len();
        let powers = power_table(r, n);
        let buf = copy_elems(self.coeffs.as_slice());
        proof {
            lemma_vals_reduced(self.coeffs@);
            lemma_uni_estrin(self@, r@, n as nat);
        }
        fold_layers(buf, &powers, false, false, Ghost(self@), Ghost(r@))
    }

    /// Circuit evaluation: the coefficients in bit-reversed order, folded
    /// bottom-up with `r^{2^{n-1}}, …, r², r`.
    pub fn eval_circuit(&self, r: Fr) -> (v: Fr)
        ensures
            v@ == fmod(uni_sum(self@, r@, self@.len())),
    {
        let n = self.log_len();
        let powers = power_table(r, n);
        let buf = self.bit_reversed(n);
        proof {
            lemma_uni_circuit(self@, r@, n as nat);
        }
        fold_layers(buf, &powers, true, false, Ghost(bitrev_leaves(self@, n as nat)), Ghost(r@))
    }

    /// Circuit evaluation with the pairs of each layer folded by rayon.
    pub fn eval_circuit_parallel(&self, r: Fr) -> (v: Fr)
        ensures
            v@ == fmod(uni_sum(self@, r@, self@.len())),
    {
        let n = self.log_len();
        let powers = power_table(r, n);
        let buf = self.bit_reversed(n);
        proof {
            lemma_uni_circuit(self@, r@, n as nat);
        }
        fold_layers(buf, &powers, true, true, Ghost(bitrev_leaves(self@, n as nat)), Ghost(r@))
    }

    /// The coefficients in bit-reversed order: entry `k` is `α_{rev(k)}`.
    fn bit_reversed(&self, n: usize) -> (buf: Vec<Fr>)
        requires
            pow2(n as nat) == self@.len(),
            n < usize::BITS,
        ensures
            buf@.len() == self@.len(),
            forall|k: int| 0 <= k < buf@.len() ==> (#[trigger] buf@[k])@ == fmod(
                bitrev_leaves(self@, n as nat)[k],
            ),
    {
        let table = get_or_build(n);
        let big_n = self.coeffs.len();
        let mut buf: Vec<Fr> = Vec::with_capacity(big_n);
        let mut k: usize = 0;
        proof {
            lemma_vals_reduced(self.coeffs@);
        }
        while k < big_n
            invariant
                k <= big_n,
                big_n == self.coeffs@.len(),
                pow2(n as nat) == big_n,
                crate::circuit::canonical::is_bit_reverse_table(table@, n as nat),
                buf@.len() == k,
                forall|i: int| 0 <= i < self@.len() ==> fmod(#[trigger] self@[i]) == self@[i],
                forall|i: int| 0 <= i < k ==> (#[trigger] buf@[i])@ == fmod(
                    bitrev_leaves(self@, n as nat)[i],
                ),
            decreases big_n - k,
        {
            proof {
                lemma_rev_bits_bound(k as nat, n as nat);
            }
            buf.push(self.coeffs[table[k]]);
            k = k + 1;
        }
        buf
    }

    /// The decomposition tree of the coefficients, `(q_j)_{1 ≤ j ≤ 2N-1}`.
    pub fn decompose(&self) -> (d: UniDecomp)
        ensures
            d.is_tree(),
            vals(d.nodes@[0]@) == self@,
            seq_total(vec_lens(d.nodes@)) == (d.n + 1) * d.big_n,
            pow2(d.n as nat) == d.big_n,
            d.big_n == self@.len(),
            d.nodes@.len() == 2 * d.big_n - 1,
            forall|i: int| 0 <= i < d.nodes@.len() ==> vals((#[trigger] d.nodes@[i])@) == tnode(
                self@,
                (i + 1) as nat,
            ),
    {
        let n = self.log_len();
        let big_n = self.coeffs.len();
        let nodes = split_tree(self.coeffs.as_slice(), n, Ghost(self@));
        let d = UniDecomp { n, big_n, nodes };
        proof {
            d.lemma_total();
        }
        d
    }
}

/// The last nonzero index is unchanged by dropping zeros from the top, and
/// is zero when there are only zeros.
proof fn lemma_top_degree_zeros(c: Seq<int>, m: nat)
    requires
        m <= c.len(),
        forall|i: int| 0 <= i < m ==> #[trigger] c[i] == 0,
    ensures
        top_degree(c, m) == 0,
    decreases m,
{
    if m > 0 {
        lemma_top_degree_zeros(c, (m - 1) as nat);
    }
}

/// Folds a layer of `2^n` entries down to one value, fixing one variable per
/// entry of `powers` (in order, or from the last entry back when `reversed`),
/// the pairs of each layer folded in turn or by rayon.
fn fold_layers(
    buf: Vec<Fr>,
    powers: &Vec<Fr>,
    reversed: bool,
    parallel: bool,
    Ghost(v): Ghost<Seq<int>>,
    Ghost(r): Ghost<int>,
) -> (out: Fr)
    requires
        buf@.len() == pow2(powers@.len() as nat),
        v.len() == buf@.len(),
        forall|i: int| 0 <= i < buf@.len() ==> (#[trigger] buf@[i])@ == fmod(v[i]),
        forall|k: int| 0 <= k < powers@.len() ==> (#[trigger] powers@[k])@ == fmod(
            square_powers(r, powers@.len() as nat)[k],
        ),
    ensures
        out@ == fmod(
            eval_ml(
                v,
                if reversed {
                    square_powers(r, powers@.len() as nat).reverse()
                } else {
                    square_powers(r, powers@.len() as nat)
                },
                false,
            ),
        ),
{
    let n = powers.len();
    let ghost sp = square_powers(r, n as nat);
    let ghost ps = if reversed {
        sp.reverse()
    } else {
        sp
    };
    let mut buf = buf;
    let mut i: usize = 0;
    proof {
        assert(ps.take(0) =~= Seq::<int>::empty());
    }
    while i < n
        invariant
            i <= n,
            n == powers@.len(),
            ps.len() == n,
            ps == (if reversed {
                sp.reverse()
            } else {
                sp
            }),
            sp == square_powers(r, n as nat),
            v.len() == pow2(n as nat),
            forall|k: int| 0 <= k < n ==> (#[trigger] powers@[k])@ == fmod(sp[k]),
            buf@.len() == pow2((n - i) as nat),
            forall|j: int| 0 <= j < buf@.len() ==> (#[trigger] buf@[j])@ == fmod(
                folds(v, ps.take(i as int), false)[j],
            ),
        decreases n - i,
    {
        let lambda = if reversed {
            powers[n - 1 - i]
        } else {
            powers[i]
        };
        let ghost prev = folds(v, ps.take(i as int), false);
        proof {
            lemma_folds_len(v, ps.take(i as int), n as nat, false);
            lemma_half_len(buf@.len(), (n - i - 1) as nat);
            assert(lambda@ == fmod(ps[i as int]));
        }
        let tmp = if parallel {
            par_fold_pairs(buf.as_slice(), &lambda, false)
        } else {
            fold_pairs(buf.as_slice(), &lambda, false)
        };
        proof {
            lemma_fold_pairs_model(buf@, tmp@, lambda, prev, ps[i as int], false);
            assert(ps.take(i + 1) =~= ps.take(i as int).push(ps[i as int]));
            lemma_folds_push(v, ps.take(i as int), ps[i as int], false);
        }
        buf = tmp;
        i = i + 1;
    }
    proof {
        assert(ps.take(n as int) =~= ps);
        vstd::arithmetic::power2::lemma2_to64();
    }
    buf[0]
}

/// The decomposition tree of `c`: node `1` is `c`, and nodes `2j` and
/// `2j + 1` are the even- and odd-indexed entries of node `j`.
pub(crate) fn split_tree(c: &[Fr], n: usize, Ghost(model): Ghost<Seq<int>>) -> (nodes: Vec<Vec<Fr>>)
    requires
        c@.len() == pow2(n as nat),
        n < usize::BITS,
        model == vals(c@),
    ensures
        nodes@.len() == 2 * c@.len() - 1,
        forall|i: int| 0 <= i < nodes@.len() ==> vals((#[trigger] nodes@[i])@) == tnode(
            model,
            (i + 1) as nat,
        ),
{
    proof {
        lemma_shl_one(n);
        lemma_pow2_double_fits(n as nat);
    }
    let big_n = c.len();
    proof {
        vstd::arithmetic::power2::lemma_pow2_pos(n as nat);
    }
    let mut nodes: Vec<Vec<Fr>> = Vec::new();
    nodes.push(copy_elems(c));
    let mut j: usize = 1;
    while j < big_n
        invariant
            1 <= j <= big_n,
            big_n == c@.len(),
            big_n == pow2(n as nat),
            2 * big_n <= usize::MAX as int + 1,
            nodes@.len() == 2 * j - 1,
            forall|i: int| 0 <= i < nodes@.len() ==> vals((#[trigger] nodes@[i])@) == tnode(
                model,
                (i + 1) as nat,
            ),
        decreases big_n - j,
    {
        let parent = copy_elems(nodes[j - 1].as_slice());
        let plen = parent.len();
        let half = plen / 2;
        let mut left: Vec<Fr> = Vec::with_capacity(half);
        let mut right: Vec<Fr> = Vec::with_capacity(half);
        let mut s: usize = 0;
        while s < half
            invariant
                s <= half,
                half == plen / 2,
                plen == parent@.len(),
                left@.len() == s,
                right@.len() == s,
                forall|i: int| 0 <= i < s ==> #[trigger] left@[i] == parent@[2 * i],
                forall|i: int| 0 <= i < s ==> #[trigger] right@[i] == parent@[2 * i + 1],
            decreases half - s,
        {
            left.push(parent[2 * s]);
            right.push(parent[2 * s + 1]);
            s = s + 1;
        }
        proof {
            let pm = tnode(model, j as nat);
            assert(vals(parent@) == pm);
            assert((2 * j) as nat / 2 == j && (2 * j) % 2 == 0);
            assert((2 * j + 1) as nat / 2 == j && (2 * j + 1) % 2 == 1);
            assert(vals(left@) =~= evens(pm));
            assert(vals(right@) =~= odds(pm));
        }
        nodes.push(left);
        nodes.push(right);
        j = j + 1;
    }
    nodes
}

/// The decomposition tree `(q_j)_{1 ≤ j ≤ 2N-1}` of a univariate polynomial:
/// node `j` at depth `i` is a polynomial in `X^{2^i}` with `N / 2^i`
/// coefficients.
pub struct UniDecomp {
    /// `n` with `N = 2^n`.
    pub n: usize,
    /// `N = 2^n`.
    pub big_n: usize,
    /// Node `j` (1-based) is `nodes[j - 1]`.
    pub nodes: Vec<Vec<Fr>>,
}

/// The length of each coefficient vector of a list.
pub open spec fn vec_lens(vs: Seq<Vec<Fr>>) -> Seq<int> {
    Seq::new(vs.len(), |i: int| vs[i]@.len() as int)
}

impl UniDecomp {
    /// Node `q_j`, by its 1-based index.
    pub fn q(&self, j: usize) -> (r: &[Fr])
        requires
            1 <= j < 2 * self.big_n,
            j <= self.nodes@.len(),
        ensures
            r@ == self.nodes@[j - 1]@,
    {
        self.nodes[j - 1].as_slice()
    }

    /// The root `q_1`.
    pub fn root(&self) -> (r: &[Fr])
        requires
            self.nodes@.len() >= 1,
        ensures
            r@ == self.nodes@[0]@,
    {
        self.nodes[0].as_slice()
    }

    /// The leaves `q_N, …, q_{2N-1}`.
    pub fn leaves(&self) -> (r: &[Vec<Fr>])
        requires
            1 <= self.big_n,
            2 * self.big_n - 1 <= self.nodes@.len(),
        ensures
            r@ == self.nodes@.subrange(self.big_n - 1, 2 * self.big_n - 1),
    {
        let len = self.nodes.len();
        slice_range(&self.nodes, self.big_n - 1, self.big_n - 1 + self.big_n)
    }

    /// Layer `i` (0-based): the `2^i` nodes at depth `i`.
    pub fn layer(&self, i: usize) -> (r: &[Vec<Fr>])
        requires
            i <= self.n,
            self.n < usize::BITS - 1,
            pow2((i + 1) as nat) - 1 <= self.nodes@.len(),
        ensures
            r@ == self.nodes@.subrange(pow2(i as nat) - 1, pow2((i + 1) as nat) - 1),
    {
        proof {
            lemma_shl_one(i);
            lemma_shl_one((i + 1) as usize);
            vstd::arithmetic::power2::lemma_pow2_pos(i as nat);
            vstd::arithmetic::power2::lemma_pow2_pos((i + 1) as nat);
        }
        let start = (1usize << i) - 1;
        let end = (1usize << (i + 1)) - 1;
        proof {
            vstd::arithmetic::power2::lemma_pow2_unfold((i + 1) as nat);
        }
        slice_range(&self.nodes, start, end)
    }

    /// The number of field elements stored over all nodes; `(n+1)·N` for a
    /// tree that `decompose` made.
    pub fn total_field_elements(&self) -> (t: usize)
        requires
            seq_total(vec_lens(self.nodes@)) <= usize::MAX,
        ensures
            t == seq_total(vec_lens(self.nodes@)),
            self.is_tree() ==> t == (self.n + 1) * self.big_n,
    {
        let ghost ls = vec_lens(self.nodes@);
        let mut t: usize = 0;
        let mut i: usize = 0;
        while i < self.nodes.len()
            invariant
                i <= self.nodes@.len(),
                ls == vec_lens(self.nodes@),
                seq_total(ls) <= usize::MAX,
                t == seq_total(ls.take(i as int)),
            decreases self.nodes@.len() - i,
        {
            proof {
                assert(ls.take(i + 1).drop_last() =~= ls.take(i as int));
                lemma_seq_total_prefix(ls, (i + 1) as nat);
            }
            t = t + self.nodes[i].len();
            i = i + 1;
        }
        proof {
            assert(ls.take(i as int) =~= ls);
            if self.is_tree() {
                self.lemma_total();
            }
        }
        t
    }

    /// The shape of a tree over `n` variables whose nodes are the even/odd
    /// splits of the root.
    pub open spec fn is_tree(self) -> bool {
        &&& self.n < usize::BITS
        &&& self.big_n == pow2(self.n as nat)
        &&& self.nodes@.len() == 2 * self.big_n - 1
        &&& vals(self.nodes@[0]@).len() == self.big_n
        &&& forall|i: int| 0 <= i < self.nodes@.len() ==> vals((#[trigger] self.nodes@[i])@) == tnode(
            vals(self.nodes@[0]@),
            (i + 1) as nat,
        )
    }

    /// A tree over `n` variables stores `(n+1)·N` field elements.
    pub proof fn lemma_total(self)
        requires
            self.is_tree(),
        ensures
            seq_total(vec_lens(self.nodes@)) == (self.n + 1) * self.big_n,
    {
        let ls = vec_lens(self.nodes@);
        let c = vals(self.nodes@[0]@);
        let n = self.n as nat;
        assert forall|i: nat, t: nat| i <= n && t < pow2(i) implies #[trigger] node_size(ls, i, t) == pow2(
            (n - i) as nat,
        ) by {
            vstd::arithmetic::power2::lemma_pow2_unfold(n + 1);
            if i < n {
                vstd::arithmetic::power2::lemma_pow2_strictly_increases(i, n);
            }
            lemma_tnode_len(c, n, i, t);
            let j = pow2(i) + t;
            assert(vals(self.nodes@[j - 1]@) == tnode(c, j as nat));
            assert(ls[j - 1] == vals(self.nodes@[j - 1]@).len());
        }
        lemma_tree_total(ls, n);
    }
}

/// The entries `start..end` of a vector, as a slice.
fn slice_range<T>(v: &Vec<T>, start: usize, end: usize) -> (r: &[T])
    requires
        start <= end <= v@.len(),
    ensures
        r@ == v@.subrange(start as int, end as int),
{
    vstd::slice::slice_subrange(v.as_slice(), start, end)
}


impl Clone for UniPoly {
    /// A copy with the same coefficients and degree.
    fn clone(&self) -> (r: Self)
        ensures
            r@ == self@,
    {
        proof {
            use_type_invariant(self);
        }
        UniPoly { coeffs: copy_elems(self.coeffs.as_slice()), actual_degree: self.actual_degree }
    }
}


/// **Padding is transparent.** Appending a zero coefficient keeps the value
/// of a univariate polynomial at every point; with the `ensures` of `new`,
/// `UniPoly::new(v)` and `UniPoly::new(v ++ [0])` evaluate alike everywhere.
pub proof fn lemma_append_zero(v: Seq<Fr>, z: Fr, r: int)
    requires
        z@ == 0,
    ensures
        uni_sum(vals(v.push(z)), r, v.len() + 1) == uni_sum(vals(v), r, v.len()),
{
    let c = vals(v);
    let p = vals(v.push(z));
    assert forall|i: int| 0 <= i < c.len() implies #[trigger] p[i] == c[i] by {
        assert(v.push(z)[i] == v[i]);
    }
    assert forall|i: int| c.len() <= i < p.len() implies #[trigger] p[i] == 0 by {
        assert(v.push(z)[i] == z);
    }
    lemma_zero_padding(c, p, r);
}

/// Two polynomials built from `v` and from `v` with a zero appended take the
/// same value at every point.
pub proof fn lemma_new_append_zero(v: Seq<Fr>, z: Fr, p: UniPoly, q: UniPoly, r: int)
    requires
        z@ == 0,
        forall|x: int| #[trigger] uni_sum(p@, x, p@.len()) == uni_sum(vals(v), x, v.len()),
        forall|x: int| #[trigger] uni_sum(q@, x, q@.len()) == uni_sum(vals(v.push(z)), x, v.len() + 1),
    ensures
        uni_sum(p@, r, p@.len()) == uni_sum(q@, r, q@.len()),
{
    assert(uni_sum(p@, r, p@.len()) == uni_sum(vals(v), r, v.len()));
    assert(uni_sum(q@, r, q@.len()) == uni_sum(vals(v.push(z)), r, v.len() + 1));
    lemma_append_zero(v, z, r);
}

} // verus!
