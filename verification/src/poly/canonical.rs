//! Multilinear polynomials in the canonical (monomial) basis.

use vstd::prelude::*;
use vstd::arithmetic::power2::pow2;
use crate::algebra::{
    eval_ml, fold_vars, folds, lemma_folds_len, lemma_folds_push, lemma_half_len,
    lemma_naive_sum_is_eval, lemma_popcount_bound, lemma_weighted_sum_is_sum_tree, monomial,
    naive_sum, popcount, sum_tree, weighted_sum,
};
use crate::field::{fmod, lemma_fmod_add, lemma_fmod_mul, lemma_fmod_small, vals, Fr};
use super::traits::MlPoly;

verus! {

/// `n` is a power of two.
pub open spec fn is_pow2_len(n: nat) -> bool {
    exists|k: nat| pow2(k) == n
}

/// `2^BITS` is one more than the largest `usize`.
pub proof fn lemma_pow2_word_bits()
    ensures
        pow2(usize::BITS as nat) == usize::MAX as int + 1,
{
    vstd::arithmetic::power2::lemma2_to64();
    vstd::arithmetic::power2::lemma2_to64_rest();
}

/// A power of two that fits in a `usize` has an exponent below the word width.
pub proof fn lemma_pow2_fits(k: nat)
    requires
        pow2(k) <= usize::MAX,
    ensures
        k < usize::BITS,
{
    lemma_pow2_word_bits();
    if k >= usize::BITS {
        if k > usize::BITS {
            vstd::arithmetic::power2::lemma_pow2_strictly_increases(usize::BITS as nat, k);
        }
    }
}

/// Twice a power of two below the word width still fits in a word, less one.
pub proof fn lemma_pow2_double_fits(n: nat)
    requires
        n < usize::BITS,
    ensures
        2 * pow2(n) <= usize::MAX as int + 1,
{
    lemma_pow2_word_bits();
    vstd::arithmetic::power2::lemma_pow2_unfold(n + 1);
    if n + 1 < usize::BITS {
        vstd::arithmetic::power2::lemma_pow2_strictly_increases(n + 1, usize::BITS as nat);
    }
}

/// The exponent of a power of two.
pub fn log2_exact(n: usize) -> (k: usize)
    requires
        is_pow2_len(n as nat),
    ensures
        pow2(k as nat) == n,
        k < usize::BITS,
{
    let ghost e = choose|e: nat| pow2(e) == n;
    let mut m = n;
    let mut k: usize = 0;
    proof {
        lemma_pow2_fits(e);
    }
    while m > 1
        invariant
            k <= e,
            e < usize::BITS,
            pow2(e) == n,
            m == pow2((e - k) as nat),
        decreases m,
    {
        proof {
            if k == e {
                vstd::arithmetic::power2::lemma2_to64();
            }
            vstd::arithmetic::power2::lemma_pow2_unfold((e - k) as nat);
        }
        m = m / 2;
        k = k + 1;
    }
    proof {
        vstd::arithmetic::power2::lemma_pow2_pos((e - k) as nat);
        if k < e {
            vstd::arithmetic::power2::lemma_pow2_unfold((e - k) as nat);
            vstd::arithmetic::power2::lemma_pow2_pos((e - k - 1) as nat);
        }
    }
    k
}

/// The number of set bits of a word.
pub fn count_ones(x: usize) -> (c: u32)
    ensures
        c == popcount(x as nat),
{
    proof {
        lemma_pow2_word_bits();
        lemma_popcount_bound(x as nat, usize::BITS as nat);
    }
    let mut y = x;
    let mut c: u32 = 0;
    while y > 0
        invariant
            c + popcount(y as nat) == popcount(x as nat),
            popcount(x as nat) <= usize::BITS,
        decreases y,
    {
        c = c + (y % 2) as u32;
        y = y / 2;
    }
    c
}

/// A copy of a vector of field elements.
pub fn copy_elems(v: &[Fr]) -> (r: Vec<Fr>)
    ensures
        r@ == v@,
{
    let mut r: Vec<Fr> = Vec::with_capacity(v.len());
    let mut i: usize = 0;
    while i < v.len()
        invariant
            i <= v@.len(),
            r@ == v@.subrange(0, i as int),
        decreases v@.len() - i,
    {
        r.push(v[i]);
        i = i + 1;
        proof {
            assert(r@ =~= v@.subrange(0, i as int));
        }
    }
    proof {
        assert(r@ =~= v@);
    }
    r
}

/// `len` copies of zero.
pub fn zeros(len: usize) -> (r: Vec<Fr>)
    ensures
        r@.len() == len,
        forall|i: int| 0 <= i < len ==> (#[trigger] r@[i])@ == 0,
{
    let mut r: Vec<Fr> = Vec::with_capacity(len);
    let mut i: usize = 0;
    while i < len
        invariant
            i <= len,
            r@.len() == i,
            forall|j: int| 0 <= j < i ==> (#[trigger] r@[j])@ == 0,
        decreases len - i,
    {
        r.push(Fr::zero());
        i = i + 1;
    }
    r
}

/// The values of a sequence of field elements are already reduced.
pub proof fn lemma_vals_reduced(s: Seq<Fr>)
    ensures
        forall|i: int| 0 <= i < s.len() ==> 0 <= #[trigger] vals(s)[i] < crate::field::field_modulus()
            && fmod(vals(s)[i]) == vals(s)[i],
{
    assert forall|i: int| 0 <= i < s.len() implies 0 <= #[trigger] vals(s)[i]
        < crate::field::field_modulus() && fmod(vals(s)[i]) == vals(s)[i] by {
        s[i].lemma_range();
        lemma_fmod_small(s[i]@);
    }
}

/// One term `α · m_j(x)` of a canonical polynomial.
#[derive(Clone, Copy, Debug, PartialEq)]
pub struct CanonicalTerm {
    pub coeff: Fr,
    pub index: usize,
}

impl CanonicalTerm {
    /// The term `coeff · m_index`.
    pub fn new(coeff: Fr, index: usize) -> (t: Self)
        ensures
            t.coeff == coeff,
            t.index == index,
    {
        CanonicalTerm { coeff, index }
    }

    /// The degree of the monomial: the number of set bits of its index.
    pub fn degree(&self) -> (d: u32)
        ensures
            d == popcount(self.index as nat),
    {
        count_ones(self.index)
    }

    /// `true` exactly when the coefficient is zero.
    pub fn is_zero(&self) -> (b: bool)
        ensures
            b == (self.coeff@ == 0),
    {
        self.coeff.is_zero()
    }

    /// The monomial at the Boolean point with bits `b`: one when every
    /// variable of the monomial is set in `b`, else zero.
    pub fn eval_boolean(&self, b: usize) -> (r: Fr)
        ensures
            r@ == (if self.index & b == self.index { 1int } else { 0int }),
    {
        if self.index & b == self.index {
            Fr::one()
        } else {
            Fr::zero()
        }
    }
}

/// The nonzero terms among the first `m` coefficients, in index order, as
/// `(coefficient, index)` pairs.
pub open spec fn nonzero_terms(c: Seq<int>, m: nat) -> Seq<(int, nat)>
    decreases m,
{
    if m == 0 {
        Seq::empty()
    } else if c[m - 1] != 0 {
        nonzero_terms(c, (m - 1) as nat).push((c[m - 1], (m - 1) as nat))
    } else {
        nonzero_terms(c, (m - 1) as nat)
    }
}

/// The `(coefficient, index)` pairs of a list of terms.
pub open spec fn term_pairs(ts: Seq<CanonicalTerm>) -> Seq<(int, nat)> {
    Seq::new(ts.len(), |i: int| (ts[i].coeff@, ts[i].index as nat))
}

/// A multilinear polynomial in the canonical (monomial) basis, stored as its
/// `2^n` coefficients; coefficient `j` belongs to the monomial of the
/// variables whose bits are set in `j` (bit 0 is the first variable).
#[derive(Debug, PartialEq, Eq)]
pub struct CanonicalPoly {
    num_vars: usize,
    coeffs: Vec<Fr>,
}

impl View for CanonicalPoly {
    type V = Seq<int>;

    /// The coefficients as integers in `[0, p)`.
    closed spec fn view(&self) -> Seq<int> {
        vals(self.coeffs@)
    }
}

impl CanonicalPoly {
    #[verifier::type_invariant]
    spec fn wf(self) -> bool {
        self.coeffs@.len() == pow2(self.num_vars as nat)
    }

    /// The number of variables.
    pub closed spec fn nv(self) -> nat {
        self.num_vars as nat
    }

    /// Builds the polynomial with the given coefficients.
    pub fn new(coeffs: Vec<Fr>) -> (p: Self)
        requires
            is_pow2_len(coeffs@.len()),
        ensures
            p@ == vals(coeffs@),
            pow2(p.nv()) == coeffs@.len(),
    {
        let num_vars = log2_exact(coeffs.len());
        CanonicalPoly { num_vars, coeffs }
    }

    /// The zero polynomial in `num_vars` variables.
    pub fn zero(num_vars: usize) -> (p: Self)
        requires
            num_vars < usize::BITS,
        ensures
            p.nv() == num_vars,
            p@ == Seq::new(pow2(num_vars as nat), |i: int| 0int),
    {
        proof {
            crate::circuit::canonical::lemma_shl_one(num_vars);
        }
        let coeffs = zeros(1usize << num_vars);
        let p = CanonicalPoly { num_vars, coeffs };
        proof {
            assert(p@ =~= Seq::new(pow2(num_vars as nat), |i: int| 0int));
        }
        p
    }

    /// The coefficient vector.
    pub fn coeffs(&self) -> (r: &[Fr])
        ensures
            vals(r@) == self@,
            r@.len() == pow2(self.nv()),
            self@.len() == pow2(self.nv()),
            self.nv() < usize::BITS,
    {
        let len = self.coeffs.len();
        proof {
            use_type_invariant(self);
            lemma_pow2_fits(self.nv());
        }
        self.coeffs.as_slice()
    }

    /// Replaces the coefficient `α_j` by `v`. The vector is copied, so the
    /// polynomial keeps its shape at every step.
    pub fn set_coeff(&mut self, j: usize, v: Fr)
        requires
            j < old(self)@.len(),
        ensures
            final(self)@ == old(self)@.update(j as int, v@),
            final(self).nv() == old(self).nv(),
    {
        proof {
            use_type_invariant(&*self);
        }
        let mut updated = copy_elems(self.coeffs.as_slice());
        updated.set(j, v);
        self.coeffs = updated;
        proof {
            assert(self@ =~= old(self)@.update(j as int, v@));
        }
    }

    /// The coefficient `α_j`.
    pub fn coeff(&self, j: usize) -> (r: Fr)
        requires
            j < self@.len(),
        ensures
            r@ == self@[j as int],
    {
        self.coeffs[j]
    }

    /// The nonzero terms, in index order.
    pub fn terms(&self) -> (ts: Vec<CanonicalTerm>)
        ensures
            term_pairs(ts@) == nonzero_terms(self@, self@.len()),
    {
        let mut ts: Vec<CanonicalTerm> = Vec::new();
        let mut j: usize = 0;
        while j < self.coeffs.len()
            invariant
                j <= self.coeffs@.len(),
                term_pairs(ts@) == nonzero_terms(self@, j as nat),
            decreases self.coeffs@.len() - j,
        {
            let c = self.coeffs[j];
            if !c.is_zero() {
                ts.push(CanonicalTerm::new(c, j));
            }
            proof {
                assert(term_pairs(ts@) =~= nonzero_terms(self@, (j + 1) as nat));
            }
            j = j + 1;
        }
        ts
    }

    /// Every term, zero coefficients included, in index order.
    pub fn all_terms(&self) -> (ts: Vec<CanonicalTerm>)
        ensures
            ts@.len() == self@.len(),
            forall|j: int| 0 <= j < ts@.len() ==> (#[trigger] ts@[j]).coeff@ == self@[j]
                && ts@[j].index == j,
    {
        let mut ts: Vec<CanonicalTerm> = Vec::new();
        let mut j: usize = 0;
        while j < self.coeffs.len()
            invariant
                j <= self.coeffs@.len(),
                ts@.len() == j,
                forall|i: int| 0 <= i < j ==> (#[trigger] ts@[i]).coeff@ == self@[i]
                    && ts@[i].index == i,
            decreases self.coeffs@.len() - j,
        {
            ts.push(CanonicalTerm::new(self.coeffs[j], j));
            j = j + 1;
        }
        ts
    }

    /// Naive evaluation at `r = (r₁, …, rₙ)`: every monomial is evaluated on
    /// its own and the terms are summed.
    pub fn eval_naive(&self, r: &[Fr]) -> (v: Fr)
        requires
            r@.len() == self.nv(),
        ensures
            v@ == fmod(naive_sum(self@, vals(r@), self@.len())),
            v@ == fmod(eval_ml(self@, vals(r@), false)),
    {
        let len = self.coeffs.len();
        proof {
            use_type_invariant(self);
            lemma_naive_sum_is_eval(self@, vals(r@));
            lemma_pow2_fits(self.nv());
        }
        let n = self.num_vars;
        let ghost c = self@;
        let ghost rs = vals(r@);
        let mut acc = Fr::zero();
        let mut j: usize = 0;
        while j < self.coeffs.len()
            invariant
                j <= self.coeffs@.len(),
                c == self@,
                c.len() == self.coeffs@.len(),
                rs == vals(r@),
                rs.len() == n,
                n == self.nv(),
                n < usize::BITS,
                acc@ == fmod(naive_sum(c, rs, j as nat)),
            decreases self.coeffs@.len() - j,
        {
            let alpha = self.coeffs[j];
            if alpha.is_zero() {
                proof {
                    assert(c[j as int] == 0);
                    assert(c[j as int] * monomial(j as nat, rs) == 0) by (nonlinear_arith)
                        requires c[j as int] == 0;
                }
            } else {
                let mut prod = Fr::one();
                let ghost mut big_p: int = 1;
                let mut k: usize = 0;
                proof {
                    vstd::arithmetic::power2::lemma2_to64();
                    assert(rs.skip(0) =~= rs);
                    assert(j as nat / pow2(0) == j);
                    assert(1 * monomial(j as nat, rs) == monomial(j as nat, rs));
                }
                while k < n
                    invariant
                        k <= n,
                        n == rs.len(),
                        n < usize::BITS,
                        rs == vals(r@),
                        prod@ == fmod(big_p),
                        big_p * monomial(j as nat / pow2(k as nat), rs.skip(k as int)) == monomial(
                            j as nat,
                            rs,
                        ),
                    decreases n - k,
                {
                    let ghost jk = j as nat / pow2(k as nat);
                    let ghost tail = rs.skip(k as int);
                    proof {
                        vstd::bits::lemma_usize_shr_is_div(j, k);
                        vstd::arithmetic::power2::lemma_pow2_pos(k as nat);
                        vstd::arithmetic::div_mod::lemma_div_denominator(
                            j as int,
                            pow2(k as nat) as int,
                            2,
                        );
                        vstd::arithmetic::power2::lemma_pow2_unfold((k + 1) as nat);
                        assert(pow2(k as nat) * 2 == pow2((k + 1) as nat));
                        assert(tail.drop_first() =~= rs.skip(k + 1));
                        assert(tail[0] == rs[k as int]);
                        let x = j >> k;
                        assert(x & 1 == x % 2) by (bit_vector);
                        let f = if jk % 2 == 1 { rs[k as int] } else { 1int };
                        assert(monomial(jk, tail) == f * monomial(jk / 2, tail.drop_first()));
                        assert(big_p * (f * monomial(jk / 2, tail.drop_first())) == (big_p * f)
                            * monomial(jk / 2, tail.drop_first())) by (nonlinear_arith);
                    }
                    if (j >> k) & 1 == 1 {
                        let rk = r[k];
                        proof {
                            rk.lemma_range();
                            lemma_fmod_small(rk@);
                            lemma_fmod_mul(big_p, rk@);
                            big_p = big_p * rk@;
                        }
                        prod = prod.mul(&rk);
                    } else {
                        proof {
                            assert(big_p * 1 == big_p);
                        }
                    }
                    k = k + 1;
                }
                proof {
                    vstd::arithmetic::power2::lemma_pow2_pos(n as nat);
                    assert(rs.skip(n as int) =~= Seq::<int>::empty());
                    assert(big_p * 1 == big_p);
                    alpha.lemma_range();
                    lemma_fmod_small(alpha@);
                    lemma_fmod_mul(alpha@, big_p);
                    lemma_fmod_add(naive_sum(c, rs, j as nat), alpha@ * big_p);
                }
                acc = acc.add(&alpha.mul(&prod));
            }
            j = j + 1;
        }
        acc
    }

    /// Circuit-based evaluation at `r = (r₁, …, rₙ)`: the coefficient vector
    /// is folded one variable at a time, `buf[t] ← buf[2t] + r_k · buf[2t+1]`.
    pub fn eval_circuit(&self, r: &[Fr]) -> (v: Fr)
        requires
            r@.len() == self.nv(),
        ensures
            v@ == fmod(eval_ml(self@, vals(r@), false)),
    {
        proof {
            use_type_invariant(self);
            lemma_vals_reduced(self.coeffs@);
            lemma_vals_reduced(r@);
        }
        let n = self.num_vars;
        let ghost c = self@;
        let ghost rs = vals(r@);
        let mut buf = copy_elems(self.coeffs.as_slice());
        let mut k: usize = 0;
        proof {
            assert(rs.take(0) =~= Seq::<int>::empty());
        }
        while k < n
            invariant
                k <= n,
                n == self.nv(),
                c == self@,
                c.len() == pow2(n as nat),
                rs == vals(r@),
                rs.len() == n,
                forall|i: int| 0 <= i < n ==> 0 <= #[trigger] rs[i] < crate::field::field_modulus(),
                buf@.len() == pow2((n - k) as nat),
                forall|i: int| 0 <= i < buf@.len() ==> (#[trigger] buf@[i])@ == fmod(
                    folds(c, rs.take(k as int), false)[i],
                ),
            decreases n - k,
        {
            let r_k = r[k];
            let ghost prev = folds(c, rs.take(k as int), false);
            let ghost next = fold_vars(prev, rs[k as int], false);
            proof {
                lemma_folds_len(c, rs.take(k as int), n as nat, false);
                lemma_half_len(buf@.len(), (n - k - 1) as nat);
                lemma_fmod_small(rs[k as int]);
            }
            let blen = buf.len();
            let half = blen / 2;
            let ghost start = buf@;
            let mut t: usize = 0;
            while t < half
                invariant
                    t <= half,
                    half * 2 == start.len(),
                    start.len() == blen,
                    buf@.len() == start.len(),
                    prev.len() == start.len(),
                    next == fold_vars(prev, rs[k as int], false),
                    r_k@ == rs[k as int],
                    forall|i: int| 0 <= i < start.len() ==> (#[trigger] start[i])@ == fmod(prev[i]),
                    forall|i: int| 0 <= i < t ==> (#[trigger] buf@[i])@ == fmod(next[i]),
                    forall|i: int| t <= i < buf@.len() ==> #[trigger] buf@[i] == start[i],
                decreases half - t,
            {
                let u = buf[2 * t];
                let w = buf[2 * t + 1];
                let m = r_k.mul(&w);
                let s = u.add(&m);
                proof {
                    lemma_fmod_mul(rs[k as int], prev[2 * t + 1]);
                    lemma_fmod_add(prev[2 * t as int], rs[k as int] * prev[2 * t + 1]);
                    assert(next[t as int] == 1 * prev[2 * t as int] + rs[k as int] * prev[2 * t + 1]);
                }
                buf.set(t, s);
                t = t + 1;
            }
            buf.truncate(half);
            proof {
                assert(rs.take(k + 1) =~= rs.take(k as int).push(rs[k as int]));
                lemma_folds_push(c, rs.take(k as int), rs[k as int], false);
                lemma_half_len(start.len(), (n - k - 1) as nat);
            }
            k = k + 1;
        }
        proof {
            assert(rs.take(n as int) =~= rs);
            vstd::arithmetic::power2::lemma2_to64();
        }
        buf[0]
    }
}

impl MlPoly for CanonicalPoly {
    open spec fn vars(&self) -> nat {
        self.nv()
    }

    /// `H(f)` of the coefficient vector.
    open spec fn cube_sum(&self) -> int {
        sum_tree(self@, false)
    }

    fn num_vars(&self) -> (r: usize) {
        let len = self.coeffs.len();
        proof {
            use_type_invariant(self);
            lemma_pow2_fits(self.nv());
        }
        self.num_vars
    }

    /// `H(f) = Σ_j α_j · 2^(n - |j|)`: a coefficient contributes once for
    /// each Boolean point at which its monomial is one.
    fn hypercube_sum(&self) -> (r: Fr) {
        let len = self.coeffs.len();
        proof {
            use_type_invariant(self);
            lemma_pow2_fits(self.nv());
            lemma_weighted_sum_is_sum_tree(self@, self.nv());
        }
        let n = self.num_vars;
        let ghost c = self@;
        let mut acc = Fr::zero();
        let mut j: usize = 0;
        while j < self.coeffs.len()
            invariant
                j <= self.coeffs@.len(),
                c == self@,
                c.len() == self.coeffs@.len(),
                self.coeffs@.len() == pow2(n as nat),
                n < usize::BITS,
                acc@ == fmod(weighted_sum(c, n as nat, j as nat)),
            decreases self.coeffs@.len() - j,
        {
            let alpha = self.coeffs[j];
            let ghost wj = pow2((n - popcount(j as nat)) as nat);
            if alpha.is_zero() {
                proof {
                    assert(c[j as int] * wj == 0) by (nonlinear_arith)
                        requires c[j as int] == 0;
                }
            } else {
                let deg = count_ones(j) as usize;
                proof {
                    lemma_popcount_bound(j as nat, n as nat);
                    vstd::bits::lemma_u64_pow2_no_overflow((n - deg) as nat);
                    vstd::bits::lemma_u64_shl_is_mul(1, (n - deg) as u64);
                }
                let weight = Fr::from_u64(1u64 << ((n - deg) as u64));
                proof {
                    alpha.lemma_range();
                    lemma_fmod_small(alpha@);
                    lemma_fmod_mul(alpha@, wj as int);
                    lemma_fmod_small(wj as int);
                    lemma_fmod_add(weighted_sum(c, n as nat, j as nat), alpha@ * wj);
                }
                acc = acc.add(&alpha.mul(&weight));
            }
            j = j + 1;
        }
        acc
    }
}


/// The number of coefficients of each polynomial in a list.
pub open spec fn poly_lens(ps: Seq<CanonicalPoly>) -> Seq<int> {
    Seq::new(ps.len(), |i: int| ps[i]@.len() as int)
}

/// Each coefficient vector of a list made into a polynomial.
pub fn polys_from_vecs(raw: &Vec<Vec<Fr>>) -> (ps: Vec<CanonicalPoly>)
    requires
        forall|i: int| 0 <= i < raw@.len() ==> is_pow2_len((#[trigger] raw@[i])@.len()),
    ensures
        ps@.len() == raw@.len(),
        forall|i: int| 0 <= i < raw@.len() ==> (#[trigger] ps@[i])@ == vals(raw@[i]@),
{
    let mut ps: Vec<CanonicalPoly> = Vec::with_capacity(raw.len());
    let mut i: usize = 0;
    while i < raw.len()
        invariant
            i <= raw@.len(),
            ps@.len() == i,
            forall|k: int| 0 <= k < raw@.len() ==> is_pow2_len((#[trigger] raw@[k])@.len()),
            forall|k: int| 0 <= k < i ==> (#[trigger] ps@[k])@ == vals(raw@[k]@),
        decreases raw@.len() - i,
    {
        let v = copy_elems(raw[i].as_slice());
        ps.push(CanonicalPoly::new(v));
        i = i + 1;
    }
    ps
}

/// The sum of the coefficient counts of a list of polynomials.
pub fn total_coeffs(ps: &Vec<CanonicalPoly>) -> (t: usize)
    requires
        crate::algebra::seq_total(poly_lens(ps@)) <= usize::MAX,
    ensures
        t == crate::algebra::seq_total(poly_lens(ps@)),
{
    let ghost ls = poly_lens(ps@);
    let mut t: usize = 0;
    let mut i: usize = 0;
    while i < ps.len()
        invariant
            i <= ps@.len(),
            ls == poly_lens(ps@),
            crate::algebra::seq_total(ls) <= usize::MAX,
            t == crate::algebra::seq_total(ls.take(i as int)),
        decreases ps@.len() - i,
    {
        proof {
            assert(ls.take(i + 1).drop_last() =~= ls.take(i as int));
            crate::algebra::lemma_seq_total_prefix(ls, (i + 1) as nat);
        }
        let k = ps[i].coeffs().len();
        t = t + k;
        i = i + 1;
    }
    proof {
        assert(ls.take(i as int) =~= ls);
    }
    t
}


impl Clone for CanonicalPoly {
    /// A copy with the same coefficients.
    fn clone(&self) -> (r: Self)
        ensures
            r@ == self@,
            r.nv() == self.nv(),
    {
        proof {
            use_type_invariant(self);
        }
        CanonicalPoly { num_vars: self.num_vars, coeffs: copy_elems(self.coeffs.as_slice()) }
    }
}

} // verus!
