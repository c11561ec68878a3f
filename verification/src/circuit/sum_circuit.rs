//! Boolean sum circuits — the `(h_j)` scalar trees.
//!
//! For a multilinear polynomial `f` the circuit stores `(h_j)_{1 ≤ j ≤ 2N-1}`,
//! where `h_j` is the Boolean hypercube sum of node `j` of the even/odd
//! decomposition tree of `f` (heap order, 1-based):
//!
//! | Basis     | Recurrence                  | Leaf values              |
//! |-----------|-----------------------------|--------------------------|
//! | Canonical | `h_j = 2·h_{2j} + h_{2j+1}` | bit-reversed coefficients |
//! | Lagrange  | `h_j = h_{2j} + h_{2j+1}`   | bit-reversed evaluations  |
//!
//! In both cases `h_1 = H(f)`.

use vstd::prelude::*;
use vstd::arithmetic::power2::pow2;
use crate::algebra::{bitrev_leaves, hval, lemma_hval_is_tree_sum, sum_tree, sum_weight, tnode};
use crate::field::{fmod, lemma_fmod_add, lemma_fmod_small, vals, Fr};
use crate::poly::canonical::{copy_elems, is_pow2_len, lemma_pow2_fits, lemma_vals_reduced, log2_exact, zeros};
use crate::poly::{CanonicalPoly, LagrangePoly, MlPoly};
use super::bit_reverse_cache::get_or_build;
use super::canonical::{is_bit_reverse_table, lemma_rev_bits_bound, lemma_shl_one};

verus! {

/// Common interface of the two Boolean sum circuits.
pub trait SumCircuit {
    /// The node values `h_1, …, h_{2N-1}`, `nodes()[j - 1] = h_j`.
    spec fn nodes(&self) -> Seq<int>;

    /// The number of variables `n`.
    spec fn vars(&self) -> nat;

    /// The weight of `h_{2j}` in the recurrence: 2 (canonical) or 1 (Lagrange).
    spec fn even_weight(&self) -> int;

    /// Number of variables `n`.
    fn num_vars(&self) -> (r: usize)
        ensures
            r == self.vars(),
            r < usize::BITS,
            self.nodes().len() == 2 * pow2(r as nat) - 1,
    ;

    /// `N = 2^n`.
    fn n(&self) -> (r: usize)
        ensures
            r == pow2(self.vars()),
    {
        let k = self.num_vars();
        proof {
            lemma_shl_one(k);
        }
        1usize << k
    }

    /// `h_j`, for `1 ≤ j ≤ 2N - 1`.
    fn h(&self, j: usize) -> (r: Fr)
        requires
            1 <= j < 2 * pow2(self.vars()),
        ensures
            r@ == self.nodes()[j - 1],
    ;

    /// The root value `h_1 = H(f)`.
    fn root(&self) -> (r: Fr)
        ensures
            r@ == self.nodes()[0],
    {
        let k = self.num_vars();
        proof {
            vstd::arithmetic::power2::lemma_pow2_pos(k as nat);
        }
        self.h(1)
    }

    /// The leaf layer `h_N, …, h_{2N-1}`.
    fn leaves(&self) -> (r: &[Fr])
        ensures
            vals(r@) == self.nodes().subrange(pow2(self.vars()) - 1, 2 * pow2(self.vars()) - 1),
    ;

    /// Layer `i`: `h_{2^i}, …, h_{2^{i+1}-1}`.
    fn layer(&self, i: usize) -> (r: &[Fr])
        requires
            i <= self.vars(),
        ensures
            vals(r@) == self.nodes().subrange(pow2(i as nat) - 1, pow2((i + 1) as nat) - 1),
    ;

    /// `true` exactly when every inner node satisfies the recurrence.
    fn verify_recurrence(&self) -> (b: bool)
        ensures
            b == (forall|j: int| 1 <= j < pow2(self.vars()) ==> #[trigger] self.nodes()[j - 1] == fmod(
                self.even_weight() * self.nodes()[2 * j - 1] + self.nodes()[2 * j],
            )),
    ;
}

/// Builds the flat `(h_j)` array bottom-up from a leaf slice already in the
/// tree's leaf order.
pub fn build_from_leaves(leaves: &[Fr], lag: bool) -> (data: Vec<Fr>)
    requires
        is_pow2_len(leaves@.len()),
    ensures
        data@.len() == 2 * leaves@.len() - 1,
        forall|q: int| 0 <= q < data@.len() ==> (#[trigger] data@[q])@ == fmod(
            hval(vals(leaves@), q + 1, lag),
        ),
        forall|j: int| 1 <= j < leaves@.len() ==> (#[trigger] data@[j - 1])@ == fmod(
            sum_weight(lag) * data@[2 * j - 1]@ + data@[2 * j]@,
        ),
{
    let big_n = leaves.len();
    let n = log2_exact(big_n);
    let ghost l = vals(leaves@);
    proof {
        lemma_vals_reduced(leaves@);
        vstd::bits::lemma_usize_pow2_no_overflow(n as nat);
        if n > 0 {
            vstd::arithmetic::power2::lemma_pow2_unfold(n as nat);
        }
        vstd::arithmetic::power2::lemma_pow2_pos(n as nat);
        crate::poly::canonical::lemma_pow2_double_fits(n as nat);
    }
    let total = big_n - 1 + big_n;
    let mut data = zeros(total);
    let mut k: usize = 0;
    while k < big_n
        invariant
            k <= big_n,
            big_n == leaves@.len(),
            total == 2 * big_n - 1,
            data@.len() == total,
            l == vals(leaves@),
            forall|i: int| 0 <= i < big_n ==> 0 <= #[trigger] l[i] < crate::field::field_modulus()
                && fmod(l[i]) == l[i],
            forall|q: int| big_n - 1 <= q < big_n - 1 + k ==> (#[trigger] data@[q])@ == fmod(
                hval(l, q + 1, lag),
            ),
        decreases big_n - k,
    {
        data.set(big_n - 1 + k, leaves[k]);
        proof {
            assert(hval(l, (big_n + k) as int, lag) == l[k as int]);
        }
        k = k + 1;
    }
    let mut i: usize = n;
    while i > 0
        invariant
            i <= n,
            n < usize::BITS,
            pow2(n as nat) == big_n,
            big_n == leaves@.len(),
            l == vals(leaves@),
            total == 2 * big_n - 1,
            data@.len() == total,
            forall|q: int| pow2(i as nat) - 1 <= q < total ==> (#[trigger] data@[q])@ == fmod(
                hval(l, q + 1, lag),
            ),
        decreases i,
    {
        i = i - 1;
        proof {
            lemma_shl_one(i);
            vstd::arithmetic::power2::lemma_pow2_unfold((i + 1) as nat);
            if i + 1 < n {
                vstd::arithmetic::power2::lemma_pow2_strictly_increases((i + 1) as nat, n as nat);
            }
        }
        let size = 1usize << i;
        proof {
            vstd::arithmetic::power2::lemma_pow2_pos(i as nat);
        }
        let start = size - 1;
        let mut t: usize = 0;
        while t < size
            invariant
                t <= size,
                size == pow2(i as nat),
                start == size - 1,
                2 * size <= big_n,
                big_n == leaves@.len(),
                l == vals(leaves@),
                total == 2 * big_n - 1,
                data@.len() == total,
                forall|q: int| 2 * size - 1 <= q < total ==> (#[trigger] data@[q])@ == fmod(
                    hval(l, q + 1, lag),
                ),
                forall|q: int| start <= q < start + t ==> (#[trigger] data@[q])@ == fmod(
                    hval(l, q + 1, lag),
                ),
            decreases size - t,
        {
            let parent = start + t;
            let left = 2 * parent + 1;
            let right = 2 * parent + 2;
            let hl = data[left];
            let hr = data[right];
            let v = if lag {
                hl.add(&hr)
            } else {
                hl.add(&hl).add(&hr)
            };
            proof {
                let j = parent + 1;
                let a = hval(l, 2 * j, lag);
                let b = hval(l, 2 * j + 1, lag);
                assert(hval(l, j as int, lag) == sum_weight(lag) * a + b);
                assert(hl@ == fmod(a));
                assert(hr@ == fmod(b));
                if lag {
                    lemma_fmod_add(a, b);
                } else {
                    lemma_fmod_add(a, a);
                    lemma_fmod_add(a + a, b);
                    crate::field::lemma_fmod_range(a + a);
                    vstd::arithmetic::div_mod::lemma_mod_twice(a + a, crate::field::field_modulus());
                    lemma_fmod_add(fmod(a + a), b);
                }
            }
            data.set(parent, v);
            t = t + 1;
        }
    }
    proof {
        vstd::arithmetic::power2::lemma2_to64();
        assert forall|j: int| 1 <= j < big_n implies (#[trigger] data@[j - 1])@ == fmod(
            sum_weight(lag) * data@[2 * j - 1]@ + data@[2 * j]@,
        ) by {
            let a = hval(l, 2 * j, lag);
            let b = hval(l, 2 * j + 1, lag);
            let w = sum_weight(lag);
            assert(hval(l, j, lag) == w * a + b);
            assert(data@[2 * j - 1]@ == fmod(a));
            assert(data@[2 * j]@ == fmod(b));
            crate::field::lemma_fmod_mul(w, a);
            lemma_fmod_add(w * a, b);
            lemma_fmod_add(w * fmod(a), b);
            lemma_fmod_add(w * fmod(a), fmod(b));
            crate::field::lemma_fmod_range(w * a);
            vstd::arithmetic::div_mod::lemma_mod_twice(w * fmod(a), crate::field::field_modulus());
        }
    }
    data
}

/// Boolean sum circuit for a polynomial in the canonical basis:
/// `h_j = h_{2j} + h_{2j} + h_{2j+1}`, leaves are the coefficients in
/// bit-reversed order, `h_1 = H(f)`.
#[derive(Debug)]
pub struct CanonicalSumCircuit {
    num_vars: usize,
    big_n: usize,
    data: Vec<Fr>,
}

/// Boolean sum circuit for a polynomial in the Lagrange basis:
/// `h_j = h_{2j} + h_{2j+1}`, leaves are the hypercube values in bit-reversed
/// order, `h_1 = H(f)`.
#[derive(Debug)]
pub struct LagrangeSumCircuit {
    num_vars: usize,
    big_n: usize,
    data: Vec<Fr>,
}

/// The leaves of a polynomial's circuit: its entries permuted by the
/// bit-reversal table.
fn permute_bit_reversed(v: &[Fr], n: usize) -> (leaves: Vec<Fr>)
    requires
        v@.len() == pow2(n as nat),
        n < usize::BITS,
    ensures
        vals(leaves@) == bitrev_leaves(vals(v@), n as nat),
        leaves@.len() == v@.len(),
{
    let table = get_or_build(n);
    let mut leaves: Vec<Fr> = Vec::with_capacity(v.len());
    let mut k: usize = 0;
    while k < v.len()
        invariant
            k <= v@.len(),
            v@.len() == pow2(n as nat),
            is_bit_reverse_table(table@, n as nat),
            leaves@.len() == k,
            forall|i: int| 0 <= i < k ==> (#[trigger] leaves@[i])@ == v@[
                crate::circuit::canonical::rev_bits(i as nat, n as nat) as int]@,
        decreases v@.len() - k,
    {
        proof {
            lemma_rev_bits_bound(k as nat, n as nat);
        }
        leaves.push(v[table[k]]);
        k = k + 1;
    }
    proof {
        assert forall|k: int| 0 <= k < leaves@.len() implies #[trigger] vals(leaves@)[k] == bitrev_leaves(
            vals(v@),
            n as nat,
        )[k] by {
            lemma_rev_bits_bound(k as nat, n as nat);
        }
        assert(vals(leaves@) =~= bitrev_leaves(vals(v@), n as nat));
    }
    leaves
}

proof fn lemma_tree_sums(c: Seq<int>, l: Seq<int>, n: nat, lag: bool)
    requires
        c.len() == pow2(n),
        l == bitrev_leaves(c, n),
    ensures
        forall|j: int| 1 <= j < 2 * pow2(n) ==> #[trigger] hval(l, j, lag) == sum_tree(tnode(c, j as nat), lag),
{
    assert forall|j: int| 1 <= j < 2 * pow2(n) implies #[trigger] hval(l, j, lag) == sum_tree(tnode(c, j as nat), lag) by {
        lemma_hval_is_tree_sum(c, n, j as nat, lag);
    }
}

impl CanonicalSumCircuit {
    #[verifier::type_invariant]
    spec fn wf(self) -> bool {
        &&& self.big_n == pow2(self.num_vars as nat)
        &&& self.data@.len() == 2 * self.big_n - 1
        &&& forall|j: int| 1 <= j < self.big_n ==> (#[trigger] self.data@[j - 1])@ == fmod(
            2 * self.data@[2 * j - 1]@ + self.data@[2 * j]@,
        )
    }

    /// The circuit of a canonical polynomial: node `j` holds the canonical
    /// hypercube sum of node `j` of its decomposition tree.
    pub fn build(f: &CanonicalPoly) -> (sc: Self)
        ensures
            sc.vars() == f.nv(),
            forall|j: int| 1 <= j < 2 * pow2(f.nv()) ==> #[trigger] sc.nodes()[j - 1] == fmod(
                sum_tree(tnode(f@, j as nat), false),
            ),
    {
        let n = f.num_vars();
        let coeffs = f.coeffs();
        let leaves = permute_bit_reversed(coeffs, n);
        proof {
            lemma_tree_sums(f@, vals(leaves@), n as nat, false);
            assert(pow2(n as nat) == leaves@.len());
        }
        let data = build_from_leaves(leaves.as_slice(), false);
        let big_n = coeffs.len();
        CanonicalSumCircuit { num_vars: n, big_n, data }
    }

    /// The circuit over leaves already in bit-reversed order.
    pub fn from_leaves(leaves: &[Fr]) -> (sc: Self)
        requires
            is_pow2_len(leaves@.len()),
        ensures
            pow2(sc.vars()) == leaves@.len(),
            forall|j: int| 1 <= j < 2 * leaves@.len() ==> #[trigger] sc.nodes()[j - 1] == fmod(
                hval(vals(leaves@), j, false),
            ),
    {
        let big_n = leaves.len();
        let num_vars = log2_exact(big_n);
        let data = build_from_leaves(leaves, false);
        CanonicalSumCircuit { num_vars, big_n, data }
    }

    /// The flat storage `h_1, …, h_{2N-1}`.
    pub fn data(&self) -> (r: &[Fr])
        ensures
            vals(r@) == self.nodes(),
    {
        self.data.as_slice()
    }
}

impl SumCircuit for CanonicalSumCircuit {
    closed spec fn nodes(&self) -> Seq<int> {
        vals(self.data@)
    }

    closed spec fn vars(&self) -> nat {
        self.num_vars as nat
    }

    open spec fn even_weight(&self) -> int {
        2
    }

    fn num_vars(&self) -> (r: usize) {
        let len = self.data.len();
        proof {
            use_type_invariant(self);
            assert(self.nodes().len() == self.data@.len());
            vstd::arithmetic::power2::lemma_pow2_pos(self.num_vars as nat);
            lemma_pow2_fits(self.num_vars as nat);
        }
        self.num_vars
    }

    fn h(&self, j: usize) -> (r: Fr) {
        proof {
            use_type_invariant(self);
        }
        self.data[j - 1]
    }

    fn leaves(&self) -> (r: &[Fr]) {
        let len = self.data.len();
        proof {
            use_type_invariant(self);
            vstd::arithmetic::power2::lemma_pow2_pos(self.num_vars as nat);
        }
        let s = self.data.as_slice();
        let r = &s[self.big_n - 1..self.big_n - 1 + self.big_n];
        proof {
            assert(vals(r@) =~= self.nodes().subrange(pow2(self.vars()) - 1, 2 * pow2(self.vars()) - 1));
        }
        r
    }

    fn layer(&self, i: usize) -> (r: &[Fr]) {
        let len = self.data.len();
        proof {
            use_type_invariant(self);
            lemma_pow2_fits(self.num_vars as nat);
            lemma_shl_one(i);
            vstd::arithmetic::power2::lemma_pow2_unfold((i + 1) as nat);
            if i < self.num_vars {
                vstd::arithmetic::power2::lemma_pow2_strictly_increases(i as nat, self.num_vars as nat);
            }
            vstd::arithmetic::power2::lemma_pow2_pos(i as nat);
        }
        let size = 1usize << i;
        let s = self.data.as_slice();
        let r = &s[size - 1..size - 1 + size];
        proof {
            assert(vals(r@) =~= self.nodes().subrange(pow2(i as nat) - 1, pow2((i + 1) as nat) - 1));
        }
        r
    }

    /// Always `true`: every circuit keeps its recurrence.
    fn verify_recurrence(&self) -> (b: bool)
        ensures
            b,
    {
        let len = self.data.len();
        proof {
            use_type_invariant(self);
            vstd::arithmetic::power2::lemma_pow2_pos(self.num_vars as nat);
        }
        let mut j: usize = 1;
        while j < self.big_n
            invariant
                1 <= j <= self.big_n,
                self.big_n == pow2(self.num_vars as nat),
                self.data@.len() == 2 * self.big_n - 1,
                len == self.data@.len(),
                forall|q: int| 1 <= q < j ==> #[trigger] self.nodes()[q - 1] == fmod(
                    2 * self.nodes()[2 * q - 1] + self.nodes()[2 * q],
                ),
                forall|q: int| 1 <= q < self.big_n ==> (#[trigger] self.data@[q - 1])@ == fmod(
                    2 * self.data@[2 * q - 1]@ + self.data@[2 * q]@,
                ),
            decreases self.big_n - j,
        {
            let l = self.data[2 * j - 1];
            let s = l.add(&l).add(&self.data[2 * j]);
            proof {
                let a = self.nodes()[2 * j - 1];
                let b = self.nodes()[2 * j as int];
                l.lemma_range();
                lemma_fmod_small(a);
                lemma_fmod_add(a + a, b);
                crate::field::lemma_fmod_range(a + a);
                vstd::arithmetic::div_mod::lemma_mod_twice(a + a, crate::field::field_modulus());
                lemma_fmod_add(fmod(a + a), b);
                self.data@[2 * j as int].lemma_range();
                lemma_fmod_small(b);
            }
            if !self.data[j - 1].equals(&s) {
                proof {
                    assert(!(self.nodes()[j - 1] == fmod(self.even_weight() * self.nodes()[2 * j - 1]
                        + self.nodes()[2 * j as int])));
                }
                return false;
            }
            j = j + 1;
        }
        true
    }
}

impl LagrangeSumCircuit {
    #[verifier::type_invariant]
    spec fn wf(self) -> bool {
        &&& self.big_n == pow2(self.num_vars as nat)
        &&& self.data@.len() == 2 * self.big_n - 1
        &&& forall|j: int| 1 <= j < self.big_n ==> (#[trigger] self.data@[j - 1])@ == fmod(
            1 * self.data@[2 * j - 1]@ + self.data@[2 * j]@,
        )
    }

    /// The circuit of a Lagrange polynomial: node `j` holds the sum of the
    /// hypercube values of node `j` of its decomposition tree.
    pub fn build(f: &LagrangePoly) -> (sc: Self)
        ensures
            sc.vars() == f.nv(),
            forall|j: int| 1 <= j < 2 * pow2(f.nv()) ==> #[trigger] sc.nodes()[j - 1] == fmod(
                sum_tree(tnode(f@, j as nat), true),
            ),
    {
        let n = f.num_vars();
        let evals = f.evals();
        let leaves = permute_bit_reversed(evals, n);
        proof {
            lemma_tree_sums(f@, vals(leaves@), n as nat, true);
            assert(pow2(n as nat) == leaves@.len());
        }
        let data = build_from_leaves(leaves.as_slice(), true);
        let big_n = evals.len();
        LagrangeSumCircuit { num_vars: n, big_n, data }
    }

    /// The circuit over leaves already in bit-reversed order.
    pub fn from_leaves(leaves: &[Fr]) -> (sc: Self)
        requires
            is_pow2_len(leaves@.len()),
        ensures
            pow2(sc.vars()) == leaves@.len(),
            forall|j: int| 1 <= j < 2 * leaves@.len() ==> #[trigger] sc.nodes()[j - 1] == fmod(
                hval(vals(leaves@), j, true),
            ),
    {
        let big_n = leaves.len();
        let num_vars = log2_exact(big_n);
        let data = build_from_leaves(leaves, true);
        LagrangeSumCircuit { num_vars, big_n, data }
    }

    /// The flat storage `h_1, …, h_{2N-1}`.
    pub fn data(&self) -> (r: &[Fr])
        ensures
            vals(r@) == self.nodes(),
    {
        self.data.as_slice()
    }
}

impl SumCircuit for LagrangeSumCircuit {
    closed spec fn nodes(&self) -> Seq<int> {
        vals(self.data@)
    }

    closed spec fn vars(&self) -> nat {
        self.num_vars as nat
    }

    open spec fn even_weight(&self) -> int {
        1
    }

    fn num_vars(&self) -> (r: usize) {
        let len = self.data.len();
        proof {
            use_type_invariant(self);
            assert(self.nodes().len() == self.data@.len());
            vstd::arithmetic::power2::lemma_pow2_pos(self.num_vars as nat);
            lemma_pow2_fits(self.num_vars as nat);
        }
        self.num_vars
    }

    fn h(&self, j: usize) -> (r: Fr) {
        proof {
            use_type_invariant(self);
        }
        self.data[j - 1]
    }

    fn leaves(&self) -> (r: &[Fr]) {
        let len = self.data.len();
        proof {
            use_type_invariant(self);
            vstd::arithmetic::power2::lemma_pow2_pos(self.num_vars as nat);
        }
        let s = self.data.as_slice();
        let r = &s[self.big_n - 1..self.big_n - 1 + self.big_n];
        proof {
            assert(vals(r@) =~= self.nodes().subrange(pow2(self.vars()) - 1, 2 * pow2(self.vars()) - 1));
        }
        r
    }

    fn layer(&self, i: usize) -> (r: &[Fr]) {
        let len = self.data.len();
        proof {
            use_type_invariant(self);
            lemma_pow2_fits(self.num_vars as nat);
            lemma_shl_one(i);
            vstd::arithmetic::power2::lemma_pow2_unfold((i + 1) as nat);
            if i < self.num_vars {
                vstd::arithmetic::power2::lemma_pow2_strictly_increases(i as nat, self.num_vars as nat);
            }
            vstd::arithmetic::power2::lemma_pow2_pos(i as nat);
        }
        let size = 1usize << i;
        let s = self.data.as_slice();
        let r = &s[size - 1..size - 1 + size];
        proof {
            assert(vals(r@) =~= self.nodes().subrange(pow2(i as nat) - 1, pow2((i + 1) as nat) - 1));
        }
        r
    }

    /// Always `true`: every circuit keeps its recurrence.
    fn verify_recurrence(&self) -> (b: bool)
        ensures
            b,
    {
        let len = self.data.len();
        proof {
            use_type_invariant(self);
            vstd::arithmetic::power2::lemma_pow2_pos(self.num_vars as nat);
        }
        let mut j: usize = 1;
        while j < self.big_n
            invariant
                1 <= j <= self.big_n,
                self.big_n == pow2(self.num_vars as nat),
                self.data@.len() == 2 * self.big_n - 1,
                len == self.data@.len(),
                forall|q: int| 1 <= q < j ==> #[trigger] self.nodes()[q - 1] == fmod(
                    1 * self.nodes()[2 * q - 1] + self.nodes()[2 * q],
                ),
                forall|q: int| 1 <= q < self.big_n ==> (#[trigger] self.data@[q - 1])@ == fmod(
                    1 * self.data@[2 * q - 1]@ + self.data@[2 * q]@,
                ),
            decreases self.big_n - j,
        {
            let s = self.data[2 * j - 1].add(&self.data[2 * j]);
            proof {
                assert(1 * self.nodes()[2 * j - 1] == self.nodes()[2 * j - 1]);
            }
            if !self.data[j - 1].equals(&s) {
                proof {
                    assert(!(self.nodes()[j - 1] == fmod(self.even_weight() * self.nodes()[2 * j - 1]
                        + self.nodes()[2 * j as int])));
                }
                return false;
            }
            j = j + 1;
        }
        true
    }
}


impl Clone for CanonicalSumCircuit {
    /// A copy with the same node values.
    fn clone(&self) -> (r: Self)
        ensures
            r.nodes() == self.nodes(),
            r.vars() == self.vars(),
    {
        proof {
            use_type_invariant(self);
        }
        CanonicalSumCircuit { num_vars: self.num_vars, big_n: self.big_n, data: copy_elems(self.data.as_slice()) }
    }
}

impl Clone for LagrangeSumCircuit {
    /// A copy with the same node values.
    fn clone(&self) -> (r: Self)
        ensures
            r.nodes() == self.nodes(),
            r.vars() == self.vars(),
    {
        proof {
            use_type_invariant(self);
        }
        LagrangeSumCircuit { num_vars: self.num_vars, big_n: self.big_n, data: copy_elems(self.data.as_slice()) }
    }
}

} // verus!
