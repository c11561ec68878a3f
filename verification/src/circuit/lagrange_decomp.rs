//! The canonical-to-Lagrange decomposition `(p_j)`: each node `a + x_i·b`
//! has the children `a` (the first variable at `0`) and `a + b` (at `1`), so
//! the leaves are the values of `f` on the Boolean hypercube, in bit-reversed
//! order.

use vstd::prelude::*;
use vstd::arithmetic::power2::pow2;
use crate::algebra::{
    hypercube_table, lemma_lnode_leaf, lemma_lnode_len, lemma_node_position, lemma_tree_total, lnode,
    node_size, seq_total,
};
use crate::field::{fmod, lemma_fmod_add, vals, Fr};
use crate::poly::canonical::{
    copy_elems, is_pow2_len, poly_lens, polys_from_vecs, total_coeffs, zeros, CanonicalPoly,
};
use crate::poly::{LagrangePoly, MlPoly};
use crate::residues::reduce;
use super::bit_reverse_cache::{get_or_build, lemma_bit_reverse_table_involution};
use super::canonical::{is_bit_reverse_table, lemma_rev_bits_bound, lemma_rev_bits_involution, lemma_shl_one, rev_bits};

verus! {

/// The canonical-to-Lagrange tree of `c`, with the number of field additions
/// it took: node `1` is `c`, and node `j = a + x·b` has the children `a` and
/// `a + b`.
fn lagrange_tree(c: &[Fr], n: usize, Ghost(model): Ghost<Seq<int>>) -> (res: (Vec<Vec<Fr>>, usize))
    requires
        c@.len() == pow2(n as nat),
        n < usize::BITS,
        model == vals(c@),
        n * (c@.len() / 2) <= usize::MAX,
    ensures
        res.0@.len() == 2 * c@.len() - 1,
        forall|i: int| 0 <= i < res.0@.len() ==> vals((#[trigger] res.0@[i])@) == reduce(
            lnode(model, (i + 1) as nat),
        ),
        res.1 == n * (c@.len() / 2),
{
    let big_n = c.len();
    let ghost half_n: int = big_n as int / 2;
    let mut nodes: Vec<Vec<Fr>> = Vec::new();
    nodes.push(copy_elems(c));
    let mut count: usize = 0;
    let mut i: usize = 0;
    proof {
        vstd::arithmetic::power2::lemma2_to64();
        crate::poly::canonical::lemma_vals_reduced(c@);
        assert(vals(nodes@[0]@) =~= reduce(lnode(model, 1)));
    }
    while i < n
        invariant
            i <= n,
            n < usize::BITS,
            big_n == c@.len(),
            big_n == pow2(n as nat),
            model.len() == big_n,
            half_n == big_n as int / 2,
            n * half_n <= usize::MAX,
            nodes@.len() == 2 * pow2(i as nat) - 1,
            count == i * half_n,
            forall|k: int| 0 <= k < nodes@.len() ==> vals((#[trigger] nodes@[k])@) == reduce(
                lnode(model, (k + 1) as nat),
            ),
        decreases n - i,
    {
        proof {
            lemma_shl_one(i);
            lemma_shl_one((i + 1) as usize);
            vstd::arithmetic::power2::lemma_pow2_unfold((i + 1) as nat);
        }
        let start: usize = 1usize << i;
        let end: usize = 1usize << (i + 1);
        let ghost part: int = pow2((n - i - 1) as nat) as int;
        proof {
            vstd::arithmetic::power2::lemma_pow2_adds(i as nat, (n - i - 1) as nat);
            vstd::arithmetic::power2::lemma_pow2_unfold(n as nat);
            assert(start * part == half_n);
        }
        let mut j: usize = start;
        while j < end
            invariant
                i < n,
                n < usize::BITS,
                start == pow2(i as nat),
                end == 2 * start,
                start <= j <= end,
                big_n == pow2(n as nat),
                model.len() == big_n,
                part == pow2((n - i - 1) as nat),
                start * part == half_n,
                n * half_n <= usize::MAX,
                nodes@.len() == 2 * j - 1,
                count == i * half_n + (j - start) * part,
                forall|k: int| 0 <= k < nodes@.len() ==> vals((#[trigger] nodes@[k])@) == reduce(
                    lnode(model, (k + 1) as nat),
                ),
            decreases end - j,
        {
            let parent = copy_elems(nodes[j - 1].as_slice());
            let ghost pl = lnode(model, j as nat);
            proof {
                lemma_lnode_len(model, n as nat, i as nat, (j - start) as nat);
                vstd::arithmetic::power2::lemma_pow2_unfold((n - i) as nat);
            }
            let plen = parent.len();
            let half = plen / 2;
            proof {
                assert(vals(parent@).len() == plen && reduce(pl).len() == pl.len());
            }
            let mut left: Vec<Fr> = Vec::with_capacity(half);
            let mut right: Vec<Fr> = Vec::with_capacity(half);
            let mut s: usize = 0;
            while s < half
                invariant
                    s <= half,
                    half == plen / 2,
                    plen == parent@.len(),
                    pl.len() == plen,
                    vals(parent@) == reduce(pl),
                    left@.len() == s,
                    right@.len() == s,
                    forall|t: int| 0 <= t < s ==> (#[trigger] left@[t])@ == fmod(pl[2 * t]),
                    forall|t: int| 0 <= t < s ==> (#[trigger] right@[t])@ == fmod(pl[2 * t] + pl[2 * t + 1]),
                decreases half - s,
            {
                let a = parent[2 * s];
                let b = parent[2 * s + 1];
                proof {
                    assert(vals(parent@)[2 * s as int] == a@);
                    assert(vals(parent@)[2 * s + 1] == b@);
                    assert(reduce(pl)[2 * s as int] == fmod(pl[2 * s as int]));
                    assert(reduce(pl)[2 * s + 1] == fmod(pl[2 * s + 1]));
                    lemma_fmod_add(pl[2 * s as int], pl[2 * s + 1]);
                }
                left.push(a);
                right.push(a.add(&b));
                s = s + 1;
            }
            proof {
                assert((2 * j) as nat / 2 == j && (2 * j) % 2 == 0);
                assert((2 * j + 1) as nat / 2 == j && (2 * j + 1) % 2 == 1);
                let l0 = lnode(model, (2 * j) as nat);
                let l1 = lnode(model, (2 * j + 1) as nat);
                assert forall|t: int| 0 <= t < half implies l0[t] == pl[2 * t] && l1[t] == pl[2 * t]
                    + pl[2 * t + 1] by {
                    assert(l0[t] == 1 * pl[2 * t] + 0 * pl[2 * t + 1]);
                    assert(l1[t] == 1 * pl[2 * t] + 1 * pl[2 * t + 1]);
                }
                assert(vals(left@) =~= reduce(l0));
                assert(vals(right@) =~= reduce(l1));
                assert(half == part);
                assert((j - start) * part + part == (j + 1 - start) * part) by (nonlinear_arith);
                assert((j + 1 - start) * part <= start * part) by (nonlinear_arith)
                    requires j + 1 - start <= start, part >= 0;
                assert(i * half_n + half_n <= n * half_n) by (nonlinear_arith)
                    requires i + 1 <= n, half_n >= 0;
            }
            nodes.push(left);
            nodes.push(right);
            count = count + half;
            j = j + 1;
        }
        proof {
            assert(i * half_n + half_n == (i + 1) * half_n) by (nonlinear_arith);
        }
        i = i + 1;
    }
    proof {
        if n == 0 {
            assert(count == 0);
        }
    }
    (nodes, count)
}

/// The canonical-to-Lagrange decomposition `(p_j)_{1 ≤ j ≤ 2N-1}` of a
/// canonical polynomial: node `p_j = a + x_i·b` has the children
/// `p_{2j} = a` and `p_{2j+1} = a + b`, and leaf `k` holds `f(rev(k))`.
pub struct LagrangeDecomp {
    /// The number of variables `n`.
    pub n: usize,
    /// `N = 2^n`.
    pub big_n: usize,
    /// Node `j` (1-based) is `nodes[j - 1]`.
    pub nodes: Vec<CanonicalPoly>,
    /// The `n`-bit reversal table.
    pub bit_rev_table: Vec<usize>,
    /// The number of field additions the construction made.
    pub addition_count: usize,
}

impl LagrangeDecomp {
    /// The sizes and the reversal table are those of a tree over `n`
    /// variables whose root has `N` coefficients.
    pub open spec fn has_shape(self) -> bool {
        &&& self.n < usize::BITS
        &&& self.big_n == pow2(self.n as nat)
        &&& self.nodes@.len() == 2 * self.big_n - 1
        &&& self.nodes@[0]@.len() == self.big_n
        &&& is_bit_reverse_table(self.bit_rev_table@, self.n as nat)
    }

    /// Every node is the restriction of the root that its position names,
    /// reduced modulo `p`.
    pub open spec fn is_tree(self) -> bool {
        &&& self.has_shape()
        &&& forall|i: int| 0 <= i < self.nodes@.len() ==> (#[trigger] self.nodes@[i])@ == reduce(
            lnode(self.nodes@[0]@, (i + 1) as nat),
        )
    }

    /// Builds the decomposition of `f`, counting the field additions.
    pub fn build(f: &CanonicalPoly) -> (d: Self)
        requires
            f.nv() * (f@.len() / 2) <= usize::MAX,
        ensures
            d.is_tree(),
            d.n == f.nv(),
            d.nodes@[0]@ == f@,
            seq_total(poly_lens(d.nodes@)) == (d.n + 1) * d.big_n,
            d.addition_count == d.n * (d.big_n / 2),
    {
        let n = f.num_vars();
        let big_n = f.num_evals();
        let coeffs = f.coeffs();
        let (raw, addition_count) = lagrange_tree(coeffs, n, Ghost(f@));
        proof {
            assert forall|i: int| 0 <= i < raw@.len() implies is_pow2_len((#[trigger] raw@[i])@.len()) by {
                let (k, t) = lemma_node_position((i + 1) as nat, n as nat);
                lemma_lnode_len(f@, n as nat, k, t);
                assert(vals(raw@[i]@).len() == lnode(f@, (i + 1) as nat).len());
            }
        }
        let nodes = polys_from_vecs(&raw);
        let bit_rev_table = get_or_build(n);
        let d = LagrangeDecomp { n, big_n, nodes, bit_rev_table, addition_count };
        proof {
            crate::poly::canonical::lemma_vals_reduced(coeffs@);
            assert(d.nodes@[0]@ == reduce(lnode(f@, 1)));
            assert(d.nodes@[0]@ =~= f@);
            d.lemma_total();
        }
        d
    }

    /// Node `p_j`, by its 1-based index.
    pub fn p(&self, j: usize) -> (r: &CanonicalPoly)
        requires
            1 <= j < 2 * self.big_n,
            j <= self.nodes@.len(),
        ensures
            *r == self.nodes@[j - 1],
    {
        &self.nodes[j - 1]
    }

    /// The root `p_1 = f`.
    pub fn root(&self) -> (r: &CanonicalPoly)
        requires
            self.nodes@.len() >= 1,
        ensures
            *r == self.nodes@[0],
    {
        &self.nodes[0]
    }

    /// The leaves `p_N, …, p_{2N-1}`: leaf `k` holds `f(rev(k))`.
    pub fn leaves(&self) -> (r: &[CanonicalPoly])
        requires
            1 <= self.big_n,
            2 * self.big_n - 1 <= self.nodes@.len(),
        ensures
            r@ == self.nodes@.subrange(self.big_n - 1, 2 * self.big_n - 1),
    {
        let len = self.nodes.len();
        vstd::slice::slice_subrange(self.nodes.as_slice(), self.big_n - 1, self.big_n - 1 + self.big_n)
    }

    /// Layer `i` (1-based): the `2^(i-1)` nodes `p_{2^(i-1)}, …, p_{2^i - 1}`;
    /// layer `n + 1` is the leaves.
    pub fn layer(&self, i: usize) -> (r: &[CanonicalPoly])
        requires
            1 <= i <= self.n + 1,
            self.n < usize::BITS - 1,
            pow2(i as nat) - 1 <= self.nodes@.len(),
        ensures
            r@ == self.nodes@.subrange(pow2((i - 1) as nat) - 1, pow2(i as nat) - 1),
    {
        proof {
            lemma_shl_one((i - 1) as usize);
            lemma_shl_one(i);
            vstd::arithmetic::power2::lemma_pow2_pos((i - 1) as nat);
            vstd::arithmetic::power2::lemma_pow2_unfold(i as nat);
        }
        let start = (1usize << (i - 1)) - 1;
        let end = (1usize << i) - 1;
        vstd::slice::slice_subrange(self.nodes.as_slice(), start, end)
    }

    /// The leaves put in hypercube order: entry `rev(k)` is leaf `k`. For a
    /// tree that `build` made, this is the table of `f` on `{0,1}^n`.
    pub fn to_lagrange(&self) -> (g: LagrangePoly)
        requires
            self.has_shape(),
        ensures
            g@.len() == self.big_n,
            g.nv() == self.n,
            forall|k: int| 0 <= k < self.big_n ==> g@[rev_bits(k as nat, self.n as nat) as int]
                == (#[trigger] self.nodes@[self.big_n - 1 + k])@[0],
            self.is_tree() ==> g@ == reduce(hypercube_table(self.nodes@[0]@, self.n as nat)),
    {
        let big_n = self.big_n;
        let len = self.nodes.len();
        let ghost n = self.n as nat;
        let mut evals = zeros(big_n);
        proof {
            vstd::arithmetic::power2::lemma_pow2_pos(n);
            lemma_bit_reverse_table_involution(self.bit_rev_table@, n);
        }
        let mut k: usize = 0;
        while k < big_n
            invariant
                k <= big_n,
                big_n == self.big_n,
                big_n >= 1,
                len == self.nodes@.len(),
                self.has_shape(),
                n == self.n,
                evals@.len() == big_n,
                forall|i: int| 0 <= i < big_n ==> 0 <= #[trigger] self.bit_rev_table@[i] < big_n
                    && self.bit_rev_table@[self.bit_rev_table@[i] as int] == i,
                forall|i: int| 0 <= i < k ==> (#[trigger] evals@[self.bit_rev_table@[i] as int])@
                    == self.nodes@[big_n - 1 + i]@[0],
            decreases big_n - k,
        {
            let rev_k = self.bit_rev_table[k];
            let leaf = &self.nodes[big_n - 1 + k];
            let lc = leaf.coeffs();
            proof {
                vstd::arithmetic::power2::lemma_pow2_pos(leaf.nv());
            }
            let v = lc[0];
            let ghost before = evals@;
            evals.set(rev_k, v);
            proof {
                assert forall|i: int| 0 <= i < k + 1 implies (#[trigger] evals@[self.bit_rev_table@[i] as int])@
                    == self.nodes@[big_n - 1 + i]@[0] by {
                    if i < k {
                        assert(self.bit_rev_table@[i] != rev_k);
                    }
                }
            }
            k = k + 1;
        }
        proof {
            assert(is_pow2_len(evals@.len()));
        }
        let g = LagrangePoly::new(evals);
        proof {
            assert forall|k: int| 0 <= k < self.big_n implies g@[rev_bits(k as nat, self.n as nat) as int]
                == (#[trigger] self.nodes@[self.big_n - 1 + k])@[0] by {
                assert(self.bit_rev_table@[k] as nat == rev_bits(k as nat, n));
            }
            vstd::arithmetic::power2::lemma_pow2_pos(g.nv());
            if g.nv() != n {
                if g.nv() < n {
                    vstd::arithmetic::power2::lemma_pow2_strictly_increases(g.nv(), n);
                } else {
                    vstd::arithmetic::power2::lemma_pow2_strictly_increases(n, g.nv());
                }
            }
            if self.is_tree() {
                let c = self.nodes@[0]@;
                let tab = reduce(hypercube_table(c, n));
                assert forall|b: int| 0 <= b < big_n implies #[trigger] g@[b] == tab[b] by {
                    let kk = rev_bits(b as nat, n);
                    lemma_rev_bits_bound(b as nat, n);
                    lemma_rev_bits_involution(b as nat, n);
                    lemma_lnode_leaf(c, n, kk);
                    assert(self.nodes@[big_n - 1 + kk]@ == reduce(lnode(c, (big_n + kk) as nat)));
                    assert(g@[rev_bits(kk, n) as int] == self.nodes@[big_n - 1 + kk]@[0]);
                }
                assert(g@ =~= tab);
            }
        }
        g
    }

    /// The number of coefficients stored over all nodes; `(n+1)·N` for a
    /// tree that `build` made.
    pub fn total_field_elements(&self) -> (t: usize)
        requires
            seq_total(poly_lens(self.nodes@)) <= usize::MAX,
        ensures
            t == seq_total(poly_lens(self.nodes@)),
            self.is_tree() ==> t == (self.n + 1) * self.big_n,
    {
        proof {
            if self.is_tree() {
                self.lemma_total();
            }
        }
        total_coeffs(&self.nodes)
    }

    /// A tree over `n` variables stores `(n+1)·N` field elements.
    pub proof fn lemma_total(self)
        requires
            self.is_tree(),
        ensures
            seq_total(poly_lens(self.nodes@)) == (self.n + 1) * self.big_n,
    {
        let ls = poly_lens(self.nodes@);
        let c = self.nodes@[0]@;
        let n = self.n as nat;
        assert forall|i: nat, t: nat| i <= n && t < pow2(i) implies #[trigger] node_size(ls, i, t) == pow2(
            (n - i) as nat,
        ) by {
            vstd::arithmetic::power2::lemma_pow2_unfold(n + 1);
            if i < n {
                vstd::arithmetic::power2::lemma_pow2_strictly_increases(i, n);
            }
            lemma_lnode_len(c, n, i, t);
            let j = pow2(i) + t;
            assert(self.nodes@[j - 1]@ == reduce(lnode(c, j as nat)));
            assert(ls[j - 1] == self.nodes@[j - 1]@.len());
        }
        lemma_tree_total(ls, n);
    }

    /// `true` exactly when the recorded addition count is `n · 2^(n-1)`.
    pub fn addition_count_is_correct(&self) -> (b: bool)
        requires
            self.n * (self.big_n / 2) <= usize::MAX,
        ensures
            b == (self.addition_count == self.n * (self.big_n / 2)),
    {
        self.addition_count == self.n * (self.big_n / 2)
    }
}

} // verus!
