//! Bit reversal and the canonical (even/odd) decomposition tree.

use vstd::prelude::*;
use vstd::arithmetic::power2::pow2;
use crate::algebra::{
    lemma_node_position, lemma_tnode_entries, lemma_tnode_len, lemma_tree_total, node_size,
    seq_total, tnode,
};
use crate::field::{vals, Fr};
use crate::poly::canonical::{poly_lens, polys_from_vecs, total_coeffs, CanonicalPoly};
use crate::poly::uni::split_tree;
use crate::poly::MlPoly;
use super::bit_reverse_cache::get_or_build;

verus! {

/// The `n`-bit reversal of `k`: bit `i` of `k` becomes bit `n - 1 - i`.
/// Bits of `k` at positions `n` and above are dropped.
pub open spec fn rev_bits(k: nat, n: nat) -> nat
    decreases n,
{
    if n == 0 {
        0
    } else {
        (k % 2) * pow2((n - 1) as nat) + rev_bits(k / 2, (n - 1) as nat)
    }
}

/// The reversal of `n` bits is below `2^n`.
pub proof fn lemma_rev_bits_bound(k: nat, n: nat)
    ensures
        rev_bits(k, n) < pow2(n),
    decreases n,
{
    if n == 0 {
        vstd::arithmetic::power2::lemma2_to64();
    } else {
        lemma_rev_bits_bound(k / 2, (n - 1) as nat);
        vstd::arithmetic::power2::lemma_pow2_unfold(n);
        assert((k % 2) * pow2((n - 1) as nat) <= pow2((n - 1) as nat)) by (nonlinear_arith)
            requires k % 2 <= 1;
    }
}

/// Reversing `n + 1` bits, seen from the top bit: the top bit of `k` becomes
/// the lowest bit of the result, and the remaining `n` bits are reversed.
pub proof fn lemma_rev_bits_top(k: nat, n: nat)
    ensures
        rev_bits(k, n + 1) == 2 * rev_bits(k % pow2(n), n) + (k / pow2(n)) % 2,
    decreases n,
{
    vstd::arithmetic::power2::lemma_pow2_pos(n);
    if n == 0 {
        vstd::arithmetic::power2::lemma2_to64();
        assert(rev_bits(k / 2, 0) == 0);
        assert((k % 2) * pow2(0) == k % 2) by (nonlinear_arith)
            requires pow2(0) == 1;
    } else {
        let m = (n - 1) as nat;
        let pm = pow2(m);
        let pn = pow2(n);
        vstd::arithmetic::power2::lemma_pow2_unfold(n);
        vstd::arithmetic::power2::lemma_pow2_pos(m);
        lemma_rev_bits_top(k / 2, m);
        // k % 2^n, split at its lowest bit
        vstd::arithmetic::div_mod::lemma_mod_mod(k as int, 2, pm as int);
        vstd::arithmetic::div_mod::lemma_mod_breakdown(k as int, 2, pm as int);
        vstd::arithmetic::div_mod::lemma_div_denominator(k as int, 2, pm as int);
        let low = k % pn;
        assert(low % 2 == k % 2);
        assert(low == 2 * ((k / 2) % pm) + k % 2);
        assert(low / 2 == (k / 2) % pm);
        assert((k / 2) / pm == k / pn);
        assert(rev_bits(low, n) == (low % 2) * pm + rev_bits(low / 2, m));
        assert(rev_bits(k, n + 1) == (k % 2) * pn + rev_bits(k / 2, n));
        assert((k % 2) * pn == 2 * ((k % 2) * pm)) by (nonlinear_arith)
            requires pn == 2 * pm;
    }
}

/// Reversing `n` bits twice gives back any `k < 2^n`.
pub proof fn lemma_rev_bits_involution(k: nat, n: nat)
    requires
        k < pow2(n),
    ensures
        rev_bits(rev_bits(k, n), n) == k,
    decreases n,
{
    if n == 0 {
        vstd::arithmetic::power2::lemma2_to64();
    } else {
        let m = (n - 1) as nat;
        let pm = pow2(m);
        vstd::arithmetic::power2::lemma_pow2_unfold(n);
        vstd::arithmetic::power2::lemma_pow2_pos(m);
        let t = k / 2;
        let b = k % 2;
        assert(t < pm);
        lemma_rev_bits_involution(t, m);
        lemma_rev_bits_bound(t, m);
        let rt = rev_bits(t, m);
        let big_r = rev_bits(k, n);
        assert(big_r == b * pm + rt);
        lemma_rev_bits_top(big_r, m);
        vstd::arithmetic::div_mod::lemma_fundamental_div_mod_converse(big_r as int, pm as int, b as int, rt as int);
        assert(big_r % pm == rt);
        assert(big_r / pm == b);
        assert(b % 2 == b);
    }
}

/// The number of values a `usize` can hold.
pub open spec fn word_range() -> int {
    usize::MAX as int + 1
}

/// Reverses the low `n` bits of `k`, as `(result << 1) | (k & 1)` repeated
/// `n` times: the result is the `n`-bit reversal of `k`, kept to the width
/// of a machine word.
pub fn bit_reverse(k: usize, n: usize) -> (r: usize)
    ensures
        r as int == (rev_bits(k as nat, n as nat) as int) % word_range(),
{
    let mut k = k;
    let mut result: usize = 0;
    let ghost k0 = k as nat;
    let ghost mut acc: int = 0;
    let mut i: usize = 0;
    while i < n
        invariant
            i <= n,
            acc >= 0,
            result as int == acc % word_range(),
            rev_bits(k0, n as nat) == acc * pow2((n - i) as nat) + rev_bits(k as nat, (n - i) as nat),
        decreases n - i,
    {
        let bit = k % 2;
        proof {
            let m = (n - i) as nat;
            vstd::arithmetic::power2::lemma_pow2_unfold(m);
            assert(acc * pow2(m) == (2 * acc) * pow2((m - 1) as nat)) by (nonlinear_arith)
                requires pow2(m) == 2 * pow2((m - 1) as nat);
            assert((2 * acc) * pow2((m - 1) as nat) + (k % 2) * pow2((m - 1) as nat)
                == (2 * acc + k % 2) * pow2((m - 1) as nat)) by (nonlinear_arith);
            vstd::arithmetic::div_mod::lemma_mul_mod_noop_right(2, acc, word_range());
            vstd::arithmetic::div_mod::lemma_add_mod_noop(2 * acc, bit as int, word_range());
            vstd::arithmetic::div_mod::lemma_small_mod(bit as nat, word_range() as nat);
            vstd::arithmetic::div_mod::lemma_mod_twice(2 * acc, word_range());
            acc = 2 * acc + bit;
        }
        result = result.wrapping_mul(2).wrapping_add(bit);
        k = k / 2;
        i = i + 1;
    }
    proof {
        vstd::arithmetic::power2::lemma2_to64();
        assert(acc * pow2(0) == acc) by (nonlinear_arith)
            requires pow2(0) == 1;
    }
    result
}

/// `t` lists the `n`-bit reversal of every index below `2^n`.
pub open spec fn is_bit_reverse_table(t: Seq<usize>, n: nat) -> bool {
    &&& t.len() == pow2(n)
    &&& forall|k: int| 0 <= k < t.len() ==> #[trigger] t[k] as nat == rev_bits(k as nat, n)
}

/// `1 << n` is `2^n` for a shift below the word width.
pub proof fn lemma_shl_one(n: usize)
    requires
        n < usize::BITS,
    ensures
        (1usize << n) as nat == pow2(n as nat),
        pow2(n as nat) <= usize::MAX,
{
    vstd::bits::lemma_usize_pow2_no_overflow(n as nat);
    vstd::bits::lemma_usize_shl_is_mul(1, n);
}

/// For fewer bits than a word holds, `bit_reverse` is exactly the reversal.
pub proof fn lemma_rev_bits_fits(k: nat, n: nat)
    requires
        n < usize::BITS,
    ensures
        (rev_bits(k, n) as int) % word_range() == rev_bits(k, n),
{
    lemma_rev_bits_bound(k, n);
    vstd::bits::lemma_usize_pow2_no_overflow(n);
    vstd::arithmetic::div_mod::lemma_small_mod(rev_bits(k, n), word_range() as nat);
}

/// The table of `n`-bit reversals of `0, 1, …, 2^n - 1`.
pub fn build_bit_reverse_table(n: usize) -> (t: Vec<usize>)
    requires
        n < usize::BITS,
    ensures
        is_bit_reverse_table(t@, n as nat),
{
    proof {
        lemma_shl_one(n);
    }
    let big_n = 1usize << n;
    let mut t: Vec<usize> = Vec::with_capacity(big_n);
    let mut k: usize = 0;
    while k < big_n
        invariant
            k <= big_n,
            big_n as nat == pow2(n as nat),
            n < usize::BITS,
            t@.len() == k,
            forall|i: int| 0 <= i < k ==> #[trigger] t@[i] as nat == rev_bits(i as nat, n as nat),
        decreases big_n - k,
    {
        let r = bit_reverse(k, n);
        proof {
            lemma_rev_bits_fits(k as nat, n as nat);
        }
        t.push(r);
        k = k + 1;
    }
    t
}


/// The decomposition tree `(q_j)_{1 ≤ j ≤ 2N-1}` of a canonical polynomial:
/// the root is `f`, and the children of `q_j` are its even- and odd-indexed
/// coefficients, `q_j = q_{2j}(x²…) + x_i·q_{2j+1}(…)`.
pub struct CanonicalDecomp {
    /// The number of variables `n`.
    pub n: usize,
    /// `N = 2^n`.
    pub big_n: usize,
    /// Node `j` (1-based) is `nodes[j - 1]`.
    pub nodes: Vec<CanonicalPoly>,
    /// The `n`-bit reversal table.
    pub bit_rev_table: Vec<usize>,
}

impl CanonicalDecomp {
    /// The sizes and the reversal table are those of a tree over `n`
    /// variables.
    pub open spec fn has_shape(self) -> bool {
        &&& self.n < usize::BITS
        &&& self.big_n == pow2(self.n as nat)
        &&& self.nodes@.len() == 2 * self.big_n - 1
        &&& self.nodes@[0]@.len() == self.big_n
        &&& is_bit_reverse_table(self.bit_rev_table@, self.n as nat)
    }

    /// Every node is the even/odd split of the root that its position names.
    pub open spec fn is_tree(self) -> bool {
        &&& self.has_shape()
        &&& forall|i: int| 0 <= i < self.nodes@.len() ==> (#[trigger] self.nodes@[i])@ == tnode(
            self.nodes@[0]@,
            (i + 1) as nat,
        )
    }

    /// Builds the tree of `f`.
    pub fn build(f: &CanonicalPoly) -> (d: Self)
        ensures
            d.is_tree(),
            d.n == f.nv(),
            d.nodes@[0]@ == f@,
            seq_total(poly_lens(d.nodes@)) == (d.n + 1) * d.big_n,
    {
        let n = f.num_vars();
        let big_n = f.num_evals();
        let coeffs = f.coeffs();
        let raw = split_tree(coeffs, n, Ghost(f@));
        proof {
            assert forall|i: int| 0 <= i < raw@.len() implies crate::poly::canonical::is_pow2_len(
                (#[trigger] raw@[i])@.len(),
            ) by {
                let (k, t) = lemma_node_position((i + 1) as nat, n as nat);
                lemma_tnode_len(f@, n as nat, k, t);
                assert(vals(raw@[i]@).len() == tnode(f@, (i + 1) as nat).len());
            }
        }
        let nodes = polys_from_vecs(&raw);
        let bit_rev_table = get_or_build(n);
        let d = CanonicalDecomp { n, big_n, nodes, bit_rev_table };
        proof {
            assert(d.nodes@[0]@ == f@);
            d.lemma_total();
        }
        d
    }

    /// Node `q_j`, by its 1-based index.
    pub fn q(&self, j: usize) -> (r: &CanonicalPoly)
        requires
            1 <= j < 2 * self.big_n,
            j <= self.nodes@.len(),
        ensures
            *r == self.nodes@[j - 1],
    {
        &self.nodes[j - 1]
    }

    /// The root `q_1 = f`.
    pub fn root(&self) -> (r: &CanonicalPoly)
        requires
            self.nodes@.len() >= 1,
        ensures
            *r == self.nodes@[0],
    {
        &self.nodes[0]
    }

    /// The leaves `q_N, …, q_{2N-1}`.
    pub fn leaves(&self) -> (r: &[CanonicalPoly])
        requires
            1 <= self.big_n,
            2 * self.big_n - 1 <= self.nodes@.len(),
        ensures
            r@ == self.nodes@.subrange(self.big_n - 1, 2 * self.big_n - 1),
    {
        let len = self.nodes.len();
        vstd::slice::slice_subrange(self.nodes.as_slice(), self.big_n - 1, self.big_n - 1 + self.big_n)
    }

    /// Layer `i` (0-based): the `2^i` nodes at depth `i`.
    pub fn layer(&self, i: usize) -> (r: &[CanonicalPoly])
        requires
            i <= self.n,
            self.n < usize::BITS - 1,
            pow2((i + 1) as nat) - 1 <= self.nodes@.len(),
        ensures
            r@ == self.nodes@.subrange(pow2(i as nat) - 1, pow2((i + 1) as nat) - 1),
    {
        proof {
            lemma_shl_one(i);
            lemma_shl_one((i + 1) as usize);
            vstd::arithmetic::power2::lemma_pow2_pos(i as nat);
            vstd::arithmetic::power2::lemma_pow2_pos((i + 1) as nat);
            vstd::arithmetic::power2::lemma_pow2_unfold((i + 1) as nat);
        }
        let start = (1usize << i) - 1;
        let end = (1usize << (i + 1)) - 1;
        vstd::slice::slice_subrange(self.nodes.as_slice(), start, end)
    }

    /// The number of coefficients stored over all nodes; `(n+1)·N` for a
    /// tree that `build` made.
    pub fn total_field_elements(&self) -> (t: usize)
        requires
            seq_total(poly_lens(self.nodes@)) <= usize::MAX,
        ensures
            t == seq_total(poly_lens(self.nodes@)),
            self.is_tree() ==> t == (self.n + 1) * self.big_n,
    {
        proof {
            if self.is_tree() {
                self.lemma_total();
            }
        }
        total_coeffs(&self.nodes)
    }

    /// A tree over `n` variables stores `(n+1)·N` field elements.
    pub proof fn lemma_total(self)
        requires
            self.is_tree(),
        ensures
            seq_total(poly_lens(self.nodes@)) == (self.n + 1) * self.big_n,
    {
        let ls = poly_lens(self.nodes@);
        let c = self.nodes@[0]@;
        assert(self.nodes@[0]@ == tnode(c, 1));
        let n = self.n as nat;
        assert forall|i: nat, t: nat| i <= n && t < pow2(i) implies #[trigger] node_size(ls, i, t) == pow2(
            (n - i) as nat,
        ) by {
            vstd::arithmetic::power2::lemma_pow2_unfold(n + 1);
            if i < n {
                vstd::arithmetic::power2::lemma_pow2_strictly_increases(i, n);
            }
            lemma_tnode_len(c, n, i, t);
            let j = pow2(i) + t;
            assert(self.nodes@[j - 1]@ == tnode(c, j as nat));
            assert(ls[j - 1] == self.nodes@[j - 1]@.len());
        }
        lemma_tree_total(ls, n);
    }

    /// `true` exactly when leaf `k` holds the root's coefficient at
    /// `rev(k)`, for every `k`: always so for a tree that `build` made.
    pub fn leaves_are_bit_reverse_of_root(&self) -> (b: bool)
        requires
            self.has_shape(),
        ensures
            b == (forall|k: int| 0 <= k < self.big_n ==> (#[trigger] self.nodes@[self.big_n - 1 + k])@[0]
                == self.nodes@[0]@[rev_bits(k as nat, self.n as nat) as int]),
            self.is_tree() ==> b,
    {
        let root = self.root();
        let big_n = self.big_n;
        let len = self.nodes.len();
        let mut k: usize = 0;
        proof {
            vstd::arithmetic::power2::lemma_pow2_pos(self.n as nat);
            if self.is_tree() {
                assert forall|k: int| 0 <= k < self.big_n implies (#[trigger] self.nodes@[self.big_n - 1
                    + k])@[0] == self.nodes@[0]@[rev_bits(k as nat, self.n as nat) as int] by {
                    let c = self.nodes@[0]@;
                    assert(self.nodes@[0]@ == tnode(c, 1));
                    assert(self.nodes@[self.big_n - 1 + k]@ == tnode(c, (self.big_n + k) as nat));
                    lemma_tnode_entries(c, self.n as nat, self.n as nat, k as nat);
                    vstd::arithmetic::power2::lemma2_to64();
                    assert(pow2(self.n as nat) * 0 == 0);
                }
            }
        }
        while k < big_n
            invariant
                k <= big_n,
                big_n == self.big_n,
                big_n >= 1,
                len == self.nodes@.len(),
                self.has_shape(),
                *root == self.nodes@[0],
                forall|i: int| 0 <= i < k ==> (#[trigger] self.nodes@[self.big_n - 1 + i])@[0]
                    == self.nodes@[0]@[rev_bits(i as nat, self.n as nat) as int],
                self.is_tree() ==> forall|i: int| 0 <= i < self.big_n ==> (#[trigger] self.nodes@[self.big_n
                    - 1 + i])@[0] == self.nodes@[0]@[rev_bits(i as nat, self.n as nat) as int],
            decreases big_n - k,
        {
            let rev_k = self.bit_rev_table[k];
            proof {
                lemma_rev_bits_bound(k as nat, self.n as nat);
            }
            let leaf = &self.nodes[big_n - 1 + k];
            let lc = leaf.coeffs();
            proof {
                vstd::arithmetic::power2::lemma_pow2_pos(leaf.nv());
            }
            let a = lc[0];
            let r = root.coeffs()[rev_k];
            if !a.equals(&r) {
                return false;
            }
            k = k + 1;
        }
        true
    }
}

} // verus!
