//! The integer model of multilinear polynomials.
//!
//! A multilinear polynomial in `n` variables is modelled by the sequence of
//! its `2^n` integers: its coefficients in the canonical (monomial) basis, or
//! its values on the Boolean hypercube in the Lagrange basis. Index `j`
//! encodes a monomial or a Boolean point by its binary digits, the lowest bit
//! standing for the first variable.
//!
//! Every function here works over the integers; field elements are these
//! integers reduced modulo `p`, and reduction commutes with `+`, `-` and `*`.
//! The two bases differ only in how a variable is fixed to a value `r`
//! (`fold_vars`) and how a Boolean sum splits (`sum_tree`): the parameter
//! `lag` selects the Lagrange rules.

use vstd::prelude::*;
use vstd::arithmetic::power2::pow2;
use vstd::arithmetic::power::{
    lemma_pow0, lemma_pow1, lemma_pow_adds, lemma_pow_multiplies, lemma_square_is_pow2, pow,
};

verus! {

/// The even-indexed entries: the part of `c` with the first variable at 0.
pub open spec fn evens(c: Seq<int>) -> Seq<int> {
    Seq::new(c.len() / 2, |s: int| c[2 * s])
}

/// The odd-indexed entries.
pub open spec fn odds(c: Seq<int>) -> Seq<int> {
    Seq::new(c.len() / 2, |s: int| c[2 * s + 1])
}

/// The pointwise linear combination `a·x + b·y`.
pub open spec fn lin(x: Seq<int>, y: Seq<int>, a: int, b: int) -> Seq<int> {
    Seq::new(x.len(), |s: int| a * x[s] + b * y[s])
}

/// The weights with which fixing the first variable to `r` combines the
/// `x = 0` and `x = 1` halves: `(1, r)` for coefficients (`a + r·b`) and
/// `(1 - r, r)` for hypercube values (`(1-r)·u + r·v`).
pub open spec fn weight_even(r: int, lag: bool) -> int {
    if lag {
        1 - r
    } else {
        1
    }
}

/// The first variable fixed to `r`: a polynomial in one variable fewer.
pub open spec fn fold_vars(c: Seq<int>, r: int, lag: bool) -> Seq<int> {
    Seq::new(c.len() / 2, |s: int| weight_even(r, lag) * c[2 * s] + r * c[2 * s + 1])
}

/// The first `rs.len()` variables fixed to `rs[0], rs[1], …` in that order.
pub open spec fn folds(c: Seq<int>, rs: Seq<int>, lag: bool) -> Seq<int>
    decreases rs.len(),
{
    if rs.len() == 0 {
        c
    } else {
        folds(fold_vars(c, rs[0], lag), rs.drop_first(), lag)
    }
}

/// The polynomial evaluated at the point `rs`.
pub open spec fn eval_ml(c: Seq<int>, rs: Seq<int>, lag: bool) -> int {
    folds(c, rs, lag)[0]
}

/// The weight of the `x = 0` half in a Boolean sum: in the canonical basis
/// the coefficients of the `x = 0` half occur at both `x = 0` and `x = 1`.
pub open spec fn sum_weight(lag: bool) -> int {
    if lag {
        1
    } else {
        2
    }
}

/// The Boolean hypercube sum `Σ_{x ∈ {0,1}^n} f(x)`, computed by splitting on
/// the first variable.
pub open spec fn sum_tree(c: Seq<int>, lag: bool) -> int
    decreases c.len(),
{
    if c.len() == 0 {
        0
    } else if c.len() == 1 {
        c[0]
    } else {
        sum_weight(lag) * sum_tree(evens(c), lag) + sum_tree(odds(c), lag)
    }
}

/// The Boolean point whose coordinates are the `n` low bits of `b`, lowest
/// bit first.
pub open spec fn bool_point(b: nat, n: nat) -> Seq<int>
    decreases n,
{
    if n == 0 {
        Seq::empty()
    } else {
        seq![(b % 2) as int].add(bool_point(b / 2, (n - 1) as nat))
    }
}

// ---------------------------------------------------------------------------
// Linearity
// ---------------------------------------------------------------------------

pub proof fn lemma_evens_lin(x: Seq<int>, y: Seq<int>, a: int, b: int)
    requires
        x.len() == y.len(),
    ensures
        evens(lin(x, y, a, b)) == lin(evens(x), evens(y), a, b),
        odds(lin(x, y, a, b)) == lin(odds(x), odds(y), a, b),
{
    assert(evens(lin(x, y, a, b)) =~= lin(evens(x), evens(y), a, b));
    assert(odds(lin(x, y, a, b)) =~= lin(odds(x), odds(y), a, b));
}

/// The hypercube sum is linear.
pub proof fn lemma_sum_tree_lin(x: Seq<int>, y: Seq<int>, a: int, b: int, lag: bool)
    requires
        x.len() == y.len(),
    ensures
        sum_tree(lin(x, y, a, b), lag) == a * sum_tree(x, lag) + b * sum_tree(y, lag),
    decreases x.len(),
{
    if x.len() >= 2 {
        lemma_evens_lin(x, y, a, b);
        lemma_sum_tree_lin(evens(x), evens(y), a, b, lag);
        lemma_sum_tree_lin(odds(x), odds(y), a, b, lag);
        let w = sum_weight(lag);
        let ex = sum_tree(evens(x), lag);
        let ey = sum_tree(evens(y), lag);
        let ox = sum_tree(odds(x), lag);
        let oy = sum_tree(odds(y), lag);
        lemma_regroup(w, 1, a, b, ex, ox, ey, oy);
    }
}

/// `w·(a·x0 + b·y0) + r·(a·x1 + b·y1) = a·(w·x0 + r·x1) + b·(w·y0 + r·y1)`.
pub proof fn lemma_regroup(w: int, r: int, a: int, b: int, x0: int, x1: int, y0: int, y1: int)
    ensures
        w * (a * x0 + b * y0) + r * (a * x1 + b * y1) == a * (w * x0 + r * x1) + b * (w * y0 + r * y1),
{
    assert(w * (a * x0 + b * y0) == w * (a * x0) + w * (b * y0)) by (nonlinear_arith);
    assert(r * (a * x1 + b * y1) == r * (a * x1) + r * (b * y1)) by (nonlinear_arith);
    assert(w * (a * x0) == a * (w * x0)) by (nonlinear_arith);
    assert(w * (b * y0) == b * (w * y0)) by (nonlinear_arith);
    assert(r * (a * x1) == a * (r * x1)) by (nonlinear_arith);
    assert(r * (b * y1) == b * (r * y1)) by (nonlinear_arith);
    assert(a * (w * x0 + r * x1) == a * (w * x0) + a * (r * x1)) by (nonlinear_arith);
    assert(b * (w * y0 + r * y1) == b * (w * y0) + b * (r * y1)) by (nonlinear_arith);
}

/// Fixing a variable is linear in the polynomial.
pub proof fn lemma_fold_vars_lin(x: Seq<int>, y: Seq<int>, a: int, b: int, r: int, lag: bool)
    requires
        x.len() == y.len(),
    ensures
        fold_vars(lin(x, y, a, b), r, lag) == lin(fold_vars(x, r, lag), fold_vars(y, r, lag), a, b),
{
    let w = weight_even(r, lag);
    assert forall|s: int| 0 <= s < x.len() / 2 implies #[trigger] fold_vars(lin(x, y, a, b), r, lag)[s]
        == lin(fold_vars(x, r, lag), fold_vars(y, r, lag), a, b)[s] by {
        let x0 = x[2 * s];
        let x1 = x[2 * s + 1];
        let y0 = y[2 * s];
        let y1 = y[2 * s + 1];
        lemma_regroup(w, r, a, b, x0, x1, y0, y1);
    }
    assert(fold_vars(lin(x, y, a, b), r, lag) =~= lin(fold_vars(x, r, lag), fold_vars(y, r, lag), a, b));
}

/// Fixing several variables is linear in the polynomial.
pub proof fn lemma_folds_lin(x: Seq<int>, y: Seq<int>, a: int, b: int, rs: Seq<int>, lag: bool)
    requires
        x.len() == y.len(),
    ensures
        folds(lin(x, y, a, b), rs, lag) == lin(folds(x, rs, lag), folds(y, rs, lag), a, b),
        folds(x, rs, lag).len() == folds(y, rs, lag).len(),
    decreases rs.len(),
{
    if rs.len() == 0 {
        assert(lin(x, y, a, b) =~= lin(folds(x, rs, lag), folds(y, rs, lag), a, b));
    } else {
        lemma_fold_vars_lin(x, y, a, b, rs[0], lag);
        lemma_folds_lin(fold_vars(x, rs[0], lag), fold_vars(y, rs[0], lag), a, b, rs.drop_first(), lag);
    }
}

// ---------------------------------------------------------------------------
// Sizes
// ---------------------------------------------------------------------------

/// Halving `2^(n+1)` entries leaves `2^n`.
pub proof fn lemma_half_len(len: nat, n: nat)
    requires
        len == pow2(n + 1),
    ensures
        len / 2 == pow2(n),
        len % 2 == 0,
        len >= 2,
{
    vstd::arithmetic::power2::lemma_pow2_unfold(n + 1);
    vstd::arithmetic::power2::lemma_pow2_pos(n);
}

/// Fixing `k` of `n` variables leaves `2^(n-k)` entries.
pub proof fn lemma_folds_len(c: Seq<int>, rs: Seq<int>, n: nat, lag: bool)
    requires
        c.len() == pow2(n),
        rs.len() <= n,
    ensures
        folds(c, rs, lag).len() == pow2((n - rs.len()) as nat),
    decreases rs.len(),
{
    if rs.len() > 0 {
        lemma_half_len(c.len(), (n - 1) as nat);
        lemma_folds_len(fold_vars(c, rs[0], lag), rs.drop_first(), (n - 1) as nat, lag);
    }
}

/// Folding variables one more at the end.
pub proof fn lemma_folds_push(c: Seq<int>, rs: Seq<int>, r: int, lag: bool)
    ensures
        folds(c, rs.push(r), lag) == fold_vars(folds(c, rs, lag), r, lag),
    decreases rs.len(),
{
    assert(rs.push(r)[0] == if rs.len() == 0 { r } else { rs[0] });
    if rs.len() == 0 {
        assert(rs.push(r).drop_first() =~= Seq::<int>::empty());
        assert(folds(c, rs, lag) == c);
        assert(folds(fold_vars(c, r, lag), Seq::<int>::empty(), lag) == fold_vars(c, r, lag));
    } else {
        assert(rs.push(r).drop_first() =~= rs.drop_first().push(r));
        lemma_folds_push(fold_vars(c, rs[0], lag), rs.drop_first(), r, lag);
        assert(folds(c, rs, lag) == folds(fold_vars(c, rs[0], lag), rs.drop_first(), lag));
    }
}

// ---------------------------------------------------------------------------
// The canonical basis, term by term
// ---------------------------------------------------------------------------

/// The monomial with exponent bits `j` at the point `rs`: the product of the
/// `rs[k]` for which bit `k` of `j` is set.
pub open spec fn monomial(j: nat, rs: Seq<int>) -> int
    decreases rs.len(),
{
    if rs.len() == 0 {
        1
    } else {
        (if j % 2 == 1 { rs[0] } else { 1 }) * monomial(j / 2, rs.drop_first())
    }
}

/// `Σ_{j < m} c[j] · m_j(rs)`: the first `m` terms of the canonical sum.
pub open spec fn naive_sum(c: Seq<int>, rs: Seq<int>, m: nat) -> int
    decreases m,
{
    if m == 0 {
        0
    } else {
        naive_sum(c, rs, (m - 1) as nat) + c[m - 1] * monomial((m - 1) as nat, rs)
    }
}

/// The number of set bits of `x`.
pub open spec fn popcount(x: nat) -> nat
    decreases x,
{
    if x == 0 {
        0
    } else {
        x % 2 + popcount(x / 2)
    }
}

/// `Σ_{j < m} c[j] · 2^(n - |j|)`: each coefficient weighted by the number of
/// Boolean points at which its monomial is 1.
pub open spec fn weighted_sum(c: Seq<int>, n: nat, m: nat) -> int
    decreases m,
{
    if m == 0 {
        0
    } else {
        weighted_sum(c, n, (m - 1) as nat) + c[m - 1] * pow2((n - popcount((m - 1) as nat)) as nat)
    }
}

/// A number below `2^n` has at most `n` set bits.
pub proof fn lemma_popcount_bound(x: nat, n: nat)
    requires
        x < pow2(n),
    ensures
        popcount(x) <= n,
    decreases n,
{
    if n == 0 {
        vstd::arithmetic::power2::lemma2_to64();
    } else {
        vstd::arithmetic::power2::lemma_pow2_unfold(n);
        if x > 0 {
            lemma_popcount_bound(x / 2, (n - 1) as nat);
        }
    }
}

proof fn lemma_monomial_split(s: nat, rs: Seq<int>)
    requires
        rs.len() > 0,
    ensures
        monomial(2 * s, rs) == monomial(s, rs.drop_first()),
        monomial(2 * s + 1, rs) == rs[0] * monomial(s, rs.drop_first()),
{
    assert((2 * s) % 2 == 0 && (2 * s) / 2 == s);
    assert((2 * s + 1) % 2 == 1 && (2 * s + 1) / 2 == s);
}

/// Pairing the terms `2s` and `2s + 1` of the canonical sum fixes the first
/// variable.
pub proof fn lemma_naive_sum_split(c: Seq<int>, rs: Seq<int>, m: nat)
    requires
        rs.len() > 0,
        2 * m <= c.len(),
    ensures
        naive_sum(c, rs, 2 * m) == naive_sum(fold_vars(c, rs[0], false), rs.drop_first(), m),
    decreases m,
{
    if m > 0 {
        let k = (m - 1) as nat;
        lemma_naive_sum_split(c, rs, k);
        lemma_monomial_split(k, rs);
        let f = fold_vars(c, rs[0], false);
        let mo = monomial(k, rs.drop_first());
        assert(naive_sum(c, rs, (2 * k + 1) as nat) == naive_sum(c, rs, 2 * k) + c[2 * k as int]
            * monomial(2 * k, rs));
        assert(naive_sum(c, rs, 2 * m) == naive_sum(c, rs, 2 * k) + c[2 * k as int] * monomial(2 * k, rs)
            + c[2 * k as int + 1] * monomial(2 * k + 1, rs));
        assert(f[k as int] == 1 * c[2 * k as int] + rs[0] * c[2 * k as int + 1]);
        assert(c[2 * k as int] * mo + c[2 * k as int + 1] * (rs[0] * mo) == (1 * c[2 * k as int] + rs[0] * c[2 * k as int + 1])
            * mo) by (nonlinear_arith);
    }
}

/// Folding one variable at a time computes the canonical sum of all terms.
pub proof fn lemma_naive_sum_is_eval(c: Seq<int>, rs: Seq<int>)
    requires
        c.len() == pow2(rs.len()),
    ensures
        naive_sum(c, rs, c.len()) == eval_ml(c, rs, false),
    decreases rs.len(),
{
    if rs.len() == 0 {
        vstd::arithmetic::power2::lemma2_to64();
        assert(naive_sum(c, rs, 1) == naive_sum(c, rs, 0) + c[0] * monomial(0, rs));
    } else {
        let n = (rs.len() - 1) as nat;
        lemma_half_len(c.len(), n);
        lemma_naive_sum_split(c, rs, pow2(n));
        lemma_naive_sum_is_eval(fold_vars(c, rs[0], false), rs.drop_first());
    }
}

/// Pairing the terms `2s` and `2s + 1` of the weighted sum splits it into the
/// even and odd halves.
pub proof fn lemma_weighted_sum_split(c: Seq<int>, n: nat, m: nat)
    requires
        2 * m <= c.len(),
        m <= pow2(n),
    ensures
        weighted_sum(c, n + 1, 2 * m) == 2 * weighted_sum(evens(c), n, m) + weighted_sum(odds(c), n, m),
    decreases m,
{
    if m > 0 {
        let k = (m - 1) as nat;
        lemma_weighted_sum_split(c, n, k);
        lemma_popcount_bound(k, n);
        assert((2 * k) % 2 == 0 && (2 * k) / 2 == k);
        assert((2 * k + 1) % 2 == 1 && (2 * k + 1) / 2 == k);
        assert(popcount(2 * k) == popcount(k));
        assert(popcount(2 * k + 1) == popcount(k) + 1);
        let e = (n - popcount(k)) as nat;
        vstd::arithmetic::power2::lemma_pow2_unfold(e + 1);
        assert(((n + 1) - popcount(2 * k)) as nat == e + 1);
        assert(((n + 1) - popcount(2 * k + 1)) as nat == e);
        let we = pow2(e);
        assert(c[2 * k as int] * (2 * we) == 2 * (c[2 * k as int] * we)) by (nonlinear_arith);
        assert(evens(c)[k as int] == c[2 * k as int]);
        assert(odds(c)[k as int] == c[2 * k as int + 1]);
        assert(weighted_sum(c, n + 1, (2 * k + 1) as nat) == weighted_sum(c, n + 1, 2 * k) + c[2 * k
            as int] * pow2(e + 1));
        assert(weighted_sum(c, n + 1, 2 * m) == weighted_sum(c, n + 1, (2 * k + 1) as nat) + c[2 * k
            as int + 1] * pow2(e));
    }
}

/// The weighted coefficient sum is the canonical hypercube sum.
pub proof fn lemma_weighted_sum_is_sum_tree(c: Seq<int>, n: nat)
    requires
        c.len() == pow2(n),
    ensures
        weighted_sum(c, n, c.len()) == sum_tree(c, false),
    decreases n,
{
    if n == 0 {
        vstd::arithmetic::power2::lemma2_to64();
        assert(weighted_sum(c, 0, 1) == weighted_sum(c, 0, 0) + c[0] * pow2(0));
        assert(popcount(0) == 0);
    } else {
        let m = (n - 1) as nat;
        lemma_half_len(c.len(), m);
        lemma_weighted_sum_split(c, m, pow2(m));
        lemma_weighted_sum_is_sum_tree(evens(c), m);
        lemma_weighted_sum_is_sum_tree(odds(c), m);
    }
}

// ---------------------------------------------------------------------------
// The Lagrange basis
// ---------------------------------------------------------------------------

/// `Σ_{j < m} c[j]`.
pub open spec fn seq_sum(c: Seq<int>, m: nat) -> int
    decreases m,
{
    if m == 0 {
        0
    } else {
        seq_sum(c, (m - 1) as nat) + c[m - 1]
    }
}

proof fn lemma_seq_sum_split(c: Seq<int>, m: nat)
    requires
        2 * m <= c.len(),
    ensures
        seq_sum(c, 2 * m) == seq_sum(evens(c), m) + seq_sum(odds(c), m),
    decreases m,
{
    if m > 0 {
        let k = (m - 1) as nat;
        lemma_seq_sum_split(c, k);
        assert(seq_sum(c, (2 * k + 1) as nat) == seq_sum(c, 2 * k) + c[2 * k as int]);
        assert(evens(c)[k as int] == c[2 * k as int]);
        assert(odds(c)[k as int] == c[2 * k as int + 1]);
    }
}

/// The sum of the hypercube values is the Lagrange hypercube sum.
pub proof fn lemma_seq_sum_is_sum_tree(c: Seq<int>, n: nat)
    requires
        c.len() == pow2(n),
    ensures
        seq_sum(c, c.len()) == sum_tree(c, true),
    decreases n,
{
    if n == 0 {
        vstd::arithmetic::power2::lemma2_to64();
        assert(seq_sum(c, 1) == seq_sum(c, 0) + c[0]);
    } else {
        let m = (n - 1) as nat;
        lemma_half_len(c.len(), m);
        lemma_seq_sum_split(c, pow2(m));
        lemma_seq_sum_is_sum_tree(evens(c), m);
        lemma_seq_sum_is_sum_tree(odds(c), m);
    }
}

// ---------------------------------------------------------------------------
// Decomposition trees and Boolean sum circuits
// ---------------------------------------------------------------------------

/// Node `j` (1-based, heap order) of the even/odd decomposition tree of `c`:
/// the root is `c`, and node `2j` (`2j + 1`) holds the even (odd) entries of
/// node `j`.
pub open spec fn tnode(c: Seq<int>, j: nat) -> Seq<int>
    decreases j,
{
    if j <= 1 {
        c
    } else if j % 2 == 0 {
        evens(tnode(c, j / 2))
    } else {
        odds(tnode(c, j / 2))
    }
}

/// Node `j` (1-based) of the sum circuit built bottom-up over the leaf values
/// `l` (nodes `N, …, 2N - 1` are the leaves): an inner node is
/// `w·h_{2j} + h_{2j+1}`, with `w = 2` for coefficients and `w = 1` for
/// hypercube values.
pub open spec fn hval(l: Seq<int>, j: int, lag: bool) -> int
    decreases 2 * l.len() - j,
{
    if j <= 0 {
        0
    } else if j >= l.len() {
        l[j - l.len()]
    } else {
        sum_weight(lag) * hval(l, 2 * j, lag) + hval(l, 2 * j + 1, lag)
    }
}

/// The entries of `c` in bit-reversed order: the leaf layer of the tree.
pub open spec fn bitrev_leaves(c: Seq<int>, n: nat) -> Seq<int> {
    Seq::new(c.len(), |k: int| c[crate::circuit::canonical::rev_bits(k as nat, n) as int])
}

/// The entries of node `2^i + t` of the tree: `c[rev_i(t) + 2^i·s]`.
pub proof fn lemma_tnode_entries(c: Seq<int>, n: nat, i: nat, t: nat)
    requires
        c.len() == pow2(n),
        i <= n,
        t < pow2(i),
    ensures
        tnode(c, pow2(i) + t).len() == pow2((n - i) as nat),
        forall|s: int| 0 <= s < pow2((n - i) as nat) ==> #[trigger] tnode(c, pow2(i) + t)[s] == c[
            crate::circuit::canonical::rev_bits(t, i) + pow2(i) * s],
    decreases i,
{
    vstd::arithmetic::power2::lemma_pow2_pos(i);
    if i == 0 {
        vstd::arithmetic::power2::lemma2_to64();
        assert forall|s: int| 0 <= s < pow2((n - i) as nat) implies #[trigger] tnode(c, pow2(i) + t)[s]
            == c[crate::circuit::canonical::rev_bits(t, i) + pow2(i) * s] by {
            assert(pow2(0) * s == s);
        }
    } else {
        let m = (i - 1) as nat;
        vstd::arithmetic::power2::lemma_pow2_unfold(i);
        vstd::arithmetic::power2::lemma_pow2_pos(m);
        let j = pow2(i) + t;
        let pj = pow2(m) + t / 2;
        assert(j / 2 == pj);
        assert(j % 2 == t % 2);
        assert(j > 1);
        lemma_tnode_entries(c, n, m, t / 2);
        let parent = tnode(c, pj);
        lemma_half_len(parent.len(), (n - i) as nat);
        assert(pow2(((n - m) as nat)) == pow2(((n - i) as nat) + 1));
        let b = t % 2;
        assert forall|s: int| 0 <= s < pow2((n - i) as nat) implies #[trigger] tnode(c, j)[s] == c[
            crate::circuit::canonical::rev_bits(t, i) + pow2(i) * s] by {
            assert(tnode(c, j)[s] == parent[2 * s + b]);
            assert(parent[2 * s + b] == c[crate::circuit::canonical::rev_bits(t / 2, m) + pow2(m) * (2
                * s + b)]);
            assert(crate::circuit::canonical::rev_bits(t, i) == b * pow2(m)
                + crate::circuit::canonical::rev_bits(t / 2, m));
            assert(pow2(m) * (2 * s + b) == b * pow2(m) + pow2(i) * s) by (nonlinear_arith)
                requires pow2(i) == 2 * pow2(m);
        }
    }
}

/// Each node of the tree is one half of its parent: node sizes halve layer by
/// layer.
pub proof fn lemma_tnode_len(c: Seq<int>, n: nat, i: nat, t: nat)
    requires
        c.len() == pow2(n),
        i <= n,
        t < pow2(i),
    ensures
        tnode(c, pow2(i) + t).len() == pow2((n - i) as nat),
{
    lemma_tnode_entries(c, n, i, t);
}

/// The sum circuit over the bit-reversed leaves holds, at each node, the
/// hypercube sum of that node of the decomposition tree.
pub proof fn lemma_hval_is_tree_sum(c: Seq<int>, n: nat, j: nat, lag: bool)
    requires
        c.len() == pow2(n),
        1 <= j < 2 * pow2(n),
    ensures
        hval(bitrev_leaves(c, n), j as int, lag) == sum_tree(tnode(c, j), lag),
    decreases 2 * pow2(n) - j,
{
    let l = bitrev_leaves(c, n);
    let big_n = pow2(n);
    let i = vstd::arithmetic::logarithm::log(2, j as int) as nat;
    lemma_node_layer(j);
    let t = (j - pow2(i)) as nat;
    if j >= big_n {
        // a leaf
        if i < n {
            vstd::arithmetic::power2::lemma_pow2_unfold(i + 1);
            if i + 1 < n {
                vstd::arithmetic::power2::lemma_pow2_strictly_increases(i + 1, n);
            }
            assert(false);
        }
        if i > n {
            vstd::arithmetic::power2::lemma_pow2_strictly_increases(n, i);
            vstd::arithmetic::power2::lemma_pow2_unfold(i);
            if i > n + 1 {
                vstd::arithmetic::power2::lemma_pow2_strictly_increases(n + 1, i);
            }
            vstd::arithmetic::power2::lemma_pow2_unfold(n + 1);
            assert(false);
        }
        lemma_tnode_entries(c, n, n, t);
        vstd::arithmetic::power2::lemma2_to64();
        assert(tnode(c, j).len() == 1);
        assert(tnode(c, j)[0] == c[crate::circuit::canonical::rev_bits(t, n) as int]);
    } else {
        lemma_hval_is_tree_sum(c, n, 2 * j, lag);
        lemma_hval_is_tree_sum(c, n, 2 * j + 1, lag);
        if i >= n {
            if i > n {
                vstd::arithmetic::power2::lemma_pow2_strictly_increases(n, i);
            }
            assert(false);
        }
        lemma_tnode_entries(c, n, i, t);
        vstd::arithmetic::power2::lemma_pow2_unfold((n - i) as nat);
        vstd::arithmetic::power2::lemma_pow2_pos((n - i - 1) as nat);
        assert((2 * j) / 2 == j && (2 * j) % 2 == 0);
        assert((2 * j + 1) / 2 == j && (2 * j + 1) % 2 == 1);
        assert(tnode(c, 2 * j) == evens(tnode(c, j)));
        assert(tnode(c, 2 * j + 1) == odds(tnode(c, j)));
    }
}

/// Node `j ≥ 1` lies on layer `i = ⌊log2 j⌋`: `2^i ≤ j < 2^(i+1)`.
pub proof fn lemma_node_layer(j: nat)
    requires
        j >= 1,
    ensures
        pow2(vstd::arithmetic::logarithm::log(2, j as int) as nat) <= j,
        j < 2 * pow2(vstd::arithmetic::logarithm::log(2, j as int) as nat),
        vstd::arithmetic::logarithm::log(2, j as int) >= 0,
    decreases j,
{
    vstd::arithmetic::logarithm::lemma_log_nonnegative(2, j as int);
    let i = vstd::arithmetic::logarithm::log(2, j as int);
    if j < 2 {
        vstd::arithmetic::power2::lemma2_to64();
        vstd::arithmetic::logarithm::lemma_log0(2, j as int);
    } else {
        lemma_node_layer(j / 2);
        vstd::arithmetic::logarithm::lemma_log_s(2, j as int);
        let k = vstd::arithmetic::logarithm::log(2, (j / 2) as int);
        assert(i == 1 + k);
        vstd::arithmetic::power2::lemma_pow2_unfold(i as nat);
    }
}

// ---------------------------------------------------------------------------
// Sumcheck rounds read off the sum circuit
// ---------------------------------------------------------------------------

/// Layer `j` of the tree's hypercube sums: `h_{2^j}, …, h_{2^{j+1} - 1}`.
pub open spec fn layer_vals(c: Seq<int>, j: nat, lag: bool) -> Seq<int> {
    Seq::new(pow2(j), |t: int| sum_tree(tnode(c, (pow2(j) + t) as nat), lag))
}

/// The prover's fold of a layer with challenge `r`: entry `k` combines the
/// entries two apart in the same block of four, `(2k, 2k+2)` for even `k`
/// and `(2k-1, 2k+1)` for odd `k`.
pub open spec fn pair_fold(v: Seq<int>, r: int, lag: bool) -> Seq<int> {
    Seq::new(
        v.len() / 2,
        |k: int|
            if k % 2 == 0 {
                weight_even(r, lag) * v[2 * k] + r * v[2 * k + 2]
            } else {
                weight_even(r, lag) * v[2 * k - 1] + r * v[2 * k + 1]
            },
    )
}

/// The layer folded with the challenges from the last one to the first.
pub open spec fn rfold(v: Seq<int>, rs: Seq<int>, lag: bool) -> Seq<int>
    decreases rs.len(),
{
    if rs.len() == 0 {
        v
    } else {
        rfold(pair_fold(v, rs.last(), lag), rs.drop_last(), lag)
    }
}

/// The Sumcheck message after the first `rs.len()` variables are fixed: the
/// hypercube sums of the two halves of the remaining polynomial, split on the
/// next variable.
pub open spec fn round_sums(c: Seq<int>, rs: Seq<int>, lag: bool) -> (int, int) {
    (sum_tree(evens(folds(c, rs, lag)), lag), sum_tree(odds(folds(c, rs, lag)), lag))
}

proof fn lemma_tnode_concat(c: Seq<int>, n: nat, j: nat, t: nat)
    requires
        c.len() == pow2(n),
        1 <= j <= n,
        t < pow2(j),
    ensures
        tnode(c, pow2(j) + t) == (if t < pow2((j - 1) as nat) {
            tnode(evens(c), pow2((j - 1) as nat) + t)
        } else {
            tnode(odds(c), t)
        }),
    decreases j,
{
    vstd::arithmetic::power2::lemma_pow2_unfold(j);
    vstd::arithmetic::power2::lemma_pow2_pos((j - 1) as nat);
    if j == 1 {
        vstd::arithmetic::power2::lemma2_to64();
        assert(tnode(c, 1) == c);
        assert(tnode(evens(c), 1) == evens(c));
        assert(tnode(odds(c), 1) == odds(c));
        if t == 0 {
            assert(tnode(c, 2) == evens(tnode(c, 1)));
        } else {
            assert(tnode(c, 3) == odds(tnode(c, 1)));
        }
    } else {
        let m = (j - 1) as nat;
        let pm = pow2(m);
        let pj = pow2(j);
        vstd::arithmetic::power2::lemma_pow2_unfold(m);
        vstd::arithmetic::power2::lemma_pow2_pos((m - 1) as nat);
        lemma_tnode_concat(c, n, m, t / 2);
        let big = pj + t;
        assert(big / 2 == pm + t / 2);
        assert(big % 2 == t % 2);
        if t < pm {
            assert(t / 2 < pow2((m - 1) as nat));
            let q = pm + t;
            assert(q / 2 == pow2((m - 1) as nat) + t / 2);
            assert(q % 2 == t % 2);
            assert(q > 1);
        } else {
            assert(t / 2 >= pow2((m - 1) as nat));
            assert(t > 1);
        }
    }
}

/// A layer of the tree is the same layer of the even subtree followed by the
/// same layer of the odd subtree.
proof fn lemma_layer_concat(c: Seq<int>, n: nat, j: nat, lag: bool)
    requires
        c.len() == pow2(n),
        1 <= j <= n,
    ensures
        layer_vals(c, j, lag) == layer_vals(evens(c), (j - 1) as nat, lag) + layer_vals(odds(c), (j - 1)
            as nat, lag),
{
    let m = (j - 1) as nat;
    vstd::arithmetic::power2::lemma_pow2_unfold(j);
    let rhs = layer_vals(evens(c), m, lag) + layer_vals(odds(c), m, lag);
    assert forall|t: int| 0 <= t < pow2(j) implies #[trigger] layer_vals(c, j, lag)[t] == rhs[t] by {
        lemma_tnode_concat(c, n, j, t as nat);
    }
    assert(layer_vals(c, j, lag) =~= rhs);
}

#[verifier::spinoff_prover]
proof fn lemma_pair_fold_concat(x: Seq<int>, y: Seq<int>, r: int, lag: bool)
    requires
        x.len() == y.len(),
        x.len() % 4 == 0,
    ensures
        pair_fold(x + y, r, lag) == pair_fold(x, r, lag) + pair_fold(y, r, lag),
{
    let h = x.len() / 2;
    assert(h % 2 == 0);
    assert forall|k: int| 0 <= k < pair_fold(x + y, r, lag).len() implies #[trigger] pair_fold(
        x + y,
        r,
        lag,
    )[k] == (pair_fold(x, r, lag) + pair_fold(y, r, lag))[k] by {
        if k >= h {
            let k2 = k - h;
            assert(k % 2 == k2 % 2);
        }
    }
    assert(pair_fold(x + y, r, lag) =~= pair_fold(x, r, lag) + pair_fold(y, r, lag));
}

proof fn lemma_rfold_concat(x: Seq<int>, y: Seq<int>, rs: Seq<int>, lag: bool)
    requires
        x.len() == pow2(rs.len() + 1),
        y.len() == x.len(),
    ensures
        rfold(x + y, rs, lag) == rfold(x, rs, lag) + rfold(y, rs, lag),
        rfold(x, rs, lag).len() == 2,
        rfold(y, rs, lag).len() == 2,
    decreases rs.len(),
{
    if rs.len() == 0 {
        vstd::arithmetic::power2::lemma2_to64();
    } else {
        let m = rs.len();
        lemma_half_len(x.len(), m);
        lemma_half_len(pow2(m), (m - 1) as nat);
        assert(x.len() % 4 == 0);
        lemma_pair_fold_concat(x, y, rs.last(), lag);
        lemma_rfold_concat(pair_fold(x, rs.last(), lag), pair_fold(y, rs.last(), lag), rs.drop_last(), lag);
    }
}

proof fn lemma_rfold_first(v: Seq<int>, rs: Seq<int>, lag: bool)
    requires
        rs.len() >= 1,
    ensures
        rfold(v, rs, lag) == pair_fold(rfold(v, rs.drop_first(), lag), rs[0], lag),
    decreases rs.len(),
{
    if rs.len() == 1 {
        assert(rs.drop_last().len() == 0);
        assert(rs.drop_first().len() == 0);
        assert(rs.last() == rs[0]);
        assert(rfold(v, rs.drop_first(), lag) == v);
        assert(rfold(pair_fold(v, rs.last(), lag), rs.drop_last(), lag) == pair_fold(v, rs.last(), lag));
    } else {
        lemma_rfold_first(pair_fold(v, rs.last(), lag), rs.drop_last(), lag);
        assert(rs.drop_last().drop_first() =~= rs.drop_first().drop_last());
        assert(rs.drop_first().last() == rs.last());
        assert(rs.drop_last()[0] == rs[0]);
    }
}

/// Fixing the first variable combines the even and odd halves.
pub proof fn lemma_fold_vars_is_lin(c: Seq<int>, r: int, lag: bool)
    ensures
        fold_vars(c, r, lag) == lin(evens(c), odds(c), weight_even(r, lag), r),
{
    assert(fold_vars(c, r, lag) =~= lin(evens(c), odds(c), weight_even(r, lag), r));
}

/// Folding layer `j` of the sum circuit with the challenges `r_{j-1}, …, r_1`
/// yields the round sums after fixing the first `j - 1` variables.
pub proof fn lemma_round_fold(c: Seq<int>, n: nat, rs: Seq<int>, lag: bool)
    requires
        c.len() == pow2(n),
        rs.len() < n,
    ensures
        rfold(layer_vals(c, rs.len() + 1, lag), rs, lag) == seq![round_sums(c, rs, lag).0, round_sums(c, rs, lag).1],
    decreases rs.len(),
{
    let j = rs.len() + 1;
    if rs.len() == 0 {
        vstd::arithmetic::power2::lemma2_to64();
        let l = layer_vals(c, 1, lag);
        assert(tnode(c, 2) == evens(tnode(c, 1)));
        assert(tnode(c, 3) == odds(tnode(c, 1)));
        assert(l =~= seq![round_sums(c, rs, lag).0, round_sums(c, rs, lag).1]);
    } else {
        let m = (n - 1) as nat;
        let ev = evens(c);
        let od = odds(c);
        let rest = rs.drop_first();
        let r0 = rs[0];
        let w = weight_even(r0, lag);
        lemma_half_len(c.len(), m);
        lemma_layer_concat(c, n, j, lag);
        lemma_rfold_first(layer_vals(c, j, lag), rs, lag);
        lemma_rfold_concat(layer_vals(ev, (j - 1) as nat, lag), layer_vals(od, (j - 1) as nat, lag), rest, lag);
        lemma_round_fold(ev, m, rest, lag);
        lemma_round_fold(od, m, rest, lag);
        let inner = rfold(layer_vals(ev, (j - 1) as nat, lag), rest, lag) + rfold(layer_vals(od, (j - 1) as nat, lag), rest, lag);
        assert(inner.len() == 4);
        let pf = pair_fold(inner, r0, lag);
        assert(pf[0] == w * inner[0] + r0 * inner[2]);
        assert(pf[1] == w * inner[1] + r0 * inner[3]);
        // the algebra: fixing x1 = r0 is a linear combination of the halves
        lemma_fold_vars_is_lin(c, r0, lag);
        lemma_folds_lin(ev, od, w, r0, rest, lag);
        let fe = folds(ev, rest, lag);
        let fo = folds(od, rest, lag);
        assert(folds(c, rs, lag) == folds(lin(ev, od, w, r0), rest, lag));
        lemma_evens_lin(fe, fo, w, r0);
        lemma_sum_tree_lin(evens(fe), evens(fo), w, r0, lag);
        lemma_sum_tree_lin(odds(fe), odds(fo), w, r0, lag);
        assert(pf =~= seq![round_sums(c, rs, lag).0, round_sums(c, rs, lag).1]);
    }
}

/// Folding halves the length of a layer.
pub proof fn lemma_rfold_len(v: Seq<int>, rs: Seq<int>, e: nat, lag: bool)
    requires
        v.len() == pow2(rs.len() + e),
    ensures
        rfold(v, rs, lag).len() == pow2(e),
    decreases rs.len(),
{
    if rs.len() > 0 {
        lemma_half_len(v.len(), (rs.len() - 1 + e) as nat);
        lemma_rfold_len(pair_fold(v, rs.last(), lag), rs.drop_last(), e, lag);
    }
}

/// Folding with the challenge `r` first: the earliest challenge is applied
/// last.
pub proof fn lemma_rfold_prepend(v: Seq<int>, rs: Seq<int>, i: int, m: int, lag: bool)
    requires
        0 <= i < m <= rs.len(),
    ensures
        rfold(v, rs.subrange(i, m), lag) == pair_fold(rfold(v, rs.subrange(i + 1, m), lag), rs[i], lag),
{
    lemma_rfold_first(v, rs.subrange(i, m), lag);
    assert(rs.subrange(i, m).drop_first() =~= rs.subrange(i + 1, m));
}


// ---------------------------------------------------------------------------
// Univariate polynomials
// ---------------------------------------------------------------------------

/// `Σ_{k < m} c[k]·r^k`: the first `m` terms of the univariate polynomial with
/// coefficients `c`, evaluated at `r`.
pub open spec fn uni_sum(c: Seq<int>, r: int, m: nat) -> int
    decreases m,
{
    if m == 0 {
        0
    } else {
        uni_sum(c, r, (m - 1) as nat) + c[m - 1] * pow(r, (m - 1) as nat)
    }
}

/// The repeated squares `r, r^2, r^4, …, r^{2^{n-1}}`.
pub open spec fn square_powers(r: int, n: nat) -> Seq<int> {
    Seq::new(n, |k: int| pow(r, pow2(k as nat)))
}

/// Squaring and one more factor in terms of `pow`.
pub proof fn lemma_pow_step(r: int, m: nat)
    ensures
        pow(r * r, m) == pow(r, 2 * m),
        r * pow(r, 2 * m) == pow(r, 2 * m + 1),
        pow(r, 0) == 1,
{
    lemma_square_is_pow2(r);
    lemma_pow_multiplies(r, 2, m);
    lemma_pow_adds(r, 1, 2 * m);
    lemma_pow1(r);
    lemma_pow0(r);
}

/// Even and odd powers apart: `f(r) = f_even(r²) + r·f_odd(r²)`.
pub proof fn lemma_uni_split(c: Seq<int>, r: int, m: nat)
    requires
        2 * m <= c.len(),
    ensures
        uni_sum(c, r, 2 * m) == uni_sum(evens(c), r * r, m) + r * uni_sum(odds(c), r * r, m),
    decreases m,
{
    if m > 0 {
        let k = (m - 1) as nat;
        let ki = k as int;
        lemma_uni_split(c, r, k);
        lemma_pow_step(r, k);
        let p = pow(r, 2 * k);
        let q = pow(r, 2 * k + 1);
        let se = uni_sum(evens(c), r * r, k);
        let so = uni_sum(odds(c), r * r, k);
        assert(uni_sum(c, r, (2 * k + 1) as nat) == uni_sum(c, r, 2 * k) + c[2 * ki] * p);
        assert(uni_sum(c, r, 2 * m) == uni_sum(c, r, (2 * k + 1) as nat) + c[2 * ki + 1] * q);
        assert(uni_sum(evens(c), r * r, m) == se + c[2 * ki] * p);
        assert(uni_sum(odds(c), r * r, m) == so + c[2 * ki + 1] * p);
        assert(r * (so + c[2 * ki + 1] * p) == r * so + c[2 * ki + 1] * (r * p)) by (nonlinear_arith);
    }
}

/// Fixing the first variable to `r` pairs each even coefficient with the
/// next one: the pairs, taken at `r²`, give back `f(r)`.
pub proof fn lemma_uni_fold(c: Seq<int>, r: int, m: nat)
    requires
        2 * m <= c.len(),
    ensures
        uni_sum(fold_vars(c, r, false), r * r, m) == uni_sum(c, r, 2 * m),
    decreases m,
{
    lemma_uni_split(c, r, m);
    lemma_uni_fold_lin(c, r, m);
}

proof fn lemma_uni_fold_lin(c: Seq<int>, r: int, m: nat)
    requires
        2 * m <= c.len(),
    ensures
        uni_sum(fold_vars(c, r, false), r * r, m) == uni_sum(evens(c), r * r, m) + r * uni_sum(
            odds(c),
            r * r,
            m,
        ),
    decreases m,
{
    if m > 0 {
        let k = (m - 1) as nat;
        let ki = k as int;
        lemma_uni_fold_lin(c, r, k);
        let p = pow(r * r, k);
        let f = fold_vars(c, r, false);
        let se = uni_sum(evens(c), r * r, k);
        let so = uni_sum(odds(c), r * r, k);
        assert(f[k as int] == 1 * c[2 * ki] + r * c[2 * ki + 1]);
        assert((1 * c[2 * ki] + r * c[2 * ki + 1]) * p == c[2 * ki] * p + r * (c[2 * ki + 1] * p))
            by (nonlinear_arith);
        assert(r * (so + c[2 * ki + 1] * p) == r * so + r * (c[2 * ki + 1] * p)) by (nonlinear_arith);
    }
}

proof fn lemma_square_powers_step(r: int, n: nat)
    requires
        n >= 1,
    ensures
        square_powers(r, n)[0] == r,
        square_powers(r, n).drop_first() == square_powers(r * r, (n - 1) as nat),
        square_powers(r, n).reverse().last() == r,
        square_powers(r, n).reverse().drop_last() == square_powers(r * r, (n - 1) as nat).reverse(),
{
    vstd::arithmetic::power2::lemma2_to64();
    lemma_pow1(r);
    let a = square_powers(r, n);
    let b = square_powers(r * r, (n - 1) as nat);
    assert forall|k: int| 0 <= k < n - 1 implies #[trigger] a[k + 1] == b[k] by {
        vstd::arithmetic::power2::lemma_pow2_unfold((k + 1) as nat);
        lemma_pow_step(r, pow2(k as nat));
    }
    assert(a.drop_first() =~= b);
    assert(a.reverse().drop_last() =~= b.reverse());
}

/// Evaluating the coefficients as a multilinear polynomial at
/// `(r, r², r⁴, …)` gives the univariate value `f(r)`.
pub proof fn lemma_uni_estrin(c: Seq<int>, r: int, n: nat)
    requires
        c.len() == pow2(n),
    ensures
        eval_ml(c, square_powers(r, n), false) == uni_sum(c, r, pow2(n)),
    decreases n,
{
    vstd::arithmetic::power2::lemma2_to64();
    if n == 0 {
        lemma_pow0(r);
        assert(square_powers(r, 0) =~= Seq::<int>::empty());
        assert(uni_sum(c, r, 1) == uni_sum(c, r, 0) + c[0] * pow(r, 0));
    } else {
        let m = (n - 1) as nat;
        lemma_half_len(c.len(), m);
        lemma_square_powers_step(r, n);
        let f = fold_vars(c, r, false);
        let sp = square_powers(r, n);
        assert(folds(c, sp, false) == folds(f, sp.drop_first(), false));
        lemma_uni_estrin(f, r * r, m);
        lemma_uni_fold(c, r, pow2(m));
        assert(2 * pow2(m) == pow2(n));
    }
}

/// Folding pairs of a concatenation folds each part.
proof fn lemma_fold_vars_concat(x: Seq<int>, y: Seq<int>, r: int, lag: bool)
    requires
        x.len() % 2 == 0,
    ensures
        fold_vars(x + y, r, lag) == fold_vars(x, r, lag) + fold_vars(y, r, lag),
{
    let h = x.len() / 2;
    assert forall|s: int| 0 <= s < fold_vars(x + y, r, lag).len() implies #[trigger] fold_vars(
        x + y,
        r,
        lag,
    )[s] == (fold_vars(x, r, lag) + fold_vars(y, r, lag))[s] by {
        if s >= h {
            assert((x + y)[2 * s] == y[2 * (s - h)]);
            assert((x + y)[2 * s + 1] == y[2 * (s - h) + 1]);
        }
    }
    assert(fold_vars(x + y, r, lag) =~= fold_vars(x, r, lag) + fold_vars(y, r, lag));
}

/// Fixing variables of two equal blocks side by side fixes them in each.
pub proof fn lemma_folds_concat(x: Seq<int>, y: Seq<int>, rs: Seq<int>, e: nat, lag: bool)
    requires
        x.len() == pow2(rs.len() + e),
        y.len() == x.len(),
    ensures
        folds(x + y, rs, lag) == folds(x, rs, lag) + folds(y, rs, lag),
    decreases rs.len(),
{
    if rs.len() > 0 {
        lemma_half_len(x.len(), (rs.len() - 1 + e) as nat);
        lemma_fold_vars_concat(x, y, rs[0], lag);
        lemma_folds_concat(fold_vars(x, rs[0], lag), fold_vars(y, rs[0], lag), rs.drop_first(), e, lag);
    }
}

/// The bit-reversed order of `c` is that of its even entries followed by
/// that of its odd entries.
pub proof fn lemma_bitrev_concat(c: Seq<int>, n: nat)
    requires
        c.len() == pow2(n),
        n >= 1,
    ensures
        bitrev_leaves(c, n) == bitrev_leaves(evens(c), (n - 1) as nat) + bitrev_leaves(odds(c), (n - 1)
            as nat),
{
    let m = (n - 1) as nat;
    lemma_half_len(c.len(), m);
    let rhs = bitrev_leaves(evens(c), m) + bitrev_leaves(odds(c), m);
    assert forall|k: int| 0 <= k < c.len() implies #[trigger] bitrev_leaves(c, n)[k] == rhs[k] by {
        crate::circuit::canonical::lemma_rev_bits_top(k as nat, m);
        vstd::arithmetic::power2::lemma_pow2_pos(m);
        if k < pow2(m) {
            vstd::arithmetic::div_mod::lemma_small_mod(k as nat, pow2(m));
            vstd::arithmetic::div_mod::lemma_basic_div(k, pow2(m) as int);
            crate::circuit::canonical::lemma_rev_bits_bound(k as nat, m);
        } else {
            let k2 = k - pow2(m);
            vstd::arithmetic::div_mod::lemma_fundamental_div_mod_converse(k, pow2(m) as int, 1, k2);
            crate::circuit::canonical::lemma_rev_bits_bound(k2 as nat, m);
        }
    }
    assert(bitrev_leaves(c, n) =~= rhs);
}

/// Folding the bit-reversed coefficients with `r^{2^{n-1}}, …, r², r`
/// gives the univariate value `f(r)`.
pub proof fn lemma_uni_circuit(c: Seq<int>, r: int, n: nat)
    requires
        c.len() == pow2(n),
    ensures
        folds(bitrev_leaves(c, n), square_powers(r, n).reverse(), false).len() == 1,
        eval_ml(bitrev_leaves(c, n), square_powers(r, n).reverse(), false) == uni_sum(c, r, pow2(n)),
    decreases n,
{
    vstd::arithmetic::power2::lemma2_to64();
    if n == 0 {
        lemma_pow0(r);
        assert(square_powers(r, 0).reverse() =~= Seq::<int>::empty());
        assert(crate::circuit::canonical::rev_bits(0, 0) == 0);
        assert(uni_sum(c, r, 1) == uni_sum(c, r, 0) + c[0] * pow(r, 0));
    } else {
        let m = (n - 1) as nat;
        lemma_half_len(c.len(), m);
        lemma_square_powers_step(r, n);
        let ps = square_powers(r, n).reverse();
        let qs = square_powers(r * r, m).reverse();
        let ev = evens(c);
        let od = odds(c);
        lemma_bitrev_concat(c, n);
        lemma_uni_circuit(ev, r * r, m);
        lemma_uni_circuit(od, r * r, m);
        lemma_folds_concat(bitrev_leaves(ev, m), bitrev_leaves(od, m), qs, 0, false);
        assert(ps == qs.push(r)) by {
            assert(ps =~= ps.drop_last().push(ps.last()));
        }
        lemma_folds_push(bitrev_leaves(c, n), qs, r, false);
        let x = folds(bitrev_leaves(ev, m), qs, false);
        let y = folds(bitrev_leaves(od, m), qs, false);
        assert((x + y).len() == 2);
        assert(fold_vars(x + y, r, false)[0] == 1 * x[0] + r * y[0]);
        lemma_uni_split(c, r, pow2(m));
        assert(2 * pow2(m) == pow2(n));
    }
}


/// Horner's rule: `f(r) = α₀ + r·(α₁ + r·(α₂ + …))`.
pub proof fn lemma_uni_horner(d: Seq<int>, r: int, m: nat)
    requires
        m + 1 <= d.len(),
    ensures
        uni_sum(d, r, m + 1) == d[0] + r * uni_sum(d.drop_first(), r, m),
    decreases m,
{
    lemma_pow0(r);
    if m == 0 {
        assert(uni_sum(d, r, 1) == uni_sum(d, r, 0) + d[0] * pow(r, 0));
    } else {
        let k = (m - 1) as nat;
        lemma_uni_horner(d, r, k);
        let t = d.drop_first();
        lemma_pow_adds(r, 1, k);
        lemma_pow1(r);
        assert(pow(r, m) == r * pow(r, k));
        assert(uni_sum(d, r, m + 1) == uni_sum(d, r, m) + d[m as int] * pow(r, m));
        assert(uni_sum(t, r, m) == uni_sum(t, r, k) + t[k as int] * pow(r, k));
        assert(t[k as int] == d[m as int]);
        assert(r * (uni_sum(t, r, k) + d[m as int] * pow(r, k)) == r * uni_sum(t, r, k) + d[m as int] * (r
            * pow(r, k))) by (nonlinear_arith);
    }
}


// ---------------------------------------------------------------------------
// From coefficients to hypercube values
// ---------------------------------------------------------------------------

/// The values of the canonical polynomial `c` in `n` variables on the Boolean
/// hypercube: entry `b` is `f` at the point whose coordinates are the bits of
/// `b`, lowest first.
pub open spec fn hypercube_table(c: Seq<int>, n: nat) -> Seq<int> {
    Seq::new(pow2(n), |b: int| eval_ml(c, bool_point(b as nat, n), false))
}

/// Node `j` (1-based, heap order) of the canonical-to-Lagrange tree: the root
/// is `c`, and node `2j` (`2j + 1`) is node `j` with its first variable fixed
/// to `0` (to `1`): the even coefficients `a`, and `a + b`.
pub open spec fn lnode(c: Seq<int>, j: nat) -> Seq<int>
    decreases j,
{
    if j <= 1 {
        c
    } else {
        fold_vars(lnode(c, j / 2), (j % 2) as int, false)
    }
}

/// A Boolean point has one coordinate per variable.
pub proof fn lemma_bool_point_len(b: nat, n: nat)
    ensures
        bool_point(b, n).len() == n,
    decreases n,
{
    if n > 0 {
        lemma_bool_point_len(b / 2, (n - 1) as nat);
    }
}

/// Setting bit `m` of a point below `2^m` appends one coordinate.
pub proof fn lemma_bool_point_push(y: nat, b: nat, m: nat)
    requires
        y < pow2(m),
        b < 2,
    ensures
        bool_point(b * pow2(m) + y, m + 1) == bool_point(y, m).push(b as int),
    decreases m,
{
    vstd::arithmetic::power2::lemma_pow2_pos(m);
    if m == 0 {
        vstd::arithmetic::power2::lemma2_to64();
        assert(b * pow2(0) + y == b);
        assert(bool_point(b, 1) == seq![(b % 2) as int].add(bool_point(b / 2, 0)));
        assert(bool_point(b, 1) =~= bool_point(y, 0).push(b as int));
    } else {
        let k = (m - 1) as nat;
        vstd::arithmetic::power2::lemma_pow2_unfold(m);
        let x = b * pow2(m) + y;
        assert(b * pow2(m) == 2 * (b * pow2(k))) by (nonlinear_arith)
            requires pow2(m) == 2 * pow2(k);
        assert(x % 2 == y % 2);
        assert(x / 2 == b * pow2(k) + y / 2);
        lemma_bool_point_push(y / 2, b, k);
        assert(bool_point(x, m + 1) == seq![(x % 2) as int].add(bool_point(x / 2, m)));
        assert(bool_point(y, m) == seq![(y % 2) as int].add(bool_point(y / 2, k)));
        assert(bool_point(x, m + 1) =~= bool_point(y, m).push(b as int));
    }
}

/// Node `2^i + t` of the canonical-to-Lagrange tree is `c` with its first `i`
/// variables fixed to the bits of `t` read from the top: the Boolean point of
/// the `i`-bit reversal of `t`.
pub proof fn lemma_lnode_path(c: Seq<int>, i: nat, t: nat)
    requires
        t < pow2(i),
    ensures
        lnode(c, pow2(i) + t) == folds(c, bool_point(crate::circuit::canonical::rev_bits(t, i), i), false),
    decreases i,
{
    vstd::arithmetic::power2::lemma_pow2_pos(i);
    if i == 0 {
        vstd::arithmetic::power2::lemma2_to64();
        assert(bool_point(0, 0) =~= Seq::<int>::empty());
    } else {
        let k = (i - 1) as nat;
        vstd::arithmetic::power2::lemma_pow2_unfold(i);
        vstd::arithmetic::power2::lemma_pow2_pos(k);
        let j = pow2(i) + t;
        assert(j / 2 == pow2(k) + t / 2);
        assert(j % 2 == t % 2);
        lemma_lnode_path(c, k, t / 2);
        let y = crate::circuit::canonical::rev_bits(t / 2, k);
        crate::circuit::canonical::lemma_rev_bits_bound(t / 2, k);
        assert(crate::circuit::canonical::rev_bits(t, i) == (t % 2) * pow2(k) + y);
        lemma_bool_point_push(y, t % 2, k);
        lemma_folds_push(c, bool_point(y, k), (t % 2) as int, false);
    }
}

/// The nodes of layer `i` hold `2^(n-i)` coefficients each.
pub proof fn lemma_lnode_len(c: Seq<int>, n: nat, i: nat, t: nat)
    requires
        c.len() == pow2(n),
        i <= n,
        t < pow2(i),
    ensures
        lnode(c, pow2(i) + t).len() == pow2((n - i) as nat),
{
    lemma_lnode_path(c, i, t);
    let b = crate::circuit::canonical::rev_bits(t, i);
    lemma_bool_point_len(b, i);
    lemma_folds_len(c, bool_point(b, i), n, false);
}

/// Leaf `k` of the canonical-to-Lagrange tree holds `f` at the Boolean point
/// `rev(k)`.
pub proof fn lemma_lnode_leaf(c: Seq<int>, n: nat, k: nat)
    requires
        c.len() == pow2(n),
        k < pow2(n),
    ensures
        lnode(c, pow2(n) + k).len() == 1,
        lnode(c, pow2(n) + k)[0] == hypercube_table(c, n)[crate::circuit::canonical::rev_bits(k, n) as int],
{
    lemma_lnode_len(c, n, n, k);
    lemma_lnode_path(c, n, k);
    crate::circuit::canonical::lemma_rev_bits_bound(k, n);
    vstd::arithmetic::power2::lemma2_to64();
}

/// The even and odd halves of the table are the tables of `f` with its first
/// variable fixed to `0` and to `1`.
pub proof fn lemma_table_halves(c: Seq<int>, n: nat)
    requires
        n >= 1,
    ensures
        evens(hypercube_table(c, n)) == hypercube_table(fold_vars(c, 0, false), (n - 1) as nat),
        odds(hypercube_table(c, n)) == hypercube_table(fold_vars(c, 1, false), (n - 1) as nat),
{
    let m = (n - 1) as nat;
    vstd::arithmetic::power2::lemma_pow2_unfold(n);
    let t = hypercube_table(c, n);
    assert forall|s: int| 0 <= s < pow2(m) implies #[trigger] evens(t)[s] == hypercube_table(
        fold_vars(c, 0, false),
        m,
    )[s] by {
        let p0 = bool_point((2 * s) as nat, n);
        assert(p0 == seq![0int].add(bool_point(s as nat, m)));
        assert(p0.drop_first() =~= bool_point(s as nat, m));
        assert(folds(c, p0, false) == folds(fold_vars(c, 0, false), p0.drop_first(), false));
    }
    assert forall|s: int| 0 <= s < pow2(m) implies #[trigger] odds(t)[s] == hypercube_table(
        fold_vars(c, 1, false),
        m,
    )[s] by {
        let p1 = bool_point((2 * s + 1) as nat, n);
        assert(p1 == seq![1int].add(bool_point(s as nat, m)));
        assert(p1.drop_first() =~= bool_point(s as nat, m));
        assert(folds(c, p1, false) == folds(fold_vars(c, 1, false), p1.drop_first(), false));
    }
    assert(evens(t) =~= hypercube_table(fold_vars(c, 0, false), m));
    assert(odds(t) =~= hypercube_table(fold_vars(c, 1, false), m));
}

/// Tabulating is linear.
proof fn lemma_table_lin(x: Seq<int>, y: Seq<int>, a: int, b: int, n: nat)
    requires
        x.len() == pow2(n),
        y.len() == x.len(),
    ensures
        hypercube_table(lin(x, y, a, b), n) == lin(hypercube_table(x, n), hypercube_table(y, n), a, b),
{
    assert forall|k: int| 0 <= k < pow2(n) implies #[trigger] hypercube_table(lin(x, y, a, b), n)[k]
        == lin(hypercube_table(x, n), hypercube_table(y, n), a, b)[k] by {
        lemma_folds_lin(x, y, a, b, bool_point(k as nat, n), false);
        lemma_bool_point_len(k as nat, n);
        lemma_folds_len(x, bool_point(k as nat, n), n, false);
        vstd::arithmetic::power2::lemma2_to64();
    }
    assert(hypercube_table(lin(x, y, a, b), n) =~= lin(hypercube_table(x, n), hypercube_table(y, n), a, b));
}

/// Fixing a coefficient variable to `r` mixes the two Boolean restrictions
/// with weights `1 - r` and `r`.
proof fn lemma_fold_vars_interpolates(c: Seq<int>, r: int)
    ensures
        fold_vars(c, r, false) == lin(fold_vars(c, 0, false), fold_vars(c, 1, false), 1 - r, r),
{
    assert forall|s: int| 0 <= s < c.len() / 2 implies #[trigger] fold_vars(c, r, false)[s] == lin(
        fold_vars(c, 0, false),
        fold_vars(c, 1, false),
        1 - r,
        r,
    )[s] by {
        let a = c[2 * s];
        let b = c[2 * s + 1];
        assert((1 - r) * (1 * a + 0 * b) + r * (1 * a + 1 * b) == 1 * a + r * b) by (nonlinear_arith);
    }
    assert(fold_vars(c, r, false) =~= lin(fold_vars(c, 0, false), fold_vars(c, 1, false), 1 - r, r));
}

/// Fixing variables of the table in the Lagrange basis is fixing them in the
/// coefficients and tabulating the rest.
pub proof fn lemma_table_folds(c: Seq<int>, n: nat, rs: Seq<int>)
    requires
        c.len() == pow2(n),
        rs.len() <= n,
    ensures
        folds(hypercube_table(c, n), rs, true) == hypercube_table(folds(c, rs, false), (n - rs.len()) as nat),
    decreases rs.len(),
{
    if rs.len() > 0 {
        let m = (n - 1) as nat;
        let r = rs[0];
        let t = hypercube_table(c, n);
        let c0 = fold_vars(c, 0, false);
        let c1 = fold_vars(c, 1, false);
        lemma_half_len(c.len(), m);
        lemma_table_halves(c, n);
        lemma_fold_vars_is_lin(t, r, true);
        lemma_table_lin(c0, c1, 1 - r, r, m);
        lemma_fold_vars_interpolates(c, r);
        assert(fold_vars(t, r, true) == hypercube_table(fold_vars(c, r, false), m));
        lemma_table_folds(fold_vars(c, r, false), m, rs.drop_first());
    }
}

/// **Cross-basis evaluation.** The Lagrange polynomial on the hypercube table
/// of `f` takes the value of `f` at every point.
pub proof fn lemma_table_eval(c: Seq<int>, n: nat, rs: Seq<int>)
    requires
        c.len() == pow2(n),
        rs.len() == n,
    ensures
        eval_ml(hypercube_table(c, n), rs, true) == eval_ml(c, rs, false),
{
    lemma_table_folds(c, n, rs);
    lemma_folds_len(c, rs, n, false);
    vstd::arithmetic::power2::lemma2_to64();
    assert(bool_point(0, 0) =~= Seq::<int>::empty());
}

/// **Cross-basis sum.** The sum of the table's entries is the canonical
/// hypercube sum of `f`.
pub proof fn lemma_table_sum(c: Seq<int>, n: nat)
    requires
        c.len() == pow2(n),
    ensures
        sum_tree(hypercube_table(c, n), true) == sum_tree(c, false),
    decreases n,
{
    vstd::arithmetic::power2::lemma2_to64();
    if n == 0 {
        assert(bool_point(0, 0) =~= Seq::<int>::empty());
    } else {
        let m = (n - 1) as nat;
        lemma_half_len(c.len(), m);
        vstd::arithmetic::power2::lemma_pow2_unfold(n);
        vstd::arithmetic::power2::lemma_pow2_pos(m);
        let c0 = fold_vars(c, 0, false);
        let c1 = fold_vars(c, 1, false);
        lemma_table_halves(c, n);
        lemma_table_sum(c0, m);
        lemma_table_sum(c1, m);
        lemma_fold_vars_is_lin(c, 0, false);
        lemma_fold_vars_is_lin(c, 1, false);
        assert(c0 =~= evens(c));
        lemma_sum_tree_lin(evens(c), odds(c), 1, 1, false);
    }
}


// ---------------------------------------------------------------------------
// Sizes of decomposition trees
// ---------------------------------------------------------------------------

/// Node `j ≥ 1` of a tree with `2^(n+1) - 1` nodes is entry `t` of layer
/// `i ≤ n`: `j = 2^i + t` with `t < 2^i`.
pub proof fn lemma_node_position(j: nat, n: nat) -> (it: (nat, nat))
    requires
        1 <= j < 2 * pow2(n),
    ensures
        it.0 <= n,
        it.1 < pow2(it.0),
        j == pow2(it.0) + it.1,
{
    lemma_node_layer(j);
    let i = vstd::arithmetic::logarithm::log(2, j as int) as nat;
    if i > n {
        vstd::arithmetic::power2::lemma_pow2_unfold(n + 1);
        if i > n + 1 {
            vstd::arithmetic::power2::lemma_pow2_strictly_increases(n + 1, i);
        }
        assert(false);
    }
    (i, (j - pow2(i)) as nat)
}

/// The sum of a sequence of sizes.
pub open spec fn seq_total(ls: Seq<int>) -> int
    decreases ls.len(),
{
    if ls.len() == 0 {
        0
    } else {
        seq_total(ls.drop_last()) + ls.last()
    }
}

/// The size of node `2^i + t` in a list of node sizes stored from node `1`.
pub open spec fn node_size(ls: Seq<int>, i: nat, t: nat) -> int {
    ls[pow2(i) + t - 1]
}

/// A run of `m` equal sizes `l` adds `m·l`.
proof fn lemma_seq_total_run(ls: Seq<int>, a: nat, m: nat, l: int)
    requires
        a + m <= ls.len(),
        forall|k: int| a <= k < a + m ==> #[trigger] ls[k] == l,
    ensures
        seq_total(ls.take(a + m as int)) == seq_total(ls.take(a as int)) + m * l,
    decreases m,
{
    if m == 0 {
        assert(m * l == 0);
        assert(a + m as int == a as int);
    } else {
        let k = (m - 1) as nat;
        lemma_seq_total_run(ls, a, k, l);
        assert(ls.take(a + m as int).drop_last() =~= ls.take(a + k as int));
        assert(ls.take(a + m as int).last() == ls[a + k as int]);
        assert(ls[a + k as int] == l);
        assert(seq_total(ls.take(a + m as int)) == seq_total(ls.take(a + m as int).drop_last()) + ls.take(
            a + m as int,
        ).last());
        assert(k * l + l == m * l) by (nonlinear_arith)
            requires m == k + 1;
        assert(seq_total(ls.take(a + k as int)) == seq_total(ls.take(a as int)) + k * l);
    }
}

/// In a tree of `2^(n+1) - 1` nodes where each node of layer `i` holds
/// `2^(n-i)` entries, the sizes add up to `(n+1)·2^n`: every layer holds
/// `2^n`.
pub proof fn lemma_tree_total(ls: Seq<int>, n: nat)
    requires
        ls.len() == 2 * pow2(n) - 1,
        forall|i: nat, t: nat| i <= n && t < pow2(i) ==> #[trigger] node_size(ls, i, t) == pow2(
            (n - i) as nat,
        ),
    ensures
        seq_total(ls) == (n + 1) * pow2(n),
{
    lemma_layers_total(ls, n, n + 1);
    vstd::arithmetic::power2::lemma_pow2_unfold(n + 1);
    assert(ls.take(ls.len() as int) =~= ls);
}

proof fn lemma_layers_total(ls: Seq<int>, n: nat, i: nat)
    requires
        i <= n + 1,
        ls.len() == 2 * pow2(n) - 1,
        forall|i: nat, t: nat| i <= n && t < pow2(i) ==> #[trigger] node_size(ls, i, t) == pow2(
            (n - i) as nat,
        ),
    ensures
        pow2(i) - 1 <= ls.len(),
        seq_total(ls.take(pow2(i) - 1)) == i * pow2(n),
    decreases i,
{
    vstd::arithmetic::power2::lemma_pow2_pos(i);
    if i == 0 {
        vstd::arithmetic::power2::lemma2_to64();
        assert(ls.take(0) =~= Seq::<int>::empty());
    } else {
        let k = (i - 1) as nat;
        lemma_layers_total(ls, n, k);
        vstd::arithmetic::power2::lemma_pow2_unfold(i);
        vstd::arithmetic::power2::lemma_pow2_pos(k);
        if i < n + 1 {
            vstd::arithmetic::power2::lemma_pow2_unfold(n + 1);
            if i < n {
                vstd::arithmetic::power2::lemma_pow2_strictly_increases(i, n);
            }
        }
        let a = (pow2(k) - 1) as nat;
        let l = pow2((n - k) as nat);
        assert forall|j: int| a <= j < a + pow2(k) implies #[trigger] ls[j] == l by {
            let t = (j - a) as nat;
            assert(node_size(ls, k, t) == l);
        }
        lemma_seq_total_run(ls, a, pow2(k), l as int);
        assert(pow2(k) * pow2((n - k) as nat) == pow2(n)) by {
            vstd::arithmetic::power2::lemma_pow2_adds(k, (n - k) as nat);
        }
        assert(k * pow2(n) + pow2(n) == i * pow2(n)) by (nonlinear_arith)
            requires i == k + 1;
    }
}


/// A prefix of nonnegative sizes adds up to no more than the whole.
pub proof fn lemma_seq_total_prefix(ls: Seq<int>, m: nat)
    requires
        m <= ls.len(),
        forall|k: int| 0 <= k < ls.len() ==> #[trigger] ls[k] >= 0,
    ensures
        seq_total(ls.take(m as int)) <= seq_total(ls),
    decreases ls.len(),
{
    if m < ls.len() {
        assert(ls.drop_last().take(m as int) =~= ls.take(m as int));
        lemma_seq_total_prefix(ls.drop_last(), m);
    } else {
        assert(ls.take(m as int) =~= ls);
    }
}


/// Zero coefficients above the top do not change a univariate polynomial:
/// padding `c` with zeros gives the same value at every point.
pub proof fn lemma_zero_padding(c: Seq<int>, p: Seq<int>, r: int)
    requires
        c.len() <= p.len(),
        forall|i: int| 0 <= i < c.len() ==> #[trigger] p[i] == c[i],
        forall|i: int| c.len() <= i < p.len() ==> #[trigger] p[i] == 0,
    ensures
        uni_sum(p, r, p.len()) == uni_sum(c, r, c.len()),
{
    lemma_padding_prefix(c, p, r, c.len());
    lemma_padding_zeros(c, p, r, p.len());
}

proof fn lemma_padding_prefix(c: Seq<int>, p: Seq<int>, r: int, m: nat)
    requires
        m <= c.len() <= p.len(),
        forall|i: int| 0 <= i < c.len() ==> #[trigger] p[i] == c[i],
    ensures
        uni_sum(p, r, m) == uni_sum(c, r, m),
    decreases m,
{
    if m > 0 {
        lemma_padding_prefix(c, p, r, (m - 1) as nat);
        assert(p[m - 1] == c[m - 1]);
    }
}

proof fn lemma_padding_zeros(c: Seq<int>, p: Seq<int>, r: int, m: nat)
    requires
        c.len() <= m <= p.len(),
        forall|i: int| 0 <= i < c.len() ==> #[trigger] p[i] == c[i],
        forall|i: int| c.len() <= i < p.len() ==> #[trigger] p[i] == 0,
    ensures
        uni_sum(p, r, m) == uni_sum(c, r, c.len()),
    decreases m,
{
    if m > c.len() {
        lemma_padding_zeros(c, p, r, (m - 1) as nat);
        assert(p[m - 1] == 0);
        assert(p[m - 1] * pow(r, (m - 1) as nat) == 0);
    } else {
        lemma_padding_prefix(c, p, r, m);
    }
}


/// **Interpolation.** A polynomial given by its hypercube values takes, at a
/// Boolean point, the value stored for that point.
pub proof fn lemma_lagrange_at_boolean(v: Seq<int>, n: nat, b: nat)
    requires
        v.len() == pow2(n),
        b < pow2(n),
    ensures
        eval_ml(v, bool_point(b, n), true) == v[b as int],
    decreases n,
{
    vstd::arithmetic::power2::lemma2_to64();
    if n > 0 {
        let m = (n - 1) as nat;
        lemma_half_len(v.len(), m);
        vstd::arithmetic::power2::lemma_pow2_unfold(n);
        let bit = (b % 2) as int;
        let w = fold_vars(v, bit, true);
        assert forall|s: int| 0 <= s < w.len() implies #[trigger] w[s] == v[2 * s + bit] by {
            assert(w[s] == (1 - bit) * v[2 * s] + bit * v[2 * s + 1]);
            let x = v[2 * s];
            let y = v[2 * s + 1];
            if bit == 0 {
                assert((1 - bit) * x + bit * y == x) by (nonlinear_arith)
                    requires bit == 0;
            } else {
                assert((1 - bit) * x + bit * y == y) by (nonlinear_arith)
                    requires bit == 1;
            }
        }
        let p = bool_point(b, n);
        assert(p.drop_first() =~= bool_point(b / 2, m));
        assert(folds(v, p, true) == folds(w, p.drop_first(), true));
        lemma_lagrange_at_boolean(w, m, b / 2);
        assert(2 * (b / 2) + bit == b);
    }
}


/// **The canonical hypercube sum.** `H(f)` computed from the coefficients is
/// the sum of `f` over all `2^n` Boolean points.
pub proof fn lemma_canonical_sum_is_boolean_sum(c: Seq<int>, n: nat)
    requires
        c.len() == pow2(n),
    ensures
        sum_tree(c, false) == seq_sum(hypercube_table(c, n), pow2(n)),
{
    lemma_table_sum(c, n);
    lemma_seq_sum_is_sum_tree(hypercube_table(c, n), n);
}


/// Fixing the variables of `a` and then those of `b` is fixing those of
/// `a + b`.
pub proof fn lemma_folds_append(c: Seq<int>, a: Seq<int>, b: Seq<int>, lag: bool)
    ensures
        folds(c, a + b, lag) == folds(folds(c, a, lag), b, lag),
    decreases a.len(),
{
    if a.len() == 0 {
        assert(a + b =~= b);
    } else {
        assert((a + b)[0] == a[0]);
        assert((a + b).drop_first() =~= a.drop_first() + b);
        lemma_folds_append(fold_vars(c, a[0], lag), a.drop_first(), b, lag);
    }
}

/// The values of the polynomial `g` in `m` variables at the `2^m` Boolean
/// points, point `b` at index `b`.
pub open spec fn boolean_values(g: Seq<int>, m: nat, lag: bool) -> Seq<int> {
    Seq::new(pow2(m), |b: int| eval_ml(g, bool_point(b as nat, m), lag))
}

/// In either basis, the hypercube sum is the sum of the values at the
/// Boolean points.
pub proof fn lemma_sum_is_boolean_sum(g: Seq<int>, m: nat, lag: bool)
    requires
        g.len() == pow2(m),
    ensures
        sum_tree(g, lag) == seq_sum(boolean_values(g, m, lag), pow2(m)),
{
    if lag {
        assert forall|b: int| 0 <= b < pow2(m) implies #[trigger] boolean_values(g, m, lag)[b] == g[b] by {
            lemma_lagrange_at_boolean(g, m, b as nat);
        }
        assert(boolean_values(g, m, lag) =~= g);
        lemma_seq_sum_is_sum_tree(g, m);
    } else {
        assert(boolean_values(g, m, lag) =~= hypercube_table(g, m));
        lemma_canonical_sum_is_boolean_sum(g, m);
    }
}

/// `Σ_{b < 2^m} f(rs, x, b)`: the sum of `f` over the Boolean points whose
/// first coordinates are `rs` and then `x`.
pub open spec fn partial_boolean_sum(c: Seq<int>, rs: Seq<int>, x: int, m: nat, lag: bool) -> int {
    seq_sum(Seq::new(pow2(m), |b: int| eval_ml(c, rs.push(x) + bool_point(b as nat, m), lag)), pow2(m))
}

/// The partial Boolean sum with `rs, x` fixed is the hypercube sum of the
/// polynomial with those variables fixed.
pub proof fn lemma_partial_boolean_sum(c: Seq<int>, rs: Seq<int>, x: int, m: nat, lag: bool)
    requires
        c.len() == pow2(rs.len() + 1 + m),
    ensures
        partial_boolean_sum(c, rs, x, m, lag) == sum_tree(fold_vars(folds(c, rs, lag), x, lag), lag),
{
    let g = fold_vars(folds(c, rs, lag), x, lag);
    let vs = Seq::new(pow2(m), |b: int| eval_ml(c, rs.push(x) + bool_point(b as nat, m), lag));
    lemma_folds_push(c, rs, x, lag);
    assert forall|b: int| 0 <= b < pow2(m) implies #[trigger] vs[b] == boolean_values(g, m, lag)[b] by {
        lemma_folds_append(c, rs.push(x), bool_point(b as nat, m), lag);
    }
    assert(vs =~= boolean_values(g, m, lag));
    lemma_folds_len(c, rs.push(x), rs.len() + 1 + m, lag);
    lemma_sum_is_boolean_sum(g, m, lag);
}

} // verus!
