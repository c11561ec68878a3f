//! The stateless Sumcheck verifier.
//!
//! Given a [`SumcheckProof`], the challenges `r_1, …, r_n` and an oracle
//! evaluation `f(r_1, …, r_n)`, the verifier checks
//!
//! 1. **Round 1:** `s_1(0) + s_1(1) = claimed_sum`
//! 2. **Rounds 2…n:** `s_j(0) + s_j(1) = s_{j-1}(r_{j-1})`
//! 3. **Final oracle:** `s_n(r_n) = oracle_eval`
//!
//! and reports the first check that fails. With no rounds at all the claimed
//! sum is the polynomial's only value, and it is checked against the oracle.

use vstd::prelude::*;
use vstd::arithmetic::power2::pow2;
use crate::algebra::{
    eval_ml, evens, fold_vars, folds, lemma_fold_vars_is_lin, lemma_folds_len, lemma_folds_push,
    lemma_sum_tree_lin, odds, round_sums, sum_tree, sum_weight, weight_even,
};
use vstd::string::StringExecFns;
use crate::field::{decimal, usize_decimal, fmod, lemma_fmod_add, lemma_fmod_mul, lemma_fmod_sub, vals, Fr};
use super::prover::{round_message, transcript_polys};
use super::transcript::{poly_eval, poly_sum, polys_view, SumcheckProof};

verus! {

/// The check of round `j` (1-based) of a transcript.
pub open spec fn round_check(claimed: int, ps: Seq<(int, int)>, rs: Seq<int>, j: int) -> bool {
    if j == 1 {
        poly_sum(ps[0]) == claimed
    } else {
        poly_sum(ps[j - 1]) == poly_eval(ps[j - 2], rs[j - 2])
    }
}

/// Rounds `1, …, m` all pass.
pub open spec fn rounds_pass(claimed: int, ps: Seq<(int, int)>, rs: Seq<int>, m: int) -> bool {
    forall|j: int| 1 <= j <= m ==> #[trigger] round_check(claimed, ps, rs, j)
}

/// The value the oracle must match: `s_n(r_n)`, or the claimed sum when
/// there are no rounds.
pub open spec fn final_value(claimed: int, ps: Seq<(int, int)>, rs: Seq<int>) -> int {
    if ps.len() == 0 {
        claimed
    } else {
        poly_eval(ps[ps.len() - 1], rs[ps.len() - 1])
    }
}

/// The transcript is accepted: one challenge per round, every round check
/// passes, and the final value matches the oracle.
pub open spec fn accepts(claimed: int, ps: Seq<(int, int)>, rs: Seq<int>, oracle: int) -> bool {
    &&& rs.len() == ps.len()
    &&& rounds_pass(claimed, ps, rs, ps.len() as int)
    &&& final_value(claimed, ps, rs) == oracle
}

/// Which verifier check failed, and the values that caused it.
#[derive(Debug, Clone, PartialEq, Eq)]
pub enum VerifierError {
    /// The number of challenges does not match the number of rounds.
    ChallengeLengthMismatch { expected: usize, got: usize },
    /// Round 1 failed: `s_1(0) + s_1(1) ≠ claimed_sum`.
    Round1SumMismatch { got: Fr, expected: Fr },
    /// Round `j` (2 ≤ j ≤ n) failed: `s_j(0) + s_j(1) ≠ s_{j-1}(r_{j-1})`.
    RoundConsistencyMismatch { round: usize, got: Fr, expected: Fr },
    /// Final oracle check failed: `s_n(r_n) ≠ oracle_eval`.
    OracleCheckFailed { got: Fr, expected: Fr },
}

/// The text that describes a failed check, numbers in decimal.
pub open spec fn error_text(e: VerifierError) -> Seq<char> {
    match e {
        VerifierError::ChallengeLengthMismatch { expected, got } => "challenge length mismatch: expected "@
            + decimal(expected as nat) + ", got "@ + decimal(got as nat),
        VerifierError::Round1SumMismatch { got, expected } => "round 1 sum check failed: s_1(0)+s_1(1) = "@
            + decimal(got@ as nat) + ", expected "@ + decimal(expected@ as nat),
        VerifierError::RoundConsistencyMismatch { round, got, expected } => "round "@ + decimal(
            round as nat,
        ) + " consistency check failed: s_"@ + decimal(round as nat) + "(0)+s_"@ + decimal(round as nat)
            + "(1) = "@ + decimal(got@ as nat) + ", expected "@ + decimal(expected@ as nat),
        VerifierError::OracleCheckFailed { got, expected } => "final oracle check failed: s_n(r_n) = "@
            + decimal(got@ as nat) + ", expected "@ + decimal(expected@ as nat),
    }
}

impl VerifierError {
    /// The description of the failed check.
    pub fn message(&self) -> (m: String)
        ensures
            m@ == error_text(*self),
    {
        match self {
            VerifierError::ChallengeLengthMismatch { expected, got } => {
                let mut m = String::from_str("challenge length mismatch: expected ");
                m.append(usize_decimal(*expected).as_str());
                m.append(", got ");
                m.append(usize_decimal(*got).as_str());
                m
            },
            VerifierError::Round1SumMismatch { got, expected } => {
                proof {
                    got.lemma_range();
                    expected.lemma_range();
                }
                let mut m = String::from_str("round 1 sum check failed: s_1(0)+s_1(1) = ");
                m.append(got.to_decimal().as_str());
                m.append(", expected ");
                m.append(expected.to_decimal().as_str());
                m
            },
            VerifierError::RoundConsistencyMismatch { round, got, expected } => {
                proof {
                    got.lemma_range();
                    expected.lemma_range();
                }
                let r = usize_decimal(*round);
                let mut m = String::from_str("round ");
                m.append(r.as_str());
                m.append(" consistency check failed: s_");
                m.append(r.as_str());
                m.append("(0)+s_");
                m.append(r.as_str());
                m.append("(1) = ");
                m.append(got.to_decimal().as_str());
                m.append(", expected ");
                m.append(expected.to_decimal().as_str());
                m
            },
            VerifierError::OracleCheckFailed { got, expected } => {
                proof {
                    got.lemma_range();
                    expected.lemma_range();
                }
                let mut m = String::from_str("final oracle check failed: s_n(r_n) = ");
                m.append(got.to_decimal().as_str());
                m.append(", expected ");
                m.append(expected.to_decimal().as_str());
                m
            },
        }
    }
}

/// What `verify_transcript` reports for a transcript, as a predicate on its
/// result.
pub open spec fn transcript_outcome(
    pf: SumcheckProof,
    rs: Seq<int>,
    r: Result<(), VerifierError>,
) -> bool {
    let claimed = pf.claimed_sum@;
    let ps = polys_view(pf.round_polys@);
    match r {
        Ok(()) => rs.len() == ps.len() && rounds_pass(claimed, ps, rs, ps.len() as int),
        Err(VerifierError::ChallengeLengthMismatch { expected, got }) => {
            &&& rs.len() != ps.len()
            &&& expected == ps.len()
            &&& got == rs.len()
        },
        Err(VerifierError::Round1SumMismatch { got, expected }) => {
            &&& rs.len() == ps.len()
            &&& ps.len() >= 1
            &&& !round_check(claimed, ps, rs, 1)
            &&& got@ == poly_sum(ps[0])
            &&& expected == pf.claimed_sum
        },
        Err(VerifierError::RoundConsistencyMismatch { round, got, expected }) => {
            &&& rs.len() == ps.len()
            &&& 2 <= round <= ps.len()
            &&& rounds_pass(claimed, ps, rs, round - 1)
            &&& !round_check(claimed, ps, rs, round as int)
            &&& got@ == poly_sum(ps[round - 1])
            &&& expected@ == poly_eval(ps[round - 2], rs[round - 2])
        },
        Err(VerifierError::OracleCheckFailed { .. }) => false,
    }
}

/// Stateless Sumcheck verifier.
pub struct Verifier;

impl Verifier {
    /// Verifies `proof` against the challenges and the oracle evaluation
    /// `f(r_1, …, r_n)`, reporting the first failing check.
    pub fn verify(proof: &SumcheckProof, challenges: &[Fr], oracle_eval: Fr) -> (r: Result<(), VerifierError>)
        ensures
            r is Ok <==> accepts(proof.claimed_sum@, polys_view(proof.round_polys@), vals(challenges@), oracle_eval@),
            r is Ok <==> {
            &&& challenges@.len() == proof.round_polys@.len()
            &&& proof.round_polys@.len() >= 1 ==> fmod(
                proof.round_polys@[0].a@ + proof.round_polys@[0].a@ + proof.round_polys@[0].b@,
            ) == proof.claimed_sum@
            &&& forall|i: int|
                0 <= i < proof.round_polys@.len() - 1 ==> fmod(
                    proof.round_polys@[i + 1].a@ + proof.round_polys@[i + 1].a@ + proof.round_polys@[i + 1].b@,
                ) == fmod(proof.round_polys@[i].a@ + proof.round_polys@[i].b@ * (#[trigger] challenges@[i])@)
            &&& proof.round_polys@.len() == 0 ==> proof.claimed_sum@ == oracle_eval@
            &&& proof.round_polys@.len() >= 1 ==> fmod(
                proof.round_polys@.last().a@ + proof.round_polys@.last().b@ * challenges@.last()@,
            ) == oracle_eval@
            },
            match r {
                Err(VerifierError::OracleCheckFailed { got, expected }) => {
                    &&& challenges@.len() == proof.round_polys@.len()
                    &&& rounds_pass(proof.claimed_sum@, polys_view(proof.round_polys@), vals(challenges@),
                        proof.round_polys@.len() as int)
                    &&& got@ == final_value(proof.claimed_sum@, polys_view(proof.round_polys@), vals(challenges@))
                    &&& expected == oracle_eval
                    &&& got@ != oracle_eval@
                },
                Ok(()) => true,
                _ => transcript_outcome(*proof, vals(challenges@), r),
            },
    {
        match Self::verify_transcript(proof, challenges) {
            Err(e) => Err(e),
            Ok(()) => {
                let n = proof.num_vars();
                let got = if n == 0 {
                    proof.claimed_sum
                } else {
                    proof.round_poly(n).eval(challenges[n - 1])
                };
                if !got.equals(&oracle_eval) {
                    Err(VerifierError::OracleCheckFailed { got, expected: oracle_eval })
                } else {
                    Ok(())
                }
            },
        }
    }

    /// Verifies the rounds of `proof` without the final oracle check.
    pub fn verify_transcript(proof: &SumcheckProof, challenges: &[Fr]) -> (r: Result<(), VerifierError>)
        ensures
            transcript_outcome(*proof, vals(challenges@), r),
            r is Ok <==> {
            &&& challenges@.len() == proof.round_polys@.len()
            &&& proof.round_polys@.len() >= 1 ==> fmod(
                proof.round_polys@[0].a@ + proof.round_polys@[0].a@ + proof.round_polys@[0].b@,
            ) == proof.claimed_sum@
            &&& forall|i: int|
                0 <= i < proof.round_polys@.len() - 1 ==> fmod(
                    proof.round_polys@[i + 1].a@ + proof.round_polys@[i + 1].a@ + proof.round_polys@[i + 1].b@,
                ) == fmod(proof.round_polys@[i].a@ + proof.round_polys@[i].b@ * (#[trigger] challenges@[i])@)
            },
    {
        let n = proof.num_vars();
        let ghost claimed = proof.claimed_sum@;
        let ghost ps = polys_view(proof.round_polys@);
        let ghost rs = vals(challenges@);
        if challenges.len() != n {
            return Err(VerifierError::ChallengeLengthMismatch { expected: n, got: challenges.len() });
        }
        if n == 0 {
            return Ok(());
        }
        let s1 = proof.round_poly(1);
        let got = s1.sum_over_boolean();
        if !got.equals(&proof.claimed_sum) {
            return Err(VerifierError::Round1SumMismatch { got, expected: proof.claimed_sum });
        }
        let mut k: usize = 1;
        while k < n
            invariant
                1 <= k <= n,
                n == proof.round_polys@.len(),
                n == challenges@.len(),
                claimed == proof.claimed_sum@,
                ps == polys_view(proof.round_polys@),
                rs == vals(challenges@),
                rounds_pass(claimed, ps, rs, k as int),
            decreases n - k,
        {
            let j = k + 1;
            let sj = proof.round_poly(j);
            let s_prev = proof.round_poly(j - 1);
            let r_prev = challenges[j - 2];
            let expected = s_prev.eval(r_prev);
            let got = sj.sum_over_boolean();
            if !got.equals(&expected) {
                return Err(VerifierError::RoundConsistencyMismatch { round: j, got, expected });
            }
            proof {
                assert forall|q: int| 1 <= q <= j implies #[trigger] round_check(claimed, ps, rs, q) by {
                    if q < j {
                        assert(round_check(claimed, ps, rs, q));
                    }
                }
            }
            k = j;
        }
        proof {
            lemma_rounds_pass_raw(*proof, challenges@);
        }
        Ok(())
    }
}

/// The round checks on the coefficients: rounds `1, …, m` pass exactly when
/// `2·a_1 + b_1 ≡ claimed` (for `m ≥ 1`) and, for every `2 ≤ j ≤ m`,
/// `2·a_j + b_j ≡ a_{j-1} + b_{j-1}·r_{j-1}` (mod p), where `(a_j, b_j)` is
/// `s_j = ps[j-1]` and `r_j = rs[j-1]`.
pub proof fn lemma_rounds_pass_exactly(claimed: int, ps: Seq<(int, int)>, rs: Seq<int>, m: int)
    ensures
        rounds_pass(claimed, ps, rs, m) <==> {
            &&& m >= 1 ==> fmod(ps[0].0 + ps[0].0 + ps[0].1) == claimed
            &&& forall|i: int|
                0 <= i < m - 1 ==> fmod(ps[i + 1].0 + ps[i + 1].0 + ps[i + 1].1) == fmod(
                    ps[i].0 + ps[i].1 * #[trigger] rs[i],
                )
        },
{
    if rounds_pass(claimed, ps, rs, m) {
        if m >= 1 {
            assert(round_check(claimed, ps, rs, 1));
        }
        assert forall|i: int| 0 <= i < m - 1 implies fmod(ps[i + 1].0 + ps[i + 1].0 + ps[i + 1].1) == fmod(
            ps[i].0 + ps[i].1 * #[trigger] rs[i],
        ) by {
            assert(round_check(claimed, ps, rs, i + 2));
        }
    }
}

/// Acceptance on the coefficients: the verifier accepts exactly when there is
/// one challenge per round, `2·a_1 + b_1 ≡ claimed`, every later round has
/// `2·a_j + b_j ≡ a_{j-1} + b_{j-1}·r_{j-1}`, and the last round's value
/// `a_n + b_n·r_n` (or the claimed sum, with no rounds) equals the oracle,
/// all modulo p.
pub proof fn lemma_accepts_exactly(claimed: int, ps: Seq<(int, int)>, rs: Seq<int>, oracle: int)
    ensures
        accepts(claimed, ps, rs, oracle) <==> {
            &&& rs.len() == ps.len()
            &&& ps.len() >= 1 ==> fmod(ps[0].0 + ps[0].0 + ps[0].1) == claimed
            &&& forall|i: int|
                0 <= i < ps.len() - 1 ==> fmod(ps[i + 1].0 + ps[i + 1].0 + ps[i + 1].1) == fmod(
                    ps[i].0 + ps[i].1 * #[trigger] rs[i],
                )
            &&& ps.len() == 0 ==> claimed == oracle
            &&& ps.len() >= 1 ==> fmod(ps[ps.len() - 1].0 + ps[ps.len() - 1].1 * rs[ps.len() - 1]) == oracle
        },
{
    lemma_rounds_pass_exactly(claimed, ps, rs, ps.len() as int);
}

/// The round checks of a proof, read on its coefficients and challenges.
proof fn lemma_rounds_pass_raw(pf: SumcheckProof, ch: Seq<Fr>)
    requires
        ch.len() == pf.round_polys@.len(),
    ensures
        rounds_pass(pf.claimed_sum@, polys_view(pf.round_polys@), vals(ch), pf.round_polys@.len() as int) <==> {
            &&& pf.round_polys@.len() >= 1 ==> fmod(
                pf.round_polys@[0].a@ + pf.round_polys@[0].a@ + pf.round_polys@[0].b@,
            ) == pf.claimed_sum@
            &&& forall|i: int|
                0 <= i < pf.round_polys@.len() - 1 ==> fmod(
                    pf.round_polys@[i + 1].a@ + pf.round_polys@[i + 1].a@ + pf.round_polys@[i + 1].b@,
                ) == fmod(pf.round_polys@[i].a@ + pf.round_polys@[i].b@ * (#[trigger] ch[i])@)
        },
{
    let ps = polys_view(pf.round_polys@);
    let rs = vals(ch);
    let n = pf.round_polys@.len() as int;
    lemma_rounds_pass_exactly(pf.claimed_sum@, ps, rs, n);
    if rounds_pass(pf.claimed_sum@, ps, rs, n) {
        assert forall|i: int| 0 <= i < n - 1 implies fmod(
            pf.round_polys@[i + 1].a@ + pf.round_polys@[i + 1].a@ + pf.round_polys@[i + 1].b@,
        ) == fmod(pf.round_polys@[i].a@ + pf.round_polys@[i].b@ * (#[trigger] ch[i])@) by {
            assert(rs[i] == ch[i]@);
        }
    }
    if forall|i: int|
        0 <= i < n - 1 ==> fmod(pf.round_polys@[i + 1].a@ + pf.round_polys@[i + 1].a@ + pf.round_polys@[i + 1].b@)
            == fmod(pf.round_polys@[i].a@ + pf.round_polys@[i].b@ * (#[trigger] ch[i])@) {
        assert forall|i: int| 0 <= i < n - 1 implies fmod(ps[i + 1].0 + ps[i + 1].0 + ps[i + 1].1) == fmod(
            ps[i].0 + ps[i].1 * #[trigger] rs[i],
        ) by {
            assert(ch[i]@ == rs[i]);
        }
    }
}

/// A sum of three reduced terms reduces like the sum of the terms.
proof fn lemma_fmod_add3(a: int, b: int, c: int)
    ensures
        fmod(fmod(a) + fmod(b) + fmod(c)) == fmod(a + b + c),
{
    lemma_fmod_add(fmod(a) + fmod(b), c);
    lemma_fmod_add(a, b);
    lemma_fmod_add(fmod(a) + fmod(b), c);
    crate::field::lemma_fmod_range(a + b);
    vstd::arithmetic::div_mod::lemma_mod_twice(a + b, crate::field::field_modulus());
    lemma_fmod_add(fmod(a + b), c);
    lemma_fmod_add(a + b, c);
    lemma_fmod_add(fmod(a) + fmod(b), c);
}

/// `s_{m+1}(0) + s_{m+1}(1)` is the hypercube sum of the polynomial with the
/// first `m` variables fixed.
proof fn lemma_message_sum(c: Seq<int>, rs: Seq<int>, m: int, lag: bool)
    requires
        c.len() == pow2(rs.len()),
        0 <= m < rs.len(),
    ensures
        poly_sum(round_message(c, rs.take(m), lag)) == fmod(sum_tree(folds(c, rs.take(m), lag), lag)),
{
    let f = folds(c, rs.take(m), lag);
    lemma_folds_len(c, rs.take(m), rs.len(), lag);
    crate::algebra::lemma_half_len(f.len(), (rs.len() - m - 1) as nat);
    let a = sum_tree(evens(f), lag);
    let b = sum_tree(odds(f), lag);
    assert(sum_tree(f, lag) == sum_weight(lag) * a + b);
    if lag {
        lemma_fmod_add3(a, a, b - a);
        lemma_fmod_sub(b, a);
        crate::field::lemma_fmod_range(b - a);
        vstd::arithmetic::div_mod::lemma_mod_twice(b - a, crate::field::field_modulus());
        lemma_fmod_add3(a, a, fmod(b - a));
    } else {
        lemma_fmod_add3(a, a, b);
    }
}

/// `s_{m+1}(r_{m+1})` is the hypercube sum of the polynomial with the first
/// `m + 1` variables fixed.
proof fn lemma_message_eval(c: Seq<int>, rs: Seq<int>, m: int, lag: bool)
    requires
        c.len() == pow2(rs.len()),
        0 <= m < rs.len(),
    ensures
        poly_eval(round_message(c, rs.take(m), lag), rs[m]) == fmod(sum_tree(folds(c, rs.take(m + 1), lag), lag)),
{
    let f = folds(c, rs.take(m), lag);
    let r = rs[m];
    let a = sum_tree(evens(f), lag);
    let b = sum_tree(odds(f), lag);
    assert(rs.take(m + 1) =~= rs.take(m).push(r));
    lemma_folds_push(c, rs.take(m), r, lag);
    lemma_fold_vars_is_lin(f, r, lag);
    lemma_folds_len(c, rs.take(m), rs.len(), lag);
    crate::algebra::lemma_half_len(f.len(), (rs.len() - m - 1) as nat);
    lemma_sum_tree_lin(evens(f), odds(f), weight_even(r, lag), r, lag);
    let msg = round_message(c, rs.take(m), lag);
    let db = if lag { b - a } else { b };
    assert(msg == (fmod(a), fmod(db)));
    lemma_fmod_mul(db, r);
    lemma_fmod_add(a, db * r);
    crate::field::lemma_fmod_range(db * r);
    vstd::arithmetic::div_mod::lemma_mod_twice(db * r, crate::field::field_modulus());
    lemma_fmod_add(fmod(a), fmod(db) * r);
    lemma_fmod_add(a, fmod(db) * r);
    lemma_fmod_add(a, fmod(fmod(db) * r));
    lemma_fmod_add(fmod(a), fmod(db * r));
    if lag {
        assert(a + (b - a) * r == (1 - r) * a + r * b) by (nonlinear_arith);
    } else {
        assert(b * r == r * b) by (nonlinear_arith);
    }
}

/// Completeness: for every polynomial and every choice of challenges, the
/// honest transcript (claimed sum `H(f)` and the round messages of the
/// prover) is accepted against the oracle value `f(r_1, …, r_n)`.
pub proof fn lemma_completeness(c: Seq<int>, rs: Seq<int>, lag: bool)
    requires
        c.len() == pow2(rs.len()),
    ensures
        accepts(fmod(sum_tree(c, lag)), transcript_polys(c, rs, lag), rs, fmod(eval_ml(c, rs, lag))),
{
    let n = rs.len();
    let ps = transcript_polys(c, rs, lag);
    let claimed = fmod(sum_tree(c, lag));
    assert forall|j: int| 1 <= j <= n implies #[trigger] round_check(claimed, ps, rs, j) by {
        lemma_message_sum(c, rs, j - 1, lag);
        if j == 1 {
            assert(rs.take(0) =~= Seq::<int>::empty());
        } else {
            lemma_message_eval(c, rs, j - 2, lag);
        }
    }
    if n == 0 {
        vstd::arithmetic::power2::lemma2_to64();
    } else {
        lemma_message_eval(c, rs, n - 1, lag);
        assert(rs.take(n as int) =~= rs);
        lemma_folds_len(c, rs, n, lag);
        vstd::arithmetic::power2::lemma2_to64();
    }
}

} // verus!
