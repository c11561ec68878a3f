use multilinear_sumcheck::circuit::{CanonicalSumCircuit, LagrangeDecomp, SumCircuit};
use multilinear_sumcheck::field::Fr;
use multilinear_sumcheck::poly::{CanonicalPoly, LagrangePoly, MlPoly};
use multilinear_sumcheck::sumcheck::prover::{CanonicalProver, LagrangeProver};

fn fr(n: u64) -> Fr {
    Fr::from_u64(n)
}

fn canon(coeffs: &[u64]) -> CanonicalPoly {
    CanonicalPoly::new(coeffs.iter().map(|&v| fr(v)).collect())
}

fn lagrange(evals: &[u64]) -> LagrangePoly {
    LagrangePoly::new(evals.iter().map(|&v| fr(v)).collect())
}

#[test]
fn canonical_claimed_sum_equals_hypercube_sum_n2() {
    let f = canon(&[1, 2, 3, 4]);
    let p = CanonicalProver::new(&f);
    assert_eq!(p.claimed_sum(), fr(18));
    assert_eq!(p.claimed_sum(), f.hypercube_sum());
}

#[test]
fn canonical_claimed_sum_equals_hypercube_sum_n3() {
    let f = canon(&[1, 2, 3, 4, 5, 6, 7, 8]);
    let p = CanonicalProver::new(&f);
    assert_eq!(p.claimed_sum(), f.hypercube_sum());
}

#[test]
fn canonical_num_vars() {
    assert_eq!(CanonicalProver::new(&canon(&[1; 8])).num_vars(), 3);
}

#[test]
fn canonical_round_1_is_h2_h3() {
    let f = canon(&[1, 2, 3, 4, 5, 6, 7, 8]);
    let p = CanonicalProver::new(&f);
    let sc = CanonicalSumCircuit::build(&f);
    let s1 = p.compute_round_poly(&[]);
    assert_eq!(s1.a, sc.h(2));
    assert_eq!(s1.b, sc.h(3));
}

#[test]
fn canonical_round_1_sums_to_claimed() {
    let f = canon(&[1, 2, 3, 4, 5, 6, 7, 8]);
    let p = CanonicalProver::new(&f);
    assert_eq!(p.compute_round_poly(&[]).sum_over_boolean(), p.claimed_sum());
}

#[test]
fn canonical_round_1_sums_to_claimed_n2() {
    let f = canon(&[1, 2, 3, 4]);
    let p = CanonicalProver::new(&f);
    assert_eq!(p.compute_round_poly(&[]).sum_over_boolean(), fr(18));
}

#[test]
fn canonical_round_consistency_n3() {
    let f = canon(&[1, 2, 3, 4, 5, 6, 7, 8]);
    let p = CanonicalProver::new(&f);
    let ch = [fr(3), fr(7), fr(11)];
    let s1 = p.compute_round_poly(&ch[..0]);
    let s2 = p.compute_round_poly(&ch[..1]);
    let s3 = p.compute_round_poly(&ch[..2]);
    assert_eq!(s1.sum_over_boolean(), p.claimed_sum());
    assert_eq!(s2.sum_over_boolean(), s1.eval(ch[0]));
    assert_eq!(s3.sum_over_boolean(), s2.eval(ch[1]));
}

#[test]
fn canonical_round_consistency_n4() {
    let f = canon(&(1u64..=16).collect::<Vec<_>>());
    let p = CanonicalProver::new(&f);
    let ch = [fr(2), fr(5), fr(11), fr(7)];
    let mut prev = p.claimed_sum();
    for j in 1..=4 {
        let sj = p.compute_round_poly(&ch[..j - 1]);
        assert_eq!(sj.sum_over_boolean(), prev, "round {j}");
        prev = sj.eval(ch[j - 1]);
    }
}

#[test]
fn canonical_prove_n3() {
    let f = canon(&[1, 2, 3, 4, 5, 6, 7, 8]);
    let p = CanonicalProver::new(&f);
    let ch = [fr(3), fr(7), fr(11)];
    let proof = p.prove(&ch);
    assert_eq!(proof.num_vars(), 3);
    let mut prev = proof.claimed_sum;
    for j in 1..=3 {
        let sj = proof.round_poly(j);
        assert_eq!(sj.sum_over_boolean(), prev, "round {j}");
        prev = sj.eval(ch[j - 1]);
    }
}

#[test]
fn canonical_proof_size_is_2n_plus_1() {
    let ch: Vec<Fr> = (0..3).map(|i| fr(i + 1)).collect();
    let proof = CanonicalProver::new(&canon(&[1; 8])).prove(&ch);
    assert_eq!(proof.size_in_field_elements(), 7);
}

#[test]
fn canonical_zero_poly_claimed_sum_is_zero() {
    assert_eq!(CanonicalProver::new(&CanonicalPoly::zero(3)).claimed_sum(), Fr::zero());
}

#[test]
fn lagrange_claimed_sum_equals_hypercube_sum_n2() {
    let f = lagrange(&[1, 3, 4, 10]);
    let p = LagrangeProver::new(&f);
    assert_eq!(p.claimed_sum(), fr(18));
    assert_eq!(p.claimed_sum(), f.hypercube_sum());
}

#[test]
fn lagrange_claimed_sum_n3() {
    let f = lagrange(&[1, 2, 3, 4, 5, 6, 7, 8]);
    let p = LagrangeProver::new(&f);
    assert_eq!(p.claimed_sum(), f.hypercube_sum());
}

#[test]
fn lagrange_round_1_sums_to_claimed() {
    let f = lagrange(&[1, 2, 3, 4, 5, 6, 7, 8]);
    let p = LagrangeProver::new(&f);
    assert_eq!(p.compute_round_poly(&[]).sum_over_boolean(), p.claimed_sum());
}

#[test]
fn lagrange_round_consistency_n3() {
    let f = lagrange(&[1, 2, 3, 4, 5, 6, 7, 8]);
    let p = LagrangeProver::new(&f);
    let ch = [fr(3), fr(7), fr(11)];
    let mut prev = p.claimed_sum();
    for j in 1..=3 {
        let sj = p.compute_round_poly(&ch[..j - 1]);
        assert_eq!(sj.sum_over_boolean(), prev, "round {j}");
        prev = sj.eval(ch[j - 1]);
    }
}

#[test]
fn lagrange_round_consistency_n4() {
    let evals: Vec<u64> = (0..16).map(|i| i * 2 + 1).collect();
    let f = lagrange(&evals);
    let p = LagrangeProver::new(&f);
    let ch = [fr(2), fr(5), fr(11), fr(7)];
    let mut prev = p.claimed_sum();
    for j in 1..=4 {
        let sj = p.compute_round_poly(&ch[..j - 1]);
        assert_eq!(sj.sum_over_boolean(), prev, "round {j}");
        prev = sj.eval(ch[j - 1]);
    }
}

#[test]
fn lagrange_prove_n3() {
    let f = lagrange(&[1, 2, 3, 4, 5, 6, 7, 8]);
    let p = LagrangeProver::new(&f);
    let ch = [fr(3), fr(7), fr(11)];
    let proof = p.prove(&ch);
    assert_eq!(proof.num_vars(), 3);
    let mut prev = proof.claimed_sum;
    for j in 1..=3 {
        let sj = proof.round_poly(j);
        assert_eq!(sj.sum_over_boolean(), prev, "round {j}");
        prev = sj.eval(ch[j - 1]);
    }
}

#[test]
fn lagrange_zero_poly_claimed_sum_is_zero() {
    assert_eq!(LagrangeProver::new(&LagrangePoly::zero(3)).claimed_sum(), Fr::zero());
}

#[test]
fn canonical_and_lagrange_agree_n3() {
    let canon_f = canon(&[1, 2, 3, 4, 5, 6, 7, 8]);
    let lagrange_f = LagrangeDecomp::build(&canon_f).to_lagrange();
    let cp = CanonicalProver::new(&canon_f);
    let lp = LagrangeProver::new(&lagrange_f);
    assert_eq!(cp.claimed_sum(), lp.claimed_sum());
    let ch = [fr(3), fr(7), fr(11)];
    for j in 1..=3 {
        assert_eq!(cp.compute_round_poly(&ch[..j - 1]), lp.compute_round_poly(&ch[..j - 1]), "round {j}");
    }
}

#[test]
fn canonical_and_lagrange_agree_n4() {
    let canon_f = canon(&(1u64..=16).collect::<Vec<_>>());
    let lagrange_f = LagrangeDecomp::build(&canon_f).to_lagrange();
    let cp = CanonicalProver::new(&canon_f);
    let lp = LagrangeProver::new(&lagrange_f);
    assert_eq!(cp.claimed_sum(), lp.claimed_sum());
    let ch = [fr(2), fr(5), fr(11), fr(7)];
    for j in 1..=4 {
        assert_eq!(cp.compute_round_poly(&ch[..j - 1]), lp.compute_round_poly(&ch[..j - 1]), "round {j}");
    }
}

#[test]
fn canonical_first_message_values_n2() {
    // f = 1 + 2x₁ + 3x₂ + 4x₁x₂: s₁(X) = Σ_{x₂} f(X, x₂) = (1 + 4) + (2·2 + 4)·X = 5 + 8X.
    let p = CanonicalProver::new(&canon(&[1, 2, 3, 4]));
    let s1 = p.compute_round_poly(&[]);
    assert_eq!(s1.a, fr(5));
    assert_eq!(s1.b, fr(8));
    // s₂(X) = f(3, X) = 7 + 15X.
    let s2 = p.compute_round_poly(&[fr(3)]);
    assert_eq!(s2.a, fr(7));
    assert_eq!(s2.b, fr(15));
}

#[test]
fn lagrange_first_message_values_n2() {
    // The same polynomial by its values [1, 3, 4, 10].
    let p = LagrangeProver::new(&lagrange(&[1, 3, 4, 10]));
    let s1 = p.compute_round_poly(&[]);
    assert_eq!(s1.a, fr(5));
    assert_eq!(s1.b, fr(8));
    let s2 = p.compute_round_poly(&[fr(3)]);
    assert_eq!(s2.a, fr(7));
    assert_eq!(s2.b, fr(15));
}
