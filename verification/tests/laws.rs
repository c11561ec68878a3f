use ark_ff::PrimeField;
use multilinear_sumcheck::circuit::{CanonicalDecomp, LagrangeDecomp};
use multilinear_sumcheck::field::Fr;
use multilinear_sumcheck::poly::{CanonicalPoly, MlPoly, UniPoly};
use multilinear_sumcheck::sumcheck::prover::{CanonicalProver, LagrangeProver};
use multilinear_sumcheck::sumcheck::verify::Verifier;

fn fr(n: u64) -> Fr {
    Fr::from_u64(n)
}

fn to_ark(x: Fr) -> ark_bn254::Fr {
    ark_bn254::Fr::from_bigint(ark_ff::BigInt::new(x.to_limbs())).unwrap()
}

fn from_ark(x: ark_bn254::Fr) -> Fr {
    Fr::from_canonical_limbs(x.into_bigint().0).unwrap()
}

#[test]
fn completeness_for_many_challenge_lists() {
    let f = CanonicalPoly::new((0..8).map(|i| fr(i * i + 1)).collect());
    for seed in 0..5u64 {
        let ch = [fr(seed), fr(seed + 13), fr(3 * seed + 1)];
        let proof = CanonicalProver::new(&f).prove(&ch);
        assert!(Verifier::verify(&proof, &ch, f.eval_circuit(&ch)).is_ok());
    }
}

#[test]
fn cross_basis_messages_agree_at_every_round_n3() {
    let f = CanonicalPoly::new(vec![fr(4), fr(0), fr(9), fr(1), fr(1), fr(7), fr(2), fr(5)]);
    let g = LagrangeDecomp::build(&f).to_lagrange();
    let ch = [fr(10), fr(20), fr(30)];
    let cp = CanonicalProver::new(&f);
    let lp = LagrangeProver::new(&g);
    for j in 0..3 {
        assert_eq!(cp.compute_round_poly(&ch[..j]), lp.compute_round_poly(&ch[..j]));
    }
    assert_eq!(f.hypercube_sum(), g.hypercube_sum());
    assert_eq!(f.eval_circuit(&ch), g.eval_standard(&ch));
}

#[test]
fn hypercube_table_of_a_product() {
    // f = x₁·x₂ has the table [0, 0, 0, 1] and H(f) = 1.
    let f = CanonicalPoly::new(vec![fr(0), fr(0), fr(0), fr(1)]);
    let g = LagrangeDecomp::build(&f).to_lagrange();
    assert_eq!(g.evals(), &[fr(0), fr(0), fr(0), fr(1)]);
    assert_eq!(f.hypercube_sum(), fr(1));
}

#[test]
fn decomposition_sizes_n5() {
    let f = CanonicalPoly::new((0..32).map(fr).collect());
    let c = CanonicalDecomp::build(&f);
    let l = LagrangeDecomp::build(&f);
    assert_eq!(c.total_field_elements(), 6 * 32);
    assert_eq!(l.total_field_elements(), 6 * 32);
    assert_eq!(l.addition_count, 5 * 16);
    assert!(c.leaves_are_bit_reverse_of_root());
    let u = UniPoly::new((0..32).map(fr).collect()).decompose();
    assert_eq!(u.total_field_elements(), 6 * 32);
}

#[test]
fn univariate_value_is_the_multilinear_value_at_square_powers() {
    // f = 1 + 2X + 3X² + 4X³ at X = 5 equals the multilinear polynomial with
    // the same coefficients at (5, 25): 1 + 10 + 75 + 500 = 586.
    let u = UniPoly::new(vec![fr(1), fr(2), fr(3), fr(4)]);
    let m = CanonicalPoly::new(vec![fr(1), fr(2), fr(3), fr(4)]);
    assert_eq!(u.eval_estrin(fr(5)), fr(586));
    assert_eq!(m.eval_circuit(&[fr(5), fr(25)]), fr(586));
}

#[test]
fn round_polynomial_is_the_partial_boolean_sum_n3() {
    // s₂(x) = Σ_{x₃ ∈ {0,1}} f(4, x, x₃) for x = 0 and x = 1.
    let coeffs: Vec<Fr> = (1..=8).map(fr).collect();
    let f = CanonicalPoly::new(coeffs);
    let g = LagrangeDecomp::build(&f).to_lagrange();
    let sum_at = |x: u64| {
        let v0 = to_ark(f.eval_circuit(&[fr(4), fr(x), fr(0)]));
        let v1 = to_ark(f.eval_circuit(&[fr(4), fr(x), fr(1)]));
        from_ark(v0 + v1)
    };
    let sc = CanonicalProver::new(&f).compute_round_poly(&[fr(4)]);
    let sl = LagrangeProver::new(&g).compute_round_poly(&[fr(4)]);
    assert_eq!(sc.eval_at_zero(), sum_at(0));
    assert_eq!(sc.eval_at_one(), sum_at(1));
    assert_eq!(sl.eval_at_zero(), sum_at(0));
    assert_eq!(sl.eval_at_one(), sum_at(1));
}
