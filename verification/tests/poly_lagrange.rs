use multilinear_sumcheck::circuit::LagrangeDecomp;
use multilinear_sumcheck::field::Fr;
use multilinear_sumcheck::poly::{CanonicalPoly, LagrangePoly, MlPoly};

fn fr(n: u64) -> Fr {
    Fr::from_u64(n)
}

#[test]
fn lagrange_new_sets_num_vars_correctly() {
    let p = LagrangePoly::new(vec![fr(0); 8]);
    assert_eq!(p.num_vars(), 3);
    assert_eq!(p.num_evals(), 8);
}

#[test]
fn zero_poly_has_all_zero_evals() {
    let p = LagrangePoly::zero(3);
    assert!(p.evals().iter().all(|e| e.is_zero()));
}

#[test]
fn eval_at_boolean_returns_correct_entry() {
    let p = LagrangePoly::new(vec![fr(10), fr(20), fr(30), fr(40)]);
    assert_eq!(p.eval_at_boolean(0), fr(10));
    assert_eq!(p.eval_at_boolean(1), fr(20));
    assert_eq!(p.eval_at_boolean(2), fr(30));
    assert_eq!(p.eval_at_boolean(3), fr(40));
}

#[test]
fn hypercube_sum_is_sum_of_evals() {
    let p = LagrangePoly::new(vec![fr(1), fr(3), fr(4), fr(10)]);
    assert_eq!(p.hypercube_sum(), fr(18));
}

#[test]
fn lagrange_hypercube_sum_zero_poly() {
    let p = LagrangePoly::zero(4);
    assert_eq!(p.hypercube_sum(), Fr::zero());
}

#[test]
fn hypercube_sum_matches_canonical_n2() {
    let p = LagrangePoly::new(vec![fr(1), fr(3), fr(4), fr(10)]);
    assert_eq!(p.hypercube_sum(), fr(18));
}

#[test]
fn eval_standard_at_boolean_points_n2() {
    let p = LagrangePoly::new(vec![fr(1), fr(3), fr(4), fr(10)]);
    assert_eq!(p.eval_standard(&[fr(0), fr(0)]), fr(1));
    assert_eq!(p.eval_standard(&[fr(1), fr(0)]), fr(3));
    assert_eq!(p.eval_standard(&[fr(0), fr(1)]), fr(4));
    assert_eq!(p.eval_standard(&[fr(1), fr(1)]), fr(10));
}

#[test]
fn eval_standard_n1() {
    let p = LagrangePoly::new(vec![fr(3), fr(10)]);
    assert_eq!(p.eval_standard(&[fr(0)]), fr(3));
    assert_eq!(p.eval_standard(&[fr(1)]), fr(10));
    assert_eq!(p.eval_standard(&[fr(2)]), fr(17));
}

#[test]
fn eval_standard_zero_poly() {
    let p = LagrangePoly::zero(3);
    assert_eq!(p.eval_standard(&[fr(1), fr(2), fr(3)]), Fr::zero());
}

#[test]
fn eval_optimized_at_boolean_points_n2() {
    let p = LagrangePoly::new(vec![fr(1), fr(3), fr(4), fr(10)]);
    assert_eq!(p.eval_optimized(&[fr(0), fr(0)]), fr(1));
    assert_eq!(p.eval_optimized(&[fr(1), fr(0)]), fr(3));
    assert_eq!(p.eval_optimized(&[fr(0), fr(1)]), fr(4));
    assert_eq!(p.eval_optimized(&[fr(1), fr(1)]), fr(10));
}

#[test]
fn eval_optimized_n1() {
    let p = LagrangePoly::new(vec![fr(3), fr(10)]);
    assert_eq!(p.eval_optimized(&[fr(0)]), fr(3));
    assert_eq!(p.eval_optimized(&[fr(1)]), fr(10));
    assert_eq!(p.eval_optimized(&[fr(2)]), fr(17));
}

#[test]
fn eval_optimized_zero_poly() {
    let p = LagrangePoly::zero(3);
    assert_eq!(p.eval_optimized(&[fr(1), fr(2), fr(3)]), Fr::zero());
}

#[test]
fn eval_parallel_at_boolean_points_n2() {
    let p = LagrangePoly::new(vec![fr(1), fr(3), fr(4), fr(10)]);
    assert_eq!(p.eval_parallel(&[fr(0), fr(0)]), fr(1));
    assert_eq!(p.eval_parallel(&[fr(1), fr(0)]), fr(3));
    assert_eq!(p.eval_parallel(&[fr(0), fr(1)]), fr(4));
    assert_eq!(p.eval_parallel(&[fr(1), fr(1)]), fr(10));
}

#[test]
fn eval_parallel_n1() {
    let p = LagrangePoly::new(vec![fr(3), fr(10)]);
    assert_eq!(p.eval_parallel(&[fr(0)]), fr(3));
    assert_eq!(p.eval_parallel(&[fr(1)]), fr(10));
    assert_eq!(p.eval_parallel(&[fr(2)]), fr(17));
}

#[test]
fn eval_parallel_zero_poly() {
    let p = LagrangePoly::zero(3);
    assert_eq!(p.eval_parallel(&[fr(1), fr(2), fr(3)]), Fr::zero());
}

#[test]
fn all_three_agree_at_boolean_points_n3() {
    let p = LagrangePoly::new((1..=8).map(|i| fr(i)).collect());
    for b0 in [fr(0), fr(1)] {
        for b1 in [fr(0), fr(1)] {
            for b2 in [fr(0), fr(1)] {
                let r = [b0, b1, b2];
                let s = p.eval_standard(&r);
                let o = p.eval_optimized(&r);
                let par = p.eval_parallel(&r);
                assert_eq!(s, o, "standard vs optimized at {:?}", r);
                assert_eq!(o, par, "optimized vs parallel at {:?}", r);
            }
        }
    }
}

#[test]
fn all_three_agree_at_random_point_n4() {
    let p = LagrangePoly::new((0..16).map(|i| fr(i as u64 * 3 + 1)).collect());
    let r = [fr(2), fr(5), fr(11), fr(7)];
    let s = p.eval_standard(&r);
    let o = p.eval_optimized(&r);
    let par = p.eval_parallel(&r);
    assert_eq!(s, o);
    assert_eq!(o, par);
}

#[test]
fn lagrange_eval_agrees_with_canonical_eval_circuit_n3() {
    let coeffs: Vec<Fr> = (1..=8).map(|i| fr(i)).collect();
    let canon = CanonicalPoly::new(coeffs);
    let lag = LagrangeDecomp::build(&canon).to_lagrange();
    let r = [fr(3), fr(7), fr(13)];
    assert_eq!(lag.eval_optimized(&r), canon.eval_circuit(&r));
    assert_eq!(lag.eval_parallel(&r), canon.eval_circuit(&r));
}

#[test]
fn lagrange_eval_agrees_with_canonical_eval_circuit_n4() {
    let coeffs: Vec<Fr> = (0..16).map(|i| fr(i as u64 * 3 + 1)).collect();
    let canon = CanonicalPoly::new(coeffs);
    let lag = LagrangeDecomp::build(&canon).to_lagrange();
    let r = [fr(2), fr(5), fr(11), fr(7)];
    assert_eq!(lag.eval_optimized(&r), canon.eval_circuit(&r));
    assert_eq!(lag.eval_parallel(&r), canon.eval_circuit(&r));
}

#[test]
fn lagrange_eval_at_a_general_point_n2() {
    // evals [1, 3, 4, 10] interpolate f = 1 + 2x₁ + 3x₂ + 4x₁x₂; f(2, 3) = 38.
    let p = LagrangePoly::new(vec![fr(1), fr(3), fr(4), fr(10)]);
    assert_eq!(p.eval_standard(&[fr(2), fr(3)]), fr(38));
    assert_eq!(p.eval_optimized(&[fr(2), fr(3)]), fr(38));
    assert_eq!(p.eval_parallel(&[fr(2), fr(3)]), fr(38));
}

#[test]
fn set_eval_replaces_one_value() {
    let mut p = LagrangePoly::new(vec![fr(1), fr(3), fr(4), fr(10)]);
    p.set_eval(3, fr(7));
    assert_eq!(p.evals(), &[fr(1), fr(3), fr(4), fr(7)]);
    assert_eq!(p.hypercube_sum(), fr(15));
    let q = p.clone();
    assert_eq!(p, q);
}
