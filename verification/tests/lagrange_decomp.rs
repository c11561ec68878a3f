use multilinear_sumcheck::circuit::LagrangeDecomp;
use multilinear_sumcheck::field::Fr;
use multilinear_sumcheck::poly::{CanonicalPoly, MlPoly};

fn fr(n: u64) -> Fr {
    Fr::from_u64(n)
}

#[test]
fn lagrange_decomp_node_count_is_2n_minus_1() {
    let f = CanonicalPoly::new((0..8).map(fr).collect());
    let d = LagrangeDecomp::build(&f);
    assert_eq!(d.nodes.len(), 15);
}

#[test]
fn lagrange_decomp_root_equals_input() {
    let coeffs: Vec<Fr> = (0..8).map(fr).collect();
    let f = CanonicalPoly::new(coeffs.clone());
    let d = LagrangeDecomp::build(&f);
    assert_eq!(d.root().coeffs(), f.coeffs());
}

#[test]
fn lagrange_decomp_total_field_elements_is_n_plus_1_times_n() {
    let f = CanonicalPoly::new((0..8).map(fr).collect());
    let d = LagrangeDecomp::build(&f);
    assert_eq!(d.total_field_elements(), (d.n + 1) * d.big_n);
}

#[test]
fn lagrange_decomp_layer_sizes_are_correct() {
    let f = CanonicalPoly::new((0..8).map(fr).collect());
    let d = LagrangeDecomp::build(&f);
    assert_eq!(d.layer(1).len(), 1);
    assert_eq!(d.layer(2).len(), 2);
    assert_eq!(d.layer(3).len(), 4);
    assert_eq!(d.layer(4).len(), 8);
}

#[test]
fn lagrange_decomp_node_coeff_sizes_decrease_by_layer() {
    let f = CanonicalPoly::new((0..8).map(fr).collect());
    let d = LagrangeDecomp::build(&f);
    assert_eq!(d.p(1).num_evals(), 8);
    assert_eq!(d.p(2).num_evals(), 4);
    assert_eq!(d.p(3).num_evals(), 4);
    assert_eq!(d.p(4).num_evals(), 2);
    assert_eq!(d.p(8).num_evals(), 1);
}

#[test]
fn gate_rule_first_layer_n3() {
    let coeffs = vec![fr(1), fr(2), fr(3), fr(4), fr(5), fr(6), fr(7), fr(8)];
    let f = CanonicalPoly::new(coeffs);
    let d = LagrangeDecomp::build(&f);

    assert_eq!(d.p(2).coeffs(), &[fr(1), fr(3), fr(5), fr(7)]);
    assert_eq!(d.p(3).coeffs(), &[fr(3), fr(7), fr(11), fr(15)]);
}

#[test]
fn gate_rule_second_layer_n3() {
    let coeffs = vec![fr(1), fr(2), fr(3), fr(4), fr(5), fr(6), fr(7), fr(8)];
    let f = CanonicalPoly::new(coeffs);
    let d = LagrangeDecomp::build(&f);

    assert_eq!(d.p(4).coeffs(), &[fr(1), fr(5)]);
    assert_eq!(d.p(5).coeffs(), &[fr(4), fr(12)]);
    assert_eq!(d.p(6).coeffs(), &[fr(3), fr(11)]);
    assert_eq!(d.p(7).coeffs(), &[fr(10), fr(26)]);
}

#[test]
fn addition_count_matches_theory_n3() {
    let f = CanonicalPoly::new((0..8).map(fr).collect());
    let d = LagrangeDecomp::build(&f);
    assert!(d.addition_count_is_correct());
    assert_eq!(d.addition_count, 12);
}

#[test]
fn addition_count_matches_theory_n4() {
    let f = CanonicalPoly::new((0..16).map(fr).collect());
    let d = LagrangeDecomp::build(&f);
    assert!(d.addition_count_is_correct());
    assert_eq!(d.addition_count, 32);
}

#[test]
fn addition_count_matches_theory_n1() {
    let f = CanonicalPoly::new(vec![fr(3), fr(7)]);
    let d = LagrangeDecomp::build(&f);
    assert!(d.addition_count_is_correct());
    assert_eq!(d.addition_count, 1);
}

#[test]
fn leaves_are_correct_evaluations_n2() {
    let f = CanonicalPoly::new(vec![fr(1), fr(2), fr(3), fr(4)]);
    let d = LagrangeDecomp::build(&f);
    let leaves = d.leaves();
    assert_eq!(leaves[0].coeffs()[0], fr(1));
    assert_eq!(leaves[1].coeffs()[0], fr(4));
    assert_eq!(leaves[2].coeffs()[0], fr(3));
    assert_eq!(leaves[3].coeffs()[0], fr(10));
}

#[test]
fn to_lagrange_correct_n2() {
    let f = CanonicalPoly::new(vec![fr(1), fr(2), fr(3), fr(4)]);
    let d = LagrangeDecomp::build(&f);
    let lag = d.to_lagrange();
    assert_eq!(lag.evals(), &[fr(1), fr(3), fr(4), fr(10)]);
}

#[test]
fn to_lagrange_hypercube_sum_matches_canonical_n3() {
    let coeffs: Vec<Fr> = (1..=8).map(fr).collect();
    let f = CanonicalPoly::new(coeffs);
    let d = LagrangeDecomp::build(&f);
    let lag = d.to_lagrange();
    assert_eq!(f.hypercube_sum(), lag.hypercube_sum());
}

#[test]
fn to_lagrange_evals_match_canonical_eval_circuit_n3() {
    let coeffs: Vec<Fr> = (1..=8).map(fr).collect();
    let f = CanonicalPoly::new(coeffs);
    let d = LagrangeDecomp::build(&f);
    let lag = d.to_lagrange();

    for b in 0..8usize {
        let point: Vec<Fr> = (0..3).map(|k| Fr::from_u64(((b >> k) & 1) as u64)).collect();
        assert_eq!(lag.evals()[b], f.eval_circuit(&point), "mismatch at b={b}");
    }
}

#[test]
fn to_lagrange_n1() {
    let f = CanonicalPoly::new(vec![fr(3), fr(7)]);
    let d = LagrangeDecomp::build(&f);
    let lag = d.to_lagrange();
    assert_eq!(lag.evals(), &[fr(3), fr(10)]);
}

#[test]
fn to_lagrange_of_a_constant_is_constant() {
    let f = CanonicalPoly::new(vec![fr(9)]);
    let d = LagrangeDecomp::build(&f);
    assert_eq!(d.n, 0);
    assert_eq!(d.addition_count, 0);
    assert_eq!(d.to_lagrange().evals(), &[fr(9)]);
}

#[test]
fn tampered_addition_count_is_not_correct() {
    let f = CanonicalPoly::new((0..8).map(fr).collect());
    let mut d = LagrangeDecomp::build(&f);
    d.addition_count += 1;
    assert!(!d.addition_count_is_correct());
}
