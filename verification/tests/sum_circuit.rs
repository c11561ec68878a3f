use multilinear_sumcheck::circuit::bit_reverse_cache::get_or_build;
use multilinear_sumcheck::circuit::{CanonicalSumCircuit, LagrangeDecomp, LagrangeSumCircuit, SumCircuit};
use multilinear_sumcheck::field::Fr;
use multilinear_sumcheck::poly::{CanonicalPoly, LagrangePoly, MlPoly};

fn fr(n: u64) -> Fr {
    Fr::from_u64(n)
}

#[test]
fn canonical_paper_example_n3() {
    let leaves = vec![fr(1), fr(4), fr(3), fr(7), fr(2), fr(6), fr(5), fr(8)];
    let sc = CanonicalSumCircuit::from_leaves(&leaves);
    assert_eq!(sc.root(), fr(88));
    assert_eq!(sc.h(2), fr(25));
    assert_eq!(sc.h(3), fr(38));
    assert_eq!(sc.h(4), fr(6));
    assert_eq!(sc.h(5), fr(13));
    assert_eq!(sc.h(6), fr(10));
    assert_eq!(sc.h(7), fr(18));
}

#[test]
fn canonical_recurrence_holds_paper_example() {
    let leaves = vec![fr(1), fr(4), fr(3), fr(7), fr(2), fr(6), fr(5), fr(8)];
    let sc = CanonicalSumCircuit::from_leaves(&leaves);
    assert!(sc.verify_recurrence());
}

#[test]
fn canonical_root_equals_hypercube_sum_n2() {
    let f = CanonicalPoly::new(vec![fr(1), fr(2), fr(3), fr(4)]);
    let sc = CanonicalSumCircuit::build(&f);
    assert_eq!(sc.root(), f.hypercube_sum());
}

#[test]
fn canonical_root_equals_hypercube_sum_n3() {
    let coeffs: Vec<Fr> = (1..=8).map(fr).collect();
    let f = CanonicalPoly::new(coeffs);
    let sc = CanonicalSumCircuit::build(&f);
    assert_eq!(sc.root(), f.hypercube_sum());
}

#[test]
fn canonical_root_equals_hypercube_sum_n4() {
    let coeffs: Vec<Fr> = (0..16).map(|i| fr(i as u64 * 3 + 1)).collect();
    let f = CanonicalPoly::new(coeffs);
    let sc = CanonicalSumCircuit::build(&f);
    assert_eq!(sc.root(), f.hypercube_sum());
}

#[test]
fn canonical_node_count() {
    let f = CanonicalPoly::new((0..8).map(fr).collect());
    let sc = CanonicalSumCircuit::build(&f);
    assert_eq!(sc.data().len(), 15);
}

#[test]
fn canonical_layer_sizes() {
    let f = CanonicalPoly::new((0..8).map(fr).collect());
    let sc = CanonicalSumCircuit::build(&f);
    assert_eq!(sc.layer(0).len(), 1);
    assert_eq!(sc.layer(1).len(), 2);
    assert_eq!(sc.layer(2).len(), 4);
    assert_eq!(sc.layer(3).len(), 8);
}

#[test]
fn canonical_leaves_slice_length() {
    let f = CanonicalPoly::new((0..8).map(fr).collect());
    let sc = CanonicalSumCircuit::build(&f);
    assert_eq!(sc.leaves().len(), 8);
}

#[test]
fn canonical_recurrence_holds_n4() {
    let coeffs: Vec<Fr> = (0..16).map(|i| fr(i as u64 + 1)).collect();
    let f = CanonicalPoly::new(coeffs);
    let sc = CanonicalSumCircuit::build(&f);
    assert!(sc.verify_recurrence());
}

#[test]
fn canonical_n1_edge_case() {
    let f = CanonicalPoly::new(vec![fr(3), fr(7)]);
    let sc = CanonicalSumCircuit::build(&f);
    assert_eq!(sc.root(), fr(13));
    assert_eq!(sc.root(), f.hypercube_sum());
}

#[test]
fn lagrange_root_equals_hypercube_sum_n2() {
    let f = LagrangePoly::new(vec![fr(1), fr(3), fr(4), fr(10)]);
    let sc = LagrangeSumCircuit::build(&f);
    assert_eq!(sc.root(), f.hypercube_sum());
}

#[test]
fn lagrange_root_equals_hypercube_sum_n3() {
    let evals: Vec<Fr> = (1..=8).map(fr).collect();
    let f = LagrangePoly::new(evals);
    let sc = LagrangeSumCircuit::build(&f);
    assert_eq!(sc.root(), f.hypercube_sum());
}

#[test]
fn lagrange_root_equals_hypercube_sum_n4() {
    let evals: Vec<Fr> = (0..16).map(|i| fr(i as u64 * 2 + 3)).collect();
    let f = LagrangePoly::new(evals);
    let sc = LagrangeSumCircuit::build(&f);
    assert_eq!(sc.root(), f.hypercube_sum());
}

#[test]
fn lagrange_recurrence_holds_n3() {
    let evals: Vec<Fr> = (1..=8).map(fr).collect();
    let f = LagrangePoly::new(evals);
    let sc = LagrangeSumCircuit::build(&f);
    assert!(sc.verify_recurrence());
}

#[test]
fn lagrange_layer_sizes() {
    let f = LagrangePoly::new((0..8).map(fr).collect());
    let sc = LagrangeSumCircuit::build(&f);
    assert_eq!(sc.layer(0).len(), 1);
    assert_eq!(sc.layer(1).len(), 2);
    assert_eq!(sc.layer(2).len(), 4);
    assert_eq!(sc.layer(3).len(), 8);
}

#[test]
fn lagrange_n1_edge_case() {
    let f = LagrangePoly::new(vec![fr(5), fr(9)]);
    let sc = LagrangeSumCircuit::build(&f);
    assert_eq!(sc.root(), fr(14));
}

#[test]
fn canonical_and_lagrange_agree_on_root_n3() {
    let coeffs: Vec<Fr> = (1..=8).map(fr).collect();
    let canon = CanonicalPoly::new(coeffs);
    let lag = LagrangeDecomp::build(&canon).to_lagrange();
    let sc_canon = CanonicalSumCircuit::build(&canon);
    let sc_lag = LagrangeSumCircuit::build(&lag);
    assert_eq!(sc_canon.root(), sc_lag.root());
    assert_eq!(sc_canon.root(), canon.hypercube_sum());
}

#[test]
fn canonical_and_lagrange_agree_on_root_n4() {
    let coeffs: Vec<Fr> = (0..16).map(|i| fr(i as u64 * 3 + 1)).collect();
    let canon = CanonicalPoly::new(coeffs);
    let lag = LagrangeDecomp::build(&canon).to_lagrange();
    let sc_canon = CanonicalSumCircuit::build(&canon);
    let sc_lag = LagrangeSumCircuit::build(&lag);
    assert_eq!(sc_canon.root(), sc_lag.root());
}

#[test]
fn canonical_from_leaves_matches_build() {
    let coeffs: Vec<Fr> = (1..=8).map(fr).collect();
    let f = CanonicalPoly::new(coeffs);
    let table = get_or_build(3);
    let manual_leaves: Vec<Fr> = (0..8).map(|k| f.coeffs()[table[k]]).collect();
    let sc_build = CanonicalSumCircuit::build(&f);
    let sc_from_leaves = CanonicalSumCircuit::from_leaves(&manual_leaves);
    assert_eq!(sc_build.data(), sc_from_leaves.data());
}

#[test]
fn lagrange_from_leaves_matches_build() {
    let evals: Vec<Fr> = (1..=8).map(fr).collect();
    let f = LagrangePoly::new(evals);
    let table = get_or_build(3);
    let manual_leaves: Vec<Fr> = (0..8).map(|k| f.evals()[table[k]]).collect();
    let sc_build = LagrangeSumCircuit::build(&f);
    let sc_from_leaves = LagrangeSumCircuit::from_leaves(&manual_leaves);
    assert_eq!(sc_build.data(), sc_from_leaves.data());
}

#[test]
fn sum_circuit_n_is_two_to_the_n() {
    let f = CanonicalPoly::new((0..16).map(fr).collect());
    let sc = CanonicalSumCircuit::build(&f);
    assert_eq!(sc.num_vars(), 4);
    assert_eq!(sc.n(), 16);
}

#[test]
fn constant_circuit_is_its_single_leaf() {
    let f = LagrangePoly::new(vec![fr(42)]);
    let sc = LagrangeSumCircuit::build(&f);
    assert_eq!(sc.num_vars(), 0);
    assert_eq!(sc.root(), fr(42));
    assert!(sc.verify_recurrence());
}
