use ark_ff::PrimeField;
use multilinear_sumcheck::field::Fr;
use multilinear_sumcheck::poly::uni::{field_pow, power_table};
use multilinear_sumcheck::poly::{UniPoly, UniTerm};

fn fr(n: u64) -> Fr {
    Fr::from_u64(n)
}

fn to_ark(x: Fr) -> ark_bn254::Fr {
    ark_bn254::Fr::from_bigint(ark_ff::BigInt::new(x.to_limbs())).unwrap()
}

fn from_ark(x: ark_bn254::Fr) -> Fr {
    Fr::from_canonical_limbs(x.into_bigint().0).unwrap()
}

fn fmul(a: Fr, b: Fr) -> Fr {
    from_ark(to_ark(a) * to_ark(b))
}

#[test]
fn term_degree_zero_is_constant() {
    let t = UniTerm::new(fr(7), 0);
    assert_eq!(t.eval(fr(5)), fr(7));
    assert_eq!(t.eval(fr(0)), fr(7));
}

#[test]
fn term_eval_degree_one() {
    assert_eq!(UniTerm::new(fr(3), 1).eval(fr(4)), fr(12));
}

#[test]
fn term_eval_degree_two() {
    assert_eq!(UniTerm::new(fr(5), 2).eval(fr(3)), fr(45));
}

#[test]
fn term_eval_at_zero() {
    assert_eq!(UniTerm::new(fr(99), 3).eval(fr(0)), fr(0));
}

#[test]
fn term_eval_at_one() {
    assert_eq!(UniTerm::new(fr(42), 7).eval(fr(1)), fr(42));
}

#[test]
fn uni_term_zero_detection() {
    assert!(UniTerm::new(Fr::zero(), 5).is_zero());
    assert!(!UniTerm::new(fr(1), 5).is_zero());
}

#[test]
fn term_zero_coeff_evals_to_zero() {
    assert_eq!(UniTerm::new(Fr::zero(), 10).eval(fr(123)), Fr::zero());
}

#[test]
fn term_eval_monomial() {
    assert_eq!(UniTerm::new(fr(1), 3).eval_monomial(fr(2)), fr(8));
}

#[test]
fn new_power_of_two_no_padding() {
    let p = UniPoly::new(vec![fr(1); 8]);
    assert_eq!(p.padded_len(), 8);
    assert_eq!(p.log_len(), 3);
}

#[test]
fn new_pads_to_next_power_of_two() {
    assert_eq!(UniPoly::new(vec![fr(1); 5]).padded_len(), 8);
    assert_eq!(UniPoly::new(vec![fr(1); 6]).padded_len(), 8);
    assert_eq!(UniPoly::new(vec![fr(1); 3]).padded_len(), 4);
}

#[test]
fn new_length_1_stays_1() {
    assert_eq!(UniPoly::new(vec![fr(5)]).padded_len(), 1);
}

#[test]
fn zero_poly_is_zero() {
    assert!(UniPoly::zero(3).is_zero_poly());
}

#[test]
fn padding_zeros_are_transparent_to_coeff() {
    let p = UniPoly::new(vec![fr(1), fr(2), fr(3)]);
    assert_eq!(p.coeff(3), Fr::zero());
    assert_eq!(p.coeff(99), Fr::zero());
}

#[test]
fn degree_constant() {
    let mut c = vec![Fr::zero(); 4];
    c[0] = fr(5);
    assert_eq!(UniPoly::new(c).degree(), 0);
}

#[test]
fn degree_last_nonzero_before_padding() {
    assert_eq!(UniPoly::new(vec![fr(1), fr(0), fr(3)]).degree(), 2);
}

#[test]
fn degree_zero_poly() {
    assert_eq!(UniPoly::zero(3).degree(), 0);
}

#[test]
fn terms_excludes_padding_zeros() {
    let p = UniPoly::new(vec![fr(2), fr(0), fr(5)]);
    let t: Vec<_> = p.terms();
    assert_eq!(t.len(), 2);
    assert_eq!(t[0], UniTerm::new(fr(2), 0));
    assert_eq!(t[1], UniTerm::new(fr(5), 2));
}

#[test]
fn all_terms_includes_padding() {
    assert_eq!(UniPoly::new(vec![fr(1), fr(2), fr(3)]).all_terms().len(), 4);
}

#[test]
fn eval_naive_at_zero_returns_constant() {
    assert_eq!(UniPoly::new(vec![fr(1), fr(2), fr(3), fr(4)]).eval_naive(fr(0)), fr(1));
}

#[test]
fn eval_naive_at_one_returns_sum() {
    assert_eq!(UniPoly::new(vec![fr(1), fr(2), fr(3), fr(4)]).eval_naive(fr(1)), fr(10));
}

#[test]
fn eval_naive_linear() {
    assert_eq!(UniPoly::new(vec![fr(3), fr(5)]).eval_naive(fr(2)), fr(13));
}

#[test]
fn eval_horner_at_zero() {
    assert_eq!(UniPoly::new(vec![fr(1), fr(2), fr(3), fr(4)]).eval_horner(fr(0)), fr(1));
}

#[test]
fn eval_horner_at_one() {
    assert_eq!(UniPoly::new(vec![fr(1), fr(2), fr(3), fr(4)]).eval_horner(fr(1)), fr(10));
}

#[test]
fn eval_horner_linear() {
    assert_eq!(UniPoly::new(vec![fr(3), fr(5)]).eval_horner(fr(2)), fr(13));
}

#[test]
fn power_table_n3() {
    let pt = power_table(fr(2), 3);
    assert_eq!(pt.len(), 3);
    assert_eq!(pt[0], fr(2));
    assert_eq!(pt[1], fr(4));
    assert_eq!(pt[2], fr(16));
}

#[test]
fn power_table_n0_is_empty() {
    assert!(power_table(fr(5), 0).is_empty());
}

#[test]
fn power_table_each_entry_is_square_of_previous() {
    let pt = power_table(fr(3), 5);
    for k in 1..5 {
        assert_eq!(pt[k], fmul(pt[k - 1], pt[k - 1]));
    }
}

#[test]
fn eval_estrin_at_zero() {
    assert_eq!(UniPoly::new(vec![fr(1), fr(2), fr(3), fr(4)]).eval_estrin(fr(0)), fr(1));
}

#[test]
fn eval_estrin_at_one() {
    assert_eq!(UniPoly::new(vec![fr(1), fr(2), fr(3), fr(4)]).eval_estrin(fr(1)), fr(10));
}

#[test]
fn eval_estrin_linear() {
    assert_eq!(UniPoly::new(vec![fr(3), fr(5)]).eval_estrin(fr(2)), fr(13));
}

#[test]
fn eval_circuit_at_zero() {
    assert_eq!(UniPoly::new(vec![fr(1), fr(2), fr(3), fr(4)]).eval_circuit(fr(0)), fr(1));
}

#[test]
fn eval_circuit_at_one() {
    assert_eq!(UniPoly::new(vec![fr(1), fr(2), fr(3), fr(4)]).eval_circuit(fr(1)), fr(10));
}

#[test]
fn eval_circuit_linear() {
    assert_eq!(UniPoly::new(vec![fr(3), fr(5)]).eval_circuit(fr(2)), fr(13));
}

#[test]
fn eval_circuit_parallel_at_zero() {
    assert_eq!(UniPoly::new(vec![fr(1), fr(2), fr(3), fr(4)]).eval_circuit_parallel(fr(0)), fr(1));
}

#[test]
fn eval_circuit_parallel_at_one() {
    assert_eq!(UniPoly::new(vec![fr(1), fr(2), fr(3), fr(4)]).eval_circuit_parallel(fr(1)), fr(10));
}

#[test]
fn all_methods_agree_n3() {
    let coeffs: Vec<Fr> = (1..=8).map(fr).collect();
    let p = UniPoly::new(coeffs);
    for r in [fr(0), fr(1), fr(2), fr(7), fr(100)] {
        let naive = p.eval_naive(r);
        let horner = p.eval_horner(r);
        let estrin = p.eval_estrin(r);
        let circuit = p.eval_circuit(r);
        let parallel = p.eval_circuit_parallel(r);
        assert_eq!(naive, horner, "naive vs horner   at r={r:?}");
        assert_eq!(naive, estrin, "naive vs estrin   at r={r:?}");
        assert_eq!(naive, circuit, "naive vs circuit  at r={r:?}");
        assert_eq!(naive, parallel, "naive vs parallel at r={r:?}");
    }
}

#[test]
fn all_methods_agree_n4() {
    let coeffs: Vec<Fr> = (0..16).map(|i| fr(i as u64 * 3 + 1)).collect();
    let p = UniPoly::new(coeffs);
    for r in [fr(1), fr(3), fr(11), fr(255)] {
        let naive = p.eval_naive(r);
        let circuit = p.eval_circuit(r);
        let estrin = p.eval_estrin(r);
        let par = p.eval_circuit_parallel(r);
        assert_eq!(naive, circuit, "circuit  at r={r:?}");
        assert_eq!(naive, estrin, "estrin   at r={r:?}");
        assert_eq!(naive, par, "parallel at r={r:?}");
    }
}

#[test]
fn all_methods_agree_non_power_of_two_input() {
    let coeffs: Vec<Fr> = (1..=5).map(fr).collect();
    let p = UniPoly::new(coeffs);
    for r in [fr(0), fr(1), fr(3), fr(11)] {
        let naive = p.eval_naive(r);
        let horner = p.eval_horner(r);
        let circuit = p.eval_circuit(r);
        assert_eq!(naive, horner, "at r={r:?}");
        assert_eq!(naive, circuit, "at r={r:?}");
    }
}

#[test]
fn padding_does_not_change_eval_circuit() {
    let p_short = UniPoly::new(vec![fr(1), fr(2), fr(3)]);
    let p_padded = UniPoly::new(vec![fr(1), fr(2), fr(3), fr(0)]);
    for r in [fr(0), fr(1), fr(2), fr(7)] {
        assert_eq!(p_short.eval_circuit(r), p_padded.eval_circuit(r));
    }
}

#[test]
fn decompose_node_count() {
    let d = UniPoly::new((0..8).map(fr).collect()).decompose();
    assert_eq!(d.nodes.len(), 15);
}

#[test]
fn decompose_root_equals_input() {
    let coeffs: Vec<Fr> = (1..=8).map(fr).collect();
    let p = UniPoly::new(coeffs.clone());
    assert_eq!(p.decompose().root(), coeffs.as_slice());
}

#[test]
fn decompose_layer_sizes() {
    let d = UniPoly::new((0..8).map(fr).collect()).decompose();
    assert_eq!(d.layer(0).len(), 1);
    assert_eq!(d.layer(1).len(), 2);
    assert_eq!(d.layer(2).len(), 4);
    assert_eq!(d.layer(3).len(), 8);
}

#[test]
fn decompose_total_field_elements() {
    let d = UniPoly::new((0..8).map(fr).collect()).decompose();
    assert_eq!(d.total_field_elements(), (d.n + 1) * d.big_n);
}

#[test]
fn decompose_first_layer_paper_example_n3() {
    let p = UniPoly::new(vec![fr(1), fr(2), fr(3), fr(4), fr(5), fr(6), fr(7), fr(8)]);
    let d = p.decompose();
    assert_eq!(d.q(2), &[fr(1), fr(3), fr(5), fr(7)]);
    assert_eq!(d.q(3), &[fr(2), fr(4), fr(6), fr(8)]);
}

#[test]
fn decompose_second_layer_paper_example_n3() {
    let p = UniPoly::new(vec![fr(1), fr(2), fr(3), fr(4), fr(5), fr(6), fr(7), fr(8)]);
    let d = p.decompose();
    assert_eq!(d.q(4), &[fr(1), fr(5)]);
    assert_eq!(d.q(5), &[fr(3), fr(7)]);
    assert_eq!(d.q(6), &[fr(2), fr(6)]);
    assert_eq!(d.q(7), &[fr(4), fr(8)]);
}

#[test]
fn decompose_leaves_paper_example_n3() {
    let p = UniPoly::new(vec![fr(1), fr(2), fr(3), fr(4), fr(5), fr(6), fr(7), fr(8)]);
    let d = p.decompose();
    assert_eq!(d.q(8), &[fr(1)]);
    assert_eq!(d.q(9), &[fr(5)]);
    assert_eq!(d.q(10), &[fr(3)]);
    assert_eq!(d.q(11), &[fr(7)]);
    assert_eq!(d.q(12), &[fr(2)]);
    assert_eq!(d.q(13), &[fr(6)]);
    assert_eq!(d.q(14), &[fr(4)]);
    assert_eq!(d.q(15), &[fr(8)]);
}

#[test]
fn decompose_gate_relation_holds_n3() {
    let p = UniPoly::new((1..=8).map(fr).collect());
    let d = p.decompose();
    for j in 1..d.big_n {
        let qj = d.q(j);
        let left = d.q(2 * j);
        let right = d.q(2 * j + 1);
        for r in 0..qj.len() / 2 {
            assert_eq!(qj[2 * r], left[r], "j={j} left  r={r}");
            assert_eq!(qj[2 * r + 1], right[r], "j={j} right r={r}");
        }
    }
}

#[test]
fn decompose_padded_input() {
    let p = UniPoly::new(vec![fr(1), fr(2), fr(3)]);
    let d = p.decompose();
    assert_eq!(d.q(2), &[fr(1), fr(3)]);
    assert_eq!(d.q(3), &[fr(2), fr(0)]);
}

#[test]
fn field_pow_by_square_and_multiply() {
    assert_eq!(field_pow(fr(3), 0), fr(1));
    assert_eq!(field_pow(fr(3), 5), fr(243));
    assert_eq!(field_pow(fr(2), 10), fr(1024));
    assert_eq!(field_pow(fr(0), 0), fr(1));
}

#[test]
fn all_methods_give_the_value_of_a_cubic() {
    // f = 2 + 3X + 5X³ at X = 4: 2 + 12 + 320 = 334.
    let p = UniPoly::new(vec![fr(2), fr(3), fr(0), fr(5)]);
    assert_eq!(p.eval_naive(fr(4)), fr(334));
    assert_eq!(p.eval_horner(fr(4)), fr(334));
    assert_eq!(p.eval_estrin(fr(4)), fr(334));
    assert_eq!(p.eval_circuit(fr(4)), fr(334));
    assert_eq!(p.eval_circuit_parallel(fr(4)), fr(334));
}

#[test]
fn padded_input_keeps_its_value() {
    // f = 1 + 2X + 3X² + 4X³ + 5X⁴ padded to 8 coefficients, at X = 2:
    // 1 + 4 + 12 + 32 + 80 = 129.
    let p = UniPoly::new((1..=5).map(fr).collect());
    assert_eq!(p.padded_len(), 8);
    assert_eq!(p.degree(), 4);
    assert_eq!(p.eval_circuit(fr(2)), fr(129));
    assert_eq!(p.eval_estrin(fr(2)), fr(129));
}

#[test]
fn appending_a_zero_coefficient_keeps_every_value() {
    let v: Vec<Fr> = vec![fr(4), fr(0), fr(6), fr(1), fr(2)];
    let mut w = v.clone();
    w.push(Fr::zero());
    let p = UniPoly::new(v);
    let q = UniPoly::new(w);
    for r in [fr(0), fr(1), fr(3), fr(1000)] {
        assert_eq!(p.eval_naive(r), q.eval_naive(r));
        assert_eq!(p.eval_circuit(r), q.eval_horner(r));
    }
}
