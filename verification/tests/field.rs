use ark_ff::PrimeField;
use multilinear_sumcheck::field::{usize_decimal, Fr};

fn to_ark(x: Fr) -> ark_bn254::Fr {
    ark_bn254::Fr::from_bigint(ark_ff::BigInt::new(x.to_limbs())).unwrap()
}

#[test]
fn limbs_of_small_values() {
    assert_eq!(Fr::from_u64(7).to_limbs(), [7, 0, 0, 0]);
    assert_eq!(Fr::zero().to_limbs(), [0, 0, 0, 0]);
    assert_eq!(Fr::one().to_limbs(), [1, 0, 0, 0]);
}

#[test]
fn canonical_limbs_below_the_modulus_only() {
    let p = ark_bn254::Fr::MODULUS.0;
    assert!(Fr::from_canonical_limbs(p).is_none());
    let mut p_minus_one = p;
    p_minus_one[0] -= 1;
    let x = Fr::from_canonical_limbs(p_minus_one).unwrap();
    assert_eq!(x.to_limbs(), p_minus_one);
    assert_eq!(to_ark(x), -ark_bn254::Fr::from(1u64));
    assert!(Fr::from_canonical_limbs([u64::MAX; 4]).is_none());
}

#[test]
fn zero_test_and_equality() {
    assert!(Fr::zero().is_zero());
    assert!(!Fr::one().is_zero());
    assert!(Fr::from_u64(5).equals(&Fr::from_u64(5)));
    assert!(!Fr::from_u64(5).equals(&Fr::from_u64(6)));
    assert_eq!(Fr::from_u64(5), Fr::from_u64(5));
    assert_ne!(Fr::from_u64(5), Fr::from_u64(6));
}

#[test]
fn words_in_decimal() {
    assert_eq!(usize_decimal(0), "0");
    assert_eq!(usize_decimal(7), "7");
    assert_eq!(usize_decimal(10), "10");
    assert_eq!(usize_decimal(1234567), "1234567");
    assert_eq!(usize_decimal(usize::MAX), usize::MAX.to_string());
}
