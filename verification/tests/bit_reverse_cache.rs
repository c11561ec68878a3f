use multilinear_sumcheck::circuit::bit_reverse_cache::{
    bit_rev_n10, bit_rev_n15, bit_rev_n20, get_bit_rev_table, get_or_build,
};
use multilinear_sumcheck::circuit::build_bit_reverse_table;

#[test]
fn table_lengths_are_correct() {
    assert_eq!(bit_rev_n10().len(), 1 << 10);
    assert_eq!(bit_rev_n15().len(), 1 << 15);
    assert_eq!(bit_rev_n20().len(), 1 << 20);
}

#[test]
fn n10_matches_runtime() {
    assert_eq!(bit_rev_n10().as_slice(), build_bit_reverse_table(10).as_slice());
}

#[test]
fn n15_matches_runtime() {
    assert_eq!(bit_rev_n15().as_slice(), build_bit_reverse_table(15).as_slice());
}

#[test]
fn n20_matches_runtime() {
    assert_eq!(bit_rev_n20().as_slice(), build_bit_reverse_table(20).as_slice());
}

#[test]
fn n10_is_involution() {
    let t = bit_rev_n10();
    for k in 0..(1 << 10) {
        assert_eq!(t[t[k]], k);
    }
}

#[test]
fn n15_is_involution() {
    let t = bit_rev_n15();
    for k in 0..(1 << 15) {
        assert_eq!(t[t[k]], k);
    }
}

#[test]
fn n20_is_involution() {
    let t = bit_rev_n20();
    for k in 0..(1 << 20) {
        assert_eq!(t[t[k]], k);
    }
}

#[test]
fn zero_maps_to_zero() {
    assert_eq!(bit_rev_n10()[0], 0);
    assert_eq!(bit_rev_n15()[0], 0);
    assert_eq!(bit_rev_n20()[0], 0);
}

#[test]
fn all_ones_maps_to_itself() {
    assert_eq!(bit_rev_n10()[(1 << 10) - 1], (1 << 10) - 1);
    assert_eq!(bit_rev_n15()[(1 << 15) - 1], (1 << 15) - 1);
    assert_eq!(bit_rev_n20()[(1 << 20) - 1], (1 << 20) - 1);
}

#[test]
fn get_returns_some_for_cached_sizes() {
    assert!(get_bit_rev_table(10).is_some());
    assert!(get_bit_rev_table(15).is_some());
    assert!(get_bit_rev_table(20).is_some());
}

#[test]
fn get_returns_none_for_uncached_sizes() {
    assert!(get_bit_rev_table(0).is_none());
    assert!(get_bit_rev_table(8).is_none());
    assert!(get_bit_rev_table(16).is_none());
    assert!(get_bit_rev_table(21).is_none());
}

#[test]
fn get_or_build_uncached_matches_runtime() {
    let t = get_or_build(8);
    assert_eq!(t.as_slice(), build_bit_reverse_table(8).as_slice());
}

#[test]
fn get_or_build_cached_matches_dedicated_tables() {
    assert_eq!(get_or_build(10), bit_rev_n10());
    assert_eq!(get_or_build(15), bit_rev_n15());
    assert_eq!(get_bit_rev_table(20).unwrap(), bit_rev_n20());
}
