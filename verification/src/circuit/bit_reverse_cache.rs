//! Bit-reversal tables for the sizes that the benchmarks and the
//! decomposition use most (`n = 10, 15, 20`), and a single entry point that
//! hands out the table for any size.

use vstd::prelude::*;
use vstd::arithmetic::power2::pow2;
use super::canonical::{build_bit_reverse_table, is_bit_reverse_table, lemma_rev_bits_involution, rev_bits};

verus! {

/// The sizes for which a dedicated table is provided.
pub open spec fn is_cached_size(n: nat) -> bool {
    n == 10 || n == 15 || n == 20
}

/// The 10-bit reversal table.
pub fn bit_rev_n10() -> (t: Vec<usize>)
    ensures
        is_bit_reverse_table(t@, 10),
{
    build_bit_reverse_table(10)
}

/// The 15-bit reversal table.
pub fn bit_rev_n15() -> (t: Vec<usize>)
    ensures
        is_bit_reverse_table(t@, 15),
{
    build_bit_reverse_table(15)
}

/// The 20-bit reversal table.
pub fn bit_rev_n20() -> (t: Vec<usize>)
    ensures
        is_bit_reverse_table(t@, 20),
{
    build_bit_reverse_table(20)
}

/// The dedicated table for `n`, where there is one.
pub fn get_bit_rev_table(n: usize) -> (t: Option<Vec<usize>>)
    ensures
        t is Some <==> is_cached_size(n as nat),
        t matches Some(t) ==> is_bit_reverse_table(t@, n as nat),
{
    match n {
        10 => Some(bit_rev_n10()),
        15 => Some(bit_rev_n15()),
        20 => Some(bit_rev_n20()),
        _ => None,
    }
}

/// The `n`-bit reversal table: the dedicated one where there is one, else
/// one built for the call.
pub fn get_or_build(n: usize) -> (t: Vec<usize>)
    requires
        n < usize::BITS,
    ensures
        is_bit_reverse_table(t@, n as nat),
{
    match get_bit_rev_table(n) {
        Some(t) => t,
        None => build_bit_reverse_table(n),
    }
}

/// A bit-reversal table is its own inverse: `t[t[k]] == k`.
pub proof fn lemma_bit_reverse_table_involution(t: Seq<usize>, n: nat)
    requires
        is_bit_reverse_table(t, n),
    ensures
        forall|k: int| 0 <= k < t.len() ==> 0 <= #[trigger] t[k] < t.len() && t[t[k] as int] == k,
{
    assert forall|k: int| 0 <= k < t.len() implies 0 <= #[trigger] t[k] < t.len() && t[t[k] as int] == k by {
        super::canonical::lemma_rev_bits_bound(k as nat, n);
        lemma_rev_bits_involution(k as nat, n);
        assert(t[t[k] as int] as nat == rev_bits(t[k] as nat, n));
    }
}

} // verus!
