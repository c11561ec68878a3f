# multilinear_sumcheck

Basis-aware multilinear polynomial algorithms and the Sumcheck protocol over
the BN254 scalar field, verified with Verus.

A multilinear polynomial in `n` variables is held either by its `2^n`
coefficients in the monomial basis (`CanonicalPoly`) or by its values on the
Boolean hypercube (`LagrangePoly`). The library evaluates both, decomposes
them into even/odd trees and Boolean sum circuits, converts coefficients to
hypercube values, runs a Sumcheck prover for each basis and checks
transcripts with a stateless verifier. Dense univariate polynomials
(`UniPoly`) are evaluated by the naive, Horner, Estrin and circuit methods.

Every function states its result over an integer model (`src/algebra.rs`):
sequences of integers, reduced modulo `p` where field arithmetic is involved.
The main theorems proved there and in `src/sumcheck/` are

- completeness: the honest transcript of either prover is accepted against
  the value `f(r_1, …, r_n)` (`sumcheck::verify::lemma_completeness`);
- the round polynomial: `s_j(0)` and `s_j(1)` are the sums of `f` over the
  Boolean points that start with `r_1, …, r_{j-1}` and then `0` or `1`
  (`sumcheck::prover::lemma_round_message_is_boolean_sum`);
- cross-basis agreement: on a polynomial and its hypercube table, the two
  provers send the same messages and claim the same sum, and the two
  evaluations agree (`sumcheck::prover::lemma_cross_basis_*`);
- a univariate polynomial of `2^n` coefficients at `r` is the multilinear
  polynomial with the same coefficients at `(r, r², r⁴, …)`
  (`algebra::lemma_uni_estrin`, `algebra::lemma_uni_circuit`).

Layout:

- `src/field.rs` — field elements; `+`, `-`, `·` are computed by `ark-bn254`.
- `src/algebra.rs`, `src/residues.rs` — the integer model and its lemmas.
- `src/poly/` — canonical, Lagrange and univariate polynomials.
- `src/circuit/` — bit reversal, decomposition trees and sum circuits.
- `src/sumcheck/` — transcripts, provers and the verifier.
- `app/` — printable copies of the transcript and error types over
  `ark_bn254::Fr`, and process-wide caches of the bit-reversal tables.
- `tests/` — unit and end-to-end tests.
